use vstd::prelude::*;

verus! {

/// Marker for the integer types that `StorageInt` is implemented for.
pub trait Sealed {}

/// Unsigned integer types used as blocks of bits.
///
/// Bit `t` of a block, for `t` below the width, is `(b >> t) & 1 == 1`.
pub trait StorageInt: Sealed + Copy + Sized {
    /// Number of bits in a block.
    spec fn spec_width() -> nat;

    /// Bit `t` of the block; no bit is set at or beyond the width.
    spec fn spec_bit(self, t: int) -> bool;

    /// The width is positive.
    proof fn lemma_width()
        ensures
            8 <= Self::spec_width() <= 64,
    ;

    /// Only bits below the width can be set.
    proof fn lemma_bit_range(self, t: int)
        ensures
            self.spec_bit(t) ==> 0 <= t < Self::spec_width(),
    ;

    /// Number of bits in a block.
    fn width() -> (r: usize)
        ensures
            r == Self::spec_width(),
    ;

    /// The block with no bit set.
    fn zero() -> (r: Self)
        ensures
            forall|t: int| !#[trigger] r.spec_bit(t),
    ;

    /// Bit `t` of the block.
    fn bit(self, t: usize) -> (r: bool)
        requires
            t < Self::spec_width(),
        ensures
            r == self.spec_bit(t as int),
    ;

    /// The block with bit `t` set as well.
    fn with_bit(self, t: usize) -> (r: Self)
        requires
            t < Self::spec_width(),
        ensures
            forall|u: int| #[trigger] r.spec_bit(u) == (u == t || self.spec_bit(u)),
    ;

    /// The block with bit `t` cleared.
    fn without_bit(self, t: usize) -> (r: Self)
        requires
            t < Self::spec_width(),
        ensures
            forall|u: int| #[trigger] r.spec_bit(u) == (u != t && self.spec_bit(u)),
    ;

    /// Return `true` if no bit is set.
    fn is_zero(self) -> (r: bool)
        ensures
            r == (forall|u: int| !#[trigger] self.spec_bit(u)),
    ;

    /// Return `true` if every bit set here is set in `other`.
    fn bits_within(self, other: Self) -> (r: bool)
        ensures
            r == (forall|u: int| #[trigger] self.spec_bit(u) ==> other.spec_bit(u)),
    ;
}

proof fn lemma_u8_zero(t: u8)
    requires
        t < 8,
    ensures
        (0u8 >> t) & 1u8 != 1u8,
{
    assert((0u8 >> t) & 1u8 != 1u8) by (bit_vector)
        requires
            t < 8,
    ;
}

proof fn lemma_u8_set(b: u8, k: u8, t: u8)
    requires
        k < 8,
        t < 8,
    ensures
        ((b | (1u8 << k)) >> t) & 1u8 == 1u8 <==> (t == k || (b >> t) & 1u8 == 1u8),
{
    assert(((b | (1u8 << k)) >> t) & 1u8 == 1u8 <==> (t == k || (b >> t) & 1u8 == 1u8))
        by (bit_vector)
        requires
            k < 8,
            t < 8,
    ;
}

proof fn lemma_u8_clear(b: u8, k: u8, t: u8)
    requires
        k < 8,
        t < 8,
    ensures
        ((b & !(1u8 << k)) >> t) & 1u8 == 1u8 <==> (t != k && (b >> t) & 1u8 == 1u8),
{
    assert(((b & !(1u8 << k)) >> t) & 1u8 == 1u8 <==> (t != k && (b >> t) & 1u8 == 1u8))
        by (bit_vector)
        requires
            k < 8,
            t < 8,
    ;
}

proof fn lemma_u8_and_not(a: u8, b: u8, t: u8)
    requires
        t < 8,
    ensures
        ((a & !b) >> t) & 1u8 == 1u8 <==> ((a >> t) & 1u8 == 1u8 && (b >> t) & 1u8 != 1u8),
{
    assert(((a & !b) >> t) & 1u8 == 1u8 <==> ((a >> t) & 1u8 == 1u8 && (b >> t) & 1u8 != 1u8))
        by (bit_vector)
        requires
            t < 8,
    ;
}

proof fn lemma_u8_nonzero(x: u8)
    requires
        x != 0,
    ensures
        exists|t: int| #[trigger] x.spec_bit(t),
{
    assert((x >> 0u8) & 1u8 == 1u8 || (x >> 1u8) & 1u8 == 1u8 || (x >> 2u8) & 1u8 == 1u8 || (x >> 3u8) & 1u8 == 1u8 || (x >> 4u8) & 1u8 == 1u8 || (x >> 5u8) & 1u8 == 1u8 || (x >> 6u8) & 1u8 == 1u8 || (x >> 7u8) & 1u8 == 1u8) by (bit_vector)
        requires
            x != 0,
    ;
    if (x >> 0u8) & 1u8 == 1u8 { assert(x.spec_bit(0)); }
    if (x >> 1u8) & 1u8 == 1u8 { assert(x.spec_bit(1)); }
    if (x >> 2u8) & 1u8 == 1u8 { assert(x.spec_bit(2)); }
    if (x >> 3u8) & 1u8 == 1u8 { assert(x.spec_bit(3)); }
    if (x >> 4u8) & 1u8 == 1u8 { assert(x.spec_bit(4)); }
    if (x >> 5u8) & 1u8 == 1u8 { assert(x.spec_bit(5)); }
    if (x >> 6u8) & 1u8 == 1u8 { assert(x.spec_bit(6)); }
    if (x >> 7u8) & 1u8 == 1u8 { assert(x.spec_bit(7)); }
}

impl Sealed for u8 {}

impl StorageInt for u8 {
    open spec fn spec_width() -> nat {
        8
    }

    open spec fn spec_bit(self, t: int) -> bool {
        0 <= t < 8 && (self >> (t as u8)) & 1u8 == 1u8
    }

    proof fn lemma_width() {
    }

    proof fn lemma_bit_range(self, t: int) {
    }

    fn width() -> (r: usize) {
        8
    }

    fn zero() -> (r: Self) {
        assert forall|t: int| !#[trigger] 0u8.spec_bit(t) by {
            if 0 <= t < 8 {
                lemma_u8_zero(t as u8);
            }
        };
        0
    }

    fn bit(self, t: usize) -> (r: bool) {
        (self >> (t as u8)) & 1u8 == 1u8
    }

    fn with_bit(self, t: usize) -> (r: Self) {
        let r = self | (1u8 << (t as u8));
        assert forall|u: int| #[trigger] r.spec_bit(u) == (u == t || self.spec_bit(u)) by {
            if 0 <= u < 8 {
                lemma_u8_set(self, t as u8, u as u8);
            }
        };
        r
    }

    fn without_bit(self, t: usize) -> (r: Self) {
        let r = self & !(1u8 << (t as u8));
        assert forall|u: int| #[trigger] r.spec_bit(u) == (u != t && self.spec_bit(u)) by {
            if 0 <= u < 8 {
                lemma_u8_clear(self, t as u8, u as u8);
            }
        };
        r
    }

    fn is_zero(self) -> (r: bool) {
        if self == 0 {
            assert forall|u: int| !#[trigger] self.spec_bit(u) by {
                if 0 <= u < 8 {
                    lemma_u8_zero(u as u8);
                }
            };
            true
        } else {
            proof {
                lemma_u8_nonzero(self);
            }
            false
        }
    }

    fn bits_within(self, other: Self) -> (r: bool) {
        let d = self & !other;
        if d == 0 {
            assert forall|u: int| #[trigger] self.spec_bit(u) implies other.spec_bit(u) by {
                lemma_u8_and_not(self, other, u as u8);
                lemma_u8_zero(u as u8);
            };
            true
        } else {
            proof {
                lemma_u8_nonzero(d);
                let u = choose|u: int| #[trigger] d.spec_bit(u);
                lemma_u8_and_not(self, other, u as u8);
                assert(self.spec_bit(u) && !other.spec_bit(u));
            }
            false
        }
    }
}

proof fn lemma_u16_zero(t: u16)
    requires
        t < 16,
    ensures
        (0u16 >> t) & 1u16 != 1u16,
{
    assert((0u16 >> t) & 1u16 != 1u16) by (bit_vector)
        requires
            t < 16,
    ;
}

proof fn lemma_u16_set(b: u16, k: u16, t: u16)
    requires
        k < 16,
        t < 16,
    ensures
        ((b | (1u16 << k)) >> t) & 1u16 == 1u16 <==> (t == k || (b >> t) & 1u16 == 1u16),
{
    assert(((b | (1u16 << k)) >> t) & 1u16 == 1u16 <==> (t == k || (b >> t) & 1u16 == 1u16))
        by (bit_vector)
        requires
            k < 16,
            t < 16,
    ;
}

proof fn lemma_u16_clear(b: u16, k: u16, t: u16)
    requires
        k < 16,
        t < 16,
    ensures
        ((b & !(1u16 << k)) >> t) & 1u16 == 1u16 <==> (t != k && (b >> t) & 1u16 == 1u16),
{
    assert(((b & !(1u16 << k)) >> t) & 1u16 == 1u16 <==> (t != k && (b >> t) & 1u16 == 1u16))
        by (bit_vector)
        requires
            k < 16,
            t < 16,
    ;
}

proof fn lemma_u16_and_not(a: u16, b: u16, t: u16)
    requires
        t < 16,
    ensures
        ((a & !b) >> t) & 1u16 == 1u16 <==> ((a >> t) & 1u16 == 1u16 && (b >> t) & 1u16 != 1u16),
{
    assert(((a & !b) >> t) & 1u16 == 1u16 <==> ((a >> t) & 1u16 == 1u16 && (b >> t) & 1u16 != 1u16))
        by (bit_vector)
        requires
            t < 16,
    ;
}

proof fn lemma_u16_nonzero(x: u16)
    requires
        x != 0,
    ensures
        exists|t: int| #[trigger] x.spec_bit(t),
{
    assert((x >> 0u16) & 1u16 == 1u16 || (x >> 1u16) & 1u16 == 1u16 || (x >> 2u16) & 1u16 == 1u16 || (x >> 3u16) & 1u16 == 1u16 || (x >> 4u16) & 1u16 == 1u16 || (x >> 5u16) & 1u16 == 1u16 || (x >> 6u16) & 1u16 == 1u16 || (x >> 7u16) & 1u16 == 1u16 || (x >> 8u16) & 1u16 == 1u16 || (x >> 9u16) & 1u16 == 1u16 || (x >> 10u16) & 1u16 == 1u16 || (x >> 11u16) & 1u16 == 1u16 || (x >> 12u16) & 1u16 == 1u16 || (x >> 13u16) & 1u16 == 1u16 || (x >> 14u16) & 1u16 == 1u16 || (x >> 15u16) & 1u16 == 1u16) by (bit_vector)
        requires
            x != 0,
    ;
    if (x >> 0u16) & 1u16 == 1u16 { assert(x.spec_bit(0)); }
    if (x >> 1u16) & 1u16 == 1u16 { assert(x.spec_bit(1)); }
    if (x >> 2u16) & 1u16 == 1u16 { assert(x.spec_bit(2)); }
    if (x >> 3u16) & 1u16 == 1u16 { assert(x.spec_bit(3)); }
    if (x >> 4u16) & 1u16 == 1u16 { assert(x.spec_bit(4)); }
    if (x >> 5u16) & 1u16 == 1u16 { assert(x.spec_bit(5)); }
    if (x >> 6u16) & 1u16 == 1u16 { assert(x.spec_bit(6)); }
    if (x >> 7u16) & 1u16 == 1u16 { assert(x.spec_bit(7)); }
    if (x >> 8u16) & 1u16 == 1u16 { assert(x.spec_bit(8)); }
    if (x >> 9u16) & 1u16 == 1u16 { assert(x.spec_bit(9)); }
    if (x >> 10u16) & 1u16 == 1u16 { assert(x.spec_bit(10)); }
    if (x >> 11u16) & 1u16 == 1u16 { assert(x.spec_bit(11)); }
    if (x >> 12u16) & 1u16 == 1u16 { assert(x.spec_bit(12)); }
    if (x >> 13u16) & 1u16 == 1u16 { assert(x.spec_bit(13)); }
    if (x >> 14u16) & 1u16 == 1u16 { assert(x.spec_bit(14)); }
    if (x >> 15u16) & 1u16 == 1u16 { assert(x.spec_bit(15)); }
}

impl Sealed for u16 {}

impl StorageInt for u16 {
    open spec fn spec_width() -> nat {
        16
    }

    open spec fn spec_bit(self, t: int) -> bool {
        0 <= t < 16 && (self >> (t as u16)) & 1u16 == 1u16
    }

    proof fn lemma_width() {
    }

    proof fn lemma_bit_range(self, t: int) {
    }

    fn width() -> (r: usize) {
        16
    }

    fn zero() -> (r: Self) {
        assert forall|t: int| !#[trigger] 0u16.spec_bit(t) by {
            if 0 <= t < 16 {
                lemma_u16_zero(t as u16);
            }
        };
        0
    }

    fn bit(self, t: usize) -> (r: bool) {
        (self >> (t as u16)) & 1u16 == 1u16
    }

    fn with_bit(self, t: usize) -> (r: Self) {
        let r = self | (1u16 << (t as u16));
        assert forall|u: int| #[trigger] r.spec_bit(u) == (u == t || self.spec_bit(u)) by {
            if 0 <= u < 16 {
                lemma_u16_set(self, t as u16, u as u16);
            }
        };
        r
    }

    fn without_bit(self, t: usize) -> (r: Self) {
        let r = self & !(1u16 << (t as u16));
        assert forall|u: int| #[trigger] r.spec_bit(u) == (u != t && self.spec_bit(u)) by {
            if 0 <= u < 16 {
                lemma_u16_clear(self, t as u16, u as u16);
            }
        };
        r
    }

    fn is_zero(self) -> (r: bool) {
        if self == 0 {
            assert forall|u: int| !#[trigger] self.spec_bit(u) by {
                if 0 <= u < 16 {
                    lemma_u16_zero(u as u16);
                }
            };
            true
        } else {
            proof {
                lemma_u16_nonzero(self);
            }
            false
        }
    }

    fn bits_within(self, other: Self) -> (r: bool) {
        let d = self & !other;
        if d == 0 {
            assert forall|u: int| #[trigger] self.spec_bit(u) implies other.spec_bit(u) by {
                lemma_u16_and_not(self, other, u as u16);
                lemma_u16_zero(u as u16);
            };
            true
        } else {
            proof {
                lemma_u16_nonzero(d);
                let u = choose|u: int| #[trigger] d.spec_bit(u);
                lemma_u16_and_not(self, other, u as u16);
                assert(self.spec_bit(u) && !other.spec_bit(u));
            }
            false
        }
    }
}

proof fn lemma_u32_zero(t: u32)
    requires
        t < 32,
    ensures
        (0u32 >> t) & 1u32 != 1u32,
{
    assert((0u32 >> t) & 1u32 != 1u32) by (bit_vector)
        requires
            t < 32,
    ;
}

proof fn lemma_u32_set(b: u32, k: u32, t: u32)
    requires
        k < 32,
        t < 32,
    ensures
        ((b | (1u32 << k)) >> t) & 1u32 == 1u32 <==> (t == k || (b >> t) & 1u32 == 1u32),
{
    assert(((b | (1u32 << k)) >> t) & 1u32 == 1u32 <==> (t == k || (b >> t) & 1u32 == 1u32))
        by (bit_vector)
        requires
            k < 32,
            t < 32,
    ;
}

proof fn lemma_u32_clear(b: u32, k: u32, t: u32)
    requires
        k < 32,
        t < 32,
    ensures
        ((b & !(1u32 << k)) >> t) & 1u32 == 1u32 <==> (t != k && (b >> t) & 1u32 == 1u32),
{
    assert(((b & !(1u32 << k)) >> t) & 1u32 == 1u32 <==> (t != k && (b >> t) & 1u32 == 1u32))
        by (bit_vector)
        requires
            k < 32,
            t < 32,
    ;
}

proof fn lemma_u32_and_not(a: u32, b: u32, t: u32)
    requires
        t < 32,
    ensures
        ((a & !b) >> t) & 1u32 == 1u32 <==> ((a >> t) & 1u32 == 1u32 && (b >> t) & 1u32 != 1u32),
{
    assert(((a & !b) >> t) & 1u32 == 1u32 <==> ((a >> t) & 1u32 == 1u32 && (b >> t) & 1u32 != 1u32))
        by (bit_vector)
        requires
            t < 32,
    ;
}

proof fn lemma_u32_nonzero(x: u32)
    requires
        x != 0,
    ensures
        exists|t: int| #[trigger] x.spec_bit(t),
{
    assert((x >> 0u32) & 1u32 == 1u32 || (x >> 1u32) & 1u32 == 1u32 || (x >> 2u32) & 1u32 == 1u32 || (x >> 3u32) & 1u32 == 1u32 || (x >> 4u32) & 1u32 == 1u32 || (x >> 5u32) & 1u32 == 1u32 || (x >> 6u32) & 1u32 == 1u32 || (x >> 7u32) & 1u32 == 1u32 || (x >> 8u32) & 1u32 == 1u32 || (x >> 9u32) & 1u32 == 1u32 || (x >> 10u32) & 1u32 == 1u32 || (x >> 11u32) & 1u32 == 1u32 || (x >> 12u32) & 1u32 == 1u32 || (x >> 13u32) & 1u32 == 1u32 || (x >> 14u32) & 1u32 == 1u32 || (x >> 15u32) & 1u32 == 1u32 || (x >> 16u32) & 1u32 == 1u32 || (x >> 17u32) & 1u32 == 1u32 || (x >> 18u32) & 1u32 == 1u32 || (x >> 19u32) & 1u32 == 1u32 || (x >> 20u32) & 1u32 == 1u32 || (x >> 21u32) & 1u32 == 1u32 || (x >> 22u32) & 1u32 == 1u32 || (x >> 23u32) & 1u32 == 1u32 || (x >> 24u32) & 1u32 == 1u32 || (x >> 25u32) & 1u32 == 1u32 || (x >> 26u32) & 1u32 == 1u32 || (x >> 27u32) & 1u32 == 1u32 || (x >> 28u32) & 1u32 == 1u32 || (x >> 29u32) & 1u32 == 1u32 || (x >> 30u32) & 1u32 == 1u32 || (x >> 31u32) & 1u32 == 1u32) by (bit_vector)
        requires
            x != 0,
    ;
    if (x >> 0u32) & 1u32 == 1u32 { assert(x.spec_bit(0)); }
    if (x >> 1u32) & 1u32 == 1u32 { assert(x.spec_bit(1)); }
    if (x >> 2u32) & 1u32 == 1u32 { assert(x.spec_bit(2)); }
    if (x >> 3u32) & 1u32 == 1u32 { assert(x.spec_bit(3)); }
    if (x >> 4u32) & 1u32 == 1u32 { assert(x.spec_bit(4)); }
    if (x >> 5u32) & 1u32 == 1u32 { assert(x.spec_bit(5)); }
    if (x >> 6u32) & 1u32 == 1u32 { assert(x.spec_bit(6)); }
    if (x >> 7u32) & 1u32 == 1u32 { assert(x.spec_bit(7)); }
    if (x >> 8u32) & 1u32 == 1u32 { assert(x.spec_bit(8)); }
    if (x >> 9u32) & 1u32 == 1u32 { assert(x.spec_bit(9)); }
    if (x >> 10u32) & 1u32 == 1u32 { assert(x.spec_bit(10)); }
    if (x >> 11u32) & 1u32 == 1u32 { assert(x.spec_bit(11)); }
    if (x >> 12u32) & 1u32 == 1u32 { assert(x.spec_bit(12)); }
    if (x >> 13u32) & 1u32 == 1u32 { assert(x.spec_bit(13)); }
    if (x >> 14u32) & 1u32 == 1u32 { assert(x.spec_bit(14)); }
    if (x >> 15u32) & 1u32 == 1u32 { assert(x.spec_bit(15)); }
    if (x >> 16u32) & 1u32 == 1u32 { assert(x.spec_bit(16)); }
    if (x >> 17u32) & 1u32 == 1u32 { assert(x.spec_bit(17)); }
    if (x >> 18u32) & 1u32 == 1u32 { assert(x.spec_bit(18)); }
    if (x >> 19u32) & 1u32 == 1u32 { assert(x.spec_bit(19)); }
    if (x >> 20u32) & 1u32 == 1u32 { assert(x.spec_bit(20)); }
    if (x >> 21u32) & 1u32 == 1u32 { assert(x.spec_bit(21)); }
    if (x >> 22u32) & 1u32 == 1u32 { assert(x.spec_bit(22)); }
    if (x >> 23u32) & 1u32 == 1u32 { assert(x.spec_bit(23)); }
    if (x >> 24u32) & 1u32 == 1u32 { assert(x.spec_bit(24)); }
    if (x >> 25u32) & 1u32 == 1u32 { assert(x.spec_bit(25)); }
    if (x >> 26u32) & 1u32 == 1u32 { assert(x.spec_bit(26)); }
    if (x >> 27u32) & 1u32 == 1u32 { assert(x.spec_bit(27)); }
    if (x >> 28u32) & 1u32 == 1u32 { assert(x.spec_bit(28)); }
    if (x >> 29u32) & 1u32 == 1u32 { assert(x.spec_bit(29)); }
    if (x >> 30u32) & 1u32 == 1u32 { assert(x.spec_bit(30)); }
    if (x >> 31u32) & 1u32 == 1u32 { assert(x.spec_bit(31)); }
}

impl Sealed for u32 {}

impl StorageInt for u32 {
    open spec fn spec_width() -> nat {
        32
    }

    open spec fn spec_bit(self, t: int) -> bool {
        0 <= t < 32 && (self >> (t as u32)) & 1u32 == 1u32
    }

    proof fn lemma_width() {
    }

    proof fn lemma_bit_range(self, t: int) {
    }

    fn width() -> (r: usize) {
        32
    }

    fn zero() -> (r: Self) {
        assert forall|t: int| !#[trigger] 0u32.spec_bit(t) by {
            if 0 <= t < 32 {
                lemma_u32_zero(t as u32);
            }
        };
        0
    }

    fn bit(self, t: usize) -> (r: bool) {
        (self >> (t as u32)) & 1u32 == 1u32
    }

    fn with_bit(self, t: usize) -> (r: Self) {
        let r = self | (1u32 << (t as u32));
        assert forall|u: int| #[trigger] r.spec_bit(u) == (u == t || self.spec_bit(u)) by {
            if 0 <= u < 32 {
                lemma_u32_set(self, t as u32, u as u32);
            }
        };
        r
    }

    fn without_bit(self, t: usize) -> (r: Self) {
        let r = self & !(1u32 << (t as u32));
        assert forall|u: int| #[trigger] r.spec_bit(u) == (u != t && self.spec_bit(u)) by {
            if 0 <= u < 32 {
                lemma_u32_clear(self, t as u32, u as u32);
            }
        };
        r
    }

    fn is_zero(self) -> (r: bool) {
        if self == 0 {
            assert forall|u: int| !#[trigger] self.spec_bit(u) by {
                if 0 <= u < 32 {
                    lemma_u32_zero(u as u32);
                }
            };
            true
        } else {
            proof {
                lemma_u32_nonzero(self);
            }
            false
        }
    }

    fn bits_within(self, other: Self) -> (r: bool) {
        let d = self & !other;
        if d == 0 {
            assert forall|u: int| #[trigger] self.spec_bit(u) implies other.spec_bit(u) by {
                lemma_u32_and_not(self, other, u as u32);
                lemma_u32_zero(u as u32);
            };
            true
        } else {
            proof {
                lemma_u32_nonzero(d);
                let u = choose|u: int| #[trigger] d.spec_bit(u);
                lemma_u32_and_not(self, other, u as u32);
                assert(self.spec_bit(u) && !other.spec_bit(u));
            }
            false
        }
    }
}

proof fn lemma_u64_zero(t: u64)
    requires
        t < 64,
    ensures
        (0u64 >> t) & 1u64 != 1u64,
{
    assert((0u64 >> t) & 1u64 != 1u64) by (bit_vector)
        requires
            t < 64,
    ;
}

proof fn lemma_u64_set(b: u64, k: u64, t: u64)
    requires
        k < 64,
        t < 64,
    ensures
        ((b | (1u64 << k)) >> t) & 1u64 == 1u64 <==> (t == k || (b >> t) & 1u64 == 1u64),
{
    assert(((b | (1u64 << k)) >> t) & 1u64 == 1u64 <==> (t == k || (b >> t) & 1u64 == 1u64))
        by (bit_vector)
        requires
            k < 64,
            t < 64,
    ;
}

proof fn lemma_u64_clear(b: u64, k: u64, t: u64)
    requires
        k < 64,
        t < 64,
    ensures
        ((b & !(1u64 << k)) >> t) & 1u64 == 1u64 <==> (t != k && (b >> t) & 1u64 == 1u64),
{
    assert(((b & !(1u64 << k)) >> t) & 1u64 == 1u64 <==> (t != k && (b >> t) & 1u64 == 1u64))
        by (bit_vector)
        requires
            k < 64,
            t < 64,
    ;
}

proof fn lemma_u64_and_not(a: u64, b: u64, t: u64)
    requires
        t < 64,
    ensures
        ((a & !b) >> t) & 1u64 == 1u64 <==> ((a >> t) & 1u64 == 1u64 && (b >> t) & 1u64 != 1u64),
{
    assert(((a & !b) >> t) & 1u64 == 1u64 <==> ((a >> t) & 1u64 == 1u64 && (b >> t) & 1u64 != 1u64))
        by (bit_vector)
        requires
            t < 64,
    ;
}

proof fn lemma_u64_nonzero(x: u64)
    requires
        x != 0,
    ensures
        exists|t: int| #[trigger] x.spec_bit(t),
{
    assert((x >> 0u64) & 1u64 == 1u64 || (x >> 1u64) & 1u64 == 1u64 || (x >> 2u64) & 1u64 == 1u64 || (x >> 3u64) & 1u64 == 1u64 || (x >> 4u64) & 1u64 == 1u64 || (x >> 5u64) & 1u64 == 1u64 || (x >> 6u64) & 1u64 == 1u64 || (x >> 7u64) & 1u64 == 1u64 || (x >> 8u64) & 1u64 == 1u64 || (x >> 9u64) & 1u64 == 1u64 || (x >> 10u64) & 1u64 == 1u64 || (x >> 11u64) & 1u64 == 1u64 || (x >> 12u64) & 1u64 == 1u64 || (x >> 13u64) & 1u64 == 1u64 || (x >> 14u64) & 1u64 == 1u64 || (x >> 15u64) & 1u64 == 1u64 || (x >> 16u64) & 1u64 == 1u64 || (x >> 17u64) & 1u64 == 1u64 || (x >> 18u64) & 1u64 == 1u64 || (x >> 19u64) & 1u64 == 1u64 || (x >> 20u64) & 1u64 == 1u64 || (x >> 21u64) & 1u64 == 1u64 || (x >> 22u64) & 1u64 == 1u64 || (x >> 23u64) & 1u64 == 1u64 || (x >> 24u64) & 1u64 == 1u64 || (x >> 25u64) & 1u64 == 1u64 || (x >> 26u64) & 1u64 == 1u64 || (x >> 27u64) & 1u64 == 1u64 || (x >> 28u64) & 1u64 == 1u64 || (x >> 29u64) & 1u64 == 1u64 || (x >> 30u64) & 1u64 == 1u64 || (x >> 31u64) & 1u64 == 1u64 || (x >> 32u64) & 1u64 == 1u64 || (x >> 33u64) & 1u64 == 1u64 || (x >> 34u64) & 1u64 == 1u64 || (x >> 35u64) & 1u64 == 1u64 || (x >> 36u64) & 1u64 == 1u64 || (x >> 37u64) & 1u64 == 1u64 || (x >> 38u64) & 1u64 == 1u64 || (x >> 39u64) & 1u64 == 1u64 || (x >> 40u64) & 1u64 == 1u64 || (x >> 41u64) & 1u64 == 1u64 || (x >> 42u64) & 1u64 == 1u64 || (x >> 43u64) & 1u64 == 1u64 || (x >> 44u64) & 1u64 == 1u64 || (x >> 45u64) & 1u64 == 1u64 || (x >> 46u64) & 1u64 == 1u64 || (x >> 47u64) & 1u64 == 1u64 || (x >> 48u64) & 1u64 == 1u64 || (x >> 49u64) & 1u64 == 1u64 || (x >> 50u64) & 1u64 == 1u64 || (x >> 51u64) & 1u64 == 1u64 || (x >> 52u64) & 1u64 == 1u64 || (x >> 53u64) & 1u64 == 1u64 || (x >> 54u64) & 1u64 == 1u64 || (x >> 55u64) & 1u64 == 1u64 || (x >> 56u64) & 1u64 == 1u64 || (x >> 57u64) & 1u64 == 1u64 || (x >> 58u64) & 1u64 == 1u64 || (x >> 59u64) & 1u64 == 1u64 || (x >> 60u64) & 1u64 == 1u64 || (x >> 61u64) & 1u64 == 1u64 || (x >> 62u64) & 1u64 == 1u64 || (x >> 63u64) & 1u64 == 1u64) by (bit_vector)
        requires
            x != 0,
    ;
    if (x >> 0u64) & 1u64 == 1u64 { assert(x.spec_bit(0)); }
    if (x >> 1u64) & 1u64 == 1u64 { assert(x.spec_bit(1)); }
    if (x >> 2u64) & 1u64 == 1u64 { assert(x.spec_bit(2)); }
    if (x >> 3u64) & 1u64 == 1u64 { assert(x.spec_bit(3)); }
    if (x >> 4u64) & 1u64 == 1u64 { assert(x.spec_bit(4)); }
    if (x >> 5u64) & 1u64 == 1u64 { assert(x.spec_bit(5)); }
    if (x >> 6u64) & 1u64 == 1u64 { assert(x.spec_bit(6)); }
    if (x >> 7u64) & 1u64 == 1u64 { assert(x.spec_bit(7)); }
    if (x >> 8u64) & 1u64 == 1u64 { assert(x.spec_bit(8)); }
    if (x >> 9u64) & 1u64 == 1u64 { assert(x.spec_bit(9)); }
    if (x >> 10u64) & 1u64 == 1u64 { assert(x.spec_bit(10)); }
    if (x >> 11u64) & 1u64 == 1u64 { assert(x.spec_bit(11)); }
    if (x >> 12u64) & 1u64 == 1u64 { assert(x.spec_bit(12)); }
    if (x >> 13u64) & 1u64 == 1u64 { assert(x.spec_bit(13)); }
    if (x >> 14u64) & 1u64 == 1u64 { assert(x.spec_bit(14)); }
    if (x >> 15u64) & 1u64 == 1u64 { assert(x.spec_bit(15)); }
    if (x >> 16u64) & 1u64 == 1u64 { assert(x.spec_bit(16)); }
    if (x >> 17u64) & 1u64 == 1u64 { assert(x.spec_bit(17)); }
    if (x >> 18u64) & 1u64 == 1u64 { assert(x.spec_bit(18)); }
    if (x >> 19u64) & 1u64 == 1u64 { assert(x.spec_bit(19)); }
    if (x >> 20u64) & 1u64 == 1u64 { assert(x.spec_bit(20)); }
    if (x >> 21u64) & 1u64 == 1u64 { assert(x.spec_bit(21)); }
    if (x >> 22u64) & 1u64 == 1u64 { assert(x.spec_bit(22)); }
    if (x >> 23u64) & 1u64 == 1u64 { assert(x.spec_bit(23)); }
    if (x >> 24u64) & 1u64 == 1u64 { assert(x.spec_bit(24)); }
    if (x >> 25u64) & 1u64 == 1u64 { assert(x.spec_bit(25)); }
    if (x >> 26u64) & 1u64 == 1u64 { assert(x.spec_bit(26)); }
    if (x >> 27u64) & 1u64 == 1u64 { assert(x.spec_bit(27)); }
    if (x >> 28u64) & 1u64 == 1u64 { assert(x.spec_bit(28)); }
    if (x >> 29u64) & 1u64 == 1u64 { assert(x.spec_bit(29)); }
    if (x >> 30u64) & 1u64 == 1u64 { assert(x.spec_bit(30)); }
    if (x >> 31u64) & 1u64 == 1u64 { assert(x.spec_bit(31)); }
    if (x >> 32u64) & 1u64 == 1u64 { assert(x.spec_bit(32)); }
    if (x >> 33u64) & 1u64 == 1u64 { assert(x.spec_bit(33)); }
    if (x >> 34u64) & 1u64 == 1u64 { assert(x.spec_bit(34)); }
    if (x >> 35u64) & 1u64 == 1u64 { assert(x.spec_bit(35)); }
    if (x >> 36u64) & 1u64 == 1u64 { assert(x.spec_bit(36)); }
    if (x >> 37u64) & 1u64 == 1u64 { assert(x.spec_bit(37)); }
    if (x >> 38u64) & 1u64 == 1u64 { assert(x.spec_bit(38)); }
    if (x >> 39u64) & 1u64 == 1u64 { assert(x.spec_bit(39)); }
    if (x >> 40u64) & 1u64 == 1u64 { assert(x.spec_bit(40)); }
    if (x >> 41u64) & 1u64 == 1u64 { assert(x.spec_bit(41)); }
    if (x >> 42u64) & 1u64 == 1u64 { assert(x.spec_bit(42)); }
    if (x >> 43u64) & 1u64 == 1u64 { assert(x.spec_bit(43)); }
    if (x >> 44u64) & 1u64 == 1u64 { assert(x.spec_bit(44)); }
    if (x >> 45u64) & 1u64 == 1u64 { assert(x.spec_bit(45)); }
    if (x >> 46u64) & 1u64 == 1u64 { assert(x.spec_bit(46)); }
    if (x >> 47u64) & 1u64 == 1u64 { assert(x.spec_bit(47)); }
    if (x >> 48u64) & 1u64 == 1u64 { assert(x.spec_bit(48)); }
    if (x >> 49u64) & 1u64 == 1u64 { assert(x.spec_bit(49)); }
    if (x >> 50u64) & 1u64 == 1u64 { assert(x.spec_bit(50)); }
    if (x >> 51u64) & 1u64 == 1u64 { assert(x.spec_bit(51)); }
    if (x >> 52u64) & 1u64 == 1u64 { assert(x.spec_bit(52)); }
    if (x >> 53u64) & 1u64 == 1u64 { assert(x.spec_bit(53)); }
    if (x >> 54u64) & 1u64 == 1u64 { assert(x.spec_bit(54)); }
    if (x >> 55u64) & 1u64 == 1u64 { assert(x.spec_bit(55)); }
    if (x >> 56u64) & 1u64 == 1u64 { assert(x.spec_bit(56)); }
    if (x >> 57u64) & 1u64 == 1u64 { assert(x.spec_bit(57)); }
    if (x >> 58u64) & 1u64 == 1u64 { assert(x.spec_bit(58)); }
    if (x >> 59u64) & 1u64 == 1u64 { assert(x.spec_bit(59)); }
    if (x >> 60u64) & 1u64 == 1u64 { assert(x.spec_bit(60)); }
    if (x >> 61u64) & 1u64 == 1u64 { assert(x.spec_bit(61)); }
    if (x >> 62u64) & 1u64 == 1u64 { assert(x.spec_bit(62)); }
    if (x >> 63u64) & 1u64 == 1u64 { assert(x.spec_bit(63)); }
}

impl Sealed for u64 {}

impl StorageInt for u64 {
    open spec fn spec_width() -> nat {
        64
    }

    open spec fn spec_bit(self, t: int) -> bool {
        0 <= t < 64 && (self >> (t as u64)) & 1u64 == 1u64
    }

    proof fn lemma_width() {
    }

    proof fn lemma_bit_range(self, t: int) {
    }

    fn width() -> (r: usize) {
        64
    }

    fn zero() -> (r: Self) {
        assert forall|t: int| !#[trigger] 0u64.spec_bit(t) by {
            if 0 <= t < 64 {
                lemma_u64_zero(t as u64);
            }
        };
        0
    }

    fn bit(self, t: usize) -> (r: bool) {
        (self >> (t as u64)) & 1u64 == 1u64
    }

    fn with_bit(self, t: usize) -> (r: Self) {
        let r = self | (1u64 << (t as u64));
        assert forall|u: int| #[trigger] r.spec_bit(u) == (u == t || self.spec_bit(u)) by {
            if 0 <= u < 64 {
                lemma_u64_set(self, t as u64, u as u64);
            }
        };
        r
    }

    fn without_bit(self, t: usize) -> (r: Self) {
        let r = self & !(1u64 << (t as u64));
        assert forall|u: int| #[trigger] r.spec_bit(u) == (u != t && self.spec_bit(u)) by {
            if 0 <= u < 64 {
                lemma_u64_clear(self, t as u64, u as u64);
            }
        };
        r
    }

    fn is_zero(self) -> (r: bool) {
        if self == 0 {
            assert forall|u: int| !#[trigger] self.spec_bit(u) by {
                if 0 <= u < 64 {
                    lemma_u64_zero(u as u64);
                }
            };
            true
        } else {
            proof {
                lemma_u64_nonzero(self);
            }
            false
        }
    }

    fn bits_within(self, other: Self) -> (r: bool) {
        let d = self & !other;
        if d == 0 {
            assert forall|u: int| #[trigger] self.spec_bit(u) implies other.spec_bit(u) by {
                lemma_u64_and_not(self, other, u as u64);
                lemma_u64_zero(u as u64);
            };
            true
        } else {
            proof {
                lemma_u64_nonzero(d);
                let u = choose|u: int| #[trigger] d.spec_bit(u);
                lemma_u64_and_not(self, other, u as u64);
                assert(self.spec_bit(u) && !other.spec_bit(u));
            }
            false
        }
    }
}

} // verus!
