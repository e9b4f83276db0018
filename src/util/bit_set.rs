use crate::util::StorageInt;
use vstd::prelude::*;

verus! {

/// Number of blocks of `w` bits needed to hold `bits` bits.
pub open spec fn blocks_needed(bits: int, w: int) -> int {
    if bits % w == 0 {
        bits / w
    } else {
        bits / w + 1
    }
}

/// Bit `i` of a sequence of blocks of `w` bits: bit `i % w` of block `i / w`.
pub open spec fn bit_at<B: StorageInt>(blocks: Seq<B>, i: int) -> bool {
    blocks[i / B::spec_width() as int].spec_bit(i % B::spec_width() as int)
}

/// Position `i` lies in block `i / w` at offset `i % w`, and `blocks_needed`
/// blocks cover `bits` bits and no more than one block beyond them.
proof fn lemma_blocks(i: int, bits: int, w: int)
    requires
        0 <= i,
        0 <= bits,
        0 < w,
    ensures
        i == w * (i / w) + i % w,
        0 <= i % w < w,
        0 <= i / w,
        i < bits ==> i / w < blocks_needed(bits, w),
        0 <= i < w * blocks_needed(bits, w) ==> i / w < blocks_needed(bits, w),
        bits <= w * blocks_needed(bits, w),
{
    vstd::arithmetic::div_mod::lemma_fundamental_div_mod(i, w);
    vstd::arithmetic::div_mod::lemma_fundamental_div_mod(bits, w);
    assert(0 <= i / w) by (nonlinear_arith)
        requires
            0 <= i,
            0 < w,
    ;
    if i < bits {
        assert(i / w < blocks_needed(bits, w)) by (nonlinear_arith)
            requires
                i == w * (i / w) + i % w,
                bits == w * (bits / w) + bits % w,
                0 <= i % w < w,
                0 <= bits % w < w,
                i < bits,
                0 < w,
                blocks_needed(bits, w) == if bits % w == 0 {
                    bits / w
                } else {
                    bits / w + 1
                },
        ;
    }
    if i < w * blocks_needed(bits, w) {
        assert(i / w < blocks_needed(bits, w)) by (nonlinear_arith)
            requires
                i == w * (i / w) + i % w,
                0 <= i % w,
                i < w * blocks_needed(bits, w),
                0 < w,
        ;
    }
    assert(bits <= w * blocks_needed(bits, w)) by (nonlinear_arith)
        requires
            bits == w * (bits / w) + bits % w,
            0 <= bits % w < w,
            blocks_needed(bits, w) == if bits % w == 0 {
                bits / w
            } else {
                bits / w + 1
            },
    ;
}

/// Number of bits in a block.
pub fn bit_width<B: StorageInt>() -> (r: usize)
    ensures
        r == B::spec_width(),
{
    B::width()
}

/// Number of blocks needed to hold `bits` bits.
pub fn blocks_for_bits<B: StorageInt>(bits: usize) -> (r: usize)
    ensures
        r == blocks_needed(bits as int, B::spec_width() as int),
{
    let block_size = bit_width::<B>();
    proof {
        B::lemma_width();
        vstd::arithmetic::div_mod::lemma_fundamental_div_mod(bits as int, block_size as int);
        if bits % block_size != 0 {
            assert((bits as int) / (block_size as int) < (bits as int)) by (nonlinear_arith)
                requires
                    block_size >= 8,
                    bits == block_size * ((bits as int) / (block_size as int)) + (bits as int) % (
                    block_size as int),
                    0 < (bits as int) % (block_size as int),
            ;
        }
    }
    if bits % block_size == 0 {
        bits / block_size
    } else {
        bits / block_size + 1
    }
}

/// A fixed number of bits, kept in blocks of `B`: bit `i` lives in block
/// `i / width` at offset `i % width`.
#[derive(Debug, Clone)]
pub struct FixedBitSet<B: StorageInt = u32> {
    size: usize,
    inner: Vec<B>,
}

impl<B: StorageInt> View for FixedBitSet<B> {
    type V = Seq<bool>;

    closed spec fn view(&self) -> Seq<bool> {
        Seq::new(self.size as nat, |i: int| bit_at(self.inner@, i))
    }
}

impl<B: StorageInt> FixedBitSet<B> {
    /// The blocks holding the bits.
    pub closed spec fn blocks(&self) -> Seq<B> {
        self.inner@
    }

    /// There are just enough blocks for the bits, and no bit beyond the size
    /// is set.
    pub closed spec fn wf(&self) -> bool {
        &&& self.inner@.len() == blocks_needed(self.size as int, B::spec_width() as int)
        &&& forall|i: int|
            self.size <= i < B::spec_width() * self.inner@.len() ==> !#[trigger] bit_at(
                self.inner@,
                i,
            )
    }

    /// A set of `size` bits, all clear.
    pub fn new(size: usize) -> (r: Self)
        ensures
            r.wf(),
            r@ == Seq::new(size as nat, |i: int| false),
    {
        let n = blocks_for_bits::<B>(size);
        let mut inner: Vec<B> = Vec::new();
        let mut k: usize = 0;
        while k < n
            invariant
                k <= n,
                inner@.len() == k,
                forall|i: int, t: int| 0 <= i < k ==> !#[trigger] inner@[i].spec_bit(t),
            decreases n - k,
        {
            inner.push(B::zero());
            k = k + 1;
        }
        let r = FixedBitSet { size, inner };
        proof {
            B::lemma_width();
            let w = B::spec_width() as int;
            assert forall|i: int| 0 <= i < w * r.inner@.len() implies !#[trigger] bit_at(r.inner@, i) by {
                lemma_blocks(i, size as int, w);
                assert(i / w < r.inner@.len()) by (nonlinear_arith)
                    requires
                        i == w * (i / w) + i % w,
                        0 <= i % w,
                        i < w * r.inner@.len(),
                        0 < w,
                ;
            };
            assert forall|i: int| 0 <= i < size implies #[trigger] r@[i] == false by {
                lemma_blocks(i, size as int, w);
            };
        }
        assert(r@ =~= Seq::new(size as nat, |i: int| false));
        r
    }

    /// Number of blocks.
    pub fn block_len(&self) -> (r: usize)
        ensures
            r == self.blocks().len(),
    {
        self.inner.len()
    }

    /// Number of bits.
    pub fn len(&self) -> (r: usize)
        ensures
            r == self@.len(),
    {
        self.size
    }

    /// Return `true` if the set holds no bits at all.
    pub fn is_empty(&self) -> (r: bool)
        ensures
            r == (self@.len() == 0),
    {
        self.size == 0
    }

    /// Return bit `elem`, or `None` if `elem` is out of range.
    pub fn get(&self, elem: usize) -> (r: Option<bool>)
        requires
            self.wf(),
        ensures
            r == (if elem < self@.len() {
                Some(self@[elem as int])
            } else {
                None
            }),
    {
        if elem >= self.size {
            return None;
        }
        let w = B::width();
        proof {
            B::lemma_width();
            lemma_blocks(elem as int, self.size as int, w as int);
        }
        let block = elem / w;
        let bit = elem % w;
        Some(self.inner[block].bit(bit))
    }

    /// Return `true` if bit `value` is set; `false` when out of range.
    pub fn contains(&self, value: &usize) -> (r: bool)
        requires
            self.wf(),
        ensures
            r == (*value < self@.len() && self@[*value as int]),
    {
        match self.get(*value) {
            Some(b) => b,
            None => false,
        }
    }

    /// Return `true` if every bit set in `self` is set in `other`, for two
    /// sets of the same size; the test runs block by block.
    pub fn is_subset(&self, other: &Self) -> (r: bool)
        requires
            self.wf(),
            other.wf(),
            self@.len() == other@.len(),
        ensures
            r == (forall|i: int| 0 <= i < self@.len() ==> #[trigger] self@[i] ==> other@[i]),
    {
        let ghost w = B::spec_width() as int;
        proof {
            B::lemma_width();
        }
        let mut k: usize = 0;
        while k < self.inner.len()
            invariant
                self.wf(),
                other.wf(),
                self.size == other.size,
                w == B::spec_width(),
                8 <= w,
                k <= self.inner@.len(),
                forall|i: int| 0 <= i < w * k && i < self.size ==> #[trigger] self@[i] ==> other@[i],
            decreases self.inner@.len() - k,
        {
            let a = self.inner[k];
            let b = other.inner[k];
            if !a.bits_within(b) {
                proof {
                    let t = choose|t: int| #[trigger] a.spec_bit(t) && !b.spec_bit(t);
                    assert(a.spec_bit(t));
                    a.lemma_bit_range(t);
                    let i = w * k + t;
                    assert(i == k * w + t) by (nonlinear_arith)
                        requires
                            i == w * k + t,
                    ;
                    vstd::arithmetic::div_mod::lemma_fundamental_div_mod_converse(i, w, k as int, t);
                    assert(i < w * self.inner@.len()) by (nonlinear_arith)
                        requires
                            i == w * k + t,
                            0 <= t < w,
                            0 <= k < self.inner@.len(),
                    ;
                    assert(bit_at(self.inner@, i));
                    assert(i < self.size);
                    assert(self@[i] && !other@[i]);
                }
                return false;
            }
            proof {
                assert forall|i: int| 0 <= i < w * (k + 1) && i < self.size implies #[trigger] self@[i]
                    ==> other@[i] by {
                    if i >= w * k {
                        assert(w * (k + 1) == w * k + w && w * k == k * w) by (nonlinear_arith);
                        vstd::arithmetic::div_mod::lemma_fundamental_div_mod_converse(i, w, k as int, i - w * k);
                    }
                };
            }
            k = k + 1;
        }
        proof {
            assert forall|i: int| 0 <= i < self@.len() implies #[trigger] self@[i] ==> other@[i] by {
                lemma_blocks(i, self.size as int, w);
            };
        }
        true
    }

    /// Set bit `elem`; return `false`, changing nothing, if it is out of range.
    pub fn set(&mut self, elem: usize) -> (r: bool)
        requires
            old(self).wf(),
        ensures
            final(self).wf(),
            r == (elem < old(self)@.len()),
            final(self)@ == if r {
                old(self)@.update(elem as int, true)
            } else {
                old(self)@
            },
    {
        if elem >= self.size {
            return false;
        }
        let w = B::width();
        proof {
            B::lemma_width();
            lemma_blocks(elem as int, self.size as int, w as int);
        }
        let block = elem / w;
        let bit = elem % w;
        let ghost before = self@;
        let value = self.inner[block].with_bit(bit);
        self.inner.set(block, value);
        proof {
            self.lemma_one_block_changed(old(self), elem as int, true);
        }
        true
    }

    /// Clear bit `elem`; return `false`, changing nothing, if it is out of
    /// range.
    pub fn clear(&mut self, elem: usize) -> (r: bool)
        requires
            old(self).wf(),
        ensures
            final(self).wf(),
            r == (elem < old(self)@.len()),
            final(self)@ == if r {
                old(self)@.update(elem as int, false)
            } else {
                old(self)@
            },
    {
        if elem >= self.size {
            return false;
        }
        let w = B::width();
        proof {
            B::lemma_width();
            lemma_blocks(elem as int, self.size as int, w as int);
        }
        let block = elem / w;
        let bit = elem % w;
        let value = self.inner[block].without_bit(bit);
        self.inner.set(block, value);
        proof {
            self.lemma_one_block_changed(old(self), elem as int, false);
        }
        true
    }

    /// Changing bit `elem` of its block to `v`, and nothing else, changes bit
    /// `elem` of the set to `v` and keeps the invariant.
    proof fn lemma_one_block_changed(&self, o: &Self, elem: int, v: bool)
        requires
            o.wf(),
            0 <= elem < o.size,
            self.size == o.size,
            self.inner@.len() == o.inner@.len(),
            ({
                let w = B::spec_width() as int;
                let blk = elem / w;
                &&& 0 <= blk < o.inner@.len()
                &&& forall|k: int| 0 <= k < o.inner@.len() && k != blk ==> #[trigger] self.inner@[k] == o.inner@[k]
                &&& forall|u: int| #[trigger] self.inner@[blk].spec_bit(u) == if u == elem % w {
                    v
                } else {
                    o.inner@[blk].spec_bit(u)
                }
            }),
        ensures
            self.wf(),
            self@ == o@.update(elem, v),
    {
        B::lemma_width();
        let w = B::spec_width() as int;
        lemma_blocks(elem, o.size as int, w);
        assert forall|i: int| 0 <= i < w * self.inner@.len() implies #[trigger] bit_at(self.inner@, i)
            == if i == elem { v } else { bit_at(o.inner@, i) } by {
            lemma_blocks(i, o.size as int, w);
            lemma_blocks(i, self.size as int, w);
            if i / w == elem / w && i % w == elem % w {
                assert(i == elem);
            }
        };
        assert forall|i: int| self.size <= i < w * self.inner@.len() implies !#[trigger] bit_at(
            self.inner@,
            i,
        ) by {
            assert(bit_at(self.inner@, i) == bit_at(o.inner@, i));
        };
        assert forall|i: int| 0 <= i < self.size implies #[trigger] self@[i] == o@.update(elem, v)[i] by {
            lemma_blocks(i, o.size as int, w);
            assert(i < w * self.inner@.len()) by (nonlinear_arith)
                requires
                    i == w * (i / w) + i % w,
                    i % w < w,
                    i / w < self.inner@.len(),
                    0 < w,
            ;
        };
        assert(self@ =~= o@.update(elem, v));
    }

    /// The indices of the set bits, ascending.
    pub fn iter(&self) -> (r: Vec<usize>)
        requires
            self.wf(),
        ensures
            crate::util::vec_set::strictly_ascending(r@),
            forall|i: usize| r@.contains(i) <==> i < self@.len() && self@[i as int],
    {
        let mut out: Vec<usize> = Vec::new();
        let mut i: usize = 0;
        while i < self.size
            invariant
                self.wf(),
                i <= self@.len(),
                crate::util::vec_set::strictly_ascending(out@),
                forall|k: int| 0 <= k < out@.len() ==> #[trigger] out@[k] < i,
                forall|x: usize| out@.contains(x) <==> x < i && self@[x as int],
            decreases self@.len() - i,
        {
            let ghost before = out@;
            let c = self.contains(&i);
            if c {
                out.push(i);
                assert forall|x: usize| out@.contains(x) <==> before.contains(x) || x == i by {
                    if out@.contains(x) && x != i {
                        let k = choose|k: int| 0 <= k < out@.len() && out@[k] == x;
                        assert(before[k] == x);
                    }
                    if before.contains(x) {
                        let k = choose|k: int| 0 <= k < before.len() && before[k] == x;
                        assert(out@[k] == x);
                    }
                    if x == i {
                        assert(out@[before.len() as int] == x);
                    }
                };
            }
            assert forall|x: usize| out@.contains(x) <==> x < i + 1 && self@[x as int] by {
                if before.contains(x) {
                    let k = choose|k: int| 0 <= k < before.len() && before[k] == x;
                    assert(before[k] < i);
                }
                if c {
                    assert(out@.contains(x) <==> before.contains(x) || x == i);
                } else {
                    assert(out@ == before);
                }
            };
            i = i + 1;
        }
        out
    }
}

/// The set bits of one block, taken lowest first.
#[derive(Debug, Clone)]
pub struct BlockIter<B: StorageInt>(pub B);

impl<B: StorageInt> BlockIter<B> {
    /// Remove and return the offset of the lowest set bit.
    pub fn next(&mut self) -> (r: Option<usize>)
        ensures
            r is None <==> (forall|u: int| !#[trigger] old(self).0.spec_bit(u)),
            r matches Some(t) ==> {
                &&& t < B::spec_width()
                &&& old(self).0.spec_bit(t as int)
                &&& forall|u: int| 0 <= u < t ==> !#[trigger] old(self).0.spec_bit(u)
                &&& forall|u: int| #[trigger] final(self).0.spec_bit(u) == (u != t && old(self).0.spec_bit(u))
            },
            r is None ==> final(self).0 == old(self).0,
    {
        if self.0.is_zero() {
            return None;
        }
        let b = self.0;
        let ghost u0 = choose|u: int| #[trigger] b.spec_bit(u);
        proof {
            B::lemma_width();
            assert(b.spec_bit(u0));
            b.lemma_bit_range(u0);
        }
        let mut t: usize = 0;
        while !b.bit(t)
            invariant
                b.spec_bit(u0),
                0 <= u0 < B::spec_width(),
                B::spec_width() <= 64,
                t <= u0,
                forall|u: int| 0 <= u < t ==> !#[trigger] b.spec_bit(u),
            decreases u0 - t,
        {
            t = t + 1;
        }
        self.0 = b.without_bit(t);
        Some(t)
    }
}

} // verus!
