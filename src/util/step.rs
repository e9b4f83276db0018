use vstd::prelude::*;

verus! {

/// Gives `char::from_u32` a contract: the result is present exactly when the
/// integer is a Unicode scalar value, and it is then that scalar value.
pub assume_specification[ char::from_u32 ](i: u32) -> (r: Option<char>)
    ensures
        r is Some <==> (i <= 0xD7FF || (0xE000 <= i && i <= 0x10FFFF)),
        r matches Some(c) ==> c as u32 == i,
;

/// Objects that have a notion of *successor* and *predecessor*.
///
/// Every value has an ordinal, its position in the ascending sequence of all
/// values of the type; the ordinals of a type form the contiguous interval
/// `ordinal_min() ..= ordinal_max()`. The *successor* of a value is the value
/// whose ordinal is one greater.
pub trait Step: Sized + Copy {
    /// Position of `self` in the ascending sequence of all values of the type.
    spec fn ordinal(self) -> int;

    /// Ordinal of the least value of the type.
    spec fn ordinal_min() -> int;

    /// Ordinal of the greatest value of the type.
    spec fn ordinal_max() -> int;

    /// Ordinals lie within the bounds, and distinct values have distinct
    /// ordinals.
    proof fn lemma_ordinal(a: Self, b: Self)
        ensures
            Self::ordinal_min() <= a.ordinal() <= Self::ordinal_max(),
            a.ordinal() == b.ordinal() ==> a == b,
    ;

    /// Return `true` if `self` does not come after `other`.
    fn at_most(&self, other: &Self) -> (r: bool)
        ensures
            r == (self.ordinal() <= other.ordinal()),
    ;

    /// Return `true` if `self` and `other` are the same value.
    fn same(&self, other: &Self) -> (r: bool)
        ensures
            r == (*self == *other),
    ;

    /// Returns the number of *successor* steps needed to get from `start` to
    /// `end`, or `None` if `end` comes before `start` or the number does not
    /// fit in a `usize`.
    fn steps_between(start: &Self, end: &Self) -> (r: Option<usize>)
        ensures
            r == (if start.ordinal() <= end.ordinal() && end.ordinal() - start.ordinal()
                <= usize::MAX {
                Some((end.ordinal() - start.ordinal()) as usize)
            } else {
                None
            }),
    ;

    /// Returns the value obtained by taking the *successor* of `self`
    /// `count` times, or `None` if that leaves the range of the type.
    fn forward(&self, count: usize) -> (r: Option<Self>)
        ensures
            r is None <==> self.ordinal() + count > Self::ordinal_max(),
            r matches Some(v) ==> v.ordinal() == self.ordinal() + count,
    ;

    /// Returns the value obtained by taking the *predecessor* of `self`
    /// `count` times, or `None` if that leaves the range of the type.
    fn backward(&self, count: usize) -> (r: Option<Self>)
        ensures
            r is None <==> self.ordinal() - count < Self::ordinal_min(),
            r matches Some(v) ==> v.ordinal() == self.ordinal() - count,
    ;

    /// Returns the *successor* of `self`, which must exist.
    fn successor(&self) -> (r: Self)
        requires
            self.ordinal() < Self::ordinal_max(),
        ensures
            r.ordinal() == self.ordinal() + 1,
    ;

    /// Returns the *successor* of `self`, or `self` if it is the greatest value.
    fn successor_saturating(&self) -> (r: Self)
        ensures
            r.ordinal() == if self.ordinal() < Self::ordinal_max() {
                self.ordinal() + 1
            } else {
                self.ordinal()
            },
    ;

    /// Returns the *predecessor* of `self`, which must exist.
    fn predecessor(&self) -> (r: Self)
        requires
            self.ordinal() > Self::ordinal_min(),
        ensures
            r.ordinal() == self.ordinal() - 1,
    ;

    /// Returns the *predecessor* of `self`, or `self` if it is the least value.
    fn predecessor_saturating(&self) -> (r: Self)
        ensures
            r.ordinal() == if self.ordinal() > Self::ordinal_min() {
                self.ordinal() - 1
            } else {
                self.ordinal()
            },
    ;
}

/// Types with a least and a greatest value.
pub trait Bounded: Step {
    /// The least value of the type.
    fn min_value() -> (r: Self)
        ensures
            r.ordinal() == Self::ordinal_min(),
    ;

    /// The greatest value of the type.
    fn max_value() -> (r: Self)
        ensures
            r.ordinal() == Self::ordinal_max(),
    ;
}

/// Number of Unicode scalar values below the surrogate block.
pub const SURROGATE_START: u32 = 0xD800;

/// Width of the surrogate block, which holds no Unicode scalar value.
pub const SURROGATE_WIDTH: u32 = 0x800;

/// Ordinal of the greatest `char`: the number of scalar values minus one.
pub const CHAR_ORDINAL_MAX: u32 = 0x10FFFF - 0x800;

/// Position of a character among all Unicode scalar values in ascending order.
pub open spec fn char_ordinal(c: char) -> int {
    if (c as u32) < 0xD800 {
        c as u32 as int
    } else {
        c as u32 - 0x800
    }
}

fn char_ordinal_exec(c: char) -> (r: u32)
    ensures
        r == char_ordinal(c),
        r <= CHAR_ORDINAL_MAX,
{
    let i = c as u32;
    proof {
        vstd::utf8::char_is_scalar(c);
    }
    if i < SURROGATE_START {
        i
    } else {
        i - SURROGATE_WIDTH
    }
}

fn char_from_ordinal(n: u32) -> (r: char)
    requires
        n <= CHAR_ORDINAL_MAX,
    ensures
        char_ordinal(r) == n,
{
    let i: u32 = if n < SURROGATE_START {
        n
    } else {
        n + SURROGATE_WIDTH
    };
    match char::from_u32(i) {
        Some(c) => c,
        None => {
            assert(false);
            '\0'
        },
    }
}

fn char_successor_saturating(src: char) -> (r: char)
    ensures
        char_ordinal(r) == if char_ordinal(src) < CHAR_ORDINAL_MAX {
            char_ordinal(src) + 1
        } else {
            char_ordinal(src)
        },
{
    let n = char_ordinal_exec(src);
    if n == CHAR_ORDINAL_MAX {
        src
    } else {
        char_from_ordinal(n + 1)
    }
}

fn char_predecessor_saturating(src: char) -> (r: char)
    ensures
        char_ordinal(r) == if char_ordinal(src) > 0 {
            char_ordinal(src) - 1
        } else {
            char_ordinal(src)
        },
{
    let n = char_ordinal_exec(src);
    if n == 0 {
        src
    } else {
        char_from_ordinal(n - 1)
    }
}

fn char_successor_panic(src: char) -> (r: char)
    requires
        char_ordinal(src) < CHAR_ORDINAL_MAX,
    ensures
        char_ordinal(r) == char_ordinal(src) + 1,
{
    char_from_ordinal(char_ordinal_exec(src) + 1)
}

fn char_predecessor_panic(src: char) -> (r: char)
    requires
        char_ordinal(src) > 0,
    ensures
        char_ordinal(r) == char_ordinal(src) - 1,
{
    char_from_ordinal(char_ordinal_exec(src) - 1)
}

fn char_forward(src: char, steps: usize) -> (r: Option<char>)
    ensures
        r is None <==> char_ordinal(src) + steps > CHAR_ORDINAL_MAX,
        r matches Some(c) ==> char_ordinal(c) == char_ordinal(src) + steps,
{
    let n = char_ordinal_exec(src);
    if steps as u64 > (CHAR_ORDINAL_MAX - n) as u64 {
        None
    } else {
        Some(char_from_ordinal(n + steps as u32))
    }
}

fn char_backward(src: char, steps: usize) -> (r: Option<char>)
    ensures
        r is None <==> char_ordinal(src) - steps < 0,
        r matches Some(c) ==> char_ordinal(c) == char_ordinal(src) - steps,
{
    let n = char_ordinal_exec(src);
    if steps as u64 > n as u64 {
        None
    } else {
        Some(char_from_ordinal(n - steps as u32))
    }
}

impl Step for char {
    open spec fn ordinal(self) -> int {
        char_ordinal(self)
    }

    open spec fn ordinal_min() -> int {
        0
    }

    open spec fn ordinal_max() -> int {
        CHAR_ORDINAL_MAX as int
    }

    proof fn lemma_ordinal(a: Self, b: Self) {
        vstd::utf8::char_is_scalar(a);
        vstd::utf8::char_u32_cast(a, a as u32);
        vstd::utf8::char_u32_cast(b, b as u32);
    }

    fn at_most(&self, other: &Self) -> (r: bool) {
        proof {
            vstd::utf8::char_is_scalar(*self);
            vstd::utf8::char_is_scalar(*other);
        }
        (*self as u32) <= (*other as u32)
    }

    fn same(&self, other: &Self) -> (r: bool) {
        *self == *other
    }

    fn steps_between(start: &Self, end: &Self) -> (r: Option<usize>) {
        let s = char_ordinal_exec(*start);
        let e = char_ordinal_exec(*end);
        if s > e || (e - s) as u64 > usize::MAX as u64 {
            None
        } else {
            Some((e - s) as usize)
        }
    }

    fn forward(&self, count: usize) -> (r: Option<Self>) {
        char_forward(*self, count)
    }

    fn backward(&self, count: usize) -> (r: Option<Self>) {
        char_backward(*self, count)
    }

    fn successor(&self) -> (r: Self) {
        char_successor_panic(*self)
    }

    fn successor_saturating(&self) -> (r: Self) {
        char_successor_saturating(*self)
    }

    fn predecessor(&self) -> (r: Self) {
        char_predecessor_panic(*self)
    }

    fn predecessor_saturating(&self) -> (r: Self) {
        char_predecessor_saturating(*self)
    }
}

impl Bounded for char {
    fn min_value() -> (r: Self) {
        '\0'
    }

    fn max_value() -> (r: Self) {
        '\u{10FFFF}'
    }
}

impl Step for u8 {
    open spec fn ordinal(self) -> int {
        self as int
    }

    open spec fn ordinal_min() -> int {
        0
    }

    open spec fn ordinal_max() -> int {
        u8::MAX as int
    }

    proof fn lemma_ordinal(a: Self, b: Self) {
    }

    fn at_most(&self, other: &Self) -> (r: bool) {
        *self <= *other
    }

    fn same(&self, other: &Self) -> (r: bool) {
        *self == *other
    }

    fn steps_between(start: &Self, end: &Self) -> (r: Option<usize>) {
        if *start <= *end && (*end - *start) as u128 <= usize::MAX as u128 {
            Some((*end - *start) as usize)
        } else {
            None
        }
    }

    fn forward(&self, count: usize) -> (r: Option<Self>) {
        if count as u128 > (u8::MAX - *self) as u128 {
            None
        } else {
            Some(*self + count as u8)
        }
    }

    fn backward(&self, count: usize) -> (r: Option<Self>) {
        if count as u128 > *self as u128 {
            None
        } else {
            Some(*self - count as u8)
        }
    }

    fn successor(&self) -> (r: Self) {
        *self + 1
    }

    fn successor_saturating(&self) -> (r: Self) {
        if *self < u8::MAX {
            *self + 1
        } else {
            *self
        }
    }

    fn predecessor(&self) -> (r: Self) {
        *self - 1
    }

    fn predecessor_saturating(&self) -> (r: Self) {
        if *self > 0 {
            *self - 1
        } else {
            *self
        }
    }
}

impl Bounded for u8 {
    fn min_value() -> (r: Self) {
        u8::MIN
    }

    fn max_value() -> (r: Self) {
        u8::MAX
    }
}

impl Step for u16 {
    open spec fn ordinal(self) -> int {
        self as int
    }

    open spec fn ordinal_min() -> int {
        0
    }

    open spec fn ordinal_max() -> int {
        u16::MAX as int
    }

    proof fn lemma_ordinal(a: Self, b: Self) {
    }

    fn at_most(&self, other: &Self) -> (r: bool) {
        *self <= *other
    }

    fn same(&self, other: &Self) -> (r: bool) {
        *self == *other
    }

    fn steps_between(start: &Self, end: &Self) -> (r: Option<usize>) {
        if *start <= *end && (*end - *start) as u128 <= usize::MAX as u128 {
            Some((*end - *start) as usize)
        } else {
            None
        }
    }

    fn forward(&self, count: usize) -> (r: Option<Self>) {
        if count as u128 > (u16::MAX - *self) as u128 {
            None
        } else {
            Some(*self + count as u16)
        }
    }

    fn backward(&self, count: usize) -> (r: Option<Self>) {
        if count as u128 > *self as u128 {
            None
        } else {
            Some(*self - count as u16)
        }
    }

    fn successor(&self) -> (r: Self) {
        *self + 1
    }

    fn successor_saturating(&self) -> (r: Self) {
        if *self < u16::MAX {
            *self + 1
        } else {
            *self
        }
    }

    fn predecessor(&self) -> (r: Self) {
        *self - 1
    }

    fn predecessor_saturating(&self) -> (r: Self) {
        if *self > 0 {
            *self - 1
        } else {
            *self
        }
    }
}

impl Bounded for u16 {
    fn min_value() -> (r: Self) {
        u16::MIN
    }

    fn max_value() -> (r: Self) {
        u16::MAX
    }
}

impl Step for u32 {
    open spec fn ordinal(self) -> int {
        self as int
    }

    open spec fn ordinal_min() -> int {
        0
    }

    open spec fn ordinal_max() -> int {
        u32::MAX as int
    }

    proof fn lemma_ordinal(a: Self, b: Self) {
    }

    fn at_most(&self, other: &Self) -> (r: bool) {
        *self <= *other
    }

    fn same(&self, other: &Self) -> (r: bool) {
        *self == *other
    }

    fn steps_between(start: &Self, end: &Self) -> (r: Option<usize>) {
        if *start <= *end && (*end - *start) as u128 <= usize::MAX as u128 {
            Some((*end - *start) as usize)
        } else {
            None
        }
    }

    fn forward(&self, count: usize) -> (r: Option<Self>) {
        if count as u128 > (u32::MAX - *self) as u128 {
            None
        } else {
            Some(*self + count as u32)
        }
    }

    fn backward(&self, count: usize) -> (r: Option<Self>) {
        if count as u128 > *self as u128 {
            None
        } else {
            Some(*self - count as u32)
        }
    }

    fn successor(&self) -> (r: Self) {
        *self + 1
    }

    fn successor_saturating(&self) -> (r: Self) {
        if *self < u32::MAX {
            *self + 1
        } else {
            *self
        }
    }

    fn predecessor(&self) -> (r: Self) {
        *self - 1
    }

    fn predecessor_saturating(&self) -> (r: Self) {
        if *self > 0 {
            *self - 1
        } else {
            *self
        }
    }
}

impl Bounded for u32 {
    fn min_value() -> (r: Self) {
        u32::MIN
    }

    fn max_value() -> (r: Self) {
        u32::MAX
    }
}

impl Step for u64 {
    open spec fn ordinal(self) -> int {
        self as int
    }

    open spec fn ordinal_min() -> int {
        0
    }

    open spec fn ordinal_max() -> int {
        u64::MAX as int
    }

    proof fn lemma_ordinal(a: Self, b: Self) {
    }

    fn at_most(&self, other: &Self) -> (r: bool) {
        *self <= *other
    }

    fn same(&self, other: &Self) -> (r: bool) {
        *self == *other
    }

    fn steps_between(start: &Self, end: &Self) -> (r: Option<usize>) {
        if *start <= *end && (*end - *start) as u128 <= usize::MAX as u128 {
            Some((*end - *start) as usize)
        } else {
            None
        }
    }

    fn forward(&self, count: usize) -> (r: Option<Self>) {
        if count as u128 > (u64::MAX - *self) as u128 {
            None
        } else {
            Some(*self + count as u64)
        }
    }

    fn backward(&self, count: usize) -> (r: Option<Self>) {
        if count as u128 > *self as u128 {
            None
        } else {
            Some(*self - count as u64)
        }
    }

    fn successor(&self) -> (r: Self) {
        *self + 1
    }

    fn successor_saturating(&self) -> (r: Self) {
        if *self < u64::MAX {
            *self + 1
        } else {
            *self
        }
    }

    fn predecessor(&self) -> (r: Self) {
        *self - 1
    }

    fn predecessor_saturating(&self) -> (r: Self) {
        if *self > 0 {
            *self - 1
        } else {
            *self
        }
    }
}

impl Bounded for u64 {
    fn min_value() -> (r: Self) {
        u64::MIN
    }

    fn max_value() -> (r: Self) {
        u64::MAX
    }
}

impl Step for usize {
    open spec fn ordinal(self) -> int {
        self as int
    }

    open spec fn ordinal_min() -> int {
        0
    }

    open spec fn ordinal_max() -> int {
        usize::MAX as int
    }

    proof fn lemma_ordinal(a: Self, b: Self) {
    }

    fn at_most(&self, other: &Self) -> (r: bool) {
        *self <= *other
    }

    fn same(&self, other: &Self) -> (r: bool) {
        *self == *other
    }

    fn steps_between(start: &Self, end: &Self) -> (r: Option<usize>) {
        if *start <= *end && (*end - *start) as u128 <= usize::MAX as u128 {
            Some((*end - *start) as usize)
        } else {
            None
        }
    }

    fn forward(&self, count: usize) -> (r: Option<Self>) {
        if count as u128 > (usize::MAX - *self) as u128 {
            None
        } else {
            Some(*self + count as usize)
        }
    }

    fn backward(&self, count: usize) -> (r: Option<Self>) {
        if count as u128 > *self as u128 {
            None
        } else {
            Some(*self - count as usize)
        }
    }

    fn successor(&self) -> (r: Self) {
        *self + 1
    }

    fn successor_saturating(&self) -> (r: Self) {
        if *self < usize::MAX {
            *self + 1
        } else {
            *self
        }
    }

    fn predecessor(&self) -> (r: Self) {
        *self - 1
    }

    fn predecessor_saturating(&self) -> (r: Self) {
        if *self > 0 {
            *self - 1
        } else {
            *self
        }
    }
}

impl Bounded for usize {
    fn min_value() -> (r: Self) {
        usize::MIN
    }

    fn max_value() -> (r: Self) {
        usize::MAX
    }
}

impl Step for i8 {
    open spec fn ordinal(self) -> int {
        self as int
    }

    open spec fn ordinal_min() -> int {
        i8::MIN as int
    }

    open spec fn ordinal_max() -> int {
        i8::MAX as int
    }

    proof fn lemma_ordinal(a: Self, b: Self) {
    }

    fn at_most(&self, other: &Self) -> (r: bool) {
        *self <= *other
    }

    fn same(&self, other: &Self) -> (r: bool) {
        *self == *other
    }

    fn steps_between(start: &Self, end: &Self) -> (r: Option<usize>) {
        let diff: i128 = *end as i128 - *start as i128;
        if 0 <= diff && diff <= usize::MAX as i128 {
            Some(diff as usize)
        } else {
            None
        }
    }

    fn forward(&self, count: usize) -> (r: Option<Self>) {
        let target: i128 = *self as i128 + count as i128;
        if target > i8::MAX as i128 {
            None
        } else {
            Some(target as i8)
        }
    }

    fn backward(&self, count: usize) -> (r: Option<Self>) {
        let target: i128 = *self as i128 - count as i128;
        if target < i8::MIN as i128 {
            None
        } else {
            Some(target as i8)
        }
    }

    fn successor(&self) -> (r: Self) {
        *self + 1
    }

    fn successor_saturating(&self) -> (r: Self) {
        if *self < i8::MAX {
            *self + 1
        } else {
            *self
        }
    }

    fn predecessor(&self) -> (r: Self) {
        *self - 1
    }

    fn predecessor_saturating(&self) -> (r: Self) {
        if *self > i8::MIN {
            *self - 1
        } else {
            *self
        }
    }
}

impl Bounded for i8 {
    fn min_value() -> (r: Self) {
        i8::MIN
    }

    fn max_value() -> (r: Self) {
        i8::MAX
    }
}

impl Step for i16 {
    open spec fn ordinal(self) -> int {
        self as int
    }

    open spec fn ordinal_min() -> int {
        i16::MIN as int
    }

    open spec fn ordinal_max() -> int {
        i16::MAX as int
    }

    proof fn lemma_ordinal(a: Self, b: Self) {
    }

    fn at_most(&self, other: &Self) -> (r: bool) {
        *self <= *other
    }

    fn same(&self, other: &Self) -> (r: bool) {
        *self == *other
    }

    fn steps_between(start: &Self, end: &Self) -> (r: Option<usize>) {
        let diff: i128 = *end as i128 - *start as i128;
        if 0 <= diff && diff <= usize::MAX as i128 {
            Some(diff as usize)
        } else {
            None
        }
    }

    fn forward(&self, count: usize) -> (r: Option<Self>) {
        let target: i128 = *self as i128 + count as i128;
        if target > i16::MAX as i128 {
            None
        } else {
            Some(target as i16)
        }
    }

    fn backward(&self, count: usize) -> (r: Option<Self>) {
        let target: i128 = *self as i128 - count as i128;
        if target < i16::MIN as i128 {
            None
        } else {
            Some(target as i16)
        }
    }

    fn successor(&self) -> (r: Self) {
        *self + 1
    }

    fn successor_saturating(&self) -> (r: Self) {
        if *self < i16::MAX {
            *self + 1
        } else {
            *self
        }
    }

    fn predecessor(&self) -> (r: Self) {
        *self - 1
    }

    fn predecessor_saturating(&self) -> (r: Self) {
        if *self > i16::MIN {
            *self - 1
        } else {
            *self
        }
    }
}

impl Bounded for i16 {
    fn min_value() -> (r: Self) {
        i16::MIN
    }

    fn max_value() -> (r: Self) {
        i16::MAX
    }
}

impl Step for i32 {
    open spec fn ordinal(self) -> int {
        self as int
    }

    open spec fn ordinal_min() -> int {
        i32::MIN as int
    }

    open spec fn ordinal_max() -> int {
        i32::MAX as int
    }

    proof fn lemma_ordinal(a: Self, b: Self) {
    }

    fn at_most(&self, other: &Self) -> (r: bool) {
        *self <= *other
    }

    fn same(&self, other: &Self) -> (r: bool) {
        *self == *other
    }

    fn steps_between(start: &Self, end: &Self) -> (r: Option<usize>) {
        let diff: i128 = *end as i128 - *start as i128;
        if 0 <= diff && diff <= usize::MAX as i128 {
            Some(diff as usize)
        } else {
            None
        }
    }

    fn forward(&self, count: usize) -> (r: Option<Self>) {
        let target: i128 = *self as i128 + count as i128;
        if target > i32::MAX as i128 {
            None
        } else {
            Some(target as i32)
        }
    }

    fn backward(&self, count: usize) -> (r: Option<Self>) {
        let target: i128 = *self as i128 - count as i128;
        if target < i32::MIN as i128 {
            None
        } else {
            Some(target as i32)
        }
    }

    fn successor(&self) -> (r: Self) {
        *self + 1
    }

    fn successor_saturating(&self) -> (r: Self) {
        if *self < i32::MAX {
            *self + 1
        } else {
            *self
        }
    }

    fn predecessor(&self) -> (r: Self) {
        *self - 1
    }

    fn predecessor_saturating(&self) -> (r: Self) {
        if *self > i32::MIN {
            *self - 1
        } else {
            *self
        }
    }
}

impl Bounded for i32 {
    fn min_value() -> (r: Self) {
        i32::MIN
    }

    fn max_value() -> (r: Self) {
        i32::MAX
    }
}

impl Step for i64 {
    open spec fn ordinal(self) -> int {
        self as int
    }

    open spec fn ordinal_min() -> int {
        i64::MIN as int
    }

    open spec fn ordinal_max() -> int {
        i64::MAX as int
    }

    proof fn lemma_ordinal(a: Self, b: Self) {
    }

    fn at_most(&self, other: &Self) -> (r: bool) {
        *self <= *other
    }

    fn same(&self, other: &Self) -> (r: bool) {
        *self == *other
    }

    fn steps_between(start: &Self, end: &Self) -> (r: Option<usize>) {
        let diff: i128 = *end as i128 - *start as i128;
        if 0 <= diff && diff <= usize::MAX as i128 {
            Some(diff as usize)
        } else {
            None
        }
    }

    fn forward(&self, count: usize) -> (r: Option<Self>) {
        let target: i128 = *self as i128 + count as i128;
        if target > i64::MAX as i128 {
            None
        } else {
            Some(target as i64)
        }
    }

    fn backward(&self, count: usize) -> (r: Option<Self>) {
        let target: i128 = *self as i128 - count as i128;
        if target < i64::MIN as i128 {
            None
        } else {
            Some(target as i64)
        }
    }

    fn successor(&self) -> (r: Self) {
        *self + 1
    }

    fn successor_saturating(&self) -> (r: Self) {
        if *self < i64::MAX {
            *self + 1
        } else {
            *self
        }
    }

    fn predecessor(&self) -> (r: Self) {
        *self - 1
    }

    fn predecessor_saturating(&self) -> (r: Self) {
        if *self > i64::MIN {
            *self - 1
        } else {
            *self
        }
    }
}

impl Bounded for i64 {
    fn min_value() -> (r: Self) {
        i64::MIN
    }

    fn max_value() -> (r: Self) {
        i64::MAX
    }
}

/// A closed interval of symbols.
#[derive(Debug, Clone, Copy)]
pub enum Range<Sym: Step> {
    /// The symbols from `start` to `end`, both included.
    NonEmpty {
        /// Start value, inclusive
        start: Sym,
        /// End value, inclusive
        end: Sym,
    },
    /// No symbol at all.
    Empty,
}

impl<Sym: Step> Range<Sym> {
    /// Membership: `sym` lies between the bounds of a non-empty range.
    pub open spec fn has(self, sym: Sym) -> bool {
        match self {
            Range::NonEmpty { start, end } => start.ordinal() <= sym.ordinal() && sym.ordinal()
                <= end.ordinal(),
            Range::Empty => false,
        }
    }

    /// Number of symbols in the range.
    pub open spec fn count(self) -> nat {
        match self {
            Range::NonEmpty { start, end } => if start.ordinal() <= end.ordinal() {
                (end.ordinal() - start.ordinal() + 1) as nat
            } else {
                0
            },
            Range::Empty => 0,
        }
    }

    /// Return `true` if `sym` is a member of this range.
    pub fn contains(&self, sym: Sym) -> (r: bool)
        ensures
            r == self.has(sym),
    {
        match self {
            Range::NonEmpty { start, end } => start.at_most(&sym) && sym.at_most(end),
            Range::Empty => false,
        }
    }

    /// Remove and return the least symbol of the range, in the manner of an
    /// iterator that walks the range in ascending order.
    pub fn next(&mut self) -> (r: Option<Sym>)
        ensures
            old(self).count() == 0 ==> r is None && *final(self) == Range::<Sym>::Empty,
            old(self).count() > 0 ==> {
                &&& *old(self) matches Range::NonEmpty { start, end }
                &&& r == Some(start)
                &&& final(self).count() == old(self).count() - 1
                &&& final(self).count() > 0 ==> (*final(self) matches Range::NonEmpty { start: s2, end: e2 }
                    && s2.ordinal() == start.ordinal() + 1 && e2 == end)
            },
    {
        match *self {
            Range::NonEmpty { start, end } => {
                if !start.at_most(&end) {
                    *self = Range::Empty;
                    None
                } else if start.same(&end) {
                    *self = Range::Empty;
                    Some(start)
                } else {
                    proof {
                        Sym::lemma_ordinal(start, end);
                        Sym::lemma_ordinal(end, start);
                    }
                    match start.forward(1) {
                        Some(new_start) => {
                            *self = Range::NonEmpty { start: new_start, end };
                        },
                        None => {
                            *self = Range::Empty;
                        },
                    }
                    Some(start)
                }
            },
            Range::Empty => None,
        }
    }
}

} // verus!
