use core::cmp::Ordering;
use vstd::prelude::*;

verus! {

/// Every element is smaller than the next: ascending without repeats.
pub open spec fn strictly_ascending(s: Seq<usize>) -> bool {
    forall|i: int, j: int| 0 <= i < j < s.len() ==> s[i] < s[j]
}

/// A set of integers kept as an ascending sequence without repeats.
#[derive(Debug, Clone)]
pub struct VecSet {
    inner: Vec<usize>,
}

impl Default for VecSet {
    fn default() -> (r: Self)
        ensures
            r.wf(),
            r@ == Set::<usize>::empty(),
    {
        VecSet::new()
    }
}

impl View for VecSet {
    type V = Set<usize>;

    closed spec fn view(&self) -> Set<usize> {
        self.inner@.to_set()
    }
}

/// Return `true` if the sequence never decreases.
pub fn is_sorted(s: &[usize]) -> (r: bool)
    ensures
        r == (forall|i: int, j: int| 0 <= i < j < s@.len() ==> s@[i] <= s@[j]),
{
    if s.len() == 0 {
        return true;
    }
    let mut last = s[0];
    let mut k: usize = 1;
    while k < s.len()
        invariant
            1 <= k <= s@.len(),
            last == s@[k - 1],
            forall|i: int, j: int| 0 <= i < j < k ==> s@[i] <= s@[j],
        decreases s@.len() - k,
    {
        let curr = s[k];
        if last > curr {
            return false;
        }
        last = curr;
        k = k + 1;
    }
    true
}

/// Return `true` if no element equals the one after it.
pub fn is_deduped(s: &[usize]) -> (r: bool)
    ensures
        r == (forall|i: int| 0 <= i < s@.len() - 1 ==> #[trigger] s@[i] != s@[i + 1]),
{
    if s.len() == 0 {
        return true;
    }
    let mut last = s[0];
    let mut k: usize = 1;
    while k < s.len()
        invariant
            1 <= k <= s@.len(),
            last == s@[k - 1],
            forall|i: int| 0 <= i < k - 1 ==> #[trigger] s@[i] != s@[i + 1],
        decreases s@.len() - k,
    {
        let curr = s[k];
        if last == curr {
            return false;
        }
        last = curr;
        k = k + 1;
    }
    true
}

/// The set of the first `k` elements of `s`.
pub open spec fn prefix_set(s: Seq<usize>, k: int) -> Set<usize> {
    s.subrange(0, k).to_set()
}

/// The heads of two cursors into ascending sequences are each greater than
/// everything the other cursor has passed.
pub open spec fn separated(l: Seq<usize>, li: int, r: Seq<usize>, ri: int) -> bool {
    &&& li < l.len() ==> forall|q: int| 0 <= q < ri ==> #[trigger] r[q] < l[li]
    &&& ri < r.len() ==> forall|p: int| 0 <= p < li ==> #[trigger] l[p] < r[ri]
}

/// Two cursors into ascending sequences, each within its sequence.
pub open spec fn cursors(l: Seq<usize>, li: int, r: Seq<usize>, ri: int) -> bool {
    &&& strictly_ascending(l)
    &&& strictly_ascending(r)
    &&& 0 <= li <= l.len()
    &&& 0 <= ri <= r.len()
    &&& separated(l, li, r, ri)
}

/// Every element of `out` comes before the heads of both cursors.
pub open spec fn before_heads(out: Seq<usize>, l: Seq<usize>, li: int, r: Seq<usize>, ri: int) -> bool {
    forall|k: int|
        0 <= k < out.len() ==> (li < l.len() ==> #[trigger] out[k] < l[li]) && (ri < r.len()
            ==> out[k] < r[ri])
}

proof fn lemma_prefix_push(s: Seq<usize>, k: int)
    requires
        0 <= k < s.len(),
    ensures
        prefix_set(s, k + 1) == prefix_set(s, k).insert(s[k]),
{
    assert(s.subrange(0, k + 1) =~= s.subrange(0, k).push(s[k]));
    s.subrange(0, k).lemma_push_to_set_commute(s[k]);
}

proof fn lemma_prefix_below(s: Seq<usize>, k: int, x: usize)
    requires
        0 <= k <= s.len(),
        forall|q: int| 0 <= q < k ==> #[trigger] s[q] < x,
    ensures
        !prefix_set(s, k).contains(x),
        forall|y: usize| #[trigger] prefix_set(s, k).contains(y) ==> y < x,
{
    assert forall|y: usize| #[trigger] prefix_set(s, k).contains(y) implies y < x by {
        let q = choose|q: int| 0 <= q < k && s.subrange(0, k)[q] == y;
        assert(s[q] == y);
    };
}

proof fn lemma_prefix_full(s: Seq<usize>)
    ensures
        prefix_set(s, s.len() as int) == s.to_set(),
{
    assert(s.subrange(0, s.len() as int) =~= s);
}

/// Compare two optional heads: a missing left head gives `short`, a missing
/// right head `long`, and two heads compare by value.
pub fn cmp_opt(x: Option<usize>, y: Option<usize>, short: Ordering, long: Ordering) -> (r: Ordering)
    ensures
        r == match (x, y) {
            (None, _) => short,
            (_, None) => long,
            (Some(a), Some(b)) => if a < b {
                Ordering::Less
            } else if a == b {
                Ordering::Equal
            } else {
                Ordering::Greater
            },
        },
{
    match (x, y) {
        (None, _) => short,
        (_, None) => long,
        (Some(a), Some(b)) => if a < b {
            Ordering::Less
        } else if a == b {
            Ordering::Equal
        } else {
            Ordering::Greater
        },
    }
}

fn peek(s: &[usize], i: usize) -> (r: Option<usize>)
    ensures
        s@.len() <= usize::MAX,
        r == if i < s@.len() {
            Some(s@[i as int])
        } else {
            None::<usize>
        },
{
    if i < s.len() {
        Some(s[i])
    } else {
        None
    }
}

/// Advance two cursors to the next element that both sequences hold, and
/// return it; `None` once either sequence runs out.
pub fn intersection_logic(left: &[usize], li: &mut usize, right: &[usize], ri: &mut usize) -> (r:
    Option<usize>)
    requires
        cursors(left@, *old(li) as int, right@, *old(ri) as int),
    ensures
        cursors(left@, *final(li) as int, right@, *final(ri) as int),
        *old(li) <= *final(li),
        *old(ri) <= *final(ri),
        r is Some ==> *old(li) < *final(li),
        match r {
            Some(x) => {
                &&& prefix_set(left@, *final(li) as int).intersect(prefix_set(right@, *final(ri) as int))
                    == prefix_set(left@, *old(li) as int).intersect(
                    prefix_set(right@, *old(ri) as int),
                ).insert(x)
                &&& forall|y: usize| #[trigger] prefix_set(left@, *old(li) as int).contains(y) ==> y < x
                &&& before_heads(seq![x], left@, *final(li) as int, right@, *final(ri) as int)
            },
            None => {
                &&& prefix_set(left@, *final(li) as int).intersect(prefix_set(right@, *final(ri) as int))
                    == prefix_set(left@, *old(li) as int).intersect(
                    prefix_set(right@, *old(ri) as int),
                )
                &&& *final(li) == left@.len() || *final(ri) == right@.len()
            },
        },
{
    let ghost l = left@;
    let ghost r = right@;
    let ghost c0 = prefix_set(l, *li as int).intersect(prefix_set(r, *ri as int));
    let ghost li0 = *li as int;
    loop
        invariant
            cursors(l, *li as int, r, *ri as int),
            l == left@,
            r == right@,
            li0 <= *li,
            *old(li) as int == li0,
            *old(ri) <= *ri,
            c0 == prefix_set(l, li0).intersect(prefix_set(r, *old(ri) as int)),
            prefix_set(l, *li as int).intersect(prefix_set(r, *ri as int)) == c0,
        decreases l.len() - *li + r.len() - *ri,
    {
        let (a, b) = match (peek(left, *li), peek(right, *ri)) {
            (Some(a), Some(b)) => (a, b),
            _ => {
                return None;
            },
        };
        let ghost i0 = *li as int;
        let ghost j0 = *ri as int;
        proof {
            lemma_prefix_push(l, i0);
            lemma_prefix_push(r, j0);
            lemma_prefix_below(l, i0, b);
            lemma_prefix_below(r, j0, a);
        }
        match cmp_opt(Some(a), Some(b), Ordering::Greater, Ordering::Less) {
            Ordering::Equal => {
                *li = *li + 1;
                *ri = *ri + 1;
                proof {
                    lemma_prefix_below(l, li0, a);
                    assert(prefix_set(l, i0 + 1).intersect(prefix_set(r, j0 + 1)) =~= c0.insert(a));
                }
                return Some(a);
            },
            Ordering::Less => {
                *li = *li + 1;
                proof {
                    assert(prefix_set(l, i0 + 1).intersect(prefix_set(r, j0)) =~= c0);
                }
            },
            Ordering::Greater => {
                *ri = *ri + 1;
                proof {
                    assert(prefix_set(l, i0).intersect(prefix_set(r, j0 + 1)) =~= c0);
                }
            },
        }
    }
}

/// Advance two cursors to the next element of the left sequence that the
/// right one does not hold, and return it; `None` once the left sequence
/// runs out.
pub fn difference_logic(left: &[usize], li: &mut usize, right: &[usize], ri: &mut usize) -> (r:
    Option<usize>)
    requires
        cursors(left@, *old(li) as int, right@, *old(ri) as int),
    ensures
        cursors(left@, *final(li) as int, right@, *final(ri) as int),
        *old(li) <= *final(li),
        *old(ri) <= *final(ri),
        r is Some ==> *old(li) < *final(li),
        match r {
            Some(x) => {
                &&& prefix_set(left@, *final(li) as int).difference(prefix_set(right@, *final(ri) as int))
                    == prefix_set(left@, *old(li) as int).difference(
                    prefix_set(right@, *old(ri) as int),
                ).insert(x)
                &&& forall|y: usize| #[trigger] prefix_set(left@, *old(li) as int).contains(y) ==> y < x
                &&& before_heads(seq![x], left@, *final(li) as int, right@, *final(ri) as int)
            },
            None => {
                &&& prefix_set(left@, *final(li) as int).difference(prefix_set(right@, *final(ri) as int))
                    == prefix_set(left@, *old(li) as int).difference(
                    prefix_set(right@, *old(ri) as int),
                )
                &&& *final(li) == left@.len()
            },
        },
{
    let ghost l = left@;
    let ghost r = right@;
    let ghost c0 = prefix_set(l, *li as int).difference(prefix_set(r, *ri as int));
    let ghost li0 = *li as int;
    loop
        invariant
            cursors(l, *li as int, r, *ri as int),
            l == left@,
            r == right@,
            li0 <= *li,
            *old(li) as int == li0,
            *old(ri) <= *ri,
            c0 == prefix_set(l, li0).difference(prefix_set(r, *old(ri) as int)),
            prefix_set(l, *li as int).difference(prefix_set(r, *ri as int)) == c0,
        decreases l.len() - *li + r.len() - *ri,
    {
        let a = peek(left, *li);
        let b = peek(right, *ri);
        let ghost i0 = *li as int;
        let ghost j0 = *ri as int;
        proof {
            if i0 < l.len() {
                lemma_prefix_push(l, i0);
                lemma_prefix_below(r, j0, l[i0]);
                lemma_prefix_below(l, li0, l[i0]);
            }
            if j0 < r.len() {
                lemma_prefix_push(r, j0);
                lemma_prefix_below(l, i0, r[j0]);
            }
        }
        match cmp_opt(a, b, Ordering::Less, Ordering::Less) {
            Ordering::Less => {
                match a {
                    Some(x) => {
                        *li = *li + 1;
                        proof {
                            assert(prefix_set(l, i0 + 1).difference(prefix_set(r, j0)) =~= c0.insert(
                                x,
                            ));
                        }
                        return Some(x);
                    },
                    None => {
                        return None;
                    },
                }
            },
            Ordering::Equal => {
                *li = *li + 1;
                *ri = *ri + 1;
                proof {
                    assert(prefix_set(l, i0 + 1).difference(prefix_set(r, j0 + 1)) =~= c0);
                }
            },
            Ordering::Greater => {
                *ri = *ri + 1;
                proof {
                    assert(prefix_set(l, i0).difference(prefix_set(r, j0 + 1)) =~= c0);
                }
            },
        }
    }
}

/// The elements that exactly one of two sets holds.
pub open spec fn sym_diff(a: Set<usize>, b: Set<usize>) -> Set<usize> {
    a.difference(b).union(b.difference(a))
}

/// Advance two cursors to the next element that either sequence holds, and
/// return it; `None` once both run out.
pub(crate) fn union_logic(left: &[usize], li: &mut usize, right: &[usize], ri: &mut usize) -> (r: Option<
    usize,
>)
    requires
        cursors(left@, *old(li) as int, right@, *old(ri) as int),
    ensures
        cursors(left@, *final(li) as int, right@, *final(ri) as int),
        *old(li) <= *final(li),
        *old(ri) <= *final(ri),
        r is Some ==> *old(li) + *old(ri) < *final(li) + *final(ri),
        match r {
            Some(x) => {
                &&& prefix_set(left@, *final(li) as int).union(prefix_set(right@, *final(ri) as int))
                    == prefix_set(left@, *old(li) as int).union(
                    prefix_set(right@, *old(ri) as int),
                ).insert(x)
                &&& forall|y: usize| #[trigger]
                    prefix_set(left@, *old(li) as int).union(
                        prefix_set(right@, *old(ri) as int),
                    ).contains(y) ==> y < x
                &&& before_heads(seq![x], left@, *final(li) as int, right@, *final(ri) as int)
            },
            None => {
                &&& prefix_set(left@, *final(li) as int).union(prefix_set(right@, *final(ri) as int))
                    == prefix_set(left@, *old(li) as int).union(
                    prefix_set(right@, *old(ri) as int),
                )
                &&& *final(li) == left@.len()
                &&& *final(ri) == right@.len()
            },
        },
{
    let ghost l = left@;
    let ghost r = right@;
    let a = peek(left, *li);
    let b = peek(right, *ri);
    let ghost i0 = *li as int;
    let ghost j0 = *ri as int;
    let ghost c0 = prefix_set(l, i0).union(prefix_set(r, j0));
    proof {
        if i0 < l.len() {
            lemma_prefix_push(l, i0);
            lemma_prefix_below(r, j0, l[i0]);
            lemma_prefix_below(l, i0, l[i0]);
        }
        if j0 < r.len() {
            lemma_prefix_push(r, j0);
            lemma_prefix_below(l, i0, r[j0]);
            lemma_prefix_below(r, j0, r[j0]);
        }
    }
    match cmp_opt(a, b, Ordering::Greater, Ordering::Less) {
        Ordering::Less => {
            let x = a.unwrap();
            *li = *li + 1;
            proof {
                assert(prefix_set(l, i0 + 1).union(prefix_set(r, j0)) =~= c0.insert(x));
            }
            Some(x)
        },
        Ordering::Equal => {
            let x = a.unwrap();
            *li = *li + 1;
            *ri = *ri + 1;
            proof {
                assert(prefix_set(l, i0 + 1).union(prefix_set(r, j0 + 1)) =~= c0.insert(x));
            }
            Some(x)
        },
        Ordering::Greater => {
            match b {
                Some(x) => {
                    *ri = *ri + 1;
                    proof {
                        assert(prefix_set(l, i0).union(prefix_set(r, j0 + 1)) =~= c0.insert(x));
                    }
                    Some(x)
                },
                None => None,
            }
        },
    }
}

/// Advance two cursors to the next element that exactly one sequence holds,
/// and return it; `None` once both run out.
fn symmetric_difference_logic(left: &[usize], li: &mut usize, right: &[usize], ri: &mut usize) -> (r:
    Option<usize>)
    requires
        cursors(left@, *old(li) as int, right@, *old(ri) as int),
    ensures
        cursors(left@, *final(li) as int, right@, *final(ri) as int),
        *old(li) <= *final(li),
        *old(ri) <= *final(ri),
        r is Some ==> *old(li) + *old(ri) < *final(li) + *final(ri),
        match r {
            Some(x) => {
                &&& sym_diff(prefix_set(left@, *final(li) as int), prefix_set(right@, *final(ri) as int))
                    == sym_diff(
                    prefix_set(left@, *old(li) as int),
                    prefix_set(right@, *old(ri) as int),
                ).insert(x)
                &&& forall|y: usize| #[trigger]
                    prefix_set(left@, *old(li) as int).union(
                        prefix_set(right@, *old(ri) as int),
                    ).contains(y) ==> y < x
                &&& before_heads(seq![x], left@, *final(li) as int, right@, *final(ri) as int)
            },
            None => {
                &&& sym_diff(prefix_set(left@, *final(li) as int), prefix_set(right@, *final(ri) as int))
                    == sym_diff(
                    prefix_set(left@, *old(li) as int),
                    prefix_set(right@, *old(ri) as int),
                )
                &&& *final(li) == left@.len()
                &&& *final(ri) == right@.len()
            },
        },
{
    let ghost l = left@;
    let ghost r = right@;
    let ghost li0 = *li as int;
    let ghost ri0 = *ri as int;
    let ghost c0 = sym_diff(prefix_set(l, li0), prefix_set(r, ri0));
    loop
        invariant
            cursors(l, *li as int, r, *ri as int),
            l == left@,
            r == right@,
            li0 <= *li,
            ri0 <= *ri,
            *old(li) as int == li0,
            *old(ri) as int == ri0,
            c0 == sym_diff(prefix_set(l, li0), prefix_set(r, ri0)),
            sym_diff(prefix_set(l, *li as int), prefix_set(r, *ri as int)) == c0,
            forall|y: usize| #[trigger]
                prefix_set(l, li0).union(prefix_set(r, ri0)).contains(y) ==> prefix_set(
                    l,
                    *li as int,
                ).union(prefix_set(r, *ri as int)).contains(y),
        decreases l.len() - *li + r.len() - *ri,
    {
        let a = peek(left, *li);
        let b = peek(right, *ri);
        let ghost i0 = *li as int;
        let ghost j0 = *ri as int;
        let ghost u0 = prefix_set(l, i0).union(prefix_set(r, j0));
        proof {
            if i0 < l.len() {
                lemma_prefix_push(l, i0);
                lemma_prefix_below(r, j0, l[i0]);
                lemma_prefix_below(l, i0, l[i0]);
            }
            if j0 < r.len() {
                lemma_prefix_push(r, j0);
                lemma_prefix_below(l, i0, r[j0]);
                lemma_prefix_below(r, j0, r[j0]);
            }
        }
        match cmp_opt(a, b, Ordering::Greater, Ordering::Less) {
            Ordering::Less => {
                let x = a.unwrap();
                *li = *li + 1;
                proof {
                    assert(sym_diff(prefix_set(l, i0 + 1), prefix_set(r, j0)) =~= c0.insert(x));
                    assert forall|y: usize| #[trigger]
                        prefix_set(l, li0).union(prefix_set(r, ri0)).contains(y) implies y < x by {
                        assert(u0.contains(y));
                    };
                }
                return Some(x);
            },
            Ordering::Equal => {
                *li = *li + 1;
                *ri = *ri + 1;
                proof {
                    assert(sym_diff(prefix_set(l, i0 + 1), prefix_set(r, j0 + 1)) =~= c0);
                }
            },
            Ordering::Greater => {
                match b {
                    Some(x) => {
                        *ri = *ri + 1;
                        proof {
                            assert(sym_diff(prefix_set(l, i0), prefix_set(r, j0 + 1)) =~= c0.insert(
                                x,
                            ));
                            assert forall|y: usize| #[trigger]
                                prefix_set(l, li0).union(prefix_set(r, ri0)).contains(y) implies y
                                < x by {
                                assert(u0.contains(y));
                            };
                        }
                        return Some(x);
                    },
                    None => {
                        return None;
                    },
                }
            },
        }
    }
}

/// Every element of the ascending sequence `s` from position `k` on is at
/// least `s[k]`.
proof fn lemma_rest_above(s: Seq<usize>, k: int, y: usize)
    requires
        strictly_ascending(s),
        0 <= k < s.len(),
        y < s[k],
    ensures
        !s.subrange(k, s.len() as int).contains(y),
{
    if s.subrange(k, s.len() as int).contains(y) {
        let q = choose|q: int| 0 <= q < s.len() - k && s.subrange(k, s.len() as int)[q] == y;
        assert(s[k + q] == y);
    }
}

/// With one cursor at the end, the elements that both sequences hold are
/// those of the passed prefixes.
proof fn lemma_split_at_cursor(s: Seq<usize>, k: int, y: usize)
    requires
        0 <= k <= s.len(),
        s.contains(y),
    ensures
        prefix_set(s, k).contains(y) || s.subrange(k, s.len() as int).contains(y),
{
    let q = choose|q: int| 0 <= q < s.len() && s[q] == y;
    if q < k {
        assert(s.subrange(0, k)[q] == y);
    } else {
        assert(s.subrange(k, s.len() as int)[q - k] == y);
    }
}

/// Once the left cursor is at its end, no element of the left sequence lies
/// at or after the right cursor.
proof fn lemma_left_done(l: Seq<usize>, li: int, r: Seq<usize>, ri: int)
    requires
        cursors(l, li, r, ri),
        li == l.len(),
    ensures
        forall|y: usize|
            #[trigger] l.to_set().contains(y) ==> prefix_set(l, li).contains(y) && (r.to_set().contains(y)
                ==> prefix_set(r, ri).contains(y)),
{
    lemma_prefix_full(l);
    assert forall|y: usize| #[trigger] l.to_set().contains(y) implies prefix_set(l, li).contains(y)
        && (r.to_set().contains(y) ==> prefix_set(r, ri).contains(y)) by {
        if r.to_set().contains(y) {
            lemma_split_at_cursor(r, ri, y);
            if ri < r.len() {
                let p = choose|p: int| 0 <= p < l.len() && l[p] == y;
                lemma_rest_above(r, ri, y);
            }
        }
    };
}

/// Once the right cursor is at its end, no element of the right sequence
/// lies at or after the left cursor.
proof fn lemma_right_done(l: Seq<usize>, li: int, r: Seq<usize>, ri: int)
    requires
        cursors(l, li, r, ri),
        ri == r.len(),
    ensures
        forall|y: usize|
            #[trigger] r.to_set().contains(y) ==> prefix_set(r, ri).contains(y) && (l.to_set().contains(y)
                ==> prefix_set(l, li).contains(y)),
{
    lemma_prefix_full(r);
    assert forall|y: usize| #[trigger] r.to_set().contains(y) implies prefix_set(r, ri).contains(y)
        && (l.to_set().contains(y) ==> prefix_set(l, li).contains(y)) by {
        if l.to_set().contains(y) {
            lemma_split_at_cursor(l, li, y);
            if li < l.len() {
                let q = choose|q: int| 0 <= q < r.len() && r[q] == y;
                lemma_rest_above(l, li, y);
            }
        }
    };
}

proof fn lemma_push_ascending(out: Seq<usize>, x: usize)
    requires
        strictly_ascending(out),
        forall|k: int| 0 <= k < out.len() ==> #[trigger] out[k] < x,
    ensures
        strictly_ascending(out.push(x)),
        out.push(x).to_set() == out.to_set().insert(x),
{
    out.lemma_push_to_set_commute(x);
}

impl VecSet {
    /// The elements in ascending order.
    pub closed spec fn elements(&self) -> Seq<usize> {
        self.inner@
    }

    /// The backing sequence is ascending without repeats.
    pub closed spec fn wf(&self) -> bool {
        strictly_ascending(self.inner@)
    }

    /// The set holds the elements of its sequence.
    pub proof fn lemma_view(&self)
        requires
            self.wf(),
        ensures
            strictly_ascending(self.elements()),
            self@ == self.elements().to_set(),
            self@.finite(),
    {
        vstd::seq_lib::seq_to_set_is_finite(self.inner@);
    }

    /// An empty set.
    pub fn new() -> (r: Self)
        ensures
            r.wf(),
            r@ == Set::<usize>::empty(),
    {
        let r = VecSet { inner: Vec::new() };
        assert(r.inner@.to_set() =~= Set::<usize>::empty());
        r
    }

    /// Locate `item`: `Ok` with its position, or `Err` with the position
    /// where it would be inserted.
    fn search(&self, item: usize) -> (r: Result<usize, usize>)
        requires
            self.wf(),
        ensures
            r matches Ok(i) ==> i < self.inner@.len() && self.inner@[i as int] == item,
            r matches Err(i) ==> i <= self.inner@.len() && (forall|k: int|
                0 <= k < i ==> self.inner@[k] < item) && (forall|k: int|
                i <= k < self.inner@.len() ==> self.inner@[k] > item),
    {
        let mut lo: usize = 0;
        let mut hi: usize = self.inner.len();
        while lo < hi
            invariant
                self.wf(),
                lo <= hi <= self.inner@.len(),
                forall|k: int| 0 <= k < lo ==> self.inner@[k] < item,
                forall|k: int| hi <= k < self.inner@.len() ==> self.inner@[k] > item,
            decreases hi - lo,
        {
            let mid = lo + (hi - lo) / 2;
            let v = self.inner[mid];
            if v == item {
                return Ok(mid);
            } else if v < item {
                lo = mid + 1;
            } else {
                hi = mid;
            }
        }
        Err(lo)
    }

    /// Return `true` if `item` is a member.
    pub fn contains(&self, item: &usize) -> (r: bool)
        requires
            self.wf(),
        ensures
            r == self@.contains(*item),
    {
        match self.search(*item) {
            Ok(_) => true,
            Err(_) => false,
        }
    }

    /// Add `item`; return `true` if it was not yet a member.
    pub fn insert(&mut self, item: usize) -> (r: bool)
        requires
            old(self).wf(),
        ensures
            final(self).wf(),
            final(self)@ == old(self)@.insert(item),
            r == !old(self)@.contains(item),
    {
        match self.search(item) {
            Ok(_) => {
                assert(self@.contains(item));
                assert(self@.insert(item) =~= self@);
                false
            },
            Err(idx) => {
                let ghost before = self.inner@;
                self.inner.insert(idx, item);
                assert(self.inner@ =~= before.subrange(0, idx as int).push(item) + before.subrange(
                    idx as int,
                    before.len() as int,
                ));
                assert forall|x: usize| #[trigger] self.inner@.contains(x) <==> before.contains(x)
                    || x == item by {
                    if self.inner@.contains(x) {
                        let k = choose|k: int| 0 <= k < self.inner@.len() && self.inner@[k] == x;
                        if k < idx {
                            assert(before[k] == x);
                        } else if k > idx {
                            assert(before[k - 1] == x);
                        }
                    }
                    if before.contains(x) {
                        let k = choose|k: int| 0 <= k < before.len() && before[k] == x;
                        if k < idx {
                            assert(self.inner@[k] == x);
                        } else {
                            assert(self.inner@[k + 1] == x);
                        }
                    }
                    if x == item {
                        assert(self.inner@[idx as int] == x);
                    }
                };
                assert(self@ =~= old(self)@.insert(item));
                true
            },
        }
    }

    /// Remove `item`; return `true` if it was a member.
    pub fn remove(&mut self, item: &usize) -> (r: bool)
        requires
            old(self).wf(),
        ensures
            final(self).wf(),
            final(self)@ == old(self)@.remove(*item),
            r == old(self)@.contains(*item),
    {
        match self.search(*item) {
            Ok(idx) => {
                let ghost before = self.inner@;
                self.inner.remove(idx);
                assert(self.inner@ =~= before.subrange(0, idx as int) + before.subrange(
                    idx + 1,
                    before.len() as int,
                ));
                assert forall|x: usize| #[trigger] self.inner@.contains(x) <==> before.contains(x)
                    && x != *item by {
                    if self.inner@.contains(x) {
                        let k = choose|k: int| 0 <= k < self.inner@.len() && self.inner@[k] == x;
                        if k < idx {
                            assert(before[k] == x);
                        } else {
                            assert(before[k + 1] == x);
                        }
                    }
                    if before.contains(x) && x != *item {
                        let k = choose|k: int| 0 <= k < before.len() && before[k] == x;
                        if k < idx {
                            assert(self.inner@[k] == x);
                        } else {
                            assert(self.inner@[k - 1] == x);
                        }
                    }
                };
                assert(self@ =~= old(self)@.remove(*item));
                true
            },
            Err(_) => {
                assert(self@.remove(*item) =~= self@);
                false
            },
        }
    }

    /// Remove every element.
    pub fn clear(&mut self)
        ensures
            final(self).wf(),
            final(self)@ == Set::<usize>::empty(),
    {
        self.inner.clear();
        assert(self.inner@.to_set() =~= Set::<usize>::empty());
    }

    /// The set of the elements of `src`.
    pub fn from_slice(src: &[usize]) -> (r: Self)
        ensures
            r.wf(),
            r@ == src@.to_set(),
    {
        let mut r = VecSet::new();
        let mut k: usize = 0;
        while k < src.len()
            invariant
                k <= src@.len(),
                r.wf(),
                r@ == src@.subrange(0, k as int).to_set(),
            decreases src@.len() - k,
        {
            r.insert(src[k]);
            assert(src@.subrange(0, k + 1) =~= src@.subrange(0, k as int).push(src@[k as int]));
            proof {
                src@.subrange(0, k as int).lemma_push_to_set_commute(src@[k as int]);
            }
            k = k + 1;
        }
        assert(src@.subrange(0, src@.len() as int) =~= src@);
        r
    }

    /// The elements that both sets hold, ascending.
    pub fn intersection(&self, other: &VecSet) -> (r: Vec<usize>)
        requires
            self.wf(),
            other.wf(),
        ensures
            strictly_ascending(r@),
            r@.to_set() == self@.intersect(other@),
    {
        let l = self.inner.as_slice();
        let rr = other.inner.as_slice();
        let mut li: usize = 0;
        let mut ri: usize = 0;
        let mut out: Vec<usize> = Vec::new();
        assert(prefix_set(l@, 0) =~= Set::<usize>::empty());
        assert(prefix_set(rr@, 0) =~= Set::<usize>::empty());
        assert(out@.to_set() =~= Set::<usize>::empty());
        loop
            invariant
                l@ == self.inner@,
                rr@ == other.inner@,
                cursors(l@, li as int, rr@, ri as int),
                strictly_ascending(out@),
                out@.to_set() == prefix_set(l@, li as int).intersect(prefix_set(rr@, ri as int)),
            decreases l@.len() - li,
        {
            let ghost before = out@;
            match intersection_logic(l, &mut li, rr, &mut ri) {
                Some(x) => {
                    proof {
                        assert forall|k: int| 0 <= k < before.len() implies #[trigger] before[k]
                            < x by {
                            assert(before.to_set().contains(before[k]));
                        };
                        lemma_push_ascending(before, x);
                    }
                    out.push(x);
                },
                None => {
                    proof {
                        if li == l@.len() {
                            lemma_left_done(l@, li as int, rr@, ri as int);
                        } else {
                            lemma_right_done(l@, li as int, rr@, ri as int);
                        }
                        assert(out@.to_set() =~= self@.intersect(other@));
                    }
                    return out;
                },
            }
        }
    }

    /// The elements of `self` that `other` does not hold, ascending.
    pub fn difference(&self, other: &VecSet) -> (r: Vec<usize>)
        requires
            self.wf(),
            other.wf(),
        ensures
            strictly_ascending(r@),
            r@.to_set() == self@.difference(other@),
    {
        let l = self.inner.as_slice();
        let rr = other.inner.as_slice();
        let mut li: usize = 0;
        let mut ri: usize = 0;
        let mut out: Vec<usize> = Vec::new();
        assert(prefix_set(l@, 0) =~= Set::<usize>::empty());
        assert(out@.to_set() =~= Set::<usize>::empty());
        assert(prefix_set(l@, 0).difference(prefix_set(rr@, 0)) =~= Set::<usize>::empty());
        loop
            invariant
                l@ == self.inner@,
                rr@ == other.inner@,
                cursors(l@, li as int, rr@, ri as int),
                strictly_ascending(out@),
                out@.to_set() == prefix_set(l@, li as int).difference(prefix_set(rr@, ri as int)),
            decreases l@.len() - li,
        {
            let ghost before = out@;
            match difference_logic(l, &mut li, rr, &mut ri) {
                Some(x) => {
                    proof {
                        assert forall|k: int| 0 <= k < before.len() implies #[trigger] before[k]
                            < x by {
                            assert(before.to_set().contains(before[k]));
                        };
                        lemma_push_ascending(before, x);
                    }
                    out.push(x);
                },
                None => {
                    proof {
                        lemma_left_done(l@, li as int, rr@, ri as int);
                        assert forall|y: usize| #[trigger]
                            prefix_set(l@, li as int).contains(y) && !prefix_set(
                                rr@,
                                ri as int,
                            ).contains(y) implies !rr@.to_set().contains(y) by {
                            lemma_prefix_full(l@);
                        };
                        assert(out@.to_set() =~= self@.difference(other@));
                    }
                    return out;
                },
            }
        }
    }

    /// The elements that either set holds, ascending.
    pub fn union(&self, other: &VecSet) -> (r: Vec<usize>)
        requires
            self.wf(),
            other.wf(),
        ensures
            strictly_ascending(r@),
            r@.to_set() == self@.union(other@),
    {
        let l = self.inner.as_slice();
        let rr = other.inner.as_slice();
        let mut li: usize = 0;
        let mut ri: usize = 0;
        let mut out: Vec<usize> = Vec::new();
        assert(prefix_set(l@, 0) =~= Set::<usize>::empty());
        assert(prefix_set(rr@, 0) =~= Set::<usize>::empty());
        assert(out@.to_set() =~= Set::<usize>::empty());
        loop
            invariant
                l@ == self.inner@,
                rr@ == other.inner@,
                cursors(l@, li as int, rr@, ri as int),
                strictly_ascending(out@),
                out@.to_set() == prefix_set(l@, li as int).union(prefix_set(rr@, ri as int)),
            decreases l@.len() - li + rr@.len() - ri,
        {
            let ghost before = out@;
            match union_logic(l, &mut li, rr, &mut ri) {
                Some(x) => {
                    proof {
                        assert forall|k: int| 0 <= k < before.len() implies #[trigger] before[k]
                            < x by {
                            assert(before.to_set().contains(before[k]));
                        };
                        lemma_push_ascending(before, x);
                    }
                    out.push(x);
                },
                None => {
                    proof {
                        lemma_prefix_full(l@);
                        lemma_prefix_full(rr@);
                        assert(out@.to_set() =~= self@.union(other@));
                    }
                    return out;
                },
            }
        }
    }

    /// The elements that exactly one of the sets holds, ascending.
    pub fn symmetric_difference(&self, other: &VecSet) -> (r: Vec<usize>)
        requires
            self.wf(),
            other.wf(),
        ensures
            strictly_ascending(r@),
            r@.to_set() == sym_diff(self@, other@),
    {
        let l = self.inner.as_slice();
        let rr = other.inner.as_slice();
        let mut li: usize = 0;
        let mut ri: usize = 0;
        let mut out: Vec<usize> = Vec::new();
        assert(prefix_set(l@, 0) =~= Set::<usize>::empty());
        assert(prefix_set(rr@, 0) =~= Set::<usize>::empty());
        assert(out@.to_set() =~= Set::<usize>::empty());
        assert(sym_diff(prefix_set(l@, 0), prefix_set(rr@, 0)) =~= Set::<usize>::empty());
        loop
            invariant
                l@ == self.inner@,
                rr@ == other.inner@,
                cursors(l@, li as int, rr@, ri as int),
                strictly_ascending(out@),
                out@.to_set() == sym_diff(prefix_set(l@, li as int), prefix_set(rr@, ri as int)),
                forall|y: usize| #[trigger] out@.to_set().contains(y) ==> prefix_set(
                    l@,
                    li as int,
                ).union(prefix_set(rr@, ri as int)).contains(y),
            decreases l@.len() - li + rr@.len() - ri,
        {
            let ghost before = out@;
            let ghost li0 = li as int;
            let ghost ri0 = ri as int;
            match symmetric_difference_logic(l, &mut li, rr, &mut ri) {
                Some(x) => {
                    proof {
                        assert forall|k: int| 0 <= k < before.len() implies #[trigger] before[k]
                            < x by {
                            assert(before.to_set().contains(before[k]));
                            assert(prefix_set(l@, li0).union(prefix_set(rr@, ri0)).contains(
                                before[k],
                            ));
                        };
                        lemma_push_ascending(before, x);
                        assert forall|y: usize| #[trigger] before.push(x).to_set().contains(
                            y,
                        ) implies prefix_set(l@, li as int).union(
                            prefix_set(rr@, ri as int),
                        ).contains(y) by {
                            if y != x {
                                assert(before.to_set().contains(y));
                            }
                        };
                    }
                    out.push(x);
                },
                None => {
                    proof {
                        lemma_prefix_full(l@);
                        lemma_prefix_full(rr@);
                        assert(out@.to_set() =~= sym_diff(self@, other@));
                    }
                    return out;
                },
            }
        }
    }

    /// Keep the elements for which `f` returns `true`.
    pub fn retain<F: Fn(&usize) -> bool>(&mut self, f: F)
        requires
            old(self).wf(),
            forall|x: &usize| #[trigger] f.requires((x,)),
        ensures
            final(self).wf(),
            forall|x: usize|
                #[trigger] final(self)@.contains(x) ==> old(self)@.contains(x) && f.ensures((&x,), true),
            forall|x: usize|
                #[trigger] old(self)@.contains(x) && !final(self)@.contains(x) ==> f.ensures(
                    (&x,),
                    false,
                ),
    {
        let ghost before = self.inner@;
        let mut kept: Vec<usize> = Vec::new();
        let mut k: usize = 0;
        while k < self.inner.len()
            invariant
                self.inner@ == before,
                strictly_ascending(before),
                forall|x: &usize| #[trigger] f.requires((x,)),
                k <= before.len(),
                strictly_ascending(kept@),
                forall|i: int, j: int|
                    0 <= i < kept@.len() && k <= j < before.len() ==> #[trigger] kept@[i]
                        < #[trigger] before[j],
                forall|x: usize| #[trigger] kept@.contains(x) ==> before.contains(x) && f.ensures((&x,), true),
                forall|j: int| 0 <= j < k ==> #[trigger] kept@.contains(before[j]) || f.ensures((&before[j],), false),
            decreases before.len() - k,
        {
            let x = self.inner[k];
            let keep = f(&x);
            if keep {
                let ghost old_kept = kept@;
                assert forall|i: int| 0 <= i < old_kept.len() implies #[trigger] old_kept[i] < x by {
                    assert(old_kept[i] < before[k as int]);
                };
                kept.push(x);
                assert forall|y: usize| #[trigger] kept@.contains(y) implies before.contains(y) && f.ensures((&y,), true) by {
                    if y != x {
                        let i = choose|i: int| 0 <= i < kept@.len() && kept@[i] == y;
                        assert(old_kept[i] == y);
                        assert(old_kept.contains(y));
                    } else {
                        assert(before[k as int] == x);
                    }
                };
                assert forall|j: int| 0 <= j < k + 1 implies #[trigger] kept@.contains(before[j]) || f.ensures((&before[j],), false) by {
                    if j < k {
                        if old_kept.contains(before[j]) {
                            let i = choose|i: int| 0 <= i < old_kept.len() && old_kept[i] == before[j];
                            assert(kept@[i] == before[j]);
                        }
                    } else {
                        assert(kept@[old_kept.len() as int] == x);
                    }
                };
            }
            k = k + 1;
        }
        self.inner = kept;
        assert forall|x: usize| #[trigger] old(self)@.contains(x) && !self@.contains(x) implies f.ensures((&x,), false) by {
            let j = choose|j: int| 0 <= j < before.len() && before[j] == x;
        };
    }

    /// Add every element of `items`.
    pub fn extend(&mut self, items: Vec<usize>)
        requires
            old(self).wf(),
        ensures
            final(self).wf(),
            final(self)@ == old(self)@ + items@.to_set(),
    {
        let mut k: usize = 0;
        while k < items.len()
            invariant
                k <= items@.len(),
                self.wf(),
                self@ == old(self)@ + items@.subrange(0, k as int).to_set(),
            decreases items@.len() - k,
        {
            self.insert(items[k]);
            proof {
                assert(items@.subrange(0, k + 1) =~= items@.subrange(0, k as int).push(items@[k as int]));
                items@.subrange(0, k as int).lemma_push_to_set_commute(items@[k as int]);
            }
            assert(self@ =~= old(self)@ + items@.subrange(0, k + 1).to_set());
            k = k + 1;
        }
        assert(items@.subrange(0, items@.len() as int) =~= items@);
    }

    /// The set of the elements of `src`, which the caller guarantees to be
    /// ascending without repeats.
    pub fn from_slice_unchecked(src: &[usize]) -> (r: Self)
        requires
            strictly_ascending(src@),
        ensures
            r.wf(),
            r.elements() == src@,
    {
        let mut inner: Vec<usize> = Vec::new();
        let mut k: usize = 0;
        while k < src.len()
            invariant
                k <= src@.len(),
                inner@ == src@.subrange(0, k as int),
            decreases src@.len() - k,
        {
            inner.push(src[k]);
            assert(src@.subrange(0, k + 1) =~= src@.subrange(0, k as int).push(src@[k as int]));
            k = k + 1;
        }
        assert(src@.subrange(0, src@.len() as int) =~= src@);
        VecSet { inner }
    }

    /// The elements in ascending order.
    pub fn as_slice(&self) -> (r: &[usize])
        ensures
            r@ == self.elements(),
    {
        self.inner.as_slice()
    }

    /// The elements in ascending order, to walk through.
    pub fn iter(&self) -> (r: &[usize])
        ensures
            r@ == self.elements(),
    {
        self.inner.as_slice()
    }
}

} // verus!
