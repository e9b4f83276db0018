use crate::util::vec_set::{cursors, prefix_set, strictly_ascending, union_logic};
use crate::util::FixedBitSet;
use vstd::prelude::*;

verus! {

/// The name of a block of a partition.
pub type SetRepr = usize;

/// Copy `slice[src_start .. src_end]` to the positions starting at `dest`,
/// as `memmove` does where the ranges overlap.
pub fn copy_within<T: Copy>(slice: &mut Vec<T>, src_start: usize, src_end: usize, dest: usize)
    requires
        src_start <= src_end <= old(slice)@.len(),
        dest <= old(slice)@.len() - (src_end - src_start),
    ensures
        final(slice)@.len() == old(slice)@.len(),
        forall|p: int|
            0 <= p < old(slice)@.len() ==> #[trigger] final(slice)@[p] == if dest <= p < dest + (
            src_end - src_start) {
                old(slice)@[src_start + p - dest]
            } else {
                old(slice)@[p]
            },
{
    let count = src_end - src_start;
    let len = slice.len();
    if dest <= src_start {
        let mut k: usize = 0;
        while k < count
            invariant
                dest <= src_start,
                count == src_end - src_start,
                src_end <= old(slice)@.len(),
                dest + count <= old(slice)@.len(),
                k <= count,
                slice@.len() == old(slice)@.len(),
                forall|p: int|
                    0 <= p < old(slice)@.len() ==> #[trigger] slice@[p] == if dest <= p < dest + k {
                        old(slice)@[src_start + p - dest]
                    } else {
                        old(slice)@[p]
                    },
            decreases count - k,
        {
            let v = slice[src_start + k];
            slice.set(dest + k, v);
            k = k + 1;
        }
    } else {
        let mut k: usize = count;
        while k > 0
            invariant
                dest > src_start,
                len == old(slice)@.len(),
                count == src_end - src_start,
                src_end <= old(slice)@.len(),
                dest + count <= old(slice)@.len(),
                k <= count,
                slice@.len() == old(slice)@.len(),
                forall|p: int|
                    0 <= p < old(slice)@.len() ==> #[trigger] slice@[p] == if dest + k <= p < dest
                        + count {
                        old(slice)@[src_start + p - dest]
                    } else {
                        old(slice)@[p]
                    },
            decreases k,
        {
            let v = slice[src_start + k - 1];
            slice.set(dest + (k - 1), v);
            k = k - 1;
        }
    }
}

/// The elements of `s` from `lo` up to `hi` ascend.
pub open spec fn ascending_range(s: Seq<usize>, lo: int, hi: int) -> bool {
    forall|p: int, q: int| lo <= p < q < hi ==> #[trigger] s[p] < #[trigger] s[q]
}

/// A partition of `0 .. n` into blocks that can be split.
///
/// The elements are kept in one array in which each block holds the range
/// `first .. last`; the block's marked elements fill `first .. mid` and its
/// unmarked ones `mid .. last`, each part in ascending order.
pub struct SetPartitions {
    set_count: usize,
    elements: Vec<usize>,
    marked: FixedBitSet,
    set_idx: Vec<usize>,
    set_first_idx: Vec<usize>,
    set_last_idx: Vec<usize>,
    set_mid_idx: Vec<usize>,
    position: Ghost<Seq<usize>>,
}

impl SetPartitions {
    /// Number of elements.
    pub closed spec fn spec_size(&self) -> nat {
        self.elements@.len()
    }

    /// Number of blocks.
    pub closed spec fn spec_num_blocks(&self) -> nat {
        self.set_count as nat
    }

    /// The block that holds `e`.
    pub closed spec fn block_of(&self, e: usize) -> usize {
        self.set_idx@[e as int]
    }

    /// Whether `e` is marked.
    pub closed spec fn is_marked(&self, e: usize) -> bool {
        self.marked@[e as int]
    }

    /// The marked elements of block `b`, ascending.
    pub closed spec fn marked_part(&self, b: SetRepr) -> Seq<usize> {
        self.elements@.subrange(self.set_first_idx@[b as int] as int, self.set_mid_idx@[b as int] as int)
    }

    /// The unmarked elements of block `b`, ascending.
    pub closed spec fn unmarked_part(&self, b: SetRepr) -> Seq<usize> {
        self.elements@.subrange(self.set_mid_idx@[b as int] as int, self.set_last_idx@[b as int] as int)
    }

    /// Block `b` has the same marked and unmarked parts here as in `other`.
    pub open spec fn same_parts(&self, other: &Self, b: SetRepr) -> bool {
        self.marked_part(b) == other.marked_part(b) && self.unmarked_part(b) == other.unmarked_part(b)
    }

    /// The elements of block `b`: its marked ones, then its unmarked ones.
    pub open spec fn block(&self, b: SetRepr) -> Seq<usize> {
        self.marked_part(b) + self.unmarked_part(b)
    }

    spec fn blk(&self, p: int) -> int {
        self.set_idx@[self.elements@[p] as int] as int
    }

    /// The internal invariant: the array is a permutation of `0 .. n`, the
    /// blocks tile it, and marks and order are as described above.
    pub closed spec fn wf(&self) -> bool {
        let n = self.elements@.len();
        let c = self.set_count as int;
        &&& self.set_idx@.len() == n
        &&& self.marked.wf()
        &&& self.marked@.len() == n
        &&& self.position@.len() == n
        &&& self.set_first_idx@.len() == c
        &&& self.set_mid_idx@.len() == c
        &&& self.set_last_idx@.len() == c
        &&& forall|b: int|
            0 <= b < c ==> #[trigger] self.set_first_idx@[b] <= self.set_mid_idx@[b]
                <= self.set_last_idx@[b] <= n && self.set_first_idx@[b] < self.set_last_idx@[b]
        &&& forall|p: int| 0 <= p < n ==> #[trigger] self.elements@[p] < n
        &&& forall|e: int|
            0 <= e < n ==> #[trigger] self.position@[e] < n && self.elements@[self.position@[e] as int]
                == e
        &&& forall|p: int|
            0 <= p < n ==> #[trigger] self.position@[self.elements@[p] as int] == p
        &&& forall|p: int|
            0 <= p < n ==> {
                let b = #[trigger] self.blk(p);
                &&& 0 <= b < c
                &&& self.set_first_idx@[b] <= p < self.set_last_idx@[b]
                &&& self.marked@[self.elements@[p] as int] == (p < self.set_mid_idx@[b])
            }
        &&& forall|b: int, p: int|
            #![trigger self.set_first_idx@[b], self.blk(p)]
            0 <= b < c && self.set_first_idx@[b] <= p < self.set_last_idx@[b] ==> self.blk(p) == b
        &&& forall|b: int|
            0 <= b < c ==> ascending_range(
                self.elements@,
                #[trigger] self.set_mid_idx@[b] as int,
                self.set_last_idx@[b] as int,
            ) && ascending_range(
                self.elements@,
                self.set_first_idx@[b] as int,
                self.set_mid_idx@[b] as int,
            )
    }

    /// Every element is in exactly the block that `block_of` names.
    pub proof fn lemma_block_of(&self, e: usize)
        requires
            self.wf(),
            e < self.spec_size(),
        ensures
            self.block_of(e) < self.spec_num_blocks(),
            self.block(self.block_of(e)).contains(e),
            self.is_marked(e) == self.marked_part(self.block_of(e)).contains(e),
    {
        let p = self.position@[e as int] as int;
        let b = self.blk(p);
        let f = self.set_first_idx@[b] as int;
        let m = self.set_mid_idx@[b] as int;
        let l = self.set_last_idx@[b] as int;
        assert(self.block(b as usize) =~= self.elements@.subrange(f, l));
        assert(self.block(b as usize)[p - f] == e);
        if self.marked_part(b as usize).contains(e) {
            let k = choose|k: int|
                0 <= k < self.marked_part(b as usize).len() && #[trigger] self.marked_part(
                    b as usize,
                )[k] == e;
            assert(self.elements@[f + k] == e);
            assert(self.position@[self.elements@[f + k] as int] == f + k);
        }
        if p < m {
            assert(self.marked_part(b as usize)[p - f] == e);
        }
    }

    /// The members of block `b` are valid elements that `block_of` assigns
    /// to `b`, and every such element is a member; a member is marked
    /// exactly when it lies in the marked part; both parts ascend.
    pub proof fn lemma_block_members(&self, b: SetRepr)
        requires
            self.wf(),
            b < self.spec_num_blocks(),
        ensures
            strictly_ascending(self.marked_part(b)),
            strictly_ascending(self.unmarked_part(b)),
            forall|x: usize| #[trigger]
                self.block(b).contains(x) ==> x < self.spec_size() && self.block_of(x) == b,
            forall|x: usize|
                x < self.spec_size() && #[trigger] self.block_of(x) == b ==> self.block(b).contains(x),
            forall|x: usize| #[trigger]
                self.marked_part(b).contains(x) <==> self.block(b).contains(x) && self.is_marked(x),
            forall|x: usize| #[trigger]
                self.unmarked_part(b).contains(x) <==> self.block(b).contains(x) && !self.is_marked(x),
    {
        let bi = b as int;
        let f = self.set_first_idx@[bi] as int;
        let m = self.set_mid_idx@[bi] as int;
        let l = self.set_last_idx@[bi] as int;
        let e = self.elements@;
        assert(self.block(b) =~= e.subrange(f, l));
        assert(ascending_range(e, m, l) && ascending_range(e, f, m));
        assert forall|x: usize| #[trigger] self.block(b).contains(x) implies x < self.spec_size()
            && self.block_of(x) == b && (self.is_marked(x) <==> self.marked_part(b).contains(x)) && (
        !self.is_marked(x) <==> self.unmarked_part(b).contains(x)) by {
            let k = choose|k: int| 0 <= k < l - f && e.subrange(f, l)[k] == x;
            let p = f + k;
            assert(e[p] == x);
            assert(self.blk(p) == bi);
            if self.marked_part(b).contains(x) {
                let k2 = choose|k2: int| 0 <= k2 < m - f && self.marked_part(b)[k2] == x;
                assert(e[f + k2] == x);
                assert(self.position@[e[f + k2] as int] == f + k2);
                assert(self.position@[e[p] as int] == p);
            }
            if self.unmarked_part(b).contains(x) {
                let k2 = choose|k2: int| 0 <= k2 < l - m && self.unmarked_part(b)[k2] == x;
                assert(e[m + k2] == x);
                assert(self.position@[e[m + k2] as int] == m + k2);
                assert(self.position@[e[p] as int] == p);
            }
            if p < m {
                assert(self.marked_part(b)[p - f] == x);
            } else {
                assert(self.unmarked_part(b)[p - m] == x);
            }
        };
        assert forall|x: usize| #[trigger] self.marked_part(b).contains(x) implies self.block(b).contains(x) by {
            let k2 = choose|k2: int| 0 <= k2 < m - f && self.marked_part(b)[k2] == x;
            assert(self.block(b)[k2] == x);
        };
        assert forall|x: usize| #[trigger] self.unmarked_part(b).contains(x) implies self.block(b).contains(x) by {
            let k2 = choose|k2: int| 0 <= k2 < l - m && self.unmarked_part(b)[k2] == x;
            assert(self.block(b)[(m - f) + k2] == x);
        };
        assert forall|x: usize| x < self.spec_size() && #[trigger] self.block_of(x) == b implies self.block(
            b,
        ).contains(x) by {
            self.lemma_block_of(x);
        };
    }

    /// A partition of `0 ..= max` into a single block, with nothing marked.
    pub fn new(max: usize) -> (r: (SetRepr, Self))
        requires
            max < usize::MAX,
        ensures
            r.1.wf(),
            r.0 == 0,
            r.1.spec_size() == max + 1,
            r.1.spec_num_blocks() == 1,
            r.1.marked_part(0) == Seq::<usize>::empty(),
            r.1.unmarked_part(0) == Seq::new((max + 1) as nat, |i: int| i as usize),
            forall|e: usize| e <= max ==> #[trigger] r.1.block_of(e) == 0,
            forall|e: usize| e <= max ==> !#[trigger] r.1.is_marked(e),
    {
        let num_elements = max + 1;
        let mut elements: Vec<usize> = Vec::new();
        let mut set_idx: Vec<usize> = Vec::new();
        let mut k: usize = 0;
        while k < num_elements
            invariant
                k <= num_elements,
                elements@.len() == k,
                set_idx@.len() == k,
                forall|i: int| 0 <= i < k ==> #[trigger] elements@[i] == i,
                forall|i: int| 0 <= i < k ==> #[trigger] set_idx@[i] == 0,
            decreases num_elements - k,
        {
            elements.push(k);
            set_idx.push(0);
            k = k + 1;
        }
        let partitions = SetPartitions {
            elements,
            set_count: 1,
            marked: FixedBitSet::new(num_elements),
            set_idx,
            set_first_idx: vec![0],
            set_last_idx: vec![num_elements],
            set_mid_idx: vec![0],
            position: Ghost(Seq::new(num_elements as nat, |i: int| i as usize)),
        };
        assert(partitions.marked_part(0) =~= Seq::<usize>::empty());
        assert(partitions.unmarked_part(0) =~= Seq::new((max + 1) as nat, |i: int| i as usize));
        (0, partitions)
    }

    /// Mark `item`; an element already marked stays as it is.
    pub fn mark(&mut self, item: usize)
        requires
            old(self).wf(),
            item < old(self).spec_size(),
        ensures
            final(self).wf(),
            final(self).spec_size() == old(self).spec_size(),
            final(self).spec_num_blocks() == old(self).spec_num_blocks(),
            forall|e: usize| #[trigger] final(self).block_of(e) == old(self).block_of(e),
            forall|e: usize|
                e < old(self).spec_size() ==> #[trigger] final(self).is_marked(e) == (old(
                    self,
                ).is_marked(e) || e == item),
            forall|b: SetRepr|
                b < old(self).spec_num_blocks() ==> #[trigger] final(self).block(b).len() == old(
                    self,
                ).block(b).len(),
            old(self).is_marked(item) ==> *final(self) == *old(self),
            !old(self).is_marked(item) ==> ({
                let b = old(self).block_of(item);
                let m0 = old(self).marked_part(b);
                let u0 = old(self).unmarked_part(b);
                &&& exists|j: int, k: int|
                    0 <= j <= m0.len() && 0 <= k < u0.len() && u0[k] == item
                        && final(self).marked_part(b) == m0.insert(j, item)
                        && final(self).unmarked_part(b) == u0.remove(k)
                &&& strictly_ascending(final(self).marked_part(b))
                &&& strictly_ascending(final(self).unmarked_part(b))
            }),
            forall|b: SetRepr|
                b < old(self).spec_num_blocks() && b != old(self).block_of(item)
                    ==> #[trigger] final(self).same_parts(old(self), b),
    {
        let set = self.set_idx[item];
        proof {
            let p0 = self.position@[item as int] as int;
            assert(self.blk(p0) == set as int);
        }
        let first = self.set_first_idx[set];
        let mid = self.set_mid_idx[set];
        let last = self.set_last_idx[set];
        if !self.marked.contains(&item) {
            let ghost e0 = self.elements@;
            let ghost pos0 = self.position@;
            let ghost n = e0.len() as int;
            let ghost p0 = pos0[item as int] as int;
            assert(self.blk(p0) == set as int);
            assert(self.set_mid_idx@[set as int] <= self.set_last_idx@[set as int]);
            let loc = find_in_range(&self.elements, mid, last, item, Ghost(p0));
            assert(loc == p0) by {
                assert(self.position@[self.elements@[loc as int] as int] == loc);
            };
            let mut ins = first;
            while ins < mid && self.elements[ins] < item
                invariant
                    self.elements@ == e0,
                    first <= ins <= mid <= e0.len(),
                    forall|p: int| first <= p < ins ==> #[trigger] e0[p] < item,
                decreases mid - ins,
            {
                ins = ins + 1;
            }
            proof {
                if ins < mid {
                    assert(self.blk(ins as int) == set as int);
                    assert(e0[ins as int] != item);
                    assert(e0[ins as int] > item);
                }
            }
            copy_within(&mut self.elements, ins, loc, ins + 1);
            self.elements.set(ins, item);
            self.set_mid_idx.set(set, mid + 1);
            self.marked.set(item);
            self.position = Ghost(
                Seq::new(
                    n as nat,
                    |e: int|
                        if e == item {
                            ins
                        } else if ins <= pos0[e] < loc {
                            (pos0[e] + 1) as usize
                        } else {
                            pos0[e]
                        },
                ),
            );
            proof {
                let en = self.elements@;
                assert forall|p: int| 0 <= p < n implies #[trigger] en[p] == if p < ins || p > loc {
                    e0[p]
                } else if p == ins {
                    item
                } else {
                    e0[p - 1]
                } by {};
                assert(e0[loc as int] == item);
                assert(old(self).blk(loc as int) == set as int);
                self.lemma_mark_wf(old(self), set as int, item, ins as int, loc as int);
                let o = old(self);
                let f = first as int;
                let m = mid as int;
                let l = last as int;
                let m0 = o.marked_part(set);
                let u0 = o.unmarked_part(set);
                let j = ins as int - f;
                let k = loc as int - m;
                assert(self.marked_part(set) =~= m0.insert(j, item));
                assert(self.unmarked_part(set) =~= u0.remove(k));
                assert(u0[k] == item);
                assert(o.block_of(item) == set);
                assert(0 <= j <= m0.len() && 0 <= k < u0.len());
                assert(exists|j: int, k: int|
                    0 <= j <= m0.len() && 0 <= k < u0.len() && u0[k] == item
                        && self.marked_part(set) == m0.insert(j, item)
                        && self.unmarked_part(set) == u0.remove(k));
                self.lemma_block_members(set);
                assert forall|p: int| 0 <= p < n && !(f <= p < l) implies #[trigger] en[p] == e0[p] by {
                    if p >= l || p < f {
                    }
                };
                self.lemma_other_blocks_kept(o, set as int);
                assert(o.block_of(item) == set);
            }
        } else {
            proof {
                self.lemma_block_of(item);
                assert(*self == *old(self));
            }
        }
    }

    /// Blocks other than `b0` keep their parts when only positions inside
    /// block `b0` change.
    proof fn lemma_other_blocks_kept(&self, o: &Self, b0: int)
        requires
            o.wf(),
            0 <= b0 < o.set_count,
            self.set_count == o.set_count,
            self.elements@.len() == o.elements@.len(),
            forall|p: int|
                0 <= p < o.elements@.len() && !(o.set_first_idx@[b0] <= p < o.set_last_idx@[b0])
                    ==> #[trigger] self.elements@[p] == o.elements@[p],
            self.set_first_idx == o.set_first_idx,
            self.set_last_idx == o.set_last_idx,
            self.set_mid_idx@.len() == o.set_mid_idx@.len(),
            forall|b: int| 0 <= b < o.set_count && b != b0 ==> #[trigger] self.set_mid_idx@[b] == o.set_mid_idx@[b],
        ensures
            forall|b: SetRepr| b < o.set_count && b != b0 ==> #[trigger] self.same_parts(o, b),
    {
        assert forall|b: SetRepr|
            #![trigger self.marked_part(b)]
            b < o.set_count && b != b0 implies self.marked_part(b) == o.marked_part(b)
            && self.unmarked_part(b) == o.unmarked_part(b) by {
            let bi = b as int;
            assert(self.set_mid_idx@[bi] == o.set_mid_idx@[bi]);
            assert forall|p: int|
                o.set_first_idx@[bi] <= p < o.set_last_idx@[bi] implies #[trigger] self.elements@[p]
                == o.elements@[p] by {
                assert(o.blk(p) == bi);
                if o.set_first_idx@[b0] <= p < o.set_last_idx@[b0] {
                    assert(o.blk(p) == b0);
                }
            };
            assert(self.marked_part(b) =~= o.marked_part(b));
            assert(self.unmarked_part(b) =~= o.unmarked_part(b));
        };
        assert forall|b: SetRepr| b < o.set_count && b != b0 implies #[trigger] self.same_parts(o, b) by {
            assert(self.marked_part(b) == o.marked_part(b));
        };
    }

    proof fn lemma_mark_wf(&self, o: &Self, b0: int, item: usize, i0: int, c0: int)
        requires
            o.wf(),
            0 <= b0 < o.set_count,
            item < o.elements@.len(),
            o.position@[item as int] == c0,
            o.elements@[c0] == item,
            o.blk(c0) == b0,
            !o.marked@[item as int],
            o.set_first_idx@[b0] <= i0 <= o.set_mid_idx@[b0] <= c0 < o.set_last_idx@[b0],
            forall|p: int| o.set_first_idx@[b0] <= p < i0 ==> #[trigger] o.elements@[p] < item,
            i0 < o.set_mid_idx@[b0] ==> o.elements@[i0] > item,
            self.elements@.len() == o.elements@.len(),
            forall|p: int|
                0 <= p < o.elements@.len() ==> #[trigger] self.elements@[p] == if p < i0 || p > c0 {
                    o.elements@[p]
                } else if p == i0 {
                    item
                } else {
                    o.elements@[p - 1]
                },
            self.set_idx == o.set_idx,
            self.set_count == o.set_count,
            self.set_first_idx == o.set_first_idx,
            self.set_last_idx == o.set_last_idx,
            self.set_mid_idx@ == o.set_mid_idx@.update(b0, (o.set_mid_idx@[b0] + 1) as usize),
            self.marked.wf(),
            self.marked@ == o.marked@.update(item as int, true),
            self.position@ == Seq::new(
                o.elements@.len(),
                |e: int|
                    if e == item {
                        i0 as usize
                    } else if i0 <= o.position@[e] < c0 {
                        (o.position@[e] + 1) as usize
                    } else {
                        o.position@[e]
                    },
            ),
        ensures
            self.wf(),
    {
        let e0 = o.elements@;
        let pos0 = o.position@;
        let n = e0.len() as int;
        let f = o.set_first_idx@[b0] as int;
        let m = o.set_mid_idx@[b0] as int;
        let l = o.set_last_idx@[b0] as int;
        assert(f <= i0 <= m <= c0 < l);
        assert(self.marked@ == o.marked@.update(item as int, true));
        assert forall|p: int| f <= p < l implies #[trigger] o.blk(p) == b0 by {};
        // positions
        assert forall|e: int| 0 <= e < n implies #[trigger] self.position@[e] < n
            && self.elements@[self.position@[e] as int] == e by {
            if e != item && pos0[e] == c0 {
                assert(e0[c0] == item);
            }
        };
        assert forall|p: int| 0 <= p < n implies #[trigger] self.position@[
            self.elements@[p] as int] == p by {
            if p < i0 || p > c0 {
                assert(pos0[e0[p] as int] == p);
            } else if p > i0 {
                assert(pos0[e0[p - 1] as int] == p - 1);
            }
        };
        // blocks of positions, and marks
        assert forall|p: int| 0 <= p < n implies {
            let bb = #[trigger] self.blk(p);
            &&& 0 <= bb < self.set_count
            &&& self.set_first_idx@[bb] <= p < self.set_last_idx@[bb]
            &&& self.marked@[self.elements@[p] as int] == (p < self.set_mid_idx@[bb])
        } by {
            if p < i0 || p > c0 {
                assert(self.elements@[p] == e0[p]);
                assert(o.blk(p) == self.blk(p));
                assert(e0[p] != item) by {
                    assert(pos0[e0[p] as int] == p);
                };
            } else if p == i0 {
                assert(self.blk(p) == o.blk(c0));
            } else {
                assert(self.elements@[p] == e0[p - 1]);
                assert(self.blk(p) == o.blk(p - 1));
                assert(e0[p - 1] != item) by {
                    assert(pos0[e0[p - 1] as int] == p - 1);
                };
            }
        };
        assert forall|bb: int, p: int|
            #![trigger self.set_first_idx@[bb], self.blk(p)]
            0 <= bb < self.set_count && self.set_first_idx@[bb] <= p
                < self.set_last_idx@[bb] implies self.blk(p) == bb by {
            assert(o.set_first_idx@[bb] <= p < o.set_last_idx@[bb]);
            assert(o.blk(p) == bb);
            if i0 <= p <= c0 {
                assert(o.blk(p) == b0);
                if p == i0 {
                    assert(self.blk(p) == o.blk(c0));
                } else {
                    assert(self.blk(p) == o.blk(p - 1));
                }
            } else {
                assert(self.blk(p) == o.blk(p));
            }
        };
        // order within blocks
        assert forall|bb: int| 0 <= bb < self.set_count implies ascending_range(
            self.elements@,
            #[trigger] self.set_mid_idx@[bb] as int,
            self.set_last_idx@[bb] as int,
        ) && ascending_range(
            self.elements@,
            self.set_first_idx@[bb] as int,
            self.set_mid_idx@[bb] as int,
        ) by {
            assert(ascending_range(e0, o.set_mid_idx@[bb] as int, o.set_last_idx@[bb] as int));
            assert(ascending_range(e0, o.set_first_idx@[bb] as int, o.set_mid_idx@[bb] as int));
            if bb != b0 {
                assert forall|p: int|
                    o.set_first_idx@[bb] <= p < o.set_last_idx@[bb] implies !(f <= p < l)
                    && #[trigger] self.elements@[p] == e0[p] by {
                    assert(o.blk(p) == bb);
                    if f <= p < l {
                        assert(o.blk(p) == b0);
                    }
                };
            } else {
                assert forall|p: int, q: int|
                    f <= p < q < m + 1 implies #[trigger] self.elements@[p]
                    < #[trigger] self.elements@[q] by {
                    if q < i0 {
                    } else if q == i0 {
                    } else if p < i0 {
                        assert(e0[q - 1] > item) by {
                            if i0 < m {
                                assert(e0[i0] > item);
                                if q - 1 > i0 {
                                    assert(e0[i0] < e0[q - 1]);
                                }
                            }
                        };
                    } else if p == i0 {
                        assert(e0[q - 1] > item) by {
                            assert(e0[i0] > item);
                            if q - 1 > i0 {
                                assert(e0[i0] < e0[q - 1]);
                            }
                        };
                    } else {
                    }
                };
                assert forall|p: int, q: int|
                    m + 1 <= p < q < l implies #[trigger] self.elements@[p]
                    < #[trigger] self.elements@[q] by {
                    let pp = if p <= c0 { p - 1 } else { p };
                    let qq = if q <= c0 { q - 1 } else { q };
                    assert(self.elements@[p] == e0[pp]);
                    assert(self.elements@[q] == e0[qq]);
                    assert(m <= pp < qq < l);
                };
            }
        };
    }

    /// Split the marked elements of block `set` off into a new block.
    ///
    /// Returns the new block, whose elements were the marked ones; the block
    /// `set` keeps the unmarked ones. Where no element of the block is
    /// marked, or every one is, the block stays whole and `None` is returned.
    /// In every case the block `set` and the new block are left without marks.
    pub fn split(&mut self, set: SetRepr) -> (r: Option<SetRepr>)
        requires
            old(self).wf(),
            set < old(self).spec_num_blocks(),
            old(self).spec_num_blocks() < usize::MAX,
        ensures
            final(self).wf(),
            final(self).spec_size() == old(self).spec_size(),
            forall|e: usize|
                e < old(self).spec_size() ==> #[trigger] final(self).is_marked(e) == (old(
                    self,
                ).is_marked(e) && old(self).block_of(e) != set),
            old(self).marked_part(set).len() == 0 || old(self).unmarked_part(set).len() == 0 ==> {
                &&& r is None
                &&& final(self).spec_num_blocks() == old(self).spec_num_blocks()
                &&& forall|e: usize| #[trigger] final(self).block_of(e) == old(self).block_of(e)
                &&& final(self).block(set) == old(self).block(set)
                &&& final(self).marked_part(set).len() == 0
            },
            old(self).marked_part(set).len() > 0 && old(self).unmarked_part(set).len() > 0 ==> {
                &&& r == Some(old(self).spec_num_blocks() as usize)
                &&& final(self).spec_num_blocks() == old(self).spec_num_blocks() + 1
                &&& forall|e: usize|
                    e < old(self).spec_size() ==> #[trigger] final(self).block_of(e) == if old(
                        self,
                    ).block_of(e) == set && old(self).is_marked(e) {
                        old(self).spec_num_blocks() as usize
                    } else {
                        old(self).block_of(e)
                    }
                &&& final(self).block(set) == old(self).unmarked_part(set)
                &&& final(self).block(r.unwrap()) == old(self).marked_part(set)
                &&& final(self).marked_part(set).len() == 0
                &&& final(self).marked_part(r.unwrap()).len() == 0
                &&& final(self).unmarked_part(set) == old(self).unmarked_part(set)
                &&& final(self).unmarked_part(r.unwrap()) == old(self).marked_part(set)
            },
            forall|b: SetRepr|
                b < old(self).spec_num_blocks() && b != set ==> #[trigger] final(self).block(b)
                    == old(self).block(b),
    {
        let first = self.set_first_idx[set];
        let mid = self.set_mid_idx[set];
        let last = self.set_last_idx[set];
        let ghost o = *self;
        if mid == last {
            self.clear_marks(first, last, Ghost(set as int));
            self.set_mid_idx.set(set, first);
            proof {
                self.lemma_reset_wf(&o, set as int);
                o.lemma_marks_by_block(set as int);
                assert(self.block(set) =~= o.block(set));
                assert forall|b: SetRepr|
                    b < o.spec_num_blocks() && b != set implies #[trigger] self.block(b) == o.block(
                        b,
                    ) by {
                    assert(self.marked_part(b) =~= o.marked_part(b));
                    assert(self.unmarked_part(b) =~= o.unmarked_part(b));
                };
            }
            return None;
        }
        if first == mid {
            proof {
                o.lemma_marks_by_block(set as int);
            }
            return None;
        }
        let new_set = self.set_count;
        self.set_count = self.set_count + 1;
        self.set_first_idx.push(first);
        self.set_mid_idx.push(first);
        self.set_last_idx.push(mid);
        self.set_first_idx.set(set, mid);
        self.move_marked(first, mid, new_set, Ghost(set as int));
        proof {
            assert(self.set_first_idx@ =~= o.set_first_idx@.update(set as int, mid).push(first));
            self.lemma_split_wf(&o, set as int);
            o.lemma_marks_by_block(set as int);
            assert(self.block(set) =~= o.unmarked_part(set));
            assert(self.block(new_set) =~= o.marked_part(set));
            assert(self.unmarked_part(set) =~= o.unmarked_part(set));
            assert(self.unmarked_part(new_set) =~= o.marked_part(set));
            assert forall|b: SetRepr|
                b < o.spec_num_blocks() && b != set implies #[trigger] self.block(b) == o.block(b) by {
                assert(self.marked_part(b) =~= o.marked_part(b));
                assert(self.unmarked_part(b) =~= o.unmarked_part(b));
            };
        }
        Some(new_set)
    }

    /// Whether an element is marked, and which block holds it, as told by
    /// the position it stands at.
    proof fn lemma_marks_by_block(&self, b0: int)
        requires
            self.wf(),
            0 <= b0 < self.set_count,
        ensures
            forall|e: usize|
                e < self.spec_size() ==> (self.block_of(e) == b0 <==> self.set_first_idx@[b0]
                    <= self.position@[e as int] < self.set_last_idx@[b0]),
            forall|e: usize|
                e < self.spec_size() ==> (self.block_of(e) == b0 && self.is_marked(e) <==> self.set_first_idx@[b0]
                    <= self.position@[e as int] < self.set_mid_idx@[b0]),
    {
        assert forall|e: usize| e < self.spec_size() implies (self.block_of(e) == b0
            <==> self.set_first_idx@[b0] <= self.position@[e as int] < self.set_last_idx@[b0]) && (
        self.block_of(e) == b0 && self.is_marked(e) <==> self.set_first_idx@[b0]
            <= self.position@[e as int] < self.set_mid_idx@[b0]) by {
            let p = self.position@[e as int] as int;
            assert(self.blk(p) == self.set_idx@[e as int]);
            if self.set_first_idx@[b0] <= p < self.set_last_idx@[b0] {
                assert(self.blk(p) == b0);
            }
        };
    }

    /// Clear the marks of the elements at positions `lo .. hi`.
    fn clear_marks(&mut self, lo: usize, hi: usize, b0: Ghost<int>)
        requires
            old(self).wf(),
            0 <= b0@ < old(self).set_count,
            lo == old(self).set_first_idx@[b0@],
            hi == old(self).set_last_idx@[b0@],
        ensures
            final(self).elements == old(self).elements,
            final(self).set_idx == old(self).set_idx,
            final(self).set_count == old(self).set_count,
            final(self).set_first_idx == old(self).set_first_idx,
            final(self).set_mid_idx == old(self).set_mid_idx,
            final(self).set_last_idx == old(self).set_last_idx,
            final(self).position == old(self).position,
            final(self).marked.wf(),
            final(self).marked@.len() == old(self).marked@.len(),
            forall|e: int|
                0 <= e < old(self).marked@.len() ==> #[trigger] final(self).marked@[e] == (old(
                    self,
                ).marked@[e] && !(lo <= old(self).position@[e] < hi)),
    {
        let ghost o = *self;
        let mut p = lo;
        while p < hi
            invariant
                o.wf(),
                lo <= p <= hi <= o.elements@.len(),
                self.elements == o.elements,
                self.set_idx == o.set_idx,
                self.set_count == o.set_count,
                self.set_first_idx == o.set_first_idx,
                self.set_mid_idx == o.set_mid_idx,
                self.set_last_idx == o.set_last_idx,
                self.position == o.position,
                self.marked.wf(),
                self.marked@.len() == o.marked@.len(),
                forall|e: int|
                    0 <= e < o.marked@.len() ==> #[trigger] self.marked@[e] == (o.marked@[e] && !(lo
                        <= o.position@[e] < p)),
            decreases hi - p,
        {
            let e = self.elements[p];
            self.marked.clear(e);
            proof {
                assert forall|x: int| 0 <= x < o.marked@.len() implies #[trigger] self.marked@[x] == (
                o.marked@[x] && !(lo <= o.position@[x] < p + 1)) by {
                    if o.position@[x] == p {
                        assert(o.elements@[p as int] == x);
                    }
                    if x == e as int {
                        assert(o.position@[o.elements@[p as int] as int] == p);
                    }
                };
            }
            p = p + 1;
        }
    }

    /// Move the elements at positions `lo .. hi` into block `new_set`, and
    /// clear their marks.
    fn move_marked(&mut self, lo: usize, hi: usize, new_set: usize, b0: Ghost<int>)
        requires
            old(self).marked.wf(),
            old(self).marked@.len() == old(self).elements@.len(),
            old(self).set_idx@.len() == old(self).elements@.len(),
            old(self).position@.len() == old(self).elements@.len(),
            lo <= hi <= old(self).elements@.len(),
            forall|p: int| 0 <= p < old(self).elements@.len() ==> #[trigger] old(self).elements@[p]
                < old(self).elements@.len(),
            forall|e: int|
                0 <= e < old(self).elements@.len() ==> #[trigger] old(self).position@[e]
                    < old(self).elements@.len() && old(self).elements@[old(
                    self,
                ).position@[e] as int] == e,
            forall|p: int|
                0 <= p < old(self).elements@.len() ==> #[trigger] old(self).position@[old(
                    self,
                ).elements@[p] as int] == p,
        ensures
            final(self).elements == old(self).elements,
            final(self).set_count == old(self).set_count,
            final(self).set_first_idx == old(self).set_first_idx,
            final(self).set_mid_idx == old(self).set_mid_idx,
            final(self).set_last_idx == old(self).set_last_idx,
            final(self).position == old(self).position,
            final(self).marked.wf(),
            final(self).marked@.len() == old(self).marked@.len(),
            final(self).set_idx@.len() == old(self).set_idx@.len(),
            forall|e: int|
                0 <= e < old(self).marked@.len() ==> #[trigger] final(self).marked@[e] == (old(
                    self,
                ).marked@[e] && !(lo <= old(self).position@[e] < hi)),
            forall|e: int|
                0 <= e < old(self).set_idx@.len() ==> #[trigger] final(self).set_idx@[e] == if lo
                    <= old(self).position@[e] < hi {
                    new_set
                } else {
                    old(self).set_idx@[e]
                },
    {
        let ghost o = *self;
        let mut p = lo;
        while p < hi
            invariant
                lo <= p <= hi <= o.elements@.len(),
                o.marked@.len() == o.elements@.len(),
                o.set_idx@.len() == o.elements@.len(),
                o.position@.len() == o.elements@.len(),
                forall|q: int| 0 <= q < o.elements@.len() ==> #[trigger] o.elements@[q]
                    < o.elements@.len(),
                forall|e: int|
                    0 <= e < o.elements@.len() ==> #[trigger] o.position@[e] < o.elements@.len()
                        && o.elements@[o.position@[e] as int] == e,
                forall|q: int|
                    0 <= q < o.elements@.len() ==> #[trigger] o.position@[o.elements@[q] as int]
                        == q,
                self.elements == o.elements,
                self.set_count == o.set_count,
                self.set_first_idx == o.set_first_idx,
                self.set_mid_idx == o.set_mid_idx,
                self.set_last_idx == o.set_last_idx,
                self.position == o.position,
                self.marked.wf(),
                self.marked@.len() == o.marked@.len(),
                self.set_idx@.len() == o.set_idx@.len(),
                forall|e: int|
                    0 <= e < o.marked@.len() ==> #[trigger] self.marked@[e] == (o.marked@[e] && !(lo
                        <= o.position@[e] < p)),
                forall|e: int|
                    0 <= e < o.set_idx@.len() ==> #[trigger] self.set_idx@[e] == if lo
                        <= o.position@[e] < p {
                        new_set
                    } else {
                        o.set_idx@[e]
                    },
            decreases hi - p,
        {
            let e = self.elements[p];
            self.marked.clear(e);
            self.set_idx.set(e, new_set);
            proof {
                assert forall|x: int| 0 <= x < o.marked@.len() implies #[trigger] self.marked@[x] == (
                o.marked@[x] && !(lo <= o.position@[x] < p + 1)) && self.set_idx@[x] == if lo
                    <= o.position@[x] < p + 1 {
                    new_set
                } else {
                    o.set_idx@[x]
                } by {
                    if o.position@[x] == p {
                        assert(o.elements@[p as int] == x);
                    }
                    if x == e as int {
                        assert(o.position@[o.elements@[p as int] as int] == p);
                    }
                };
            }
            p = p + 1;
        }
    }

    proof fn lemma_reset_wf(&self, o: &Self, b0: int)
        requires
            o.wf(),
            0 <= b0 < o.set_count,
            o.set_mid_idx@[b0] == o.set_last_idx@[b0],
            self.elements == o.elements,
            self.set_idx == o.set_idx,
            self.set_count == o.set_count,
            self.set_first_idx == o.set_first_idx,
            self.set_last_idx == o.set_last_idx,
            self.set_mid_idx@ == o.set_mid_idx@.update(b0, o.set_first_idx@[b0]),
            self.position == o.position,
            self.marked.wf(),
            self.marked@.len() == o.marked@.len(),
            forall|e: int|
                0 <= e < o.marked@.len() ==> #[trigger] self.marked@[e] == (o.marked@[e] && !(
                o.set_first_idx@[b0] <= o.position@[e] < o.set_last_idx@[b0])),
        ensures
            self.wf(),
            forall|e: usize|
                e < self.spec_size() ==> #[trigger] self.block_of(e) == o.block_of(e),
    {
        let f = o.set_first_idx@[b0] as int;
        let l = o.set_last_idx@[b0] as int;
        assert forall|p: int| 0 <= p < o.elements@.len() implies {
            let bb = #[trigger] self.blk(p);
            &&& 0 <= bb < self.set_count
            &&& self.set_first_idx@[bb] <= p < self.set_last_idx@[bb]
            &&& self.marked@[self.elements@[p] as int] == (p < self.set_mid_idx@[bb])
        } by {
            assert(self.blk(p) == o.blk(p));
            assert(o.position@[o.elements@[p] as int] == p);
        };
        assert forall|bb: int, p: int|
            #![trigger self.set_first_idx@[bb], self.blk(p)]
            0 <= bb < self.set_count && self.set_first_idx@[bb] <= p < self.set_last_idx@[bb] implies self.blk(
            p,
        ) == bb by {
            assert(o.blk(p) == bb);
        };
        assert forall|bb: int| 0 <= bb < self.set_count implies ascending_range(
            self.elements@,
            #[trigger] self.set_mid_idx@[bb] as int,
            self.set_last_idx@[bb] as int,
        ) && ascending_range(
            self.elements@,
            self.set_first_idx@[bb] as int,
            self.set_mid_idx@[bb] as int,
        ) by {
            assert(ascending_range(o.elements@, o.set_mid_idx@[bb] as int, o.set_last_idx@[bb] as int));
            assert(ascending_range(o.elements@, o.set_first_idx@[bb] as int, o.set_mid_idx@[bb] as int));
        };
    }

    proof fn lemma_split_wf(&self, o: &Self, b0: int)
        requires
            o.wf(),
            0 <= b0 < o.set_count,
            o.set_count < usize::MAX,
            o.set_first_idx@[b0] < o.set_mid_idx@[b0] < o.set_last_idx@[b0],
            self.elements == o.elements,
            self.set_count == o.set_count + 1,
            self.set_first_idx@ == o.set_first_idx@.update(b0, o.set_mid_idx@[b0]).push(
                o.set_first_idx@[b0],
            ),
            self.set_mid_idx@ == o.set_mid_idx@.push(o.set_first_idx@[b0]),
            self.set_last_idx@ == o.set_last_idx@.push(o.set_mid_idx@[b0]),
            self.position == o.position,
            self.marked.wf(),
            self.marked@.len() == o.marked@.len(),
            self.set_idx@.len() == o.set_idx@.len(),
            forall|e: int|
                0 <= e < o.marked@.len() ==> #[trigger] self.marked@[e] == (o.marked@[e] && !(
                o.set_first_idx@[b0] <= o.position@[e] < o.set_mid_idx@[b0])),
            forall|e: int|
                0 <= e < o.set_idx@.len() ==> #[trigger] self.set_idx@[e] == if o.set_first_idx@[b0]
                    <= o.position@[e] < o.set_mid_idx@[b0] {
                    o.set_count
                } else {
                    o.set_idx@[e]
                },
        ensures
            self.wf(),
            forall|e: usize|
                e < self.spec_size() ==> #[trigger] self.block_of(e) == if o.block_of(e) == b0
                    && o.is_marked(e) {
                    o.set_count
                } else {
                    o.block_of(e)
                },
    {
        let f = o.set_first_idx@[b0] as int;
        let m = o.set_mid_idx@[b0] as int;
        let l = o.set_last_idx@[b0] as int;
        let nb = o.set_count as int;
        let n = o.elements@.len() as int;
        assert forall|p: int| 0 <= p < n implies #[trigger] self.blk(p) == if f <= p < m {
            nb
        } else {
            o.blk(p)
        } by {
            assert(o.position@[o.elements@[p] as int] == p);
        };
        assert forall|p: int| 0 <= p < n implies {
            let bb = #[trigger] self.blk(p);
            &&& 0 <= bb < self.set_count
            &&& self.set_first_idx@[bb] <= p < self.set_last_idx@[bb]
            &&& self.marked@[self.elements@[p] as int] == (p < self.set_mid_idx@[bb])
        } by {
            assert(o.position@[o.elements@[p] as int] == p);
            if f <= p < l {
                assert(o.blk(p) == b0);
            }
        };
        assert forall|bb: int, p: int|
            #![trigger self.set_first_idx@[bb], self.blk(p)]
            0 <= bb < self.set_count && self.set_first_idx@[bb] <= p < self.set_last_idx@[bb] implies self.blk(
            p,
        ) == bb by {
            if bb == nb {
            } else if bb == b0 {
                assert(o.blk(p) == b0);
            } else {
                assert(o.blk(p) == bb);
                if f <= p < l {
                    assert(o.blk(p) == b0);
                }
            }
        };
        assert forall|bb: int| 0 <= bb < self.set_count implies ascending_range(
            self.elements@,
            #[trigger] self.set_mid_idx@[bb] as int,
            self.set_last_idx@[bb] as int,
        ) && ascending_range(
            self.elements@,
            self.set_first_idx@[bb] as int,
            self.set_mid_idx@[bb] as int,
        ) by {
            if bb < nb {
                assert(ascending_range(o.elements@, o.set_mid_idx@[bb] as int, o.set_last_idx@[bb] as int));
                assert(ascending_range(o.elements@, o.set_first_idx@[bb] as int, o.set_mid_idx@[bb] as int));
            } else {
                assert(ascending_range(o.elements@, f, m));
            }
        };
        assert forall|e: usize| e < self.spec_size() implies #[trigger] self.block_of(e) == if o.block_of(e)
            == b0 && o.is_marked(e) {
            o.set_count
        } else {
            o.block_of(e)
        } by {
            let p = o.position@[e as int] as int;
            assert(o.blk(p) == o.set_idx@[e as int]);
            if f <= p < l {
                assert(o.blk(p) == b0);
            }
        };
    }

    /// Walk the elements of block `set` in ascending order.
    pub fn set_iter(&self, set: SetRepr) -> (r: SetPartitionIter)
        requires
            self.wf(),
            set < self.spec_num_blocks(),
        ensures
            r.wf(),
            r.all() == self.block(set).to_set(),
            r.passed() == Set::<usize>::empty(),
    {
        let marked = copy_slice(self.marked_slice(set));
        let unmarked = copy_slice(self.unmarked_slice(set));
        proof {
            let b = set as int;
            assert(ascending_range(self.elements@, self.set_first_idx@[b] as int, self.set_mid_idx@[b] as int));
            assert(ascending_range(self.elements@, self.set_mid_idx@[b] as int, self.set_last_idx@[b] as int));
            vstd::seq_lib::seq_to_set_distributes_over_add(marked@, unmarked@);
            assert(prefix_set(marked@, 0) =~= Set::<usize>::empty());
            assert(prefix_set(unmarked@, 0) =~= Set::<usize>::empty());
        }
        SetPartitionIter { marked, unmarked, mi: 0, ui: 0 }
    }

    /// Number of blocks.
    pub fn num_partitions(&self) -> (r: usize)
        ensures
            r == self.spec_num_blocks(),
    {
        self.set_count
    }

    /// Number of elements in block `set`.
    pub fn size(&self, set: SetRepr) -> (r: usize)
        requires
            self.wf(),
            set < self.spec_num_blocks(),
        ensures
            r == self.block(set).len(),
    {
        self.set_last_idx[set] - self.set_first_idx[set]
    }

    /// The block that holds `item`.
    pub fn set(&self, item: usize) -> (r: SetRepr)
        requires
            self.wf(),
            item < self.spec_size(),
        ensures
            r == self.block_of(item),
    {
        self.set_idx[item]
    }

    /// Return `true` if block `set` has no marked element.
    pub fn no_marks(&self, set: SetRepr) -> (r: bool)
        requires
            self.wf(),
            set < self.spec_num_blocks(),
        ensures
            r == (self.marked_part(set).len() == 0),
    {
        self.set_mid_idx[set] == self.set_first_idx[set]
    }

    /// The marked elements of block `set`, ascending.
    pub fn marked_slice(&self, set: SetRepr) -> (r: &[usize])
        requires
            self.wf(),
            set < self.spec_num_blocks(),
        ensures
            r@ == self.marked_part(set),
    {
        slice_range(self.elements.as_slice(), self.set_first_idx[set], self.set_mid_idx[set])
    }

    /// The unmarked elements of block `set`, ascending.
    pub fn unmarked_slice(&self, set: SetRepr) -> (r: &[usize])
        requires
            self.wf(),
            set < self.spec_num_blocks(),
        ensures
            r@ == self.unmarked_part(set),
    {
        slice_range(self.elements.as_slice(), self.set_mid_idx[set], self.set_last_idx[set])
    }
}

/// The position of `item` in the ascending range `lo .. hi` of `s`, found by
/// binary search; `item` is known to stand at `at`.
fn find_in_range(s: &Vec<usize>, lo: usize, hi: usize, item: usize, at: Ghost<int>) -> (r: usize)
    requires
        lo <= at@ < hi <= s@.len(),
        s@[at@] == item,
        ascending_range(s@, lo as int, hi as int),
    ensures
        r == at@,
{
    let mut a = lo;
    let mut b = hi;
    while a < b
        invariant
            lo <= a <= at@ < b <= hi <= s@.len(),
            s@[at@] == item,
            ascending_range(s@, lo as int, hi as int),
        decreases b - a,
    {
        let m = a + (b - a) / 2;
        let v = s[m];
        if v == item {
            return m;
        } else if v < item {
            a = m + 1;
        } else {
            b = m;
        }
    }
    a
}

fn copy_slice(s: &[usize]) -> (r: Vec<usize>)
    ensures
        r@ == s@,
{
    let mut out: Vec<usize> = Vec::new();
    let mut k: usize = 0;
    while k < s.len()
        invariant
            k <= s@.len(),
            out@ == s@.subrange(0, k as int),
        decreases s@.len() - k,
    {
        out.push(s[k]);
        assert(s@.subrange(0, k + 1) =~= s@.subrange(0, k as int).push(s@[k as int]));
        k = k + 1;
    }
    assert(s@.subrange(0, s@.len() as int) =~= s@);
    out
}

/// The elements of one block in ascending order, merged from its marked and
/// its unmarked part.
pub struct SetPartitionIter {
    marked: Vec<usize>,
    unmarked: Vec<usize>,
    mi: usize,
    ui: usize,
}

impl SetPartitionIter {
    /// Both parts ascend and the cursors into them are in step.
    pub closed spec fn wf(&self) -> bool {
        cursors(self.marked@, self.mi as int, self.unmarked@, self.ui as int)
    }

    /// The elements already returned.
    pub closed spec fn passed(&self) -> Set<usize> {
        prefix_set(self.marked@, self.mi as int).union(prefix_set(self.unmarked@, self.ui as int))
    }

    /// All elements of the block.
    pub closed spec fn all(&self) -> Set<usize> {
        self.marked@.to_set().union(self.unmarked@.to_set())
    }

    /// Return the least element not yet returned, or `None` once all are.
    pub fn next(&mut self) -> (r: Option<usize>)
        requires
            old(self).wf(),
        ensures
            final(self).wf(),
            final(self).all() == old(self).all(),
            match r {
                Some(x) => {
                    &&& final(self).passed() == old(self).passed().insert(x)
                    &&& !old(self).passed().contains(x)
                    &&& old(self).all().contains(x)
                    &&& forall|y: usize| #[trigger] old(self).passed().contains(y) ==> y < x
                },
                None => final(self).passed() == final(self).all(),
            },
    {
        let r = union_logic(self.marked.as_slice(), &mut self.mi, self.unmarked.as_slice(), &mut self.ui);
        proof {
            assert(prefix_set(self.marked@, self.marked@.len() as int) =~= self.marked@.to_set()) by {
                assert(self.marked@.subrange(0, self.marked@.len() as int) =~= self.marked@);
            };
            assert(prefix_set(self.unmarked@, self.unmarked@.len() as int) =~= self.unmarked@.to_set()) by {
                assert(self.unmarked@.subrange(0, self.unmarked@.len() as int) =~= self.unmarked@);
            };
            if let Some(x) = r {
                let pm = prefix_set(self.marked@, self.mi as int);
                let pu = prefix_set(self.unmarked@, self.ui as int);
                assert(pm.union(pu).contains(x));
                if pm.contains(x) {
                    let k = choose|k: int| 0 <= k < self.mi && self.marked@.subrange(0, self.mi as int)[k] == x;
                    assert(self.marked@[k] == x);
                    assert(self.marked@.to_set().contains(x));
                } else {
                    let k = choose|k: int| 0 <= k < self.ui && self.unmarked@.subrange(0, self.ui as int)[k] == x;
                    assert(self.unmarked@[k] == x);
                    assert(self.unmarked@.to_set().contains(x));
                }
            }
        }
        r
    }
}

fn slice_range(s: &[usize], lo: usize, hi: usize) -> (r: &[usize])
    requires
        lo <= hi <= s@.len(),
    ensures
        r@ == s@.subrange(lo as int, hi as int),
{
    let (_, tail) = s.split_at(lo);
    let (mid, _) = tail.split_at(hi - lo);
    assert(mid@ =~= s@.subrange(lo as int, hi as int));
    mid
}

} // verus!
