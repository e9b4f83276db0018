use vstd::prelude::*;

verus! {

/// Two sequences walked together by a join function, which is handed both
/// sequences with their cursors and returns the next item with the cursors
/// it leaves behind.
pub struct Join<T, F> {
    left: Vec<T>,
    right: Vec<T>,
    left_pos: usize,
    right_pos: usize,
    join: F,
}

impl<T, F: Fn(&Vec<T>, usize, &Vec<T>, usize) -> (Option<T>, usize, usize)> Join<T, F> {
    /// The left sequence.
    pub closed spec fn spec_left(&self) -> Seq<T> {
        self.left@
    }

    /// The right sequence.
    pub closed spec fn spec_right(&self) -> Seq<T> {
        self.right@
    }

    /// The cursors into the two sequences.
    pub closed spec fn spec_cursors(&self) -> (usize, usize) {
        (self.left_pos, self.right_pos)
    }

    /// The join function.
    pub closed spec fn spec_join(&self) -> F {
        self.join
    }

    /// The join function accepts the sequences and cursors as they stand.
    pub closed spec fn can_step(&self) -> bool {
        self.join.requires((&self.left, self.left_pos, &self.right, self.right_pos))
    }

    /// The join function, given the sequences and cursors as they stand, may
    /// return `item` and the cursors `(l, r)`.
    pub closed spec fn may_step_to(&self, item: Option<T>, l: usize, r: usize) -> bool {
        self.join.ensures((&self.left, self.left_pos, &self.right, self.right_pos), (item, l, r))
    }

    /// Join `left` and `right` by `join`, with both cursors at the start.
    pub fn new(left: Vec<T>, right: Vec<T>, join: F) -> (r: Self)
        ensures
            r.spec_left() == left@,
            r.spec_right() == right@,
            r.spec_cursors() == (0usize, 0usize),
            r.spec_join() == join,
    {
        Join { left, right, left_pos: 0, right_pos: 0, join }
    }

    /// Ask the join function for the next item, and keep the cursors it
    /// returns.
    pub fn next(&mut self) -> (r: Option<T>)
        requires
            old(self).can_step(),
        ensures
            final(self).spec_left() == old(self).spec_left(),
            final(self).spec_right() == old(self).spec_right(),
            final(self).spec_join() == old(self).spec_join(),
            old(self).may_step_to(r, final(self).spec_cursors().0, final(self).spec_cursors().1),
    {
        let (item, l, r) = (self.join)(&self.left, self.left_pos, &self.right, self.right_pos);
        self.left_pos = l;
        self.right_pos = r;
        item
    }
}

} // verus!
