use vstd::prelude::*;

verus! {

/// The pairs of an element of `a` and an element of `b`, in the order of
/// `a` first and `b` second: `(a[0], b[0]), (a[0], b[1]), ...`.
pub struct CartesianProductIter<T: Copy, U: Copy> {
    iter_a: Vec<T>,
    iter_b: Vec<U>,
    a_pos: usize,
    b_pos: usize,
}

impl<T: Copy, U: Copy> CartesianProductIter<T, U> {
    /// The first sequence.
    pub closed spec fn spec_a(&self) -> Seq<T> {
        self.iter_a@
    }

    /// The second sequence.
    pub closed spec fn spec_b(&self) -> Seq<U> {
        self.iter_b@
    }

    /// The position in the first sequence of the next pair.
    pub closed spec fn spec_a_pos(&self) -> nat {
        self.a_pos as nat
    }

    /// The position in the second sequence of the next pair.
    pub closed spec fn spec_b_pos(&self) -> nat {
        self.b_pos as nat
    }

    /// The position in the second sequence stays within it.
    pub closed spec fn wf(&self) -> bool {
        self.b_pos < self.iter_b@.len() || self.b_pos == 0
    }

    /// The pairs of `iter_a` and `iter_b`, starting from the first.
    pub fn new(iter_a: Vec<T>, iter_b: Vec<U>) -> (r: Self)
        ensures
            r.wf(),
            r.spec_a() == iter_a@,
            r.spec_b() == iter_b@,
            r.spec_a_pos() == 0,
            r.spec_b_pos() == 0,
    {
        CartesianProductIter { iter_a, iter_b, a_pos: 0, b_pos: 0 }
    }

    /// Return the next pair, or `None` once every pair has been returned.
    pub fn next(&mut self) -> (r: Option<(T, U)>)
        requires
            old(self).wf(),
        ensures
            final(self).wf(),
            final(self).spec_a() == old(self).spec_a(),
            final(self).spec_b() == old(self).spec_b(),
            ({
                let (i, j) = (old(self).spec_a_pos() as int, old(self).spec_b_pos() as int);
                if i < old(self).spec_a().len() && j < old(self).spec_b().len() {
                    &&& r == Some((old(self).spec_a()[i], old(self).spec_b()[j]))
                    &&& if j + 1 < old(self).spec_b().len() {
                        final(self).spec_a_pos() == i && final(self).spec_b_pos() == j + 1
                    } else {
                        final(self).spec_a_pos() == i + 1 && final(self).spec_b_pos() == 0
                    }
                } else {
                    &&& r is None
                    &&& final(self).spec_a_pos() == old(self).spec_a_pos()
                    &&& final(self).spec_b_pos() == old(self).spec_b_pos()
                }
            }),
    {
        if self.a_pos >= self.iter_a.len() || self.b_pos >= self.iter_b.len() {
            return None;
        }
        let item = (self.iter_a[self.a_pos], self.iter_b[self.b_pos]);
        if self.b_pos + 1 < self.iter_b.len() {
            self.b_pos = self.b_pos + 1;
        } else {
            self.b_pos = 0;
            self.a_pos = self.a_pos + 1;
        }
        Some(item)
    }
}

} // verus!
