//! Stepping through a sequence two adjacent elements at a time.

use vstd::prelude::*;

verus! {

/// Anything that can hand out its adjacent pairs.
pub trait IterPairs<T: Copy> {
    spec fn pair_source(&self) -> Seq<T>;

    /// A walker over the adjacent pairs of this value.
    fn pairs(&self) -> (r: IterPair<T>)
        ensures
            r.items@ == self.pair_source(),
            r.idx == 0,
    ;
}

impl<T: Copy> IterPairs<T> for Vec<T> {
    open spec fn pair_source(&self) -> Seq<T> {
        self@
    }

    fn pairs(&self) -> (r: IterPair<T>)
        ensures
            r.items@ == self@,
            r.idx == 0,
    {
        let mut items: Vec<T> = Vec::new();
        let mut i: usize = 0;
        while i < self.len()
            invariant
                0 <= i <= self@.len(),
                items@ =~= self@.take(i as int),
            decreases self@.len() - i,
        {
            items.push(self[i]);
            i = i + 1;
        }
        proof {
            assert(self@.take(self@.len() as int) =~= self@);
        }
        IterPair { items, idx: 0 }
    }
}

/// A walker yielding `(v[0], v[1])`, `(v[1], v[2])`, and so on.
pub struct IterPair<T: Copy> {
    pub items: Vec<T>,
    pub idx: usize,
}

impl<T: Copy> IterPair<T> {
    /// The next adjacent pair, or `None` once the end is reached.
    pub fn next(&mut self) -> (r: Option<(T, T)>)
        ensures
            ({
                let v = old(self).items@;
                let i = old(self).idx as int;
                &&& final(self).items@ == v
                &&& (i + 1 < v.len() ==> r == Some((v[i], v[i + 1])) && final(self).idx == i + 1)
                &&& (i + 1 >= v.len() ==> r is None && final(self).idx == i)
            }),
    {
        if self.items.len() > 0 && self.idx < self.items.len() - 1 {
            let a = self.items[self.idx];
            let b = self.items[self.idx + 1];
            self.idx = self.idx + 1;
            Some((a, b))
        } else {
            None
        }
    }
}

} // verus!
