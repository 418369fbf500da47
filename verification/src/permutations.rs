//! A permutation generator over a fixed set of items, by repeated single
//! swaps (Heap's method): each draw yields a reordering of the same items,
//! and the first draw yields the items as given.
use vstd::prelude::*;
use vstd::seq_lib::group_to_multiset_ensures;
use vstd::seq_lib::to_multiset_update;

verus! {

/// Yields one permutation of its items per call to `next`, until all have
/// been seen.
pub struct Permutator<T> {
    last: Vec<T>,
    i: usize,
    state: Vec<usize>,
    count: usize,
}

impl<T> Permutator<T> {
    /// The items in their current order.
    pub closed spec fn items(self) -> Seq<T> {
        self.last@
    }

    /// The swap-state ledger always matches the items in length, and the
    /// working index stays within it; `new` establishes this and `next`
    /// keeps it.
    pub closed spec fn wf(self) -> bool {
        &&& self.state@.len() == self.last@.len()
        &&& self.i as int <= self.last@.len()
    }

    /// Nothing has been drawn yet: the first draw returns the items in
    /// their given order.
    pub closed spec fn fresh(self) -> bool {
        self.count == 0
    }

    /// Every ordering has been yielded: each further draw returns `None`
    /// and changes nothing.
    pub closed spec fn done(self) -> bool {
        self.count != 0 && self.i as int >= self.last@.len()
    }
}

impl<T: Copy> Permutator<T> {
    /// A generator over the items of `v`, none drawn yet.
    pub fn new(v: &[T]) -> (p: Permutator<T>)
        ensures
            p.wf(),
            p.fresh(),
            p.items() == v@,
    {
        let last = copy_items(v);
        let mut state: Vec<usize> = Vec::new();
        let mut k: usize = 0;
        while k < last.len()
            invariant
                state@.len() == k <= last@.len(),
            decreases last@.len() - k,
        {
            state.push(0);
            k = k + 1;
        }
        Permutator { last, i: 0, state, count: 0 }
    }

    /// The next permutation: a reordering of exactly the items given at
    /// construction, or `None` once every ordering has been yielded.
    pub fn next(&mut self) -> (r: Option<Vec<T>>)
        requires
            old(self).wf(),
        ensures
            final(self).wf(),
            final(self).items().to_multiset() == old(self).items().to_multiset(),
            final(self).items().len() == old(self).items().len(),
            match r {
                Some(v) => v@ == final(self).items(),
                None => final(self).items() == old(self).items(),
            },
            !final(self).fresh(),
            old(self).fresh() ==> (r matches Some(v) && v@ == old(self).items()),
            r is None ==> final(self).done(),
            old(self).done() ==> r is None && *final(self) == *old(self),
    {
        if self.count == 0 {
            self.count = 1;
            return Some(copy_items(self.last.as_slice()));
        }
        if self.i >= self.last.len() {
            return None;
        }
        loop
            invariant
                self.state@.len() == self.last@.len(),
                (self.i as int) < self.last@.len(),
                self.last@.len() <= usize::MAX,
                self.last == old(self).last,
                self.count == old(self).count,
                self.count != 0,
                !old(self).done(),
            ensures
                self.state@.len() == self.last@.len(),
                (self.i as int) < self.last@.len(),
                self.state@[self.i as int] < self.i,
                self.last == old(self).last,
                self.count == old(self).count,
            decreases self.last@.len() - self.i,
        {
            if self.state[self.i] >= self.i {
                self.state.set(self.i, 0);
                self.i = self.i + 1;
                if self.i >= self.last.len() {
                    return None;
                }
            } else {
                break;
            }
        }
        if self.i % 2 == 0 {
            swap_cells(&mut self.last, self.i, 0);
        } else {
            let j = self.state[self.i];
            swap_cells(&mut self.last, j, self.i);
        }
        let bump = self.state[self.i] + 1;
        self.state.set(self.i, bump);
        self.i = 0;
        Some(copy_items(self.last.as_slice()))
    }
}

/// A plain element-wise copy of a slice.
fn copy_items<T: Copy>(v: &[T]) -> (r: Vec<T>)
    ensures
        r@ == v@,
{
    let mut r: Vec<T> = Vec::new();
    let mut i: usize = 0;
    while i < v.len()
        invariant
            0 <= i <= v@.len(),
            r@ == v@.take(i as int),
        decreases v@.len() - i,
    {
        r.push(v[i]);
        proof {
            assert(v@.take(i + 1) =~= v@.take(i as int).push(v@[i as int]));
        }
        i = i + 1;
    }
    proof {
        assert(v@.take(v@.len() as int) =~= v@);
    }
    r
}

/// Exchange two elements; the items as a multiset are untouched.
fn swap_cells<T: Copy>(v: &mut Vec<T>, a: usize, b: usize)
    requires
        (a as int) < old(v)@.len(),
        (b as int) < old(v)@.len(),
    ensures
        final(v)@ == old(v)@.update(a as int, old(v)@[b as int]).update(
            b as int,
            old(v)@[a as int],
        ),
        final(v)@.to_multiset() == old(v)@.to_multiset(),
        final(v)@.len() == old(v)@.len(),
{
    let x = v[a];
    let y = v[b];
    v.set(a, y);
    v.set(b, x);
    proof {
        broadcast use group_to_multiset_ensures;
        broadcast use to_multiset_update;

        let s = old(v)@;
        if a == b {
            assert(v@ =~= s.update(a as int, s[b as int]).update(b as int, s[a as int]));
            assert(v@.to_multiset() =~= s.to_multiset());
        } else {
            let s1 = s.update(a as int, s[b as int]);
            assert(s.contains(s[a as int]));
            assert(s1.contains(s1[b as int]));
            assert(s1[b as int] == s[b as int]);
            assert(v@.to_multiset() == s.to_multiset().insert(s[b as int]).remove(
                s[a as int],
            ).insert(s[a as int]).remove(s[b as int]));
            assert(v@.to_multiset() =~= s.to_multiset());
        }
    }
}

} // verus!
