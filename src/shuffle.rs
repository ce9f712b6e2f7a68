//! Random shuffles of index states: Fisher–Yates and Sattolo's cycles.
use vstd::prelude::*;
use crate::math::count::{checked_range_product, fact};
use crate::order::{copy_of, swap_at};
use crate::random::random_below;
use crate::cycles::{
    lemma_identity_cycles, lemma_last_cycle, lemma_no_fixed_point_on_cycle, lemma_sattolo_step,
    sattolo_cycles, single_cycle,
};
use crate::shift::{
    apply_spec, apply_transform, identity, identity_spec, is_index_permutation,
    is_permutation_of_indices, lemma_swap_index_permutation,
};

verus! {

/// `t` is `s` with the entries at `c` and `j` exchanged.
pub open spec fn swapped(s: Seq<usize>, c: int, j: int) -> Seq<usize> {
    s.update(c, s[j]).update(j, s[c])
}

/// Random permutations of the positions of a vector by the Fisher–Yates
/// shuffle: each step lowers the counter, draws `j` in `0..=counter` and
/// swaps the entries at `counter` and `j` of the index state.
pub struct FisherYates<T> {
    vec: Vec<T>,
    state: Vec<usize>,
    counter: usize,
}

impl<T: Copy> FisherYates<T> {
    /// The data that the index states reorder.
    pub closed spec fn items(&self) -> Seq<T> {
        self.vec@
    }

    /// The current index state.
    pub closed spec fn index_state(&self) -> Seq<usize> {
        self.state@
    }

    /// How many steps are left.
    pub closed spec fn steps_left(&self) -> nat {
        self.counter as nat
    }

    /// The index state is a permutation of the positions of the data.
    pub closed spec fn wf(&self) -> bool {
        &&& self.state@.len() == self.vec@.len()
        &&& is_index_permutation(self.state@)
        &&& self.counter <= self.vec@.len()
    }

    /// A shuffle of a copy of `v`, from the identity state, with `n` steps.
    pub fn new(v: &[T]) -> (f: Self)
        ensures
            f.wf(),
            f.items() == v@,
            f.index_state() == identity_spec(v@.len()),
            f.steps_left() == v@.len(),
    {
        let vec = copy_of(v);
        let state = identity(vec.len());
        let counter = state.len();
        FisherYates { vec, state, counter }
    }

    /// The next step of the shuffle and the index state it leaves; `None`
    /// once the counter is zero.
    pub fn next(&mut self) -> (res: Option<Vec<usize>>)
        requires
            old(self).wf(),
        ensures
            final(self).wf(),
            final(self).items() == old(self).items(),
            final(self).index_state().len() == final(self).items().len(),
            is_index_permutation(final(self).index_state()),
            res is None <==> old(self).steps_left() == 0,
            res is None ==> *final(self) == *old(self),
            res matches Some(s) ==> {
                &&& s@ == final(self).index_state()
                &&& final(self).steps_left() == old(self).steps_left() - 1
                &&& exists|j: int|
                    0 <= j <= final(self).steps_left() && final(self).index_state() == #[trigger] swapped(
                        old(self).index_state(),
                        final(self).steps_left() as int,
                        j,
                    )
            },
    {
        if self.counter > 0 {
            self.counter = self.counter - 1;
            let c = self.counter;
            let j = random_below(c + 1);
            proof {
                lemma_swap_index_permutation(self.state@, c as int, j as int);
            }
            swap_at(&mut self.state, c, j);
            assert(self.index_state() == swapped(
                old(self).index_state(),
                self.steps_left() as int,
                j as int,
            ));
            Some(copy_of(self.state.as_slice()))
        } else {
            None
        }
    }

    /// `(1, Some(n!))` while steps are left, `(0, Some(0))` once exhausted or
    /// for empty data; `None` for an `n!` above `usize::MAX`.
    pub fn size_hint(&self) -> (h: (usize, Option<usize>))
        ensures
            self.items().len() == 0 || self.steps_left() == 0 ==> h == (0usize, Some(0usize)),
            self.items().len() > 0 && self.steps_left() > 0 ==> h.0 == 1 && (h.1 is Some
                <==> fact(self.items().len()) <= usize::MAX) && (h.1 matches Some(c) ==> c
                == fact(self.items().len())),
    {
        let n = self.vec.len();
        if n == 0 || self.counter == 0 {
            (0, Some(0))
        } else {
            (1, checked_range_product(1, n))
        }
    }
}

/// Random cyclic permutations of the positions of a vector by Sattolo's
/// algorithm: each step lowers the counter, draws `j` in `0..counter` and
/// swaps the entries at `counter` and `j` of the index state.
pub struct SatCycles<T> {
    vec: Vec<T>,
    state: Vec<usize>,
    counter: usize,
}

impl<T: Copy> SatCycles<T> {
    /// The data that the index states reorder.
    pub closed spec fn items(&self) -> Seq<T> {
        self.vec@
    }

    /// The current index state.
    pub closed spec fn index_state(&self) -> Seq<usize> {
        self.state@
    }

    /// The counter: steps remain while it is above one.
    pub closed spec fn position(&self) -> nat {
        self.counter as nat
    }

    /// The index state is a permutation of the positions of the data, with
    /// the cycle structure of Sattolo's algorithm at the counter.
    pub closed spec fn wf(&self) -> bool {
        &&& self.state@.len() == self.vec@.len()
        &&& is_index_permutation(self.state@)
        &&& self.counter <= self.vec@.len()
        &&& self.vec@.len() >= 1 ==> self.counter >= 1
        &&& sattolo_cycles(self.state@, self.counter as int)
    }

    /// A shuffle of a copy of `v`, from the identity state.
    pub fn new(v: &[T]) -> (s: Self)
        ensures
            s.wf(),
            s.items() == v@,
            s.index_state() == identity_spec(v@.len()),
            s.position() == v@.len(),
            sattolo_cycles(s.index_state(), s.position() as int),
    {
        let vec = copy_of(v);
        let state = identity(vec.len());
        let counter = state.len();
        proof {
            lemma_identity_cycles(state@);
        }
        SatCycles { vec, state, counter }
    }

    /// The next step of the shuffle and the index state it leaves; `None`
    /// once the counter is at most one.
    pub fn next(&mut self) -> (res: Option<Vec<usize>>)
        requires
            old(self).wf(),
        ensures
            final(self).wf(),
            final(self).items() == old(self).items(),
            final(self).index_state().len() == final(self).items().len(),
            is_index_permutation(final(self).index_state()),
            sattolo_cycles(final(self).index_state(), final(self).position() as int),
            res is None <==> old(self).position() <= 1,
            res is None ==> *final(self) == *old(self),
            res matches Some(s) ==> {
                &&& s@ == final(self).index_state()
                &&& final(self).position() == old(self).position() - 1
                &&& exists|j: int|
                    0 <= j < final(self).position() && final(self).index_state() == #[trigger] swapped(
                        old(self).index_state(),
                        final(self).position() as int,
                        j,
                    )
            },
    {
        if self.counter > 1 {
            self.counter = self.counter - 1;
            let c = self.counter;
            let j = random_below(c);
            proof {
                lemma_swap_index_permutation(self.state@, c as int, j as int);
                lemma_sattolo_step(self.state@, c + 1, j as int);
            }
            swap_at(&mut self.state, c, j);
            assert(self.index_state() == swapped(
                old(self).index_state(),
                self.position() as int,
                j as int,
            ));
            Some(copy_of(self.state.as_slice()))
        } else {
            None
        }
    }

    /// `(1, Some(n!))` while steps are left, `(0, Some(0))` once exhausted or
    /// for empty data; `None` for an `n!` above `usize::MAX`.
    pub fn size_hint(&self) -> (h: (usize, Option<usize>))
        ensures
            self.items().len() == 0 || self.position() <= 1 ==> h == (0usize, Some(0usize)),
            self.items().len() > 0 && self.position() > 1 ==> h.0 == 1 && (h.1 is Some
                <==> fact(self.items().len()) <= usize::MAX) && (h.1 matches Some(c) ==> c
                == fact(self.items().len())),
    {
        let n = self.vec.len();
        if n == 0 || self.counter <= 1 {
            (0, Some(0))
        } else {
            (1, checked_range_product(1, n))
        }
    }

    /// The data that the index states reorder.
    pub fn data(&self) -> (r: &Vec<T>)
        ensures
            r@ == self.items(),
    {
        &self.vec
    }

    /// Reorders the data by the current index state: position `i` then holds
    /// what was at `state[i]`. Returns `false`, changing nothing, when the
    /// state has another length than the data, an index out of range or a
    /// repeated index.
    pub fn apply_state(&mut self) -> (ok: bool)
        ensures
            ok <==> (old(self).index_state().len() == old(self).items().len()
                && is_index_permutation(old(self).index_state())),
            ok ==> final(self).items() == apply_spec(old(self).items(), old(self).index_state()),
            !ok ==> *final(self) == *old(self),
            final(self).index_state() == old(self).index_state(),
            final(self).position() == old(self).position(),
    {
        if self.state.len() != self.vec.len() || !is_permutation_of_indices(&self.state) {
            return false;
        }
        self.vec = apply_transform(&self.vec, &self.state);
        true
    }
}

/// Once Sattolo's shuffle of one or more positions has run out of steps, its
/// index state is a single cycle through all positions; with two or more
/// positions, no index stays in place.
pub proof fn lemma_sattolo_single_cycle<T: Copy>(sc: SatCycles<T>)
    requires
        sc.wf(),
        sc.position() <= 1,
        sc.items().len() >= 1,
    ensures
        single_cycle(sc.index_state()),
        sc.items().len() >= 2 ==> forall|y: int|
            0 <= y < sc.items().len() ==> #[trigger] sc.index_state()[y] != y,
{
    lemma_last_cycle(sc.state@);
    if sc.items().len() >= 2 {
        assert forall|y: int| 0 <= y < sc.items().len() implies #[trigger] sc.index_state()[y] != y by {
            lemma_no_fixed_point_on_cycle(sc.state@, y);
        }
    }
}

/// Reorders held data by an index state.
pub trait Transform: Sized {
    /// Whether the index state can be applied to the data: it has the
    /// data's length and is a permutation of its positions.
    spec fn can_transform(&self) -> bool;

    /// `self` holds the data of `before` reordered by the index state of
    /// `before`, and otherwise the same state.
    spec fn is_transform_of(&self, before: &Self) -> bool;

    /// Returns `true` if the data was reordered; `false`, changing nothing,
    /// when the index state cannot be applied.
    fn transform(&mut self) -> (r: bool)
        ensures
            r == old(self).can_transform(),
            r ==> final(self).is_transform_of(old(self)),
            !r ==> *final(self) == *old(self),
    ;
}

impl<T: Copy> Transform for SatCycles<T> {
    open spec fn can_transform(&self) -> bool {
        self.index_state().len() == self.items().len() && is_index_permutation(self.index_state())
    }

    open spec fn is_transform_of(&self, before: &Self) -> bool {
        &&& self.items() == apply_spec(before.items(), before.index_state())
        &&& self.index_state() == before.index_state()
        &&& self.position() == before.position()
    }

    fn transform(&mut self) -> (r: bool) {
        self.apply_state()
    }
}

} // verus!
