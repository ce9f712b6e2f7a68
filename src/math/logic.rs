//! Boolean logic gates, two- and three-valued.
use vstd::prelude::*;

verus! {

/// Propositional logic.
pub trait Logic: Sized {
    /// Whether the value stands for truth.
    spec fn holds(&self) -> bool;

    /// `AND`, which corresponds to the `all` operator.
    fn and(self, other: Self) -> (r: Self)
        ensures
            r.holds() == (self.holds() && other.holds()),
    ;

    /// `OR`, which corresponds to the `any` operator.
    fn or(self, other: Self) -> (r: Self)
        ensures
            r.holds() == (self.holds() || other.holds()),
    ;

    /// `NOT`, which corresponds to the `not` operator.
    fn not(self) -> (r: Self)
        ensures
            r.holds() == !self.holds(),
    ;
}

impl Logic for bool {
    open spec fn holds(&self) -> bool {
        *self
    }

    fn and(self, other: Self) -> (r: Self) {
        self && other
    }

    fn or(self, other: Self) -> (r: Self) {
        self || other
    }

    fn not(self) -> (r: Self) {
        !self
    }
}

impl Logic for Option<()> {
    open spec fn holds(&self) -> bool {
        self is Some
    }

    fn and(self, other: Self) -> (r: Self) {
        if self.is_none() || other.is_none() {
            None
        } else {
            Some(())
        }
    }

    fn or(self, other: Self) -> (r: Self) {
        if self.is_some() || other.is_some() {
            Some(())
        } else {
            None
        }
    }

    fn not(self) -> (r: Self) {
        if self.is_none() {
            Some(())
        } else {
            None
        }
    }
}

/// An expression of five items that can be evaluated; each item is a
/// three-valued logic where `None` stands for unknown.
pub struct Expression<T> {
    pub expr: [Option<T>; 5],
}

/// The known items of `s`, in order.
pub open spec fn known<T>(s: Seq<Option<T>>) -> Seq<T>
    decreases s.len(),
{
    if s.len() == 0 {
        Seq::empty()
    } else {
        match s.last() {
            Some(t) => known(s.drop_last()).push(t),
            None => known(s.drop_last()),
        }
    }
}

impl<T: Logic + Copy> Expression<T> {
    /// Each predicate of the expression, that is each item that is known.
    pub fn predicates(&self) -> (r: Vec<T>)
        ensures
            r@ == known(self.expr@),
    {
        let mut r: Vec<T> = Vec::new();
        let mut i: usize = 0;
        while i < 5
            invariant
                i <= 5,
                self.expr@.len() == 5,
                r@ == known(self.expr@.subrange(0, i as int)),
            decreases 5 - i,
        {
            assert(self.expr@.subrange(0, i + 1).drop_last() =~= self.expr@.subrange(0, i as int));
            match self.expr[i] {
                Some(t) => r.push(t),
                None => {},
            }
            i = i + 1;
        }
        assert(self.expr@.subrange(0, 5) =~= self.expr@);
        r
    }
}

} // verus!
