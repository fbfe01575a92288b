//! An ordered decision list with a guaranteed fallback.
//!
//! `Tern` is either a bare result or a guarded result followed by the
//! rest of the list; evaluation walks from the head and the first
//! matching guard wins, the final bare result standing when nothing
//! matched.

use vstd::prelude::*;
use vstd::std_specs::cmp::PartialEqSpec;

verus! {

/// An ordered list of `(condition, result)` pairs with a mandatory
/// default result at the end.
pub enum Tern<C, R> {
    End(R),
    Con(C, R, Box<Tern<C, R>>),
}

impl<C, R> Tern<C, R> {
    /// The guarded clauses, head first.
    pub open spec fn spec_clauses(self) -> Seq<(C, R)>
        decreases self,
    {
        match self {
            Tern::End(_) => Seq::empty(),
            Tern::Con(c, r, rest) => seq![(c, r)] + rest.spec_clauses(),
        }
    }

    /// The unconditional fallback result.
    pub open spec fn spec_default(self) -> R
        decreases self,
    {
        match self {
            Tern::End(r) => r,
            Tern::Con(_, _, rest) => rest.spec_default(),
        }
    }
}

/// The first result whose condition equals `input`, or the fallback.
pub open spec fn spec_eval<C: PartialEq, R>(t: Tern<C, R>, input: C) -> R
    decreases t,
{
    match t {
        Tern::End(r) => r,
        Tern::Con(c, r, rest) => if c.eq_spec(&input) {
            r
        } else {
            spec_eval(*rest, input)
        },
    }
}

impl<C: PartialEq, R> Tern<C, R> {
    /// Wraps `last` in one `Con` layer per condition, keeping order, so
    /// the front of `conditions` is asked first.
    pub fn create(conditions: Vec<(C, R)>, last: Self) -> (t: Self)
        ensures
            t.spec_clauses() == conditions@ + last.spec_clauses(),
            t.spec_default() == last.spec_default(),
        decreases conditions@.len(),
    {
        let mut conditions = conditions;
        if conditions.len() == 0 {
            proof {
                assert(conditions@ + last.spec_clauses() =~= last.spec_clauses());
            }
            return last;
        }
        let ghost before = conditions@;
        let (c, r) = conditions.pop().unwrap();
        let next = Tern::Con(c, r, Box::new(last));
        proof {
            assert(before =~= conditions@ + seq![(c, r)]);
        }
        let t = Self::create(conditions, next);
        proof {
            assert((conditions@ + seq![(c, r)]) + last.spec_clauses() =~= conditions@ + (seq![
                (c, r),
            ] + last.spec_clauses()));
        }
        t
    }

    /// An ordered decision list from its clauses and its fallback.
    pub fn new(conditions: Vec<(C, R)>, last: R) -> (t: Self)
        ensures
            t.spec_clauses() == conditions@,
            t.spec_default() == last,
    {
        let t = Self::create(conditions, Tern::End(last));
        proof {
            assert(conditions@ + Seq::<(C, R)>::empty() =~= conditions@);
        }
        t
    }

    /// Walks the list and returns the first result whose condition
    /// equals `input`, or the fallback.
    pub fn eval(&self, input: &C) -> (r: &R)
        ensures
            C::obeys_eq_spec() ==> *r == spec_eval(*self, *input),
        decreases *self,
    {
        match self {
            Tern::End(r) => r,
            Tern::Con(c, r, rest) => if c == input {
                r
            } else {
                rest.eval(input)
            },
        }
    }
}

impl<C: PartialEq + Copy, R: Copy> Tern<C, R> {
    /// `eval` for by-value callers.
    pub fn eval_owned(self, input: C) -> (r: R)
        ensures
            C::obeys_eq_spec() ==> r == spec_eval(self, input),
    {
        *self.eval(&input)
    }
}

} // verus!
