//! Points: the arguments of the cross-ratio atoms.

use vstd::prelude::*;

verus! {

/// A point: one of the numbered variables, or the point at infinity.
#[derive(Clone, Copy, PartialEq, PartialOrd, Eq, Ord, Debug, Hash, Structural)]
pub enum X {
    Infinity,
    Variable(i32),
}

impl From<i32> for X {
    fn from(idx: i32) -> (r: X) {
        X::Variable(idx)
    }
}

impl vstd::std_specs::convert::FromSpecImpl<i32> for X {
    open spec fn obeys_from_spec() -> bool {
        true
    }

    open spec fn from_spec(idx: i32) -> X {
        X::Variable(idx)
    }
}

/// The point at infinity.
#[allow(non_upper_case_globals)]
pub const Inf: X = X::Infinity;

/// What can be given where a point is asked for.
pub trait XArg: Copy {
    /// The point that this value stands for.
    spec fn x(self) -> X;

    /// The point that this value stands for.
    fn as_x(self) -> (r: X)
        ensures
            r == self.x(),
    ;
}

impl XArg for X {
    open spec fn x(self) -> X {
        self
    }

    fn as_x(self) -> (r: X) {
        self
    }
}

impl XArg for i32 {
    open spec fn x(self) -> X {
        X::Variable(self)
    }

    fn as_x(self) -> (r: X) {
        X::Variable(self)
    }
}

/// The points that a list of variable numbers stands for.
pub fn to_x_vec(variables: &[i32]) -> (r: Vec<X>)
    ensures
        r@ == Seq::new(variables@.len(), |i: int| X::Variable(variables@[i])),
{
    let mut r: Vec<X> = Vec::new();
    let mut i: usize = 0;
    while i < variables.len()
        invariant
            i <= variables@.len(),
            r@ == Seq::new(i as nat, |j: int| X::Variable(variables@[j])),
        decreases variables@.len() - i,
    {
        r.push(X::Variable(variables[i]));
        assert(r@ =~= Seq::new((i + 1) as nat, |j: int| X::Variable(variables@[j])));
        i += 1;
    }
    r
}

} // verus!
