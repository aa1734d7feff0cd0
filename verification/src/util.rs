//! Small helpers shared across the crate.

use vstd::prelude::*;

verus! {

/// Either a single value or many: spares a heap allocation in the common
/// case of a slot name that occurs once.
pub enum MaybeScalar<T> {
    Scalar(T),
    Many(Vec<T>),
}

impl<T> MaybeScalar<T> {
    /// The values held, in order.
    pub open spec fn items(&self) -> Seq<T> {
        match self {
            MaybeScalar::Scalar(t) => seq![*t],
            MaybeScalar::Many(v) => v@,
        }
    }

    /// Turns the container into a plain vector of its values.
    pub fn as_vec(self) -> (r: Vec<T>)
        ensures
            r@ == self.items(),
    {
        match self {
            MaybeScalar::Scalar(t) => {
                let mut v: Vec<T> = Vec::new();
                v.push(t);
                proof {
                    assert(v@ =~= seq![t]);
                }
                v
            },
            MaybeScalar::Many(v) => v,
        }
    }

    pub fn len(&self) -> (n: usize)
        ensures
            n == self.items().len(),
    {
        match self {
            MaybeScalar::Scalar(_) => 1,
            MaybeScalar::Many(v) => v.len(),
        }
    }
}

} // verus!
