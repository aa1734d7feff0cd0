//! The producer side's in-binary slot container, as far as it is plain data.
//!
//! A producer toolchain lays each declared slot out as one record of the
//! reserved section: magic byte, name, terminator, two directory words, pad
//! bytes, payload.  `calc_padding` computes the pad-byte count that makes a
//! record fill its container exactly, and `VolatileWrapper` is the cell the
//! payload lives in.

use vstd::prelude::*;

verus! {

/// Holds a slot's payload value in the producer's binary.
pub struct VolatileWrapper<T> {
    value: T,
}

impl<T> VolatileWrapper<T> {
    /// The wrapped value.
    pub closed spec fn spec_value(&self) -> T {
        self.value
    }

    pub fn new(val: T) -> (r: Self)
        ensures
            r.spec_value() == val,
    {
        VolatileWrapper { value: val }
    }

    pub fn get(&self) -> (r: &T)
        ensures
            *r == self.spec_value(),
    {
        &self.value
    }
}

/// The pad-byte count between a record's directory words and its payload:
/// whatever of the container is not taken by the magic byte, the name and its
/// terminator, the two directory words, and the payload itself.
pub fn calc_padding(container_size: usize, name_len: usize, word_size: usize, value_size: usize)
    -> (r: usize)
    requires
        container_size >= name_len + 2 + 2 * word_size + value_size,
    ensures
        r == container_size - (name_len + 2) - 2 * word_size - value_size,
{
    container_size - (name_len + 2) - 2 * word_size - value_size
}

} // verus!
