//! Single-pass value iterators handed out by the read calls.
//!
//! Each iterator owns the values decoded from every slot of the requested
//! name, in discovery order, and hands them out one by one through an
//! inherent `next`.

use vstd::prelude::*;

use crate::decode::{DecodeLinkstore, TryDecodeLinkstore, TryDecodeLinkstoreArrayError};

verus! {

/// Yields the decoded value of each slot of one name, in discovery order.
pub struct EmbeddedValueIterator<T: DecodeLinkstore> {
    values: Vec<T>,
}

impl<T: DecodeLinkstore> EmbeddedValueIterator<T> {
    /// The values not yet handed out.
    pub closed spec fn remaining(&self) -> Seq<T> {
        self.values@
    }

    pub fn new(values: Vec<T>) -> (r: Self)
        ensures
            r.remaining() == values@,
    {
        EmbeddedValueIterator { values }
    }

    /// The next value, if one is left.
    pub fn next(&mut self) -> (r: Option<T>)
        ensures
            old(self).remaining().len() == 0 ==> r is None && final(self).remaining()
                == old(self).remaining(),
            old(self).remaining().len() > 0 ==> r == Some(old(self).remaining()[0])
                && final(self).remaining() == old(self).remaining().skip(1),
    {
        if self.values.is_empty() {
            None
        } else {
            let v = self.values.remove(0);
            proof {
                assert(self.values@ =~= old(self).remaining().skip(1));
            }
            Some(v)
        }
    }

    pub fn count_left(&self) -> (n: usize)
        ensures
            n == self.remaining().len(),
    {
        self.values.len()
    }
}

/// Yields the fallibly decoded value of each slot of one name, in discovery
/// order.
pub struct TryEmbeddedValueIterator<T: TryDecodeLinkstore> {
    values: Vec<Result<T, TryDecodeLinkstoreArrayError>>,
}

impl<T: TryDecodeLinkstore> TryEmbeddedValueIterator<T> {
    /// The decode results not yet handed out.
    pub closed spec fn remaining(&self) -> Seq<Result<T, TryDecodeLinkstoreArrayError>> {
        self.values@
    }

    pub fn new(values: Vec<Result<T, TryDecodeLinkstoreArrayError>>) -> (r: Self)
        ensures
            r.remaining() == values@,
    {
        TryEmbeddedValueIterator { values }
    }

    /// The next decode result, if one is left.
    pub fn next(&mut self) -> (r: Option<Result<T, TryDecodeLinkstoreArrayError>>)
        ensures
            old(self).remaining().len() == 0 ==> r is None && final(self).remaining()
                == old(self).remaining(),
            old(self).remaining().len() > 0 ==> r == Some(old(self).remaining()[0])
                && final(self).remaining() == old(self).remaining().skip(1),
    {
        if self.values.is_empty() {
            None
        } else {
            let v = self.values.remove(0);
            proof {
                assert(self.values@ =~= old(self).remaining().skip(1));
            }
            Some(v)
        }
    }

    pub fn count_left(&self) -> (n: usize)
        ensures
            n == self.remaining().len(),
    {
        self.values.len()
    }
}

} // verus!
