//! Decoding of slot payload bytes back into values.
//!
//! `DecodeLinkstore` decodes types whose decoding cannot fail once the byte
//! count is right (the fixed-width integers and `bool`).  `TryDecodeLinkstore`
//! also covers fixed-length arrays, whose decoding reports a wrong byte count
//! or element count as an error instead.

use vstd::prelude::*;
use vstd::slice::slice_subrange;

use crate::codec::{
    be_value_of, be_decode, le_value_of, le_decode, lemma_le_value_of_bound, pow256, signed_read,
};
use crate::encode::{lemma_pow256_vals, EncodeLinkstore};

verus! {

/// Errors a fallible decode can report.
#[derive(Debug, Clone, Copy, PartialEq, Eq, Structural)]
pub enum TryDecodeLinkstoreArrayError {
    /// The byte string held this many whole elements where the array expects
    /// that many: `MismatchedElementCount(found, expected)`.
    MismatchedElementCount(usize, usize),
    /// A byte count that is not a whole number of elements of the given size:
    /// `MismatchedBytesCount(bytes, element_size)`.
    MismatchedBytesCount(usize, usize),
}

/// A type whose decoding from a payload of the right size cannot fail.
pub trait DecodeLinkstore: EncodeLinkstore {
    /// The value a little-endian payload decodes to.
    spec fn spec_from_le(s: Seq<u8>) -> Self;

    /// The value a big-endian payload decodes to.
    spec fn spec_from_be(s: Seq<u8>) -> Self;

    /// Decoding inverts encoding, under either byte order.
    proof fn lemma_round_trip(x: Self)
        ensures
            Self::spec_from_le(x.spec_le_bytes()) == x,
            Self::spec_from_be(x.spec_be_bytes()) == x;

    fn from_le_bytes(bytes: &[u8]) -> (r: Self)
        requires
            bytes@.len() == Self::spec_size(),
        ensures
            r == Self::spec_from_le(bytes@),
    ;

    fn from_be_bytes(bytes: &[u8]) -> (r: Self)
        requires
            bytes@.len() == Self::spec_size(),
        ensures
            r == Self::spec_from_be(bytes@),
    ;
}

/// A type that decodes from a payload of any size, reporting a wrong size as
/// an error.
pub trait TryDecodeLinkstore: EncodeLinkstore {
    /// The exact relation between a little-endian payload and the decode
    /// result.
    spec fn le_decoded(s: Seq<u8>, r: Result<Self, TryDecodeLinkstoreArrayError>) -> bool;

    /// The exact relation between a big-endian payload and the decode result.
    spec fn be_decoded(s: Seq<u8>, r: Result<Self, TryDecodeLinkstoreArrayError>) -> bool;

    fn try_from_le_bytes(bytes: &[u8]) -> (r: Result<Self, TryDecodeLinkstoreArrayError>)
        requires
            Self::spec_size() <= usize::MAX as nat,
        ensures
            Self::le_decoded(bytes@, r),
    ;

    fn try_from_be_bytes(bytes: &[u8]) -> (r: Result<Self, TryDecodeLinkstoreArrayError>)
        requires
            Self::spec_size() <= usize::MAX as nat,
        ensures
            Self::be_decoded(bytes@, r),
    ;
}

/// For an infallibly decodable type: success on the exact size, a
/// `MismatchedBytesCount` on any other.
pub open spec fn fixed_le_decoded<T: DecodeLinkstore>(
    s: Seq<u8>,
    r: Result<T, TryDecodeLinkstoreArrayError>,
) -> bool {
    if s.len() == T::spec_size() {
        r == Ok::<T, TryDecodeLinkstoreArrayError>(T::spec_from_le(s))
    } else {
        r == Err::<T, TryDecodeLinkstoreArrayError>(
            TryDecodeLinkstoreArrayError::MismatchedBytesCount(
                s.len() as usize,
                T::spec_size() as usize,
            ),
        )
    }
}

pub open spec fn fixed_be_decoded<T: DecodeLinkstore>(
    s: Seq<u8>,
    r: Result<T, TryDecodeLinkstoreArrayError>,
) -> bool {
    if s.len() == T::spec_size() {
        r == Ok::<T, TryDecodeLinkstoreArrayError>(T::spec_from_be(s))
    } else {
        r == Err::<T, TryDecodeLinkstoreArrayError>(
            TryDecodeLinkstoreArrayError::MismatchedBytesCount(
                s.len() as usize,
                T::spec_size() as usize,
            ),
        )
    }
}

fn try_fixed_le<T: DecodeLinkstore>(bytes: &[u8]) -> (r: Result<
    T,
    TryDecodeLinkstoreArrayError,
>)
    requires
        T::spec_size() <= usize::MAX as nat,
    ensures
        fixed_le_decoded(bytes@, r),
{
    let n = T::byte_size();
    if bytes.len() == n {
        Ok(T::from_le_bytes(bytes))
    } else {
        Err(TryDecodeLinkstoreArrayError::MismatchedBytesCount(bytes.len(), n))
    }
}

fn try_fixed_be<T: DecodeLinkstore>(bytes: &[u8]) -> (r: Result<
    T,
    TryDecodeLinkstoreArrayError,
>)
    requires
        T::spec_size() <= usize::MAX as nat,
    ensures
        fixed_be_decoded(bytes@, r),
{
    let n = T::byte_size();
    if bytes.len() == n {
        Ok(T::from_be_bytes(bytes))
    } else {
        Err(TryDecodeLinkstoreArrayError::MismatchedBytesCount(bytes.len(), n))
    }
}

impl DecodeLinkstore for u8 {
    open spec fn spec_from_le(s: Seq<u8>) -> u8 {
        le_value_of(s) as u8
    }

    open spec fn spec_from_be(s: Seq<u8>) -> u8 {
        be_value_of(s) as u8
    }

    proof fn lemma_round_trip(x: u8) {
        lemma_pow256_vals();
        crate::codec::lemma_le_round_trip(x as nat, 1);
        assert(crate::codec::le_bytes_of(x as nat, 1).reverse().reverse()
            =~= crate::codec::le_bytes_of(x as nat, 1));
    }

    fn from_le_bytes(bytes: &[u8]) -> (r: u8) {
        proof {
            lemma_pow256_vals();
            lemma_le_value_of_bound(bytes@);
        }
        le_decode(bytes) as u8
    }

    fn from_be_bytes(bytes: &[u8]) -> (r: u8) {
        proof {
            lemma_pow256_vals();
            lemma_le_value_of_bound(bytes@.reverse());
        }
        be_decode(bytes) as u8
    }
}

impl DecodeLinkstore for u16 {
    open spec fn spec_from_le(s: Seq<u8>) -> u16 {
        le_value_of(s) as u16
    }

    open spec fn spec_from_be(s: Seq<u8>) -> u16 {
        be_value_of(s) as u16
    }

    proof fn lemma_round_trip(x: u16) {
        lemma_pow256_vals();
        crate::codec::lemma_le_round_trip(x as nat, 2);
        assert(crate::codec::le_bytes_of(x as nat, 2).reverse().reverse()
            =~= crate::codec::le_bytes_of(x as nat, 2));
    }

    fn from_le_bytes(bytes: &[u8]) -> (r: u16) {
        proof {
            lemma_pow256_vals();
            lemma_le_value_of_bound(bytes@);
        }
        le_decode(bytes) as u16
    }

    fn from_be_bytes(bytes: &[u8]) -> (r: u16) {
        proof {
            lemma_pow256_vals();
            lemma_le_value_of_bound(bytes@.reverse());
        }
        be_decode(bytes) as u16
    }
}

impl DecodeLinkstore for u32 {
    open spec fn spec_from_le(s: Seq<u8>) -> u32 {
        le_value_of(s) as u32
    }

    open spec fn spec_from_be(s: Seq<u8>) -> u32 {
        be_value_of(s) as u32
    }

    proof fn lemma_round_trip(x: u32) {
        lemma_pow256_vals();
        crate::codec::lemma_le_round_trip(x as nat, 4);
        assert(crate::codec::le_bytes_of(x as nat, 4).reverse().reverse()
            =~= crate::codec::le_bytes_of(x as nat, 4));
    }

    fn from_le_bytes(bytes: &[u8]) -> (r: u32) {
        proof {
            lemma_pow256_vals();
            lemma_le_value_of_bound(bytes@);
        }
        le_decode(bytes) as u32
    }

    fn from_be_bytes(bytes: &[u8]) -> (r: u32) {
        proof {
            lemma_pow256_vals();
            lemma_le_value_of_bound(bytes@.reverse());
        }
        be_decode(bytes) as u32
    }
}

impl DecodeLinkstore for u64 {
    open spec fn spec_from_le(s: Seq<u8>) -> u64 {
        le_value_of(s) as u64
    }

    open spec fn spec_from_be(s: Seq<u8>) -> u64 {
        be_value_of(s) as u64
    }

    proof fn lemma_round_trip(x: u64) {
        lemma_pow256_vals();
        crate::codec::lemma_le_round_trip(x as nat, 8);
        assert(crate::codec::le_bytes_of(x as nat, 8).reverse().reverse()
            =~= crate::codec::le_bytes_of(x as nat, 8));
    }

    fn from_le_bytes(bytes: &[u8]) -> (r: u64) {
        proof {
            lemma_pow256_vals();
            lemma_le_value_of_bound(bytes@);
        }
        le_decode(bytes) as u64
    }

    fn from_be_bytes(bytes: &[u8]) -> (r: u64) {
        proof {
            lemma_pow256_vals();
            lemma_le_value_of_bound(bytes@.reverse());
        }
        be_decode(bytes) as u64
    }
}

impl DecodeLinkstore for u128 {
    open spec fn spec_from_le(s: Seq<u8>) -> u128 {
        le_value_of(s) as u128
    }

    open spec fn spec_from_be(s: Seq<u8>) -> u128 {
        be_value_of(s) as u128
    }

    proof fn lemma_round_trip(x: u128) {
        lemma_pow256_vals();
        crate::codec::lemma_le_round_trip(x as nat, 16);
        assert(crate::codec::le_bytes_of(x as nat, 16).reverse().reverse()
            =~= crate::codec::le_bytes_of(x as nat, 16));
    }

    fn from_le_bytes(bytes: &[u8]) -> (r: u128) {
        proof {
            lemma_pow256_vals();
            lemma_le_value_of_bound(bytes@);
        }
        le_decode(bytes)
    }

    fn from_be_bytes(bytes: &[u8]) -> (r: u128) {
        proof {
            lemma_pow256_vals();
            lemma_le_value_of_bound(bytes@.reverse());
        }
        be_decode(bytes)
    }
}

/// The signed reading of an `n`-byte unsigned value, `n` at most 8; the
/// result lies strictly between `-pow / 2` and `pow / 2`.
fn small_signed_read(v: u128, pow: i128, n: usize) -> (r: i128)
    requires
        1 <= n <= 8,
        pow == pow256(n as nat),
        (v as nat) < pow256(n as nat),
    ensures
        r as int == signed_read(v as nat, n as nat),
        -pow <= 2 * r < pow,
{
    proof {
        lemma_pow256_vals();
        crate::codec::lemma_pow256_increases(n as nat, 8);
    }
    if (v as i128) * 2 < pow {
        v as i128
    } else {
        (v as i128) - pow
    }
}

impl DecodeLinkstore for i8 {
    open spec fn spec_from_le(s: Seq<u8>) -> i8 {
        signed_read(le_value_of(s), 1) as i8
    }

    open spec fn spec_from_be(s: Seq<u8>) -> i8 {
        signed_read(be_value_of(s), 1) as i8
    }

    proof fn lemma_round_trip(x: i8) {
        lemma_pow256_vals();
        let v = crate::codec::unsigned_repr(x as int, 1);
        crate::codec::lemma_le_round_trip(v, 1);
        assert(crate::codec::le_bytes_of(v, 1).reverse().reverse() =~= crate::codec::le_bytes_of(
            v,
            1,
        ));
        assert(signed_read(v, 1) == x as int);
    }

    fn from_le_bytes(bytes: &[u8]) -> (r: i8) {
        proof {
            lemma_pow256_vals();
            lemma_le_value_of_bound(bytes@);
        }
        small_signed_read(le_decode(bytes), 0x100, 1) as i8
    }

    fn from_be_bytes(bytes: &[u8]) -> (r: i8) {
        proof {
            lemma_pow256_vals();
            lemma_le_value_of_bound(bytes@.reverse());
        }
        small_signed_read(be_decode(bytes), 0x100, 1) as i8
    }
}

impl DecodeLinkstore for i16 {
    open spec fn spec_from_le(s: Seq<u8>) -> i16 {
        signed_read(le_value_of(s), 2) as i16
    }

    open spec fn spec_from_be(s: Seq<u8>) -> i16 {
        signed_read(be_value_of(s), 2) as i16
    }

    proof fn lemma_round_trip(x: i16) {
        lemma_pow256_vals();
        let v = crate::codec::unsigned_repr(x as int, 2);
        crate::codec::lemma_le_round_trip(v, 2);
        assert(crate::codec::le_bytes_of(v, 2).reverse().reverse() =~= crate::codec::le_bytes_of(
            v,
            2,
        ));
        assert(signed_read(v, 2) == x as int);
    }

    fn from_le_bytes(bytes: &[u8]) -> (r: i16) {
        proof {
            lemma_pow256_vals();
            lemma_le_value_of_bound(bytes@);
        }
        small_signed_read(le_decode(bytes), 0x10000, 2) as i16
    }

    fn from_be_bytes(bytes: &[u8]) -> (r: i16) {
        proof {
            lemma_pow256_vals();
            lemma_le_value_of_bound(bytes@.reverse());
        }
        small_signed_read(be_decode(bytes), 0x10000, 2) as i16
    }
}

impl DecodeLinkstore for i32 {
    open spec fn spec_from_le(s: Seq<u8>) -> i32 {
        signed_read(le_value_of(s), 4) as i32
    }

    open spec fn spec_from_be(s: Seq<u8>) -> i32 {
        signed_read(be_value_of(s), 4) as i32
    }

    proof fn lemma_round_trip(x: i32) {
        lemma_pow256_vals();
        let v = crate::codec::unsigned_repr(x as int, 4);
        crate::codec::lemma_le_round_trip(v, 4);
        assert(crate::codec::le_bytes_of(v, 4).reverse().reverse() =~= crate::codec::le_bytes_of(
            v,
            4,
        ));
        assert(signed_read(v, 4) == x as int);
    }

    fn from_le_bytes(bytes: &[u8]) -> (r: i32) {
        proof {
            lemma_pow256_vals();
            lemma_le_value_of_bound(bytes@);
        }
        small_signed_read(le_decode(bytes), 0x100000000, 4) as i32
    }

    fn from_be_bytes(bytes: &[u8]) -> (r: i32) {
        proof {
            lemma_pow256_vals();
            lemma_le_value_of_bound(bytes@.reverse());
        }
        small_signed_read(be_decode(bytes), 0x100000000, 4) as i32
    }
}

impl DecodeLinkstore for i64 {
    open spec fn spec_from_le(s: Seq<u8>) -> i64 {
        signed_read(le_value_of(s), 8) as i64
    }

    open spec fn spec_from_be(s: Seq<u8>) -> i64 {
        signed_read(be_value_of(s), 8) as i64
    }

    proof fn lemma_round_trip(x: i64) {
        lemma_pow256_vals();
        let v = crate::codec::unsigned_repr(x as int, 8);
        crate::codec::lemma_le_round_trip(v, 8);
        assert(crate::codec::le_bytes_of(v, 8).reverse().reverse() =~= crate::codec::le_bytes_of(
            v,
            8,
        ));
        assert(signed_read(v, 8) == x as int);
    }

    fn from_le_bytes(bytes: &[u8]) -> (r: i64) {
        proof {
            lemma_pow256_vals();
            lemma_le_value_of_bound(bytes@);
        }
        small_signed_read(le_decode(bytes), 0x10000000000000000, 8) as i64
    }

    fn from_be_bytes(bytes: &[u8]) -> (r: i64) {
        proof {
            lemma_pow256_vals();
            lemma_le_value_of_bound(bytes@.reverse());
        }
        small_signed_read(be_decode(bytes), 0x10000000000000000, 8) as i64
    }
}

/// The signed reading of a 16-byte unsigned value.
fn i128_read(v: u128) -> (r: i128)
    ensures
        r as int == signed_read(v as nat, 16),
{
    proof {
        lemma_pow256_vals();
    }
    if v < 0x80000000000000000000000000000000u128 {
        v as i128
    } else {
        ((v - 0x80000000000000000000000000000000u128) as i128 - i128::MAX) - 1
    }
}

impl DecodeLinkstore for i128 {
    open spec fn spec_from_le(s: Seq<u8>) -> i128 {
        signed_read(le_value_of(s), 16) as i128
    }

    open spec fn spec_from_be(s: Seq<u8>) -> i128 {
        signed_read(be_value_of(s), 16) as i128
    }

    proof fn lemma_round_trip(x: i128) {
        lemma_pow256_vals();
        let v = crate::codec::unsigned_repr(x as int, 16);
        crate::codec::lemma_le_round_trip(v, 16);
        assert(crate::codec::le_bytes_of(v, 16).reverse().reverse() =~= crate::codec::le_bytes_of(
            v,
            16,
        ));
        assert(signed_read(v, 16) == x as int);
    }

    fn from_le_bytes(bytes: &[u8]) -> (r: i128) {
        proof {
            lemma_pow256_vals();
            lemma_le_value_of_bound(bytes@);
        }
        i128_read(le_decode(bytes))
    }

    fn from_be_bytes(bytes: &[u8]) -> (r: i128) {
        proof {
            lemma_pow256_vals();
            lemma_le_value_of_bound(bytes@.reverse());
        }
        i128_read(be_decode(bytes))
    }
}

impl DecodeLinkstore for bool {
    open spec fn spec_from_le(s: Seq<u8>) -> bool {
        s[0] != 0
    }

    open spec fn spec_from_be(s: Seq<u8>) -> bool {
        s[0] != 0
    }

    proof fn lemma_round_trip(x: bool) {
    }

    fn from_le_bytes(bytes: &[u8]) -> (r: bool) {
        *vstd::slice::slice_index_get(bytes, 0) != 0
    }

    fn from_be_bytes(bytes: &[u8]) -> (r: bool) {
        *vstd::slice::slice_index_get(bytes, 0) != 0
    }
}

impl TryDecodeLinkstore for u8 {
    open spec fn le_decoded(s: Seq<u8>, r: Result<u8, TryDecodeLinkstoreArrayError>) -> bool {
        fixed_le_decoded(s, r)
    }

    open spec fn be_decoded(s: Seq<u8>, r: Result<u8, TryDecodeLinkstoreArrayError>) -> bool {
        fixed_be_decoded(s, r)
    }

    fn try_from_le_bytes(bytes: &[u8]) -> (r: Result<u8, TryDecodeLinkstoreArrayError>) {
        try_fixed_le(bytes)
    }

    fn try_from_be_bytes(bytes: &[u8]) -> (r: Result<u8, TryDecodeLinkstoreArrayError>) {
        try_fixed_be(bytes)
    }
}

impl TryDecodeLinkstore for u16 {
    open spec fn le_decoded(s: Seq<u8>, r: Result<u16, TryDecodeLinkstoreArrayError>) -> bool {
        fixed_le_decoded(s, r)
    }

    open spec fn be_decoded(s: Seq<u8>, r: Result<u16, TryDecodeLinkstoreArrayError>) -> bool {
        fixed_be_decoded(s, r)
    }

    fn try_from_le_bytes(bytes: &[u8]) -> (r: Result<u16, TryDecodeLinkstoreArrayError>) {
        try_fixed_le(bytes)
    }

    fn try_from_be_bytes(bytes: &[u8]) -> (r: Result<u16, TryDecodeLinkstoreArrayError>) {
        try_fixed_be(bytes)
    }
}

impl TryDecodeLinkstore for u32 {
    open spec fn le_decoded(s: Seq<u8>, r: Result<u32, TryDecodeLinkstoreArrayError>) -> bool {
        fixed_le_decoded(s, r)
    }

    open spec fn be_decoded(s: Seq<u8>, r: Result<u32, TryDecodeLinkstoreArrayError>) -> bool {
        fixed_be_decoded(s, r)
    }

    fn try_from_le_bytes(bytes: &[u8]) -> (r: Result<u32, TryDecodeLinkstoreArrayError>) {
        try_fixed_le(bytes)
    }

    fn try_from_be_bytes(bytes: &[u8]) -> (r: Result<u32, TryDecodeLinkstoreArrayError>) {
        try_fixed_be(bytes)
    }
}

impl TryDecodeLinkstore for u64 {
    open spec fn le_decoded(s: Seq<u8>, r: Result<u64, TryDecodeLinkstoreArrayError>) -> bool {
        fixed_le_decoded(s, r)
    }

    open spec fn be_decoded(s: Seq<u8>, r: Result<u64, TryDecodeLinkstoreArrayError>) -> bool {
        fixed_be_decoded(s, r)
    }

    fn try_from_le_bytes(bytes: &[u8]) -> (r: Result<u64, TryDecodeLinkstoreArrayError>) {
        try_fixed_le(bytes)
    }

    fn try_from_be_bytes(bytes: &[u8]) -> (r: Result<u64, TryDecodeLinkstoreArrayError>) {
        try_fixed_be(bytes)
    }
}

impl TryDecodeLinkstore for u128 {
    open spec fn le_decoded(s: Seq<u8>, r: Result<u128, TryDecodeLinkstoreArrayError>) -> bool {
        fixed_le_decoded(s, r)
    }

    open spec fn be_decoded(s: Seq<u8>, r: Result<u128, TryDecodeLinkstoreArrayError>) -> bool {
        fixed_be_decoded(s, r)
    }

    fn try_from_le_bytes(bytes: &[u8]) -> (r: Result<u128, TryDecodeLinkstoreArrayError>) {
        try_fixed_le(bytes)
    }

    fn try_from_be_bytes(bytes: &[u8]) -> (r: Result<u128, TryDecodeLinkstoreArrayError>) {
        try_fixed_be(bytes)
    }
}

impl TryDecodeLinkstore for i8 {
    open spec fn le_decoded(s: Seq<u8>, r: Result<i8, TryDecodeLinkstoreArrayError>) -> bool {
        fixed_le_decoded(s, r)
    }

    open spec fn be_decoded(s: Seq<u8>, r: Result<i8, TryDecodeLinkstoreArrayError>) -> bool {
        fixed_be_decoded(s, r)
    }

    fn try_from_le_bytes(bytes: &[u8]) -> (r: Result<i8, TryDecodeLinkstoreArrayError>) {
        try_fixed_le(bytes)
    }

    fn try_from_be_bytes(bytes: &[u8]) -> (r: Result<i8, TryDecodeLinkstoreArrayError>) {
        try_fixed_be(bytes)
    }
}

impl TryDecodeLinkstore for i16 {
    open spec fn le_decoded(s: Seq<u8>, r: Result<i16, TryDecodeLinkstoreArrayError>) -> bool {
        fixed_le_decoded(s, r)
    }

    open spec fn be_decoded(s: Seq<u8>, r: Result<i16, TryDecodeLinkstoreArrayError>) -> bool {
        fixed_be_decoded(s, r)
    }

    fn try_from_le_bytes(bytes: &[u8]) -> (r: Result<i16, TryDecodeLinkstoreArrayError>) {
        try_fixed_le(bytes)
    }

    fn try_from_be_bytes(bytes: &[u8]) -> (r: Result<i16, TryDecodeLinkstoreArrayError>) {
        try_fixed_be(bytes)
    }
}

impl TryDecodeLinkstore for i32 {
    open spec fn le_decoded(s: Seq<u8>, r: Result<i32, TryDecodeLinkstoreArrayError>) -> bool {
        fixed_le_decoded(s, r)
    }

    open spec fn be_decoded(s: Seq<u8>, r: Result<i32, TryDecodeLinkstoreArrayError>) -> bool {
        fixed_be_decoded(s, r)
    }

    fn try_from_le_bytes(bytes: &[u8]) -> (r: Result<i32, TryDecodeLinkstoreArrayError>) {
        try_fixed_le(bytes)
    }

    fn try_from_be_bytes(bytes: &[u8]) -> (r: Result<i32, TryDecodeLinkstoreArrayError>) {
        try_fixed_be(bytes)
    }
}

impl TryDecodeLinkstore for i64 {
    open spec fn le_decoded(s: Seq<u8>, r: Result<i64, TryDecodeLinkstoreArrayError>) -> bool {
        fixed_le_decoded(s, r)
    }

    open spec fn be_decoded(s: Seq<u8>, r: Result<i64, TryDecodeLinkstoreArrayError>) -> bool {
        fixed_be_decoded(s, r)
    }

    fn try_from_le_bytes(bytes: &[u8]) -> (r: Result<i64, TryDecodeLinkstoreArrayError>) {
        try_fixed_le(bytes)
    }

    fn try_from_be_bytes(bytes: &[u8]) -> (r: Result<i64, TryDecodeLinkstoreArrayError>) {
        try_fixed_be(bytes)
    }
}

impl TryDecodeLinkstore for i128 {
    open spec fn le_decoded(s: Seq<u8>, r: Result<i128, TryDecodeLinkstoreArrayError>) -> bool {
        fixed_le_decoded(s, r)
    }

    open spec fn be_decoded(s: Seq<u8>, r: Result<i128, TryDecodeLinkstoreArrayError>) -> bool {
        fixed_be_decoded(s, r)
    }

    fn try_from_le_bytes(bytes: &[u8]) -> (r: Result<i128, TryDecodeLinkstoreArrayError>) {
        try_fixed_le(bytes)
    }

    fn try_from_be_bytes(bytes: &[u8]) -> (r: Result<i128, TryDecodeLinkstoreArrayError>) {
        try_fixed_be(bytes)
    }
}

impl TryDecodeLinkstore for bool {
    open spec fn le_decoded(s: Seq<u8>, r: Result<bool, TryDecodeLinkstoreArrayError>) -> bool {
        fixed_le_decoded(s, r)
    }

    open spec fn be_decoded(s: Seq<u8>, r: Result<bool, TryDecodeLinkstoreArrayError>) -> bool {
        fixed_be_decoded(s, r)
    }

    fn try_from_le_bytes(bytes: &[u8]) -> (r: Result<bool, TryDecodeLinkstoreArrayError>) {
        try_fixed_le(bytes)
    }

    fn try_from_be_bytes(bytes: &[u8]) -> (r: Result<bool, TryDecodeLinkstoreArrayError>) {
        try_fixed_be(bytes)
    }
}

/// The `i`-th element-sized chunk of a payload.
pub open spec fn chunk_of(s: Seq<u8>, esz: nat, i: int) -> Seq<u8> {
    s.subrange(i * esz, (i + 1) * esz)
}

/// The exact relation between an array payload and its decode result: the
/// byte count must be a whole, sufficient number of elements, and every
/// element decodes from its own chunk.  Zero-length arrays and zero-sized
/// elements are rejected outright.
pub open spec fn array_le_decoded<T: TryDecodeLinkstore, const N: usize>(
    s: Seq<u8>,
    r: Result<[T; N], TryDecodeLinkstoreArrayError>,
) -> bool {
    let esz = T::spec_size();
    if N == 0 || esz == 0 {
        r == Err::<[T; N], TryDecodeLinkstoreArrayError>(
            TryDecodeLinkstoreArrayError::MismatchedElementCount(0, N),
        )
    } else if s.len() % esz != 0 {
        r == Err::<[T; N], TryDecodeLinkstoreArrayError>(
            TryDecodeLinkstoreArrayError::MismatchedBytesCount(s.len() as usize, esz as usize),
        )
    } else if s.len() < N as nat * esz {
        r == Err::<[T; N], TryDecodeLinkstoreArrayError>(
            TryDecodeLinkstoreArrayError::MismatchedElementCount((s.len() / esz) as usize, N),
        )
    } else {
        match r {
            Ok(arr) => forall|i: int|
                0 <= i < N ==> T::le_decoded(
                    chunk_of(s, esz, i),
                    Ok::<T, TryDecodeLinkstoreArrayError>(arr@[i]),
                ),
            Err(e) => exists|i: int|
                0 <= i < N && T::le_decoded(
                    chunk_of(s, esz, i),
                    Err::<T, TryDecodeLinkstoreArrayError>(e),
                ),
        }
    }
}

pub open spec fn array_be_decoded<T: TryDecodeLinkstore, const N: usize>(
    s: Seq<u8>,
    r: Result<[T; N], TryDecodeLinkstoreArrayError>,
) -> bool {
    let esz = T::spec_size();
    if N == 0 || esz == 0 {
        r == Err::<[T; N], TryDecodeLinkstoreArrayError>(
            TryDecodeLinkstoreArrayError::MismatchedElementCount(0, N),
        )
    } else if s.len() % esz != 0 {
        r == Err::<[T; N], TryDecodeLinkstoreArrayError>(
            TryDecodeLinkstoreArrayError::MismatchedBytesCount(s.len() as usize, esz as usize),
        )
    } else if s.len() < N as nat * esz {
        r == Err::<[T; N], TryDecodeLinkstoreArrayError>(
            TryDecodeLinkstoreArrayError::MismatchedElementCount((s.len() / esz) as usize, N),
        )
    } else {
        match r {
            Ok(arr) => forall|i: int|
                0 <= i < N ==> T::be_decoded(
                    chunk_of(s, esz, i),
                    Ok::<T, TryDecodeLinkstoreArrayError>(arr@[i]),
                ),
            Err(e) => exists|i: int|
                0 <= i < N && T::be_decoded(
                    chunk_of(s, esz, i),
                    Err::<T, TryDecodeLinkstoreArrayError>(e),
                ),
        }
    }
}

impl<T: TryDecodeLinkstore + Copy, const N: usize> TryDecodeLinkstore for [T; N] {
    open spec fn le_decoded(s: Seq<u8>, r: Result<[T; N], TryDecodeLinkstoreArrayError>) -> bool {
        array_le_decoded(s, r)
    }

    open spec fn be_decoded(s: Seq<u8>, r: Result<[T; N], TryDecodeLinkstoreArrayError>) -> bool {
        array_be_decoded(s, r)
    }

    fn try_from_le_bytes(bytes: &[u8]) -> (r: Result<[T; N], TryDecodeLinkstoreArrayError>) {
        if N == 0 {
            return Err(TryDecodeLinkstoreArrayError::MismatchedElementCount(0, N));
        }
        proof {
            assert(1 * T::spec_size() <= N as nat * T::spec_size()) by (nonlinear_arith)
                requires
                    N as nat >= 1,
            ;
        }
        let esz = T::byte_size();
        if esz == 0 {
            return Err(TryDecodeLinkstoreArrayError::MismatchedElementCount(0, N));
        }
        let len = bytes.len();
        if len % esz != 0 {
            return Err(TryDecodeLinkstoreArrayError::MismatchedBytesCount(len, esz));
        }
        let k = len / esz;
        proof {
            vstd::arithmetic::div_mod::lemma_fundamental_div_mod(len as int, esz as int);
        }
        if k < N {
            proof {
                assert((len as int) < (N as int) * (esz as int)) by (nonlinear_arith)
                    requires
                        len as int == (esz as int) * (k as int),
                        (k as int) < (N as int),
                        (esz as int) > 0,
                ;
            }
            return Err(TryDecodeLinkstoreArrayError::MismatchedElementCount(k, N));
        }
        proof {
            assert((N as int) * (esz as int) <= len as int && (esz as int) <= (N as int) * (
            esz as int)) by (nonlinear_arith)
                requires
                    len as int == (esz as int) * (k as int),
                    (k as int) >= (N as int),
                    (esz as int) > 0,
                    N as int >= 1,
            ;
        }
        let first = match T::try_from_le_bytes(slice_subrange(bytes, 0, esz)) {
            Ok(v) => v,
            Err(e) => {
                proof {
                    assert(chunk_of(bytes@, T::spec_size(), 0) =~= bytes@.subrange(
                        0,
                        esz as int,
                    ));
                    assert(T::le_decoded(
                        chunk_of(bytes@, T::spec_size(), 0),
                        Err::<T, TryDecodeLinkstoreArrayError>(e),
                    ));
                }
                return Err(e);
            },
        };
        let mut arr: [T; N] = [first; N];
        proof {
            assert(chunk_of(bytes@, T::spec_size(), 0) =~= bytes@.subrange(0, esz as int));
        }
        let mut i: usize = 1;
        while i < N
            invariant
                1 <= i <= N,
                esz as nat == T::spec_size(),
                esz > 0,
                len == bytes@.len(),
                bytes@.len() % (esz as nat) == 0,
                (N as int) * (esz as int) <= len as int,
                forall|j: int|
                    0 <= j < i ==> T::le_decoded(
                        chunk_of(bytes@, esz as nat, j),
                        Ok::<T, TryDecodeLinkstoreArrayError>(arr@[j]),
                    ),
            decreases N - i,
        {
            proof {
                assert(0 <= (i as int) * (esz as int) && (i as int) * (esz as int) + (
                esz as int) <= (N as int) * (esz as int) && ((i as int) + 1) * (esz as int) == (
                i as int) * (esz as int) + (esz as int)) by (nonlinear_arith)
                    requires
                        0 <= (i as int),
                        (i as int) + 1 <= (N as int),
                        (esz as int) > 0,
                ;
            }
            let lo = i * esz;
            let hi = lo + esz;
            let elem = match T::try_from_le_bytes(slice_subrange(bytes, lo, hi)) {
                Ok(v) => v,
                Err(e) => {
                    proof {
                        assert(chunk_of(bytes@, T::spec_size(), i as int) =~= bytes@.subrange(
                            lo as int,
                            hi as int,
                        ));
                        assert(T::le_decoded(
                            chunk_of(bytes@, T::spec_size(), i as int),
                            Err::<T, TryDecodeLinkstoreArrayError>(e),
                        ));
                    }
                    return Err(e);
                },
            };
            proof {
                assert(chunk_of(bytes@, T::spec_size(), i as int) =~= bytes@.subrange(
                    lo as int,
                    hi as int,
                ));
            }
            arr[i] = elem;
            i = i + 1;
        }
        Ok(arr)
    }

    fn try_from_be_bytes(bytes: &[u8]) -> (r: Result<[T; N], TryDecodeLinkstoreArrayError>) {
        if N == 0 {
            return Err(TryDecodeLinkstoreArrayError::MismatchedElementCount(0, N));
        }
        proof {
            assert(1 * T::spec_size() <= N as nat * T::spec_size()) by (nonlinear_arith)
                requires
                    N as nat >= 1,
            ;
        }
        let esz = T::byte_size();
        if esz == 0 {
            return Err(TryDecodeLinkstoreArrayError::MismatchedElementCount(0, N));
        }
        let len = bytes.len();
        if len % esz != 0 {
            return Err(TryDecodeLinkstoreArrayError::MismatchedBytesCount(len, esz));
        }
        let k = len / esz;
        proof {
            vstd::arithmetic::div_mod::lemma_fundamental_div_mod(len as int, esz as int);
        }
        if k < N {
            proof {
                assert((len as int) < (N as int) * (esz as int)) by (nonlinear_arith)
                    requires
                        len as int == (esz as int) * (k as int),
                        (k as int) < (N as int),
                        (esz as int) > 0,
                ;
            }
            return Err(TryDecodeLinkstoreArrayError::MismatchedElementCount(k, N));
        }
        proof {
            assert((N as int) * (esz as int) <= len as int && (esz as int) <= (N as int) * (
            esz as int)) by (nonlinear_arith)
                requires
                    len as int == (esz as int) * (k as int),
                    (k as int) >= (N as int),
                    (esz as int) > 0,
                    N as int >= 1,
            ;
        }
        let first = match T::try_from_be_bytes(slice_subrange(bytes, 0, esz)) {
            Ok(v) => v,
            Err(e) => {
                proof {
                    assert(chunk_of(bytes@, T::spec_size(), 0) =~= bytes@.subrange(
                        0,
                        esz as int,
                    ));
                    assert(T::be_decoded(
                        chunk_of(bytes@, T::spec_size(), 0),
                        Err::<T, TryDecodeLinkstoreArrayError>(e),
                    ));
                }
                return Err(e);
            },
        };
        let mut arr: [T; N] = [first; N];
        proof {
            assert(chunk_of(bytes@, T::spec_size(), 0) =~= bytes@.subrange(0, esz as int));
        }
        let mut i: usize = 1;
        while i < N
            invariant
                1 <= i <= N,
                esz as nat == T::spec_size(),
                esz > 0,
                len == bytes@.len(),
                bytes@.len() % (esz as nat) == 0,
                (N as int) * (esz as int) <= len as int,
                forall|j: int|
                    0 <= j < i ==> T::be_decoded(
                        chunk_of(bytes@, esz as nat, j),
                        Ok::<T, TryDecodeLinkstoreArrayError>(arr@[j]),
                    ),
            decreases N - i,
        {
            proof {
                assert(0 <= (i as int) * (esz as int) && (i as int) * (esz as int) + (
                esz as int) <= (N as int) * (esz as int) && ((i as int) + 1) * (esz as int) == (
                i as int) * (esz as int) + (esz as int)) by (nonlinear_arith)
                    requires
                        0 <= (i as int),
                        (i as int) + 1 <= (N as int),
                        (esz as int) > 0,
                ;
            }
            let lo = i * esz;
            let hi = lo + esz;
            let elem = match T::try_from_be_bytes(slice_subrange(bytes, lo, hi)) {
                Ok(v) => v,
                Err(e) => {
                    proof {
                        assert(chunk_of(bytes@, T::spec_size(), i as int) =~= bytes@.subrange(
                            lo as int,
                            hi as int,
                        ));
                        assert(T::be_decoded(
                            chunk_of(bytes@, T::spec_size(), i as int),
                            Err::<T, TryDecodeLinkstoreArrayError>(e),
                        ));
                    }
                    return Err(e);
                },
            };
            proof {
                assert(chunk_of(bytes@, T::spec_size(), i as int) =~= bytes@.subrange(
                    lo as int,
                    hi as int,
                ));
            }
            arr[i] = elem;
            i = i + 1;
        }
        Ok(arr)
    }
}

} // verus!
