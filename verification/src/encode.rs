//! Encoding of values into slot payload bytes.
//!
//! `EncodeLinkstore` is implemented by every type that can be embedded into a
//! slot: the fixed-width integers of 1, 2, 4, 8 and 16 bytes, `bool`, and
//! fixed-length arrays of such types.  A value encodes to little- or
//! big-endian bytes; the slot's endianness decides which encoding is stored.

use vstd::prelude::*;

use crate::codec::{
    be_bytes_of, be_encode, le_bytes_of, le_encode, lemma_le_bytes_of_len, pow256, unsigned_repr,
};

verus! {

/// Proves the concrete values of `pow256` at every supported payload width.
pub proof fn lemma_pow256_vals()
    ensures
        pow256(1) == 0x100,
        pow256(2) == 0x10000,
        pow256(4) == 0x100000000,
        pow256(8) == 0x10000000000000000,
        pow256(16) == 0x100000000000000000000000000000000,
{
    reveal_with_fuel(pow256, 17);
}

/// Encoded bytes ready to be staged into a slot.
pub struct EmbeddableBytes {
    bytes: Vec<u8>,
}

impl View for EmbeddableBytes {
    type V = Seq<u8>;

    closed spec fn view(&self) -> Seq<u8> {
        self.bytes@
    }
}

impl EmbeddableBytes {
    pub fn from_vec(bytes: Vec<u8>) -> (r: Self)
        ensures
            r@ == bytes@,
    {
        EmbeddableBytes { bytes }
    }

    pub fn len(&self) -> (n: usize)
        ensures
            n == self@.len(),
    {
        self.bytes.len()
    }

    pub fn into_vec(self) -> (r: Vec<u8>)
        ensures
            r@ == self@,
    {
        self.bytes
    }

    pub fn as_slice(&self) -> (r: &[u8])
        ensures
            r@ == self@,
    {
        self.bytes.as_slice()
    }
}

/// A type that can be embedded into a slot of its size.
pub trait EncodeLinkstore: Sized {
    /// The number of payload bytes a value of this type occupies.
    spec fn spec_size() -> nat;

    /// The little-endian encoding of `self`.
    spec fn spec_le_bytes(&self) -> Seq<u8>;

    /// The big-endian encoding of `self`.
    spec fn spec_be_bytes(&self) -> Seq<u8>;

    /// Both encodings are exactly `spec_size` bytes long.
    proof fn lemma_encode_len(&self)
        ensures
            self.spec_le_bytes().len() == Self::spec_size(),
            self.spec_be_bytes().len() == Self::spec_size();

    fn byte_size() -> (n: usize)
        requires
            Self::spec_size() <= usize::MAX as nat,
        ensures
            n as nat == Self::spec_size(),
    ;

    fn as_le_bytes(&self) -> (r: EmbeddableBytes)
        ensures
            r@ == self.spec_le_bytes(),
    ;

    fn as_be_bytes(&self) -> (r: EmbeddableBytes)
        ensures
            r@ == self.spec_be_bytes(),
    ;
}

impl EncodeLinkstore for u8 {
    open spec fn spec_size() -> nat {
        1
    }

    open spec fn spec_le_bytes(&self) -> Seq<u8> {
        le_bytes_of(*self as nat, 1)
    }

    open spec fn spec_be_bytes(&self) -> Seq<u8> {
        be_bytes_of(*self as nat, 1)
    }

    proof fn lemma_encode_len(&self) {
        lemma_le_bytes_of_len(*self as nat, 1);
    }

    fn byte_size() -> (n: usize) {
        1
    }

    fn as_le_bytes(&self) -> (r: EmbeddableBytes) {
        proof {
            lemma_pow256_vals();
        }
        EmbeddableBytes::from_vec(le_encode(*self as u128, 1))
    }

    fn as_be_bytes(&self) -> (r: EmbeddableBytes) {
        proof {
            lemma_pow256_vals();
        }
        EmbeddableBytes::from_vec(be_encode(*self as u128, 1))
    }
}

impl EncodeLinkstore for u16 {
    open spec fn spec_size() -> nat {
        2
    }

    open spec fn spec_le_bytes(&self) -> Seq<u8> {
        le_bytes_of(*self as nat, 2)
    }

    open spec fn spec_be_bytes(&self) -> Seq<u8> {
        be_bytes_of(*self as nat, 2)
    }

    proof fn lemma_encode_len(&self) {
        lemma_le_bytes_of_len(*self as nat, 2);
    }

    fn byte_size() -> (n: usize) {
        2
    }

    fn as_le_bytes(&self) -> (r: EmbeddableBytes) {
        proof {
            lemma_pow256_vals();
        }
        EmbeddableBytes::from_vec(le_encode(*self as u128, 2))
    }

    fn as_be_bytes(&self) -> (r: EmbeddableBytes) {
        proof {
            lemma_pow256_vals();
        }
        EmbeddableBytes::from_vec(be_encode(*self as u128, 2))
    }
}

impl EncodeLinkstore for u32 {
    open spec fn spec_size() -> nat {
        4
    }

    open spec fn spec_le_bytes(&self) -> Seq<u8> {
        le_bytes_of(*self as nat, 4)
    }

    open spec fn spec_be_bytes(&self) -> Seq<u8> {
        be_bytes_of(*self as nat, 4)
    }

    proof fn lemma_encode_len(&self) {
        lemma_le_bytes_of_len(*self as nat, 4);
    }

    fn byte_size() -> (n: usize) {
        4
    }

    fn as_le_bytes(&self) -> (r: EmbeddableBytes) {
        proof {
            lemma_pow256_vals();
        }
        EmbeddableBytes::from_vec(le_encode(*self as u128, 4))
    }

    fn as_be_bytes(&self) -> (r: EmbeddableBytes) {
        proof {
            lemma_pow256_vals();
        }
        EmbeddableBytes::from_vec(be_encode(*self as u128, 4))
    }
}

impl EncodeLinkstore for u64 {
    open spec fn spec_size() -> nat {
        8
    }

    open spec fn spec_le_bytes(&self) -> Seq<u8> {
        le_bytes_of(*self as nat, 8)
    }

    open spec fn spec_be_bytes(&self) -> Seq<u8> {
        be_bytes_of(*self as nat, 8)
    }

    proof fn lemma_encode_len(&self) {
        lemma_le_bytes_of_len(*self as nat, 8);
    }

    fn byte_size() -> (n: usize) {
        8
    }

    fn as_le_bytes(&self) -> (r: EmbeddableBytes) {
        proof {
            lemma_pow256_vals();
        }
        EmbeddableBytes::from_vec(le_encode(*self as u128, 8))
    }

    fn as_be_bytes(&self) -> (r: EmbeddableBytes) {
        proof {
            lemma_pow256_vals();
        }
        EmbeddableBytes::from_vec(be_encode(*self as u128, 8))
    }
}

impl EncodeLinkstore for u128 {
    open spec fn spec_size() -> nat {
        16
    }

    open spec fn spec_le_bytes(&self) -> Seq<u8> {
        le_bytes_of(*self as nat, 16)
    }

    open spec fn spec_be_bytes(&self) -> Seq<u8> {
        be_bytes_of(*self as nat, 16)
    }

    proof fn lemma_encode_len(&self) {
        lemma_le_bytes_of_len(*self as nat, 16);
    }

    fn byte_size() -> (n: usize) {
        16
    }

    fn as_le_bytes(&self) -> (r: EmbeddableBytes) {
        proof {
            lemma_pow256_vals();
        }
        EmbeddableBytes::from_vec(le_encode(*self, 16))
    }

    fn as_be_bytes(&self) -> (r: EmbeddableBytes) {
        proof {
            lemma_pow256_vals();
        }
        EmbeddableBytes::from_vec(be_encode(*self, 16))
    }
}

/// The two's-complement `u128` representative of a signed value of `n` bytes,
/// `n` at most 8.
fn small_signed_repr(x: i128, pow: i128, n: usize) -> (r: u128)
    requires
        1 <= n <= 8,
        pow == pow256(n as nat),
        -(pow / 2) <= x < pow / 2,
    ensures
        r as nat == unsigned_repr(x as int, n as nat),
        (r as nat) < pow256(n as nat),
{
    if x >= 0 {
        x as u128
    } else {
        (x + pow) as u128
    }
}

impl EncodeLinkstore for i8 {
    open spec fn spec_size() -> nat {
        1
    }

    open spec fn spec_le_bytes(&self) -> Seq<u8> {
        le_bytes_of(unsigned_repr(*self as int, 1), 1)
    }

    open spec fn spec_be_bytes(&self) -> Seq<u8> {
        be_bytes_of(unsigned_repr(*self as int, 1), 1)
    }

    proof fn lemma_encode_len(&self) {
        lemma_le_bytes_of_len(unsigned_repr(*self as int, 1), 1);
    }

    fn byte_size() -> (n: usize) {
        1
    }

    fn as_le_bytes(&self) -> (r: EmbeddableBytes) {
        proof {
            lemma_pow256_vals();
        }
        EmbeddableBytes::from_vec(le_encode(small_signed_repr(*self as i128, 0x100, 1), 1))
    }

    fn as_be_bytes(&self) -> (r: EmbeddableBytes) {
        proof {
            lemma_pow256_vals();
        }
        EmbeddableBytes::from_vec(be_encode(small_signed_repr(*self as i128, 0x100, 1), 1))
    }
}

impl EncodeLinkstore for i16 {
    open spec fn spec_size() -> nat {
        2
    }

    open spec fn spec_le_bytes(&self) -> Seq<u8> {
        le_bytes_of(unsigned_repr(*self as int, 2), 2)
    }

    open spec fn spec_be_bytes(&self) -> Seq<u8> {
        be_bytes_of(unsigned_repr(*self as int, 2), 2)
    }

    proof fn lemma_encode_len(&self) {
        lemma_le_bytes_of_len(unsigned_repr(*self as int, 2), 2);
    }

    fn byte_size() -> (n: usize) {
        2
    }

    fn as_le_bytes(&self) -> (r: EmbeddableBytes) {
        proof {
            lemma_pow256_vals();
        }
        EmbeddableBytes::from_vec(le_encode(small_signed_repr(*self as i128, 0x10000, 2), 2))
    }

    fn as_be_bytes(&self) -> (r: EmbeddableBytes) {
        proof {
            lemma_pow256_vals();
        }
        EmbeddableBytes::from_vec(be_encode(small_signed_repr(*self as i128, 0x10000, 2), 2))
    }
}

impl EncodeLinkstore for i32 {
    open spec fn spec_size() -> nat {
        4
    }

    open spec fn spec_le_bytes(&self) -> Seq<u8> {
        le_bytes_of(unsigned_repr(*self as int, 4), 4)
    }

    open spec fn spec_be_bytes(&self) -> Seq<u8> {
        be_bytes_of(unsigned_repr(*self as int, 4), 4)
    }

    proof fn lemma_encode_len(&self) {
        lemma_le_bytes_of_len(unsigned_repr(*self as int, 4), 4);
    }

    fn byte_size() -> (n: usize) {
        4
    }

    fn as_le_bytes(&self) -> (r: EmbeddableBytes) {
        proof {
            lemma_pow256_vals();
        }
        EmbeddableBytes::from_vec(le_encode(small_signed_repr(*self as i128, 0x100000000, 4), 4))
    }

    fn as_be_bytes(&self) -> (r: EmbeddableBytes) {
        proof {
            lemma_pow256_vals();
        }
        EmbeddableBytes::from_vec(be_encode(small_signed_repr(*self as i128, 0x100000000, 4), 4))
    }
}

impl EncodeLinkstore for i64 {
    open spec fn spec_size() -> nat {
        8
    }

    open spec fn spec_le_bytes(&self) -> Seq<u8> {
        le_bytes_of(unsigned_repr(*self as int, 8), 8)
    }

    open spec fn spec_be_bytes(&self) -> Seq<u8> {
        be_bytes_of(unsigned_repr(*self as int, 8), 8)
    }

    proof fn lemma_encode_len(&self) {
        lemma_le_bytes_of_len(unsigned_repr(*self as int, 8), 8);
    }

    fn byte_size() -> (n: usize) {
        8
    }

    fn as_le_bytes(&self) -> (r: EmbeddableBytes) {
        proof {
            lemma_pow256_vals();
        }
        EmbeddableBytes::from_vec(
            le_encode(small_signed_repr(*self as i128, 0x10000000000000000, 8), 8),
        )
    }

    fn as_be_bytes(&self) -> (r: EmbeddableBytes) {
        proof {
            lemma_pow256_vals();
        }
        EmbeddableBytes::from_vec(
            be_encode(small_signed_repr(*self as i128, 0x10000000000000000, 8), 8),
        )
    }
}

/// The two's-complement `u128` representative of an `i128`.
fn i128_repr(x: i128) -> (r: u128)
    ensures
        r as nat == unsigned_repr(x as int, 16),
{
    proof {
        lemma_pow256_vals();
    }
    if x >= 0 {
        x as u128
    } else {
        let t: i128 = (x + i128::MAX) + 1;
        (t as u128) + 0x80000000000000000000000000000000u128
    }
}

impl EncodeLinkstore for i128 {
    open spec fn spec_size() -> nat {
        16
    }

    open spec fn spec_le_bytes(&self) -> Seq<u8> {
        le_bytes_of(unsigned_repr(*self as int, 16), 16)
    }

    open spec fn spec_be_bytes(&self) -> Seq<u8> {
        be_bytes_of(unsigned_repr(*self as int, 16), 16)
    }

    proof fn lemma_encode_len(&self) {
        lemma_le_bytes_of_len(unsigned_repr(*self as int, 16), 16);
    }

    fn byte_size() -> (n: usize) {
        16
    }

    fn as_le_bytes(&self) -> (r: EmbeddableBytes) {
        proof {
            lemma_pow256_vals();
        }
        EmbeddableBytes::from_vec(le_encode(i128_repr(*self), 16))
    }

    fn as_be_bytes(&self) -> (r: EmbeddableBytes) {
        proof {
            lemma_pow256_vals();
        }
        EmbeddableBytes::from_vec(be_encode(i128_repr(*self), 16))
    }
}

impl EncodeLinkstore for bool {
    open spec fn spec_size() -> nat {
        1
    }

    open spec fn spec_le_bytes(&self) -> Seq<u8> {
        seq![if *self { 1u8 } else { 0u8 }]
    }

    open spec fn spec_be_bytes(&self) -> Seq<u8> {
        seq![if *self { 1u8 } else { 0u8 }]
    }

    proof fn lemma_encode_len(&self) {
    }

    fn byte_size() -> (n: usize) {
        1
    }

    fn as_le_bytes(&self) -> (r: EmbeddableBytes) {
        let mut v: Vec<u8> = Vec::new();
        v.push(if *self {
            1u8
        } else {
            0u8
        });
        proof {
            assert(v@ =~= self.spec_le_bytes());
        }
        EmbeddableBytes::from_vec(v)
    }

    fn as_be_bytes(&self) -> (r: EmbeddableBytes) {
        let mut v: Vec<u8> = Vec::new();
        v.push(if *self {
            1u8
        } else {
            0u8
        });
        proof {
            assert(v@ =~= self.spec_be_bytes());
        }
        EmbeddableBytes::from_vec(v)
    }
}

/// The little-endian encodings of a sequence of values, concatenated in order.
pub open spec fn concat_le_bytes<T: EncodeLinkstore>(s: Seq<T>) -> Seq<u8>
    decreases s.len(),
{
    if s.len() == 0 {
        Seq::empty()
    } else {
        s[0].spec_le_bytes() + concat_le_bytes(s.skip(1))
    }
}

/// The big-endian encodings of a sequence of values, concatenated in order.
pub open spec fn concat_be_bytes<T: EncodeLinkstore>(s: Seq<T>) -> Seq<u8>
    decreases s.len(),
{
    if s.len() == 0 {
        Seq::empty()
    } else {
        s[0].spec_be_bytes() + concat_be_bytes(s.skip(1))
    }
}

pub proof fn lemma_concat_le_len<T: EncodeLinkstore>(s: Seq<T>)
    ensures
        concat_le_bytes(s).len() == s.len() * T::spec_size(),
    decreases s.len(),
{
    if s.len() > 0 {
        s[0].lemma_encode_len();
        lemma_concat_le_len(s.skip(1));
        assert(concat_le_bytes(s).len() == T::spec_size() + (s.len() - 1) * T::spec_size())
            by (nonlinear_arith)
            requires
                concat_le_bytes(s).len() == s[0].spec_le_bytes().len() + concat_le_bytes(
                    s.skip(1),
                ).len(),
                s[0].spec_le_bytes().len() == T::spec_size(),
                concat_le_bytes(s.skip(1)).len() == s.skip(1).len() * T::spec_size(),
                s.skip(1).len() == s.len() - 1,
        ;
        assert(T::spec_size() + (s.len() - 1) * T::spec_size() == s.len() * T::spec_size())
            by (nonlinear_arith);
    }
}

pub proof fn lemma_concat_be_len<T: EncodeLinkstore>(s: Seq<T>)
    ensures
        concat_be_bytes(s).len() == s.len() * T::spec_size(),
    decreases s.len(),
{
    if s.len() > 0 {
        s[0].lemma_encode_len();
        lemma_concat_be_len(s.skip(1));
        assert(concat_be_bytes(s).len() == T::spec_size() + (s.len() - 1) * T::spec_size())
            by (nonlinear_arith)
            requires
                concat_be_bytes(s).len() == s[0].spec_be_bytes().len() + concat_be_bytes(
                    s.skip(1),
                ).len(),
                s[0].spec_be_bytes().len() == T::spec_size(),
                concat_be_bytes(s.skip(1)).len() == s.skip(1).len() * T::spec_size(),
                s.skip(1).len() == s.len() - 1,
        ;
        assert(T::spec_size() + (s.len() - 1) * T::spec_size() == s.len() * T::spec_size())
            by (nonlinear_arith);
    }
}

pub proof fn lemma_concat_le_push<T: EncodeLinkstore>(s: Seq<T>, x: T)
    ensures
        concat_le_bytes(s.push(x)) == concat_le_bytes(s) + x.spec_le_bytes(),
    decreases s.len(),
{
    reveal_with_fuel(concat_le_bytes, 2);
    assert(s.push(x).len() == s.len() + 1);
    if s.len() == 0 {
        assert(s.push(x)[0] == x);
        assert(s.push(x).skip(1) =~= Seq::<T>::empty());
        assert(concat_le_bytes(s.push(x)) == x.spec_le_bytes() + concat_le_bytes(
            s.push(x).skip(1),
        ));
        assert(concat_le_bytes(s.push(x)) =~= concat_le_bytes(s) + x.spec_le_bytes());
    } else {
        assert(s.push(x)[0] == s[0]);
        assert(s.push(x).skip(1) =~= s.skip(1).push(x));
        lemma_concat_le_push(s.skip(1), x);
        assert(concat_le_bytes(s.push(x)) == s[0].spec_le_bytes() + concat_le_bytes(
            s.skip(1).push(x),
        ));
        assert(concat_le_bytes(s.push(x)) =~= concat_le_bytes(s) + x.spec_le_bytes());
    }
}

pub proof fn lemma_concat_be_push<T: EncodeLinkstore>(s: Seq<T>, x: T)
    ensures
        concat_be_bytes(s.push(x)) == concat_be_bytes(s) + x.spec_be_bytes(),
    decreases s.len(),
{
    reveal_with_fuel(concat_be_bytes, 2);
    assert(s.push(x).len() == s.len() + 1);
    if s.len() == 0 {
        assert(s.push(x)[0] == x);
        assert(s.push(x).skip(1) =~= Seq::<T>::empty());
        assert(concat_be_bytes(s.push(x)) == x.spec_be_bytes() + concat_be_bytes(
            s.push(x).skip(1),
        ));
        assert(concat_be_bytes(s.push(x)) =~= concat_be_bytes(s) + x.spec_be_bytes());
    } else {
        assert(s.push(x)[0] == s[0]);
        assert(s.push(x).skip(1) =~= s.skip(1).push(x));
        lemma_concat_be_push(s.skip(1), x);
        assert(concat_be_bytes(s.push(x)) == s[0].spec_be_bytes() + concat_be_bytes(
            s.skip(1).push(x),
        ));
        assert(concat_be_bytes(s.push(x)) =~= concat_be_bytes(s) + x.spec_be_bytes());
    }
}

impl<T: EncodeLinkstore, const N: usize> EncodeLinkstore for [T; N] {
    open spec fn spec_size() -> nat {
        N as nat * T::spec_size()
    }

    open spec fn spec_le_bytes(&self) -> Seq<u8> {
        concat_le_bytes(self@)
    }

    open spec fn spec_be_bytes(&self) -> Seq<u8> {
        concat_be_bytes(self@)
    }

    proof fn lemma_encode_len(&self) {
        lemma_concat_le_len(self@);
        lemma_concat_be_len(self@);
    }

    fn byte_size() -> (n: usize) {
        if N == 0 {
            0
        } else {
            proof {
                assert(N as nat * T::spec_size() >= 1 * T::spec_size()) by (nonlinear_arith)
                    requires
                        N as nat >= 1,
                ;
            }
            let e = T::byte_size();
            N * e
        }
    }

    fn as_le_bytes(&self) -> (r: EmbeddableBytes) {
        let mut out: Vec<u8> = Vec::new();
        let mut i: usize = 0;
        proof {
            assert(self@.take(0) =~= Seq::<T>::empty());
        }
        while i < N
            invariant
                i <= N,
                out@ == concat_le_bytes(self@.take(i as int)),
            decreases N - i,
        {
            let enc = self[i].as_le_bytes();
            let mut encv = enc.into_vec();
            proof {
                lemma_concat_le_push(self@.take(i as int), self@[i as int]);
                assert(self@.take(i as int).push(self@[i as int]) =~= self@.take(i as int + 1));
            }
            out.append(&mut encv);
            i = i + 1;
        }
        proof {
            assert(self@.take(N as int) =~= self@);
        }
        EmbeddableBytes::from_vec(out)
    }

    fn as_be_bytes(&self) -> (r: EmbeddableBytes) {
        let mut out: Vec<u8> = Vec::new();
        let mut i: usize = 0;
        proof {
            assert(self@.take(0) =~= Seq::<T>::empty());
        }
        while i < N
            invariant
                i <= N,
                out@ == concat_be_bytes(self@.take(i as int)),
            decreases N - i,
        {
            let enc = self[i].as_be_bytes();
            let mut encv = enc.into_vec();
            proof {
                lemma_concat_be_push(self@.take(i as int), self@[i as int]);
                assert(self@.take(i as int).push(self@[i as int]) =~= self@.take(i as int + 1));
            }
            out.append(&mut encv);
            i = i + 1;
        }
        proof {
            assert(self@.take(N as int) =~= self@);
        }
        EmbeddableBytes::from_vec(out)
    }
}

} // verus!
