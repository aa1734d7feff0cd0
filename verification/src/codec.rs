//! Byte-level encoding and decoding of fixed-width integers.
//!
//! Slot payloads are stored as little- or big-endian byte strings.  The spec
//! functions here define both byte orders once, over `nat` values, and the
//! executable helpers convert through `u128`, which is wide enough for every
//! supported payload width (1 to 16 bytes).

use vstd::prelude::*;

verus! {

/// 256^n: the number of distinct values an `n`-byte string can encode.
pub open spec fn pow256(n: nat) -> nat
    decreases n,
{
    if n == 0 {
        1
    } else {
        256 * pow256((n - 1) as nat)
    }
}

/// The `n`-byte little-endian encoding of `v`, low byte first.
pub open spec fn le_bytes_of(v: nat, n: nat) -> Seq<u8>
    decreases n,
{
    if n == 0 {
        Seq::empty()
    } else {
        seq![(v % 256) as u8] + le_bytes_of(v / 256, (n - 1) as nat)
    }
}

/// The value encoded by a little-endian byte string.
pub open spec fn le_value_of(s: Seq<u8>) -> nat
    decreases s.len(),
{
    if s.len() == 0 {
        0
    } else {
        s[0] as nat + 256 * le_value_of(s.skip(1))
    }
}

/// The `n`-byte big-endian encoding of `v`: the little-endian bytes reversed.
pub open spec fn be_bytes_of(v: nat, n: nat) -> Seq<u8> {
    le_bytes_of(v, n).reverse()
}

/// The value encoded by a big-endian byte string.
pub open spec fn be_value_of(s: Seq<u8>) -> nat {
    le_value_of(s.reverse())
}

/// The two's-complement representative of `x` among `n`-byte values.
pub open spec fn unsigned_repr(x: int, n: nat) -> nat {
    if x >= 0 {
        x as nat
    } else {
        (x + pow256(n)) as nat
    }
}

/// The signed reading of an `n`-byte value `v`: inverse of `unsigned_repr`.
pub open spec fn signed_read(v: nat, n: nat) -> int {
    if 2 * v < pow256(n) {
        v as int
    } else {
        v - pow256(n)
    }
}

pub proof fn lemma_le_bytes_of_len(v: nat, n: nat)
    ensures
        le_bytes_of(v, n).len() == n,
    decreases n,
{
    if n > 0 {
        lemma_le_bytes_of_len(v / 256, (n - 1) as nat);
    }
}

pub proof fn lemma_le_value_of_bound(s: Seq<u8>)
    ensures
        le_value_of(s) < pow256(s.len()),
    decreases s.len(),
{
    if s.len() > 0 {
        lemma_le_value_of_bound(s.skip(1));
    }
}

pub proof fn lemma_pow256_increases(a: nat, b: nat)
    requires
        a <= b,
    ensures
        pow256(a) <= pow256(b),
    decreases b,
{
    if a < b && b > 0 {
        lemma_pow256_increases(a, (b - 1) as nat);
    }
}

/// Decoding inverts encoding: the value of the `n`-byte little-endian
/// encoding of `v` is `v` itself, for every `v` that fits in `n` bytes.
pub proof fn lemma_le_round_trip(v: nat, n: nat)
    requires
        v < pow256(n),
    ensures
        le_value_of(le_bytes_of(v, n)) == v,
    decreases n,
{
    if n > 0 {
        let rest = le_bytes_of(v / 256, (n - 1) as nat);
        lemma_le_bytes_of_len(v / 256, (n - 1) as nat);
        assert(le_bytes_of(v, n).skip(1) =~= rest);
        lemma_le_round_trip(v / 256, (n - 1) as nat);
    }
}

/// Encoding inverts decoding: re-encoding the value of a little-endian byte
/// string over its own length gives the same bytes back.
pub proof fn lemma_le_bytes_of_value(s: Seq<u8>)
    ensures
        le_bytes_of(le_value_of(s), s.len()) == s,
    decreases s.len(),
{
    if s.len() > 0 {
        let v = le_value_of(s);
        assert(v % 256 == s[0] && v / 256 == le_value_of(s.skip(1))) by {
            lemma_le_value_of_bound(s.skip(1));
        };
        lemma_le_bytes_of_value(s.skip(1));
        assert(le_bytes_of(v, s.len()) =~= s);
    }
}

/// Little-endian encoding of `v` over `n` bytes.
pub fn le_encode(v: u128, n: usize) -> (r: Vec<u8>)
    requires
        (v as nat) < pow256(n as nat),
    ensures
        r@ == le_bytes_of(v as nat, n as nat),
        r@.len() == n,
{
    let mut out: Vec<u8> = Vec::new();
    let mut cur: u128 = v;
    let mut i: usize = 0;
    while i < n
        invariant
            i <= n,
            out@.len() == i,
            le_bytes_of(v as nat, n as nat) == out@ + le_bytes_of(cur as nat, (n - i) as nat),
        decreases n - i,
    {
        let b: u8 = (cur % 256) as u8;
        let ghost prev = out@;
        out.push(b);
        proof {
            assert(le_bytes_of(cur as nat, (n - i) as nat) == seq![b]
                + le_bytes_of((cur as nat) / 256, (n - i - 1) as nat));
            assert(prev + le_bytes_of(cur as nat, (n - i) as nat) =~= out@ + le_bytes_of(
                (cur as nat) / 256,
                (n - i - 1) as nat,
            ));
        }
        cur = cur / 256;
        i = i + 1;
    }
    proof {
        assert(out@ + le_bytes_of(cur as nat, 0) =~= out@);
    }
    out
}

/// The value of a little-endian byte string of at most 16 bytes.
pub fn le_decode(s: &[u8]) -> (r: u128)
    requires
        s@.len() <= 16,
    ensures
        r as nat == le_value_of(s@),
{
    let n = s.len();
    let mut acc: u128 = 0;
    let mut i: usize = n;
    proof {
        assert(s@.skip(n as int) =~= Seq::<u8>::empty());
    }
    while i > 0
        invariant
            i <= n,
            n == s@.len() <= 16,
            acc as nat == le_value_of(s@.skip(i as int)),
        decreases i,
    {
        i = i - 1;
        let b = s[i];
        proof {
            assert(s@.skip(i as int).skip(1) =~= s@.skip(i as int + 1));
            lemma_le_value_of_bound(s@.skip(i as int));
            lemma_pow256_increases(s@.skip(i as int).len() as nat, 16);
            assert(pow256(16) == 0x100000000000000000000000000000000) by {
                reveal_with_fuel(pow256, 17);
            }
        }
        acc = acc * 256 + b as u128;
    }
    proof {
        assert(s@.skip(0) =~= s@);
    }
    acc
}

/// A copy of `s` with the byte order reversed.
pub fn reversed(s: &[u8]) -> (r: Vec<u8>)
    ensures
        r@ == s@.reverse(),
{
    let n = s.len();
    let mut out: Vec<u8> = Vec::new();
    let mut i: usize = 0;
    while i < n
        invariant
            i <= n,
            n == s@.len(),
            out@.len() == i,
            forall|j: int| 0 <= j < i ==> out@[j] == s@[n - 1 - j],
        decreases n - i,
    {
        out.push(s[n - 1 - i]);
        i = i + 1;
    }
    proof {
        assert(out@ =~= s@.reverse());
    }
    out
}

/// Big-endian encoding of `v` over `n` bytes.
pub fn be_encode(v: u128, n: usize) -> (r: Vec<u8>)
    requires
        (v as nat) < pow256(n as nat),
    ensures
        r@ == be_bytes_of(v as nat, n as nat),
        r@.len() == n,
{
    let le = le_encode(v, n);
    let r = reversed(le.as_slice());
    proof {
        lemma_le_bytes_of_len(v as nat, n as nat);
    }
    r
}

/// The value of a big-endian byte string of at most 16 bytes.
pub fn be_decode(s: &[u8]) -> (r: u128)
    requires
        s@.len() <= 16,
    ensures
        r as nat == be_value_of(s@),
{
    let rev = reversed(s);
    le_decode(rev.as_slice())
}

} // verus!
