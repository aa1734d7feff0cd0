//! The slot directory and its on-disk decoder.
//!
//! A slot section holds a directory of entries laid out back to back:
//!
//! ```text
//! | 0xEA | name bytes | \0 | size | padding | pad bytes | payload |
//! ```
//!
//! `size` and `padding` are unsigned little-endian words of 8 bytes in a
//! 64-bit object and 4 bytes otherwise; the directory metadata is always
//! little-endian, whatever the payload endianness.  `spec_decode` defines the
//! decoding mathematically and `decode_section` implements it.

use vstd::prelude::*;

use crate::codec::{le_value_of, lemma_le_value_of_bound};
use crate::encode::lemma_pow256_vals;
use crate::objects::{lossy_of, lossy_utf8};
use crate::Error;

verus! {

/// The byte marking the start of each directory entry.
pub const MAGIC: u8 = 234;

/// A slot's staged payload: as discovered, or replaced and awaiting a flush.
pub enum LinkstoreBytes {
    Unchanged(Vec<u8>),
    Staged(Vec<u8>),
}

impl LinkstoreBytes {
    /// The payload bytes, whichever state they are in.
    pub open spec fn bytes(&self) -> Seq<u8> {
        match self {
            LinkstoreBytes::Unchanged(b) => b@,
            LinkstoreBytes::Staged(b) => b@,
        }
    }

    /// Whether the payload was replaced and awaits a flush.
    pub open spec fn is_set(&self) -> bool {
        self is Staged
    }

    pub fn as_slice(&self) -> (r: &[u8])
        ensures
            r@ == self.bytes(),
    {
        match self {
            LinkstoreBytes::Unchanged(b) => b.as_slice(),
            LinkstoreBytes::Staged(b) => b.as_slice(),
        }
    }
}

/// One discovered slot: a named, fixed-size payload at an absolute offset of
/// the outermost file.
pub struct Linkstore {
    pub name: String,
    pub offset: u64,
    pub size: u64,
    pub little_endian: bool,
    pub bytes: LinkstoreBytes,
}

impl Linkstore {
    /// A slot is well formed w.r.t. a file of `file_len` bytes: its payload
    /// range lies inside the file and the staged bytes fill it exactly.
    pub open spec fn wf(&self, file_len: nat) -> bool {
        &&& self.offset as nat + self.size as nat <= file_len
        &&& self.bytes.bytes().len() == self.size as nat
    }
}

/// One raw directory entry, before its name is turned into a string:
/// name bytes, payload offset local to the decoded buffer, payload size, and
/// the payload bytes themselves.
pub struct RawEntry {
    pub name: Seq<u8>,
    pub off: nat,
    pub size: nat,
    pub payload: Seq<u8>,
}

/// The directory word size: 8 bytes in a 64-bit object, else 4.
pub open spec fn word_size(is_64: bool) -> nat {
    if is_64 {
        8
    } else {
        4
    }
}

/// The least index at or after `pos` holding `byte`, if any.
pub open spec fn find_after(data: Seq<u8>, pos: nat, byte: u8) -> Option<nat>
    decreases data.len() - pos,
{
    if pos >= data.len() {
        None
    } else if data[pos as int] == byte {
        Some(pos)
    } else {
        find_after(data, pos + 1, byte)
    }
}

/// Decodes one directory entry at `pos` (just past its magic byte) with
/// `budget` section bytes left.  Gives the entry and the position and budget
/// after it.  The name must be non-empty and NUL-terminated before the end of
/// the data; every declared length is checked against the budget first and
/// the available data second.
pub open spec fn spec_record(data: Seq<u8>, pos: nat, budget: nat, word: nat) -> Result<
    (RawEntry, nat, nat),
    Error,
> {
    match find_after(data, pos, 0u8) {
        None => Err(Error::NameDecodingError),
        Some(z) => {
            let name = data.subrange(pos as int, z as int);
            if name.len() == 0 {
                Err(Error::NameDecodingError)
            } else {
                let consumed = z + 1 - pos;
                if budget < consumed {
                    Err(Error::UnexpectedEof)
                } else {
                    let b2 = (budget - consumed) as nat;
                    let pos2 = (z + 1) as nat;
                    if b2 < word {
                        Err(Error::UnexpectedEof)
                    } else if pos2 + word > data.len() {
                        Err(Error::UnexpectedEof)
                    } else {
                        let size = le_value_of(data.subrange(pos2 as int, (pos2 + word) as int));
                        let b3 = (b2 - word) as nat;
                        let pos3 = pos2 + word;
                        if b3 < word {
                            Err(Error::UnexpectedEof)
                        } else if pos3 + word > data.len() {
                            Err(Error::UnexpectedEof)
                        } else {
                            let padding = le_value_of(
                                data.subrange(pos3 as int, (pos3 + word) as int),
                            );
                            let b4 = (b3 - word) as nat;
                            let pos4 = pos3 + word;
                            if b4 < padding {
                                Err(Error::UnexpectedEof)
                            } else if ((b4 - padding) as nat) < size {
                                Err(Error::UnexpectedEof)
                            } else {
                                let b5 = (b4 - padding - size) as nat;
                                let pos5 = pos4 + padding;
                                if pos5 + size > data.len() {
                                    Err(Error::UnexpectedEof)
                                } else {
                                    let payload = data.subrange(
                                        pos5 as int,
                                        (pos5 + size) as int,
                                    );
                                    Ok(
                                        (
                                            RawEntry { name, off: pos5, size, payload },
                                            pos5 + size,
                                            b5,
                                        ),
                                    )
                                }
                            }
                        }
                    }
                }
            }
        },
    }
}

/// Decodes a slot directory: `budget` is the declared section size still to
/// account for, `pos` the current position in `data`.  Scanning for the next
/// magic byte that runs off the end of the data or exhausts the budget ends
/// the directory normally; a malformed entry is an error.
pub open spec fn spec_decode(data: Seq<u8>, pos: nat, budget: nat, word: nat) -> Result<
    Seq<RawEntry>,
    Error,
>
    decreases budget,
    via spec_decode_decreases
{
    let min = 2 + 2 * word;
    if budget < min {
        Ok(Seq::empty())
    } else {
        match find_after(data, pos, MAGIC) {
            None => Ok(Seq::empty()),
            Some(m) => {
                let scanned = m + 1 - pos;
                let b1: nat = if budget <= scanned {
                    0
                } else {
                    (budget - scanned) as nat
                };
                if b1 < min {
                    Ok(Seq::empty())
                } else {
                    match spec_record(data, (m + 1) as nat, b1, word) {
                        Err(e) => Err(e),
                        Ok((entry, pos2, b2)) => match spec_decode(data, pos2, b2, word) {
                            Err(e) => Err(e),
                            Ok(rest) => Ok(seq![entry] + rest),
                        },
                    }
                }
            },
        }
    }
}

/// A decoded entry always consumes budget: the budget after a record is
/// strictly below the budget before its magic byte was scanned.
pub proof fn lemma_spec_record_budget(data: Seq<u8>, pos: nat, budget: nat, word: nat)
    ensures
        spec_record(data, pos, budget, word) matches Ok(t) ==> t.2 <= budget,
{
    lemma_find_after(data, pos, 0u8);
}

#[via_fn]
proof fn spec_decode_decreases(data: Seq<u8>, pos: nat, budget: nat, word: nat) {
    let min = 2 + 2 * word;
    if budget >= min {
        match find_after(data, pos, MAGIC) {
            None => {},
            Some(m) => {
                lemma_find_after(data, pos, MAGIC);
                let scanned = m + 1 - pos;
                let b1: nat = if budget <= scanned {
                    0
                } else {
                    (budget - scanned) as nat
                };
                if b1 >= min {
                    lemma_spec_record_budget(data, (m + 1) as nat, b1, word);
                }
            },
        }
    }
}

/// `find_after` finds an index at or after `pos`, within the data, holding
/// the byte, and nothing before it holds the byte.
pub proof fn lemma_find_after(data: Seq<u8>, pos: nat, byte: u8)
    ensures
        match find_after(data, pos, byte) {
            Some(i) => pos <= i < data.len() && data[i as int] == byte && forall|j: int|
                pos <= j < i ==> data[j] != byte,
            None => forall|j: int| pos <= j < data.len() ==> data[j] != byte,
        },
    decreases data.len() - pos,
{
    if pos < data.len() && data[pos as int] != byte {
        lemma_find_after(data, pos + 1, byte);
    }
}

/// Every entry of a decoded directory is well formed: a non-empty name, a
/// payload range inside the data, and payload bytes read from that range.
pub proof fn lemma_spec_decode_wf(data: Seq<u8>, pos: nat, budget: nat, word: nat)
    ensures
        spec_decode(data, pos, budget, word) matches Ok(entries) ==> forall|k: int|
            0 <= k < entries.len() ==> {
                &&& (#[trigger] entries[k]).name.len() >= 1
                &&& entries[k].off + entries[k].size <= data.len()
                &&& entries[k].payload == data.subrange(
                    entries[k].off as int,
                    (entries[k].off + entries[k].size) as int,
                )
                &&& entries[k].payload.len() == entries[k].size
            },
    decreases budget,
{
    let min = 2 + 2 * word;
    if budget >= min {
        match find_after(data, pos, MAGIC) {
            None => {},
            Some(m) => {
                let scanned = m + 1 - pos;
                let b1: nat = if budget <= scanned {
                    0
                } else {
                    (budget - scanned) as nat
                };
                if b1 >= min {
                    lemma_find_after(data, pos, MAGIC);
                    lemma_spec_record_budget(data, (m + 1) as nat, b1, word);
                    match spec_record(data, (m + 1) as nat, b1, word) {
                        Err(_) => {},
                        Ok((entry, pos2, b2)) => {
                            lemma_spec_decode_wf(data, pos2, b2, word);
                            match spec_decode(data, pos2, b2, word) {
                                Ok(rest) => {
                                    assert(forall|k: int|
                                        1 <= k < (seq![entry] + rest).len() ==> (seq![entry]
                                            + rest)[k] == rest[k - 1]);
                                },
                                Err(_) => {},
                            }
                        },
                    }
                }
            },
        }
    }
}

/// How one discovered slot renders one raw entry: the name is the lossy UTF-8
/// reading of the entry's name bytes, the offset is translated by the
/// enclosing container's own offset, and the payload is staged unchanged.
pub open spec fn slot_models_entry(
    s: Linkstore,
    e: RawEntry,
    little_endian: bool,
    outer: nat,
) -> bool {
    &&& s.name@ == lossy_of(e.name)
    &&& s.offset as nat == outer + e.off
    &&& s.size as nat == e.size
    &&& s.little_endian == little_endian
    &&& !s.bytes.is_set()
    &&& s.bytes.bytes() == e.payload
}

/// The least index at or after `pos` holding `byte`, if any.
fn find_byte(data: &[u8], pos: usize, byte: u8) -> (r: Option<usize>)
    ensures
        match r {
            Some(i) => pos <= i < data@.len() && data@[i as int] == byte && find_after(
                data@,
                pos as nat,
                byte,
            ) == Some(i as nat),
            None => find_after(data@, pos as nat, byte) is None,
        },
{
    let n = data.len();
    if pos >= n {
        return None;
    }
    let mut i: usize = pos;
    while i < n
        invariant
            pos <= i <= n,
            n == data@.len(),
            find_after(data@, pos as nat, byte) == find_after(data@, i as nat, byte),
        decreases n - i,
    {
        if *vstd::slice::slice_index_get(data, i) == byte {
            proof {
                lemma_find_after(data@, i as nat, byte);
            }
            return Some(i);
        }
        i = i + 1;
    }
    None
}

/// Prepending an already-decoded prefix to the rest of a decode.
pub open spec fn combine(prefix: Seq<RawEntry>, rest: Result<Seq<RawEntry>, Error>) -> Result<
    Seq<RawEntry>,
    Error,
> {
    match rest {
        Ok(es) => Ok(prefix + es),
        Err(e) => Err(e),
    }
}

/// Decodes the slot directory of one section and appends the discovered
/// slots to `out`, their offsets translated by `outer_offset`.  On an error
/// `out` is left as it was.  The result is exactly what `spec_decode` says of
/// the section's declared offset and size.
#[verifier::rlimit(100)]
pub fn decode_section(
    data: &[u8],
    header_offset: u64,
    header_size: u64,
    is_64: bool,
    little_endian: bool,
    outer_offset: u64,
    out: &mut Vec<Linkstore>,
) -> (r: Result<(), Error>)
    requires
        outer_offset as nat + data@.len() <= u64::MAX as nat,
    ensures
        match r {
            Ok(()) => spec_decode(
                data@,
                header_offset as nat,
                header_size as nat,
                word_size(is_64),
            ) matches Ok(entries) && {
                &&& final(out)@.len() == old(out)@.len() + entries.len()
                &&& forall|i: int| 0 <= i < old(out)@.len() ==> final(out)@[i] == old(out)@[i]
                &&& forall|k: int|
                    0 <= k < entries.len() ==> slot_models_entry(
                        #[trigger] final(out)@[old(out)@.len() + k],
                        entries[k],
                        little_endian,
                        outer_offset as nat,
                    )
            },
            Err(e) => spec_decode(
                data@,
                header_offset as nat,
                header_size as nat,
                word_size(is_64),
            ) == Err::<Seq<RawEntry>, Error>(e) && final(out)@ == old(out)@,
        },
{
    let ghost w = word_size(is_64);
    let word: u64 = if is_64 {
        8
    } else {
        4
    };
    let min: u64 = 2 + 2 * word;
    let ghost p0 = header_offset as nat;
    let ghost b0 = header_size as nat;

    let mut acc: Vec<Linkstore> = Vec::new();
    let ghost mut prefix: Seq<RawEntry> = Seq::empty();

    // A section offset beyond the data means no magic byte will ever be
    // found: the directory is empty.
    if header_offset > data.len() as u64 {
        proof {
            lemma_find_after(data@, p0, MAGIC);
            if b0 >= 2 + 2 * w {
                assert(find_after(data@, p0, MAGIC) is None);
            }
        }
        return Ok(());
    }

    let n = data.len();
    let mut pos: usize = header_offset as usize;
    let mut budget: u64 = header_size;

    while budget >= min
        invariant
            w == word_size(is_64),
            word == w,
            min == 2 + 2 * word,
            p0 == header_offset as nat,
            b0 == header_size as nat,
            out@ == old(out)@,
            n == data@.len(),
            pos <= n,
            outer_offset as nat + data@.len() <= u64::MAX as nat,
            acc@.len() == prefix.len(),
            forall|i: int|
                0 <= i < prefix.len() ==> slot_models_entry(
                    #[trigger] acc@[i],
                    prefix[i],
                    little_endian,
                    outer_offset as nat,
                ),
            combine(prefix, spec_decode(data@, pos as nat, budget as nat, w)) == spec_decode(
                data@,
                p0,
                b0,
                w,
            ),
        decreases budget,
    {
        let ghost pos_i = pos as nat;
        let ghost budget_i = budget as nat;

        // Scan to the next entry's magic byte; none left ends the directory.
        let m = match find_byte(data, pos, MAGIC) {
            None => {
                proof {
                    assert(spec_decode(data@, pos_i, budget_i, w) == Ok::<Seq<RawEntry>, Error>(
                        Seq::empty(),
                    ));
                }
                budget = 0;
                continue ;
            },
            Some(m) => m,
        };
        let scanned = m - pos + 1;
        if budget <= scanned as u64 {
            proof {
                assert(spec_decode(data@, pos_i, budget_i, w) == Ok::<Seq<RawEntry>, Error>(
                    Seq::empty(),
                ));
            }
            budget = 0;
            continue ;
        }
        let bud1: u64 = budget - scanned as u64;
        if bud1 < min {
            proof {
                assert(spec_decode(data@, pos_i, budget_i, w) == Ok::<Seq<RawEntry>, Error>(
                    Seq::empty(),
                ));
            }
            budget = 0;
            continue ;
        }
        let pos1: usize = m + 1;
        let ghost b1 = bud1 as nat;
        proof {
            assert(spec_decode(data@, pos_i, budget_i, w) == (
            match spec_record(data@, pos1 as nat, b1, w) {
                Err(e) => Err::<Seq<RawEntry>, Error>(e),
                Ok((entry, pos2, b2)) => match spec_decode(data@, pos2, b2, w) {
                    Err(e) => Err(e),
                    Ok(rest) => Ok(seq![entry] + rest),
                },
            }));
        }

        // Read the NUL-terminated name.
        let z = match find_byte(data, pos1, 0u8) {
            None => {
                proof {
                    assert(spec_record(data@, pos1 as nat, b1, w) == Err::<
                        (RawEntry, nat, nat),
                        Error,
                    >(Error::NameDecodingError));
                }
                return Err(Error::NameDecodingError);
            },
            Some(z) => z,
        };
        if z == pos1 {
            proof {
                assert(data@.subrange(pos1 as int, z as int).len() == 0);
                assert(spec_record(data@, pos1 as nat, b1, w) == Err::<
                    (RawEntry, nat, nat),
                    Error,
                >(Error::NameDecodingError));
            }
            return Err(Error::NameDecodingError);
        }
        let ghost name_bytes = data@.subrange(pos1 as int, z as int);
        let c: usize = z - pos1 + 1;
        if bud1 < c as u64 {
            proof {
                assert(spec_record(data@, pos1 as nat, b1, w) == Err::<
                    (RawEntry, nat, nat),
                    Error,
                >(Error::UnexpectedEof));
            }
            return Err(Error::UnexpectedEof);
        }
        let name_slice = vstd::slice::slice_subrange(data, pos1, z);
        let bud2: u64 = bud1 - c as u64;
        let pos2: usize = z + 1;

        // Read the size and padding words; the directory metadata is always
        // little-endian.
        if bud2 < word {
            proof {
                assert(spec_record(data@, pos1 as nat, b1, w) == Err::<
                    (RawEntry, nat, nat),
                    Error,
                >(Error::UnexpectedEof));
            }
            return Err(Error::UnexpectedEof);
        }
        if n < word as usize || pos2 > n - word as usize {
            proof {
                assert(spec_record(data@, pos1 as nat, b1, w) == Err::<
                    (RawEntry, nat, nat),
                    Error,
                >(Error::UnexpectedEof));
            }
            return Err(Error::UnexpectedEof);
        }
        let size128 = crate::codec::le_decode(
            vstd::slice::slice_subrange(data, pos2, pos2 + word as usize),
        );
        proof {
            lemma_pow256_vals();
            crate::codec::lemma_pow256_increases(w, 8);
            lemma_le_value_of_bound(data@.subrange(pos2 as int, pos2 as int + word as int));
        }
        let size = size128 as u64;
        let bud3: u64 = bud2 - word;
        let pos3: usize = pos2 + word as usize;

        if bud3 < word {
            proof {
                assert(spec_record(data@, pos1 as nat, b1, w) == Err::<
                    (RawEntry, nat, nat),
                    Error,
                >(Error::UnexpectedEof));
            }
            return Err(Error::UnexpectedEof);
        }
        if n < word as usize || pos3 > n - word as usize {
            proof {
                assert(spec_record(data@, pos1 as nat, b1, w) == Err::<
                    (RawEntry, nat, nat),
                    Error,
                >(Error::UnexpectedEof));
            }
            return Err(Error::UnexpectedEof);
        }
        let padding128 = crate::codec::le_decode(
            vstd::slice::slice_subrange(data, pos3, pos3 + word as usize),
        );
        proof {
            lemma_pow256_vals();
            crate::codec::lemma_pow256_increases(w, 8);
            lemma_le_value_of_bound(data@.subrange(pos3 as int, pos3 as int + word as int));
        }
        let padding = padding128 as u64;
        let bud4: u64 = bud3 - word;
        let pos4: usize = pos3 + word as usize;

        // Account for the padding and the payload before touching the data.
        if bud4 < padding {
            proof {
                assert(spec_record(data@, pos1 as nat, b1, w) == Err::<
                    (RawEntry, nat, nat),
                    Error,
                >(Error::UnexpectedEof));
            }
            return Err(Error::UnexpectedEof);
        }
        if bud4 - padding < size {
            proof {
                assert(spec_record(data@, pos1 as nat, b1, w) == Err::<
                    (RawEntry, nat, nat),
                    Error,
                >(Error::UnexpectedEof));
            }
            return Err(Error::UnexpectedEof);
        }
        let bud5: u64 = bud4 - padding - size;

        // Skip the padding and capture the payload.
        let pos5u: u128 = pos4 as u128 + padding as u128;
        if pos5u + size as u128 > n as u128 {
            proof {
                assert(spec_record(data@, pos1 as nat, b1, w) == Err::<
                    (RawEntry, nat, nat),
                    Error,
                >(Error::UnexpectedEof));
            }
            return Err(Error::UnexpectedEof);
        }
        let pos5: usize = pos5u as usize;
        let end: usize = pos5 + size as usize;
        let payload = vstd::slice::slice_to_vec(vstd::slice::slice_subrange(data, pos5, end));
        let name = lossy_utf8(name_slice);
        let offset: u64 = outer_offset + pos5 as u64;
        let slot = Linkstore {
            name,
            offset,
            size,
            little_endian,
            bytes: LinkstoreBytes::Unchanged(payload),
        };
        let ghost entry = RawEntry {
            name: name_bytes,
            off: pos5 as nat,
            size: size as nat,
            payload: data@.subrange(pos5 as int, end as int),
        };
        proof {
            assert(spec_record(data@, pos1 as nat, b1, w) == Ok::<(RawEntry, nat, nat), Error>(
                (entry, end as nat, bud5 as nat),
            ));
        }
        acc.push(slot);
        pos = end;
        budget = bud5;
        proof {
            match spec_decode(data@, pos as nat, budget as nat, w) {
                Ok(rest) => {
                    assert(prefix.push(entry) + rest =~= prefix + (seq![entry] + rest));
                },
                Err(_) => {},
            }
            prefix = prefix.push(entry);
        }
    }

    // The budget fell below one minimal entry: the directory ends normally.
    proof {
        assert(spec_decode(data@, pos as nat, budget as nat, w) == Ok::<Seq<RawEntry>, Error>(
            Seq::empty(),
        ));
        assert(prefix + Seq::<RawEntry>::empty() =~= prefix);
        assert(spec_decode(data@, p0, b0, w) == Ok::<Seq<RawEntry>, Error>(prefix));
    }
    out.append(&mut acc);
    Ok(())
}

} // verus!
