//! Laws relating the crate's operations to each other.
//!
//! Each proof function here states one property of the library as a whole,
//! over the same spec functions the operations' own contracts use.

use vstd::prelude::*;

use crate::decode::DecodeLinkstore;
use crate::directory::Linkstore;
use crate::discover::{spec_discover, spec_members, SpecSlot};
use crate::embedder::{
    apply_slot, apply_slots, covered_by_staged, decoded_value, lemma_apply_slot_len,
    lemma_apply_slots_untouched, slot_staged,
};

verus! {

/// Round trip: a slot staged by `embed` with value `x` reads back as `x`,
/// whatever the slot's endianness.
pub proof fn lemma_embed_read_round_trip<T: DecodeLinkstore>(prev: Linkstore, cur: Linkstore, x: T)
    requires
        slot_staged(prev, cur, x.spec_le_bytes(), x.spec_be_bytes()),
    ensures
        decoded_value::<T>(cur) == x,
{
    T::lemma_round_trip(x);
}

/// On files of equal length whose slots are all in bounds, a flush gives
/// every covered byte the same value, whatever the files held there before.
proof fn lemma_apply_slots_agree(d1: Seq<u8>, d2: Seq<u8>, slots: Seq<Linkstore>, i: int)
    requires
        d1.len() == d2.len(),
        forall|k: int| 0 <= k < slots.len() ==> (#[trigger] slots[k]).wf(d1.len()),
        0 <= i < d1.len(),
        covered_by_staged(slots, i),
    ensures
        apply_slots(d1, slots)[i] == apply_slots(d2, slots)[i],
    decreases slots.len(),
{
    let e1 = apply_slot(d1, slots[0]);
    let e2 = apply_slot(d2, slots[0]);
    lemma_apply_slot_len(d1, slots[0]);
    lemma_apply_slot_len(d2, slots[0]);
    assert(forall|k: int|
        0 <= k < slots.skip(1).len() ==> (#[trigger] slots.skip(1)[k]) == slots[k + 1]);
    if covered_by_staged(slots.skip(1), i) {
        lemma_apply_slots_agree(e1, e2, slots.skip(1), i);
    } else {
        let k = choose|k: int|
            0 <= k < slots.len() && (#[trigger] slots[k]).bytes.is_set() && slots[k].offset <= i
                < slots[k].offset + slots[k].size;
        assert(k == 0) by {
            if k > 0 {
                assert(slots.skip(1)[k - 1] == slots[k]);
            }
        }
        lemma_apply_slots_untouched(e1, slots.skip(1));
        lemma_apply_slots_untouched(e2, slots.skip(1));
        assert(e1[i] == slots[0].bytes.bytes()[i - slots[0].offset]);
        assert(e2[i] == slots[0].bytes.bytes()[i - slots[0].offset]);
    }
}

/// Idempotence: flushing the same staged slots onto an already-flushed file
/// changes nothing, so two back-to-back stage-and-flush rounds of the same
/// values produce identical bytes after the first.
pub proof fn lemma_flush_idempotent(data: Seq<u8>, slots: Seq<Linkstore>)
    requires
        forall|k: int| 0 <= k < slots.len() ==> (#[trigger] slots[k]).wf(data.len()),
    ensures
        apply_slots(apply_slots(data, slots), slots) == apply_slots(data, slots),
{
    let e = apply_slots(data, slots);
    lemma_apply_slots_untouched(data, slots);
    lemma_apply_slots_untouched(e, slots);
    assert forall|i: int| 0 <= i < e.len() implies apply_slots(e, slots)[i] == e[i] by {
        if covered_by_staged(slots, i) {
            lemma_apply_slots_agree(e, data, slots, i);
        }
    }
    assert(apply_slots(e, slots) =~= e);
}

/// A flush writes a staged slot's bytes exactly onto its payload range,
/// provided no staged slot later in the directory overlaps that range.
pub proof fn lemma_flush_writes_staged(data: Seq<u8>, slots: Seq<Linkstore>, k: int)
    requires
        forall|j: int| 0 <= j < slots.len() ==> (#[trigger] slots[j]).wf(data.len()),
        0 <= k < slots.len(),
        slots[k].bytes.is_set(),
        forall|j: int|
            k < j < slots.len() && (#[trigger] slots[j]).bytes.is_set() ==> slots[j].offset
                + slots[j].size <= slots[k].offset || slots[j].offset >= slots[k].offset
                + slots[k].size,
    ensures
        apply_slots(data, slots).subrange(
            slots[k].offset as int,
            slots[k].offset as int + slots[k].size as int,
        ) == slots[k].bytes.bytes(),
    decreases slots.len(),
{
    let off = slots[k].offset as int;
    let size = slots[k].size as int;
    let d1 = apply_slot(data, slots[0]);
    lemma_apply_slot_len(data, slots[0]);
    assert(forall|j: int|
        0 <= j < slots.skip(1).len() ==> (#[trigger] slots.skip(1)[j]) == slots[j + 1]);
    if k == 0 {
        lemma_apply_slots_untouched(d1, slots.skip(1));
        assert forall|i: int| off <= i < off + size implies apply_slots(data, slots)[i]
            == slots[0].bytes.bytes()[i - off] by {
            assert(!covered_by_staged(slots.skip(1), i)) by {
                if covered_by_staged(slots.skip(1), i) {
                    let j = choose|j: int|
                        0 <= j < slots.skip(1).len() && (#[trigger] slots.skip(
                            1,
                        )[j]).bytes.is_set() && slots.skip(1)[j].offset <= i < slots.skip(
                            1,
                        )[j].offset + slots.skip(1)[j].size;
                    assert(slots[j + 1] == slots.skip(1)[j]);
                }
            }
            assert(d1[i] == slots[0].bytes.bytes()[i - off]);
        }
        assert(apply_slots(data, slots).subrange(off, off + size) =~= slots[0].bytes.bytes());
    } else {
        lemma_flush_writes_staged(d1, slots.skip(1), k - 1);
        assert(slots.skip(1)[k - 1] == slots[k]);
    }
}

/// Endianness: after a flush, the on-disk bytes of a slot staged with value
/// `x` are the little-endian encoding of `x` if the slot is little-endian and
/// the big-endian encoding otherwise, provided no staged slot later in the
/// directory overlaps it.
pub proof fn lemma_endianness_on_disk<T: crate::encode::EncodeLinkstore>(
    data: Seq<u8>,
    slots: Seq<Linkstore>,
    prev: Linkstore,
    k: int,
    x: T,
)
    requires
        forall|j: int| 0 <= j < slots.len() ==> (#[trigger] slots[j]).wf(data.len()),
        0 <= k < slots.len(),
        slot_staged(prev, slots[k], x.spec_le_bytes(), x.spec_be_bytes()),
        forall|j: int|
            k < j < slots.len() && (#[trigger] slots[j]).bytes.is_set() ==> slots[j].offset
                + slots[j].size <= slots[k].offset || slots[j].offset >= slots[k].offset
                + slots[k].size,
    ensures
        apply_slots(data, slots).subrange(
            slots[k].offset as int,
            slots[k].offset as int + slots[k].size as int,
        ) == if prev.little_endian {
            x.spec_le_bytes()
        } else {
            x.spec_be_bytes()
        },
{
    lemma_flush_writes_staged(data, slots, k);
}

/// Re-flushing values a file already holds changes nothing: staged bytes
/// that equal the file's bytes at their own ranges leave every byte as it
/// was.  This is why a second stage-and-flush round of the same values
/// reproduces the first round's file exactly.
pub proof fn lemma_flush_of_present_values(data: Seq<u8>, slots: Seq<Linkstore>)
    requires
        forall|k: int| 0 <= k < slots.len() ==> (#[trigger] slots[k]).wf(data.len()),
        forall|k: int|
            0 <= k < slots.len() && (#[trigger] slots[k]).bytes.is_set() ==> slots[k].bytes.bytes()
                == data.subrange(
                slots[k].offset as int,
                slots[k].offset as int + slots[k].size as int,
            ),
    ensures
        apply_slots(data, slots) == data,
    decreases slots.len(),
{
    if slots.len() > 0 {
        assert(apply_slot(data, slots[0]) =~= data);
        assert(forall|k: int|
            0 <= k < slots.skip(1).len() ==> (#[trigger] slots.skip(1)[k]) == slots[k + 1]);
        lemma_flush_of_present_values(data, slots.skip(1));
    }
}

/// Container recursion: a container's directory is its first member's slots
/// followed by the remaining members' slots, and every slot the first member
/// contributes lies within that member's byte range of the outer file.
pub proof fn lemma_container_recursion(data: Seq<u8>, members: Seq<(u64, u64)>, outer: nat)
    requires
        spec_members(data, members, outer) is Ok,
        members.len() > 0,
    ensures
        ({
            let off = members[0].0 as nat;
            let size = members[0].1 as nat;
            let member = data.subrange(off as int, (off + size) as int);
            &&& off + size <= data.len()
            &&& spec_discover(member, outer + off) matches Ok(first)
            &&& spec_members(data, members.skip(1), outer) matches Ok(rest)
            &&& spec_members(data, members, outer) == Ok::<Seq<SpecSlot>, crate::discover::SpecDiscoverErr>(
                spec_discover(member, outer + off)->Ok_0 + spec_members(
                    data,
                    members.skip(1),
                    outer,
                )->Ok_0,
            )
            &&& forall|j: int|
                0 <= j < spec_discover(member, outer + off)->Ok_0.len() ==> outer + off <= (
                #[trigger] spec_discover(member, outer + off)->Ok_0[j]).offset && spec_discover(
                    member,
                    outer + off,
                )->Ok_0[j].offset + spec_discover(member, outer + off)->Ok_0[j].size <= outer + off
                    + size
        }),
{
    let off = members[0].0 as nat;
    let size = members[0].1 as nat;
    let member = data.subrange(off as int, (off + size) as int);
    lemma_spec_discover_bounds(member, outer + off);
}

/// Every slot a file exposes lies within the file's own byte range of the
/// outermost file.
pub proof fn lemma_spec_discover_bounds(data: Seq<u8>, outer: nat)
    ensures
        spec_discover(data, outer) matches Ok(slots) ==> forall|j: int|
            0 <= j < slots.len() ==> outer <= (#[trigger] slots[j]).offset && slots[j].offset
                + slots[j].size <= outer + data.len(),
    decreases data.len(), 3nat,
{
    match spec_discover(data, outer) {
        Err(_) => {},
        Ok(slots) => {
            match crate::objects::object_kind_of(data) {
                Err(_) => {},
                Ok(kind) => match kind {
                    crate::objects::ObjectKind::Elf => {
                        if let Ok((is_64, le, secs)) = crate::objects::elf_sections_of(data) {
                            lemma_spec_decode_sections_bounds(data, secs, is_64, le, outer);
                        }
                    },
                    crate::objects::ObjectKind::Pe => {
                        if let Ok((is_64, secs)) = crate::objects::pe_sections_of(data) {
                            lemma_spec_decode_sections_bounds(data, secs, is_64, true, outer);
                        }
                    },
                    crate::objects::ObjectKind::Coff => {
                        if let Ok((ch, secs)) = crate::objects::coff_sections_of(data) {
                            lemma_spec_decode_sections_bounds(
                                data,
                                secs,
                                ch & 0x0100 == 0,
                                true,
                                outer,
                            );
                        }
                    },
                    crate::objects::ObjectKind::MachO => {
                        if let Ok((is_64, le, secs)) = crate::objects::macho_sections_of(data) {
                            lemma_spec_decode_sections_bounds(data, secs, is_64, le, outer);
                        }
                    },
                    crate::objects::ObjectKind::FatMachO => {
                        if let Ok(members) = crate::objects::fat_members_of(data) {
                            lemma_spec_members_bounds(data, members, outer);
                        }
                    },
                    crate::objects::ObjectKind::Archive => {
                        if let Ok(members) = crate::objects::archive_members_of(data) {
                            lemma_spec_members_bounds(data, members, outer);
                        }
                    },
                    crate::objects::ObjectKind::Unknown => {
                        if outer != 0 {
                            if let Ok((ch, secs)) = crate::objects::coff_sections_of(data) {
                                lemma_spec_decode_sections_bounds(
                                    data,
                                    secs,
                                    ch & 0x0100 == 0,
                                    true,
                                    outer,
                                );
                            }
                        }
                    },
                },
            }
        },
    }
}

proof fn lemma_spec_members_bounds(data: Seq<u8>, members: Seq<(u64, u64)>, outer: nat)
    ensures
        spec_members(data, members, outer) matches Ok(slots) ==> forall|j: int|
            0 <= j < slots.len() ==> outer <= (#[trigger] slots[j]).offset && slots[j].offset
                + slots[j].size <= outer + data.len(),
    decreases data.len(), 2nat, members.len(),
{
    if members.len() > 0 {
        let off = members[0].0 as nat;
        let size = members[0].1 as nat;
        if !(off + size > data.len() || size >= data.len()) {
            let member = data.subrange(off as int, (off + size) as int);
            lemma_spec_discover_bounds(member, outer + off);
            lemma_spec_members_bounds(data, members.skip(1), outer);
            match spec_members(data, members, outer) {
                Err(_) => {},
                Ok(slots) => {
                    match spec_discover(member, outer + off) {
                        Err(_) => {},
                        Ok(first) => match spec_members(data, members.skip(1), outer) {
                            Err(_) => {},
                            Ok(rest) => {
                                assert forall|j: int|
                                    0 <= j < slots.len() implies outer <= (
                                #[trigger] slots[j]).offset && slots[j].offset + slots[j].size
                                    <= outer + data.len() by {
                                    if j < first.len() {
                                        assert(slots[j] == first[j]);
                                    } else {
                                        assert(slots[j] == rest[j - first.len()]);
                                    }
                                }
                            },
                        },
                    }
                },
            }
        }
    }
}

proof fn lemma_spec_decode_sections_bounds(
    data: Seq<u8>,
    secs: Seq<(Seq<u8>, u64, u64)>,
    is_64: bool,
    little_endian: bool,
    outer: nat,
)
    ensures
        crate::discover::spec_decode_sections(data, secs, is_64, little_endian, outer) matches Ok(
            slots,
        ) ==> forall|j: int|
            0 <= j < slots.len() ==> outer <= (#[trigger] slots[j]).offset && slots[j].offset
                + slots[j].size <= outer + data.len(),
    decreases secs.len(),
{
    if secs.len() > 0 {
        lemma_spec_decode_sections_bounds(data, secs.skip(1), is_64, little_endian, outer);
        if crate::discover::is_linkstore_name(secs[0].0) {
            crate::directory::lemma_spec_decode_wf(
                data,
                secs[0].1 as nat,
                secs[0].2 as nat,
                crate::directory::word_size(is_64),
            );
            match crate::directory::spec_decode(
                data,
                secs[0].1 as nat,
                secs[0].2 as nat,
                crate::directory::word_size(is_64),
            ) {
                Err(_) => {},
                Ok(entries) => {
                    match crate::discover::spec_decode_sections(
                        data,
                        secs.skip(1),
                        is_64,
                        little_endian,
                        outer,
                    ) {
                        Err(_) => {},
                        Ok(rest) => {
                            let mapped = entries.map_values(
                                |e: crate::directory::RawEntry|
                                    crate::discover::entry_to_slot(e, little_endian, outer),
                            );
                            match crate::discover::spec_decode_sections(
                                data,
                                secs,
                                is_64,
                                little_endian,
                                outer,
                            ) {
                                Err(_) => {},
                                Ok(slots) => {
                                    assert forall|j: int|
                                        0 <= j < slots.len() implies outer <= (
                                    #[trigger] slots[j]).offset && slots[j].offset
                                        + slots[j].size <= outer + data.len() by {
                                        if j < mapped.len() {
                                            assert(slots[j] == mapped[j]);
                                            assert(mapped[j] == crate::discover::entry_to_slot(
                                                entries[j],
                                                little_endian,
                                                outer,
                                            ));
                                            assert(entries[j].off + entries[j].size
                                                <= data.len());
                                        } else {
                                            assert(slots[j] == rest[j - mapped.len()]);
                                        }
                                    }
                                },
                            }
                        },
                    }
                },
            }
        }
    }
}

/// Every slot a file exposes reads its payload from the file itself: the
/// payload bytes are exactly the file's bytes at the slot's range (the
/// range is the slot's absolute offset, translated back by the file's own
/// position `outer` in the outermost file).
pub proof fn lemma_spec_discover_payloads(data: Seq<u8>, outer: nat)
    ensures
        spec_discover(data, outer) matches Ok(slots) ==> forall|j: int|
            0 <= j < slots.len() ==> (#[trigger] slots[j]).payload == data.subrange(
                slots[j].offset - outer,
                slots[j].offset - outer + slots[j].size,
            ),
    decreases data.len(), 3nat,
{
    lemma_spec_discover_bounds(data, outer);
    match crate::objects::object_kind_of(data) {
        Err(_) => {},
        Ok(kind) => match kind {
            crate::objects::ObjectKind::Elf => {
                if let Ok((is_64, le, secs)) = crate::objects::elf_sections_of(data) {
                    lemma_spec_decode_sections_payloads(data, secs, is_64, le, outer);
                }
            },
            crate::objects::ObjectKind::Pe => {
                if let Ok((is_64, secs)) = crate::objects::pe_sections_of(data) {
                    lemma_spec_decode_sections_payloads(data, secs, is_64, true, outer);
                }
            },
            crate::objects::ObjectKind::Coff => {
                if let Ok((ch, secs)) = crate::objects::coff_sections_of(data) {
                    lemma_spec_decode_sections_payloads(data, secs, ch & 0x0100 == 0, true, outer);
                }
            },
            crate::objects::ObjectKind::MachO => {
                if let Ok((is_64, le, secs)) = crate::objects::macho_sections_of(data) {
                    lemma_spec_decode_sections_payloads(data, secs, is_64, le, outer);
                }
            },
            crate::objects::ObjectKind::FatMachO => {
                if let Ok(members) = crate::objects::fat_members_of(data) {
                    lemma_spec_members_payloads(data, members, outer);
                }
            },
            crate::objects::ObjectKind::Archive => {
                if let Ok(members) = crate::objects::archive_members_of(data) {
                    lemma_spec_members_payloads(data, members, outer);
                }
            },
            crate::objects::ObjectKind::Unknown => {
                if outer != 0 {
                    if let Ok((ch, secs)) = crate::objects::coff_sections_of(data) {
                        lemma_spec_decode_sections_payloads(
                            data,
                            secs,
                            ch & 0x0100 == 0,
                            true,
                            outer,
                        );
                    }
                }
            },
        },
    }
}

proof fn lemma_spec_members_payloads(data: Seq<u8>, members: Seq<(u64, u64)>, outer: nat)
    ensures
        spec_members(data, members, outer) matches Ok(slots) ==> forall|j: int|
            0 <= j < slots.len() ==> (#[trigger] slots[j]).payload == data.subrange(
                slots[j].offset - outer,
                slots[j].offset - outer + slots[j].size,
            ),
    decreases data.len(), 2nat, members.len(),
{
    if members.len() > 0 {
        let off = members[0].0 as nat;
        let size = members[0].1 as nat;
        if !(off + size > data.len() || size >= data.len()) {
            let member = data.subrange(off as int, (off + size) as int);
            lemma_spec_discover_payloads(member, outer + off);
            lemma_spec_discover_bounds(member, outer + off);
            lemma_spec_members_payloads(data, members.skip(1), outer);
            match spec_members(data, members, outer) {
                Err(_) => {},
                Ok(slots) => {
                    match spec_discover(member, outer + off) {
                        Err(_) => {},
                        Ok(first) => match spec_members(data, members.skip(1), outer) {
                            Err(_) => {},
                            Ok(rest) => {
                                assert forall|j: int| 0 <= j < slots.len() implies (
                                #[trigger] slots[j]).payload == data.subrange(
                                    slots[j].offset - outer,
                                    slots[j].offset - outer + slots[j].size,
                                ) by {
                                    if j < first.len() {
                                        assert(slots[j] == first[j]);
                                        assert(first[j].payload == member.subrange(
                                            first[j].offset - (outer + off),
                                            first[j].offset - (outer + off) + first[j].size,
                                        ));
                                        assert(member.subrange(
                                            first[j].offset - (outer + off),
                                            first[j].offset - (outer + off) + first[j].size,
                                        ) =~= data.subrange(
                                            slots[j].offset - outer,
                                            slots[j].offset - outer + slots[j].size,
                                        ));
                                    } else {
                                        assert(slots[j] == rest[j - first.len()]);
                                    }
                                }
                            },
                        },
                    }
                },
            }
        }
    }
}

proof fn lemma_spec_decode_sections_payloads(
    data: Seq<u8>,
    secs: Seq<(Seq<u8>, u64, u64)>,
    is_64: bool,
    little_endian: bool,
    outer: nat,
)
    ensures
        crate::discover::spec_decode_sections(data, secs, is_64, little_endian, outer) matches Ok(
            slots,
        ) ==> forall|j: int|
            0 <= j < slots.len() ==> (#[trigger] slots[j]).payload == data.subrange(
                slots[j].offset - outer,
                slots[j].offset - outer + slots[j].size,
            ),
    decreases secs.len(),
{
    if secs.len() > 0 {
        lemma_spec_decode_sections_payloads(data, secs.skip(1), is_64, little_endian, outer);
        if crate::discover::is_linkstore_name(secs[0].0) {
            crate::directory::lemma_spec_decode_wf(
                data,
                secs[0].1 as nat,
                secs[0].2 as nat,
                crate::directory::word_size(is_64),
            );
            match crate::directory::spec_decode(
                data,
                secs[0].1 as nat,
                secs[0].2 as nat,
                crate::directory::word_size(is_64),
            ) {
                Err(_) => {},
                Ok(entries) => {
                    match crate::discover::spec_decode_sections(
                        data,
                        secs.skip(1),
                        is_64,
                        little_endian,
                        outer,
                    ) {
                        Err(_) => {},
                        Ok(rest) => {
                            let mapped = entries.map_values(
                                |e: crate::directory::RawEntry|
                                    crate::discover::entry_to_slot(e, little_endian, outer),
                            );
                            match crate::discover::spec_decode_sections(
                                data,
                                secs,
                                is_64,
                                little_endian,
                                outer,
                            ) {
                                Err(_) => {},
                                Ok(slots) => {
                                    assert forall|j: int| 0 <= j < slots.len() implies (
                                    #[trigger] slots[j]).payload == data.subrange(
                                        slots[j].offset - outer,
                                        slots[j].offset - outer + slots[j].size,
                                    ) by {
                                        if j < mapped.len() {
                                            assert(slots[j] == mapped[j]);
                                            assert(mapped[j] == crate::discover::entry_to_slot(
                                                entries[j],
                                                little_endian,
                                                outer,
                                            ));
                                        } else {
                                            assert(slots[j] == rest[j - mapped.len()]);
                                        }
                                    }
                                },
                            }
                        },
                    }
                },
            }
        }
    }
}


/// Whether `i` lies in some entry's payload range.
pub open spec fn in_payload(entries: Seq<crate::directory::RawEntry>, i: int) -> bool {
    exists|k: int|
        0 <= k < entries.len() && (#[trigger] entries[k]).off <= i < entries[k].off
            + entries[k].size
}

proof fn lemma_in_payload_cons(
    e: crate::directory::RawEntry,
    rest: Seq<crate::directory::RawEntry>,
    i: int,
)
    ensures
        in_payload(seq![e] + rest, i) <==> ((e.off <= i < e.off + e.size) || in_payload(rest, i)),
{
    let all = seq![e] + rest;
    if in_payload(all, i) {
        let k = choose|k: int|
            0 <= k < all.len() && (#[trigger] all[k]).off <= i < all[k].off + all[k].size;
        if k > 0 {
            assert(all[k] == rest[k - 1]);
        }
    }
    if e.off <= i < e.off + e.size {
        assert(all[0] == e);
    }
    if in_payload(rest, i) {
        let k = choose|k: int|
            0 <= k < rest.len() && (#[trigger] rest[k]).off <= i < rest[k].off + rest[k].size;
        assert(all[k + 1] == rest[k]);
    }
}

/// Every decoded entry's payload begins at or after the decode's own starting
/// position.
pub proof fn lemma_spec_decode_monotonic(data: Seq<u8>, pos: nat, budget: nat, word: nat)
    ensures
        crate::directory::spec_decode(data, pos, budget, word) matches Ok(entries) ==> forall|
            k: int,
        | 0 <= k < entries.len() ==> pos <= (#[trigger] entries[k]).off,
    decreases budget,
{
    let min = 2 + 2 * word;
    if budget >= min {
        match crate::directory::find_after(data, pos, crate::directory::MAGIC) {
            None => {},
            Some(m) => {
                crate::directory::lemma_find_after(data, pos, crate::directory::MAGIC);
                let scanned = m + 1 - pos;
                let b1: nat = if budget <= scanned {
                    0
                } else {
                    (budget - scanned) as nat
                };
                if b1 >= min {
                    crate::directory::lemma_spec_record_budget(data, (m + 1) as nat, b1, word);
                    crate::directory::lemma_find_after(data, (m + 1) as nat, 0u8);
                    match crate::directory::spec_record(data, (m + 1) as nat, b1, word) {
                        Err(_) => {},
                        Ok((entry, pos2, b2)) => {
                            lemma_spec_decode_monotonic(data, pos2, b2, word);
                            match crate::directory::spec_decode(data, pos2, b2, word) {
                                Err(_) => {},
                                Ok(rest) => {
                                    assert forall|k: int|
                                        0 <= k < (seq![entry] + rest).len() implies pos <= (
                                    #[trigger] (seq![entry] + rest)[k]).off by {
                                        if k > 0 {
                                            assert((seq![entry] + rest)[k] == rest[k - 1]);
                                        }
                                    }
                                },
                            }
                        },
                    }
                }
            },
        }
    }
}

/// If a byte is found at a position and the two files agree up to and
/// including it, the second file's scan finds the same position.
proof fn lemma_find_after_agree(d1: Seq<u8>, d2: Seq<u8>, pos: nat, byte: u8)
    requires
        d1.len() == d2.len(),
        match crate::directory::find_after(d1, pos, byte) {
            Some(m) => forall|i: int| pos <= i <= m ==> d2[i] == d1[i],
            None => forall|i: int| pos <= i < d1.len() ==> d2[i] == d1[i],
        },
    ensures
        crate::directory::find_after(d2, pos, byte) == crate::directory::find_after(
            d1,
            pos,
            byte,
        ),
{
    crate::directory::lemma_find_after(d1, pos, byte);
    crate::directory::lemma_find_after(d2, pos, byte);
    match crate::directory::find_after(d1, pos, byte) {
        Some(m) => {
            match crate::directory::find_after(d2, pos, byte) {
                Some(m2) => {
                    if m2 < m {
                        assert(d1[m2 as int] == d2[m2 as int]);
                    } else if m < m2 {
                        assert(d2[m as int] == d1[m as int]);
                    }
                },
                None => {
                    assert(d2[m as int] == d1[m as int]);
                },
            }
        },
        None => {
            match crate::directory::find_after(d2, pos, byte) {
                Some(m2) => {
                    assert(d1[m2 as int] == d2[m2 as int]);
                },
                None => {},
            }
        },
    }
}

/// Rewriting payloads in place never disturbs the directory: if two files of
/// equal length agree everywhere at or past the decode's start except inside
/// the payload ranges the first file's decode finds, then the second file
/// decodes to the same entries - same names, offsets and sizes - each payload
/// read from the second file's own bytes.  This is why flushing slot values
/// and reopening the file finds the same slots again, now holding the
/// flushed values.
pub proof fn lemma_decode_stable(d1: Seq<u8>, d2: Seq<u8>, pos: nat, budget: nat, word: nat)
    requires
        d1.len() == d2.len(),
        crate::directory::spec_decode(d1, pos, budget, word) is Ok,
        forall|i: int|
            pos <= i < d1.len() && !in_payload(
                crate::directory::spec_decode(d1, pos, budget, word)->Ok_0,
                i,
            ) ==> d2[i] == d1[i],
    ensures
        crate::directory::spec_decode(d2, pos, budget, word) matches Ok(e2) && {
            let e1 = crate::directory::spec_decode(d1, pos, budget, word)->Ok_0;
            &&& e2.len() == e1.len()
            &&& forall|k: int|
                0 <= k < e1.len() ==> (#[trigger] e2[k]).name == e1[k].name && e2[k].off
                    == e1[k].off && e2[k].size == e1[k].size && e2[k].payload == d2.subrange(
                    e1[k].off as int,
                    (e1[k].off + e1[k].size) as int,
                )
        },
    decreases budget,
{
    let e1 = crate::directory::spec_decode(d1, pos, budget, word)->Ok_0;
    let min = 2 + 2 * word;
    if budget < min {
        assert(e1 =~= Seq::<crate::directory::RawEntry>::empty());
    } else {
        crate::directory::lemma_find_after(d1, pos, crate::directory::MAGIC);
        match crate::directory::find_after(d1, pos, crate::directory::MAGIC) {
            None => {
                lemma_find_after_agree(d1, d2, pos, crate::directory::MAGIC);
                assert(e1 =~= Seq::<crate::directory::RawEntry>::empty());
            },
            Some(m) => {
                let scanned = m + 1 - pos;
                let b1: nat = if budget <= scanned {
                    0
                } else {
                    (budget - scanned) as nat
                };
                if b1 < min {
                    assert(e1 =~= Seq::<crate::directory::RawEntry>::empty());
                    assert(forall|i: int| pos <= i <= m ==> d2[i] == d1[i]);
                    lemma_find_after_agree(d1, d2, pos, crate::directory::MAGIC);
                } else {
                    let pos1 = (m + 1) as nat;
                    crate::directory::lemma_find_after(d1, pos1, 0u8);
                    match crate::directory::spec_record(d1, pos1, b1, word) {
                        Err(_) => {
                            assert(false);
                        },
                        Ok((e, posr, br)) => {
                            match crate::directory::spec_decode(d1, posr, br, word) {
                                Err(_) => {
                                    assert(false);
                                },
                                Ok(rest) => {
                                    assert(e1 == seq![e] + rest);
                                    let z = crate::directory::find_after(d1, pos1, 0u8)->0;
                                    let pos2 = (z + 1) as nat;
                                    let pos3 = pos2 + word;
                                    let pos4 = pos3 + word;
                                    let padding = crate::codec::le_value_of(
                                        d1.subrange(pos3 as int, (pos3 + word) as int),
                                    );
                                    let pos5 = pos4 + padding;
                                    assert(e.off == pos5 && posr == pos5 + e.size);
                                    lemma_spec_decode_monotonic(d1, posr, br, word);
                                    // Everything at or past the next decode
                                    // position that is outside the remaining
                                    // payloads is outside every payload, so
                                    // the two files agree there.
                                    assert forall|i: int|
                                        posr <= i < d1.len() && !in_payload(rest, i) implies d2[i]
                                        == d1[i] by {
                                        lemma_in_payload_cons(e, rest, i);
                                    }
                                    // The whole structure of the first record
                                    // lies below its payload, outside every
                                    // payload range: the two files agree on
                                    // all of it.
                                    assert forall|i: int| pos <= i < pos5 implies d2[i]
                                        == d1[i] by {
                                        assert(!(e.off <= i < e.off + e.size));
                                        if in_payload(rest, i) {
                                            let k = choose|k: int|
                                                0 <= k < rest.len() && (#[trigger] rest[k]).off
                                                    <= i < rest[k].off + rest[k].size;
                                            assert(rest[k].off >= posr);
                                        }
                                        lemma_in_payload_cons(e, rest, i);
                                    }
                                    lemma_find_after_agree(d1, d2, pos, crate::directory::MAGIC);
                                    lemma_find_after_agree(d1, d2, pos1, 0u8);
                                    assert(d2.subrange(pos1 as int, z as int) =~= d1.subrange(
                                        pos1 as int,
                                        z as int,
                                    ));
                                    assert(d2.subrange(pos2 as int, (pos2 + word) as int)
                                        =~= d1.subrange(pos2 as int, (pos2 + word) as int));
                                    assert(d2.subrange(pos3 as int, (pos3 + word) as int)
                                        =~= d1.subrange(pos3 as int, (pos3 + word) as int));
                                    let e2head = crate::directory::RawEntry {
                                        name: e.name,
                                        off: e.off,
                                        size: e.size,
                                        payload: d2.subrange(
                                            e.off as int,
                                            (e.off + e.size) as int,
                                        ),
                                    };
                                    assert(crate::directory::spec_record(d2, pos1, b1, word)
                                        == Ok::<(crate::directory::RawEntry, nat, nat), crate::Error>(
                                        (e2head, posr, br),
                                    ));
                                    lemma_decode_stable(d1, d2, posr, br, word);
                                    match crate::directory::spec_decode(d2, posr, br, word) {
                                        Err(_) => {
                                            assert(false);
                                        },
                                        Ok(rest2) => {
                                            assert(crate::directory::spec_decode(
                                                d2,
                                                pos,
                                                budget,
                                                word,
                                            ) == Ok::<Seq<crate::directory::RawEntry>, crate::Error>(
                                                seq![e2head] + rest2,
                                            ));
                                            assert forall|k: int|
                                                0 <= k < e1.len() implies (#[trigger] (seq![e2head]
                                                + rest2)[k]).name == e1[k].name && (seq![e2head]
                                                + rest2)[k].off == e1[k].off && (seq![e2head]
                                                + rest2)[k].size == e1[k].size && (seq![e2head]
                                                + rest2)[k].payload == d2.subrange(
                                                e1[k].off as int,
                                                (e1[k].off + e1[k].size) as int,
                                            ) by {
                                                if k == 0 {
                                                    assert((seq![e2head] + rest2)[0] == e2head);
                                                    assert(e1[0] == e);
                                                } else {
                                                    assert((seq![e2head] + rest2)[k] == rest2[k
                                                        - 1]);
                                                    assert(e1[k] == rest[k - 1]);
                                                }
                                            }
                                        },
                                    }
                                },
                            }
                        },
                    }
                }
            },
        }
    }
}

/// How an embedder's slots of one section stand to that section's decoded
/// entries: same ranges, and an untouched slot still holds the entry's
/// payload bytes.
pub open spec fn slots_over_entries(
    slots: Seq<Linkstore>,
    entries: Seq<crate::directory::RawEntry>,
) -> bool {
    &&& slots.len() == entries.len()
    &&& forall|k: int|
        0 <= k < slots.len() ==> {
            &&& (#[trigger] slots[k]).offset as nat == entries[k].off
            &&& slots[k].size as nat == entries[k].size
            &&& slots[k].bytes.bytes().len() == slots[k].size as nat
            &&& (!slots[k].bytes.is_set() ==> slots[k].bytes.bytes() == entries[k].payload)
        }
}

/// Pairwise disjoint payload ranges: no slot's payload overlaps another's.
pub open spec fn disjoint_slots(slots: Seq<Linkstore>) -> bool {
    forall|j: int, k: int|
        0 <= j < slots.len() && 0 <= k < slots.len() && j != k ==> (#[trigger] slots[j]).offset
            + slots[j].size <= (#[trigger] slots[k]).offset || slots[k].offset + slots[k].size
            <= slots[j].offset
}

/// Flush-and-reopen round trip for one slot section of a file: flush the
/// slots discovered from the section, decode the same section of the flushed
/// file, and the same directory comes back, each slot now holding exactly the
/// bytes that were staged for it - and an untouched slot its old bytes.
/// Flushing a second time therefore changes nothing, and a staged value reads
/// back from the flushed file as it was embedded.
pub proof fn lemma_flush_reopen_section(
    data: Seq<u8>,
    pos: nat,
    budget: nat,
    word: nat,
    slots: Seq<Linkstore>,
)
    requires
        crate::directory::spec_decode(data, pos, budget, word) is Ok,
        slots_over_entries(slots, crate::directory::spec_decode(data, pos, budget, word)->Ok_0),
        disjoint_slots(slots),
        forall|k: int| 0 <= k < slots.len() ==> (#[trigger] slots[k]).wf(data.len()),
    ensures
        ({
            let flushed = apply_slots(data, slots);
            let e1 = crate::directory::spec_decode(data, pos, budget, word)->Ok_0;
            &&& crate::directory::spec_decode(flushed, pos, budget, word) matches Ok(e2) && {
                &&& e2.len() == e1.len()
                &&& forall|k: int|
                    0 <= k < e1.len() ==> (#[trigger] e2[k]).name == e1[k].name && e2[k].off
                        == e1[k].off && e2[k].size == e1[k].size && e2[k].payload
                        == slots[k].bytes.bytes()
            }
        }),
{
    let flushed = apply_slots(data, slots);
    let e1 = crate::directory::spec_decode(data, pos, budget, word)->Ok_0;
    lemma_apply_slots_untouched(data, slots);

    // A byte some staged slot covers lies in the matching entry's payload.
    assert forall|i: int|
        pos <= i < data.len() && !in_payload(e1, i) implies flushed[i] == data[i] by {
        if covered_by_staged(slots, i) {
            let k = choose|k: int|
                0 <= k < slots.len() && (#[trigger] slots[k]).bytes.is_set() && slots[k].offset
                    <= i < slots[k].offset + slots[k].size;
            assert(e1[k].off <= i < e1[k].off + e1[k].size);
            assert(false);
        }
    }
    lemma_decode_stable(data, flushed, pos, budget, word);

    let e2 = crate::directory::spec_decode(flushed, pos, budget, word)->Ok_0;
    assert forall|k: int| 0 <= k < e1.len() implies (#[trigger] e2[k]).payload
        == slots[k].bytes.bytes() by {
        let off = slots[k].offset as int;
        let size = slots[k].size as int;
        if slots[k].bytes.is_set() {
            lemma_flush_writes_staged(data, slots, k);
            assert(e2[k].payload == flushed.subrange(off, off + size));
        } else {
            // No staged slot covers an untouched slot's range: the flushed
            // bytes there are the file's own, which are the entry's payload.
            assert forall|i: int| off <= i < off + size implies flushed[i] == data[i] by {
                if covered_by_staged(slots, i) {
                    let j = choose|j: int|
                        0 <= j < slots.len() && (#[trigger] slots[j]).bytes.is_set()
                            && slots[j].offset <= i < slots[j].offset + slots[j].size;
                    assert(j != k);
                    assert(false);
                }
            }
            assert(flushed.subrange(off, off + size) =~= data.subrange(off, off + size));
            crate::directory::lemma_spec_decode_wf(data, pos, budget, word);
            assert(e1[k].payload == data.subrange(off, off + size));
        }
    }
}

} // verus!