//! Locating slot sections in an object file and recursing into containers.
//!
//! Every recognised format funnels into the same two steps: walk the object's
//! sections, and decode the slot directory of each section whose name starts
//! with the reserved eight bytes `.lnkstre`.  Archives and fat Mach-O files
//! instead carry members, each an object file of its own: discovery recurses
//! into each member, adding the member's file offset so that every slot
//! offset is absolute in the outermost file.
//!
//! `spec_discover` defines the whole discovery as a function of the file
//! bytes and the named results of the object parser's calls.

use vstd::prelude::*;

use crate::directory::{
    decode_section, lemma_spec_decode_wf, spec_decode, word_size, Linkstore, RawEntry,
};
use crate::objects::{
    archive_members, archive_members_of, classify, coff_sections, coff_sections_of, elf_sections,
    elf_sections_of, fat_members, fat_members_of, lossy_of, macho_sections, macho_sections_of,
    object_kind_of, pe_sections, pe_sections_of, ObjectKind, SectionRec,
};
use crate::Error;

verus! {

/// The reserved section name: the eight bytes of `.lnkstre`.
pub open spec fn link_section_name() -> Seq<u8> {
    seq![46u8, 108u8, 110u8, 107u8, 115u8, 116u8, 114u8, 101u8]
}

/// A section holds slots iff its name starts with the reserved eight bytes.
/// PE and COFF name fields are exactly eight bytes, so for them the prefix
/// rule is an equality; ELF and Mach-O names may continue past the prefix.
pub open spec fn is_linkstore_name(name: Seq<u8>) -> bool {
    name.len() >= 8 && name.subrange(0, 8) == link_section_name()
}

/// One discovered slot, in mathematical form.
pub struct SpecSlot {
    /// The name bytes as they stand in the directory.
    pub name: Seq<u8>,
    /// The absolute payload offset in the outermost file.
    pub offset: nat,
    /// The payload size in bytes.
    pub size: nat,
    /// The payload bytes as discovered.
    pub payload: Seq<u8>,
    /// Whether the payload is to be read and written little-endian.
    pub little_endian: bool,
}

/// The slot a raw directory entry of a section becomes.
pub open spec fn entry_to_slot(e: RawEntry, little_endian: bool, outer: nat) -> SpecSlot {
    SpecSlot {
        name: e.name,
        offset: outer + e.off,
        size: e.size,
        payload: e.payload,
        little_endian,
    }
}

/// How a discovered `Linkstore` renders a `SpecSlot`.
pub open spec fn slot_models_spec(s: Linkstore, sp: SpecSlot) -> bool {
    &&& s.name@ == lossy_of(sp.name)
    &&& s.offset as nat == sp.offset
    &&& s.size as nat == sp.size
    &&& s.little_endian == sp.little_endian
    &&& !s.bytes.is_set()
    &&& s.bytes.bytes() == sp.payload
}

/// How a sequence of discovered slots renders a sequence of `SpecSlot`s.
pub open spec fn slots_model(ls: Seq<Linkstore>, sp: Seq<SpecSlot>) -> bool {
    &&& ls.len() == sp.len()
    &&& forall|k: int| 0 <= k < sp.len() ==> slot_models_spec(#[trigger] ls[k], sp[k])
}

/// A discovery error, in mathematical form.  `Goblin` carries the object
/// parser's message; `Decoding` carries a slot-directory error.
pub enum SpecDiscoverErr {
    Goblin(Seq<char>),
    Unrecognised,
    Decoding(Error),
}

/// The slots of every slot section in a section table, in table order: a
/// section whose name lacks the reserved prefix contributes nothing, every
/// other section contributes its decoded directory, offsets translated by
/// `outer`.
pub open spec fn spec_decode_sections(
    data: Seq<u8>,
    secs: Seq<(Seq<u8>, u64, u64)>,
    is_64: bool,
    little_endian: bool,
    outer: nat,
) -> Result<Seq<SpecSlot>, Error>
    decreases secs.len(),
{
    if secs.len() == 0 {
        Ok(Seq::empty())
    } else if !is_linkstore_name(secs[0].0) {
        spec_decode_sections(data, secs.skip(1), is_64, little_endian, outer)
    } else {
        match spec_decode(data, secs[0].1 as nat, secs[0].2 as nat, word_size(is_64)) {
            Err(e) => Err(e),
            Ok(entries) => match spec_decode_sections(
                data,
                secs.skip(1),
                is_64,
                little_endian,
                outer,
            ) {
                Err(e) => Err(e),
                Ok(rest) => Ok(
                    entries.map_values(|e: RawEntry| entry_to_slot(e, little_endian, outer))
                        + rest,
                ),
            },
        }
    }
}

/// The slots of every member of a container, in member order.  A member whose
/// declared range leaves the data, or is not strictly smaller than the
/// container, is corrupt.
pub open spec fn spec_members(data: Seq<u8>, members: Seq<(u64, u64)>, outer: nat) -> Result<
    Seq<SpecSlot>,
    SpecDiscoverErr,
>
    decreases data.len(), 0nat, members.len(),
{
    if members.len() == 0 {
        Ok(Seq::empty())
    } else {
        let off = members[0].0 as nat;
        let size = members[0].1 as nat;
        if off + size > data.len() || size >= data.len() {
            Err(SpecDiscoverErr::Decoding(Error::DecodingError))
        } else {
            match spec_discover(data.subrange(off as int, (off + size) as int), outer + off) {
                Err(e) => Err(e),
                Ok(slots) => match spec_members(data, members.skip(1), outer) {
                    Err(e) => Err(e),
                    Ok(rest) => Ok(slots + rest),
                },
            }
        }
    }
}

/// Every slot a file exposes, in discovery order, as a function of the file
/// bytes: recognise the format, walk its slot sections, and recurse into the
/// members of archives and fat Mach-O files.  An archive member of unknown
/// format is retried as a bare COFF object before the file is rejected.
pub open spec fn spec_discover(data: Seq<u8>, outer: nat) -> Result<Seq<SpecSlot>, SpecDiscoverErr>
    decreases data.len(), 1nat, 0nat,
{
    match object_kind_of(data) {
        Err(m) => Err(SpecDiscoverErr::Goblin(m)),
        Ok(kind) => match kind {
            ObjectKind::Elf => match elf_sections_of(data) {
                Err(m) => Err(SpecDiscoverErr::Goblin(m)),
                Ok((is_64, little_endian, secs)) => match spec_decode_sections(
                    data,
                    secs,
                    is_64,
                    little_endian,
                    outer,
                ) {
                    Err(e) => Err(SpecDiscoverErr::Decoding(e)),
                    Ok(slots) => Ok(slots),
                },
            },
            ObjectKind::Pe => match pe_sections_of(data) {
                Err(m) => Err(SpecDiscoverErr::Goblin(m)),
                Ok((is_64, secs)) => match spec_decode_sections(data, secs, is_64, true, outer) {
                    Err(e) => Err(SpecDiscoverErr::Decoding(e)),
                    Ok(slots) => Ok(slots),
                },
            },
            ObjectKind::Coff => match coff_sections_of(data) {
                Err(m) => Err(SpecDiscoverErr::Goblin(m)),
                Ok((characteristics, secs)) => match spec_decode_sections(
                    data,
                    secs,
                    characteristics & 0x0100 == 0,
                    true,
                    outer,
                ) {
                    Err(e) => Err(SpecDiscoverErr::Decoding(e)),
                    Ok(slots) => Ok(slots),
                },
            },
            ObjectKind::MachO => match macho_sections_of(data) {
                Err(m) => Err(SpecDiscoverErr::Goblin(m)),
                Ok((is_64, little_endian, secs)) => match spec_decode_sections(
                    data,
                    secs,
                    is_64,
                    little_endian,
                    outer,
                ) {
                    Err(e) => Err(SpecDiscoverErr::Decoding(e)),
                    Ok(slots) => Ok(slots),
                },
            },
            ObjectKind::FatMachO => match fat_members_of(data) {
                Err(m) => Err(SpecDiscoverErr::Goblin(m)),
                Ok(members) => spec_members(data, members, outer),
            },
            ObjectKind::Archive => match archive_members_of(data) {
                Err(m) => Err(SpecDiscoverErr::Goblin(m)),
                Ok(members) => spec_members(data, members, outer),
            },
            ObjectKind::Unknown => {
                if outer != 0 {
                    match coff_sections_of(data) {
                        Err(_) => Err(SpecDiscoverErr::Unrecognised),
                        Ok((characteristics, secs)) => match spec_decode_sections(
                            data,
                            secs,
                            characteristics & 0x0100 == 0,
                            true,
                            outer,
                        ) {
                            Err(e) => Err(SpecDiscoverErr::Decoding(e)),
                            Ok(slots) => Ok(slots),
                        },
                    }
                } else {
                    Err(SpecDiscoverErr::Unrecognised)
                }
            },
        },
    }
}

/// Whether the name starts with the reserved eight bytes `.lnkstre`.
pub fn section_name_matches(name: &[u8]) -> (r: bool)
    ensures
        r == is_linkstore_name(name@),
{
    if name.len() < 8 {
        return false;
    }
    let expected: [u8; 8] = [46u8, 108u8, 110u8, 107u8, 115u8, 116u8, 114u8, 101u8];
    let mut i: usize = 0;
    while i < 8
        invariant
            0 <= i <= 8,
            name@.len() >= 8,
            expected@ == link_section_name(),
            forall|j: int| 0 <= j < i ==> name@[j] == link_section_name()[j],
        decreases 8 - i,
    {
        if *vstd::slice::slice_index_get(name, i) != expected[i] {
            proof {
                assert(name@.subrange(0, 8)[i as int] != link_section_name()[i as int]);
            }
            return false;
        }
        i = i + 1;
    }
    proof {
        assert(name@.subrange(0, 8) =~= link_section_name());
    }
    true
}

/// Hands the section back exactly when its name marks a slot section.
pub fn filter_map_linkstore_section<'a, T>(name: &[u8], section: &'a T) -> (r: Option<&'a T>)
    ensures
        match r {
            Some(s) => is_linkstore_name(name@) && s == section,
            None => !is_linkstore_name(name@),
        },
{
    if section_name_matches(name) {
        Some(section)
    } else {
        None
    }
}

/// Prepending already-discovered slots to the rest of a discovery.
pub open spec fn scombine<E>(prefix: Seq<SpecSlot>, rest: Result<Seq<SpecSlot>, E>) -> Result<
    Seq<SpecSlot>,
    E,
> {
    match rest {
        Ok(es) => Ok(prefix + es),
        Err(e) => Err(e),
    }
}

/// Decodes the slot directories of every slot section of one section table,
/// appending to `out`; exactly what `spec_decode_sections` says.  On an error
/// `out` may hold the slots of the sections already decoded; the caller
/// discards it.
#[verifier::rlimit(100)]
fn discover_sections(
    data: &[u8],
    sections: &Vec<SectionRec>,
    is_64: bool,
    little_endian: bool,
    outer_offset: u64,
    out: &mut Vec<Linkstore>,
) -> (r: Result<(), Error>)
    requires
        outer_offset as nat + data@.len() <= u64::MAX as nat,
    ensures
        match spec_decode_sections(
            data@,
            sections@.map_values(|s: SectionRec| s.view_triple()),
            is_64,
            little_endian,
            outer_offset as nat,
        ) {
            Ok(slots) => r matches Ok(()) && {
                &&& final(out)@.len() == old(out)@.len() + slots.len()
                &&& forall|i: int| 0 <= i < old(out)@.len() ==> final(out)@[i] == old(out)@[i]
                &&& slots_model(final(out)@.skip(old(out)@.len() as int), slots)
                &&& forall|k: int|
                    old(out)@.len() <= k < final(out)@.len() ==> (#[trigger] final(out)@[k]).wf(
                        outer_offset as nat + data@.len(),
                    )
            },
            Err(e) => r == Err::<(), Error>(e),
        },
{
    let ghost all = sections@.map_values(|s: SectionRec| s.view_triple());
    let ghost start_len = out@.len() as int;
    let ghost mut done: Seq<SpecSlot> = Seq::empty();
    let n = sections.len();
    let mut i: usize = 0;
    proof {
        assert(all.skip(0) =~= all);
    }
    while i < n
        invariant
            n == sections@.len(),
            0 <= i <= n,
            all == sections@.map_values(|s: SectionRec| s.view_triple()),
            outer_offset as nat + data@.len() <= u64::MAX as nat,
            start_len == old(out)@.len() as int,
            out@.len() == start_len + done.len(),
            forall|j: int| 0 <= j < start_len ==> out@[j] == old(out)@[j],
            slots_model(out@.skip(start_len), done),
            forall|k: int|
                start_len <= k < out@.len() ==> (#[trigger] out@[k]).wf(
                    outer_offset as nat + data@.len(),
                ),
            scombine(
                done,
                spec_decode_sections(
                    data@,
                    all.skip(i as int),
                    is_64,
                    little_endian,
                    outer_offset as nat,
                ),
            ) == spec_decode_sections(data@, all, is_64, little_endian, outer_offset as nat),
        decreases n - i,
    {
        let sec = &sections[i];
        proof {
            assert(all.skip(i as int)[0] == all[i as int]);
            assert(all[i as int] == sections@[i as int].view_triple());
            assert(all.skip(i as int).skip(1) =~= all.skip(i as int + 1));
        }
        if filter_map_linkstore_section(sec.name.as_slice(), sec).is_some() {
            let ghost out_before = out@;
            let ghost entries_spec = spec_decode(
                data@,
                sec.offset as nat,
                sec.size as nat,
                word_size(is_64),
            );
            match decode_section(
                data,
                sec.offset,
                sec.size,
                is_64,
                little_endian,
                outer_offset,
                out,
            ) {
                Err(e) => {
                    return Err(e);
                },
                Ok(()) => {
                    proof {
                        lemma_spec_decode_wf(
                            data@,
                            sec.offset as nat,
                            sec.size as nat,
                            word_size(is_64),
                        );
                        let entries = entries_spec->Ok_0;
                        let mapped = entries.map_values(
                            |e: RawEntry|
                                entry_to_slot(e, little_endian, outer_offset as nat),
                        );
                        assert forall|k: int| 0 <= k < mapped.len() implies slot_models_spec(
                            #[trigger] out@[out_before.len() + k],
                            mapped[k],
                        ) by {
                            assert(crate::directory::slot_models_entry(
                                out@[out_before.len() + k],
                                entries[k],
                                little_endian,
                                outer_offset as nat,
                            ));
                        }
                        assert forall|k: int|
                            start_len <= k < out@.len() implies (#[trigger] out@[k]).wf(
                            outer_offset as nat + data@.len(),
                        ) by {
                            if k >= out_before.len() {
                                let j = k - out_before.len();
                                assert(crate::directory::slot_models_entry(
                                    out@[out_before.len() + j],
                                    entries[j],
                                    little_endian,
                                    outer_offset as nat,
                                ));
                                assert(entries[j].off + entries[j].size <= data@.len());
                                assert(out@[k] == out@[out_before.len() + j]);
                            } else {
                                assert(out@[k] == out_before[k]);
                            }
                        }
                        let done2 = done + mapped;
                        assert forall|k: int|
                            0 <= k < done2.len() implies slot_models_spec(
                            #[trigger] out@.skip(start_len)[k],
                            done2[k],
                        ) by {
                            assert(out@.skip(start_len)[k] == out@[start_len + k]);
                            if k < done.len() {
                                assert(out@[start_len + k] == out_before[start_len + k]);
                                assert(slot_models_spec(
                                    out_before.skip(start_len)[k],
                                    done[k],
                                ));
                                assert(out_before.skip(start_len)[k] == out_before[start_len
                                    + k]);
                            } else {
                                let j = k - done.len();
                                assert(slot_models_spec(out@[out_before.len() + j], mapped[j]));
                                assert(start_len + k == out_before.len() + j);
                            }
                        }
                        assert(slots_model(out@.skip(start_len), done2));
                        match spec_decode_sections(
                            data@,
                            all.skip(i as int + 1),
                            is_64,
                            little_endian,
                            outer_offset as nat,
                        ) {
                            Ok(rest) => {
                                assert(done + (mapped + rest) =~= done2 + rest);
                            },
                            Err(_) => {},
                        }
                        done = done2;
                    }
                },
            }
        }
        i = i + 1;
    }
    proof {
        assert(all.skip(n as int) =~= Seq::<(Seq<u8>, u64, u64)>::empty());
        assert(done + Seq::<SpecSlot>::empty() =~= done);
    }
    Ok(())
}

/// Discovers the slots of every member of a container, appending to `out`;
/// exactly what `spec_members` says.  On an error `out` may hold slots of the
/// members already walked; the caller discards it.
fn discover_members(
    data: &[u8],
    members: &Vec<(u64, u64)>,
    outer_offset: u64,
    out: &mut Vec<Linkstore>,
) -> (r: Result<(), Error>)
    requires
        outer_offset as nat + data@.len() <= u64::MAX as nat,
    ensures
        match spec_members(data@, members@, outer_offset as nat) {
            Ok(slots) => r matches Ok(()) && {
                &&& final(out)@.len() == old(out)@.len() + slots.len()
                &&& forall|i: int| 0 <= i < old(out)@.len() ==> final(out)@[i] == old(out)@[i]
                &&& slots_model(final(out)@.skip(old(out)@.len() as int), slots)
                &&& forall|k: int|
                    old(out)@.len() <= k < final(out)@.len() ==> (#[trigger] final(out)@[k]).wf(
                        outer_offset as nat + data@.len(),
                    )
            },
            Err(SpecDiscoverErr::Goblin(m)) => r matches Err(e) && (e matches Error::Goblin(s)
                && s@ == m),
            Err(SpecDiscoverErr::Unrecognised) => r == Err::<(), Error>(Error::Unrecognised),
            Err(SpecDiscoverErr::Decoding(e)) => r == Err::<(), Error>(e),
        },
    decreases data@.len(), 0nat,
{
    let ghost all = members@;
    let ghost start_len = out@.len() as int;
    let ghost mut done: Seq<SpecSlot> = Seq::empty();
    let n = members.len();
    let len = data.len();
    let mut i: usize = 0;
    proof {
        assert(all.skip(0) =~= all);
    }
    while i < n
        invariant
            n == members@.len(),
            0 <= i <= n,
            all == members@,
            len == data@.len(),
            outer_offset as nat + data@.len() <= u64::MAX as nat,
            start_len == old(out)@.len() as int,
            out@.len() == start_len + done.len(),
            forall|j: int| 0 <= j < start_len ==> out@[j] == old(out)@[j],
            slots_model(out@.skip(start_len), done),
            forall|k: int|
                start_len <= k < out@.len() ==> (#[trigger] out@[k]).wf(
                    outer_offset as nat + data@.len(),
                ),
            scombine(done, spec_members(data@, all.skip(i as int), outer_offset as nat))
                == spec_members(data@, all, outer_offset as nat),
        decreases n - i,
    {
        proof {
            assert(all.skip(i as int)[0] == all[i as int]);
            assert(all.skip(i as int).skip(1) =~= all.skip(i as int + 1));
        }
        let (off, size) = members[i];
        if size as u128 >= len as u128 || off as u128 + size as u128 > len as u128 {
            return Err(Error::DecodingError);
        }
        let offu = off as usize;
        let endu = offu + size as usize;
        let member = vstd::slice::slice_subrange(data, offu, endu);
        let inner_offset = outer_offset + off;
        let ghost out_before = out@;
        match discover(member, inner_offset, out) {
            Err(e) => {
                return Err(e);
            },
            Ok(()) => {
                proof {
                    let inner = spec_discover(member@, inner_offset as nat);
                    let slots = inner->Ok_0;
                    let done2 = done + slots;
                    assert forall|k: int|
                        0 <= k < done2.len() implies slot_models_spec(
                        #[trigger] out@.skip(start_len)[k],
                        done2[k],
                    ) by {
                        assert(out@.skip(start_len)[k] == out@[start_len + k]);
                        if k < done.len() {
                            assert(out@[start_len + k] == out_before[start_len + k]);
                            assert(slot_models_spec(out_before.skip(start_len)[k], done[k]));
                            assert(out_before.skip(start_len)[k] == out_before[start_len + k]);
                        } else {
                            let j = k - done.len();
                            assert(slot_models_spec(
                                out@.skip(out_before.len() as int)[j],
                                slots[j],
                            ));
                            assert(out@.skip(out_before.len() as int)[j] == out@[start_len + k]);
                        }
                    }
                    assert(slots_model(out@.skip(start_len), done2));
                    assert forall|k: int|
                        start_len <= k < out@.len() implies (#[trigger] out@[k]).wf(
                        outer_offset as nat + data@.len(),
                    ) by {
                        if k >= out_before.len() {
                            assert(out@[k].wf(inner_offset as nat + member@.len()));
                        } else {
                            assert(out@[k] == out_before[k]);
                        }
                    }
                    match spec_members(data@, all.skip(i as int + 1), outer_offset as nat) {
                        Ok(rest) => {
                            assert(done + (slots + rest) =~= done2 + rest);
                        },
                        Err(_) => {},
                    }
                    done = done2;
                }
            },
        }
        i = i + 1;
    }
    proof {
        assert(all.skip(n as int) =~= Seq::<(u64, u64)>::empty());
        assert(done + Seq::<SpecSlot>::empty() =~= done);
    }
    Ok(())
}

/// Discovers every slot the file exposes, appending to `out`; exactly what
/// `spec_discover` says of the file bytes.  On an error `out` may hold the
/// slots discovered before it; the caller discards it.
pub fn discover(data: &[u8], outer_offset: u64, out: &mut Vec<Linkstore>) -> (r: Result<(), Error>)
    requires
        outer_offset as nat + data@.len() <= u64::MAX as nat,
    ensures
        match spec_discover(data@, outer_offset as nat) {
            Ok(slots) => r matches Ok(()) && {
                &&& final(out)@.len() == old(out)@.len() + slots.len()
                &&& forall|i: int| 0 <= i < old(out)@.len() ==> final(out)@[i] == old(out)@[i]
                &&& slots_model(final(out)@.skip(old(out)@.len() as int), slots)
                &&& forall|k: int|
                    old(out)@.len() <= k < final(out)@.len() ==> (#[trigger] final(out)@[k]).wf(
                        outer_offset as nat + data@.len(),
                    )
            },
            Err(SpecDiscoverErr::Goblin(m)) => r matches Err(e) && (e matches Error::Goblin(s)
                && s@ == m),
            Err(SpecDiscoverErr::Unrecognised) => r == Err::<(), Error>(Error::Unrecognised),
            Err(SpecDiscoverErr::Decoding(e)) => r == Err::<(), Error>(e),
        },
    decreases data@.len(), 1nat,
{
    let kind = match classify(data) {
        Err(m) => {
            return Err(Error::Goblin(m));
        },
        Ok(kind) => kind,
    };
    match kind {
        ObjectKind::Elf => match elf_sections(data) {
            Err(m) => Err(Error::Goblin(m)),
            Ok(t) => discover_sections(
                data,
                &t.sections,
                t.is_64,
                t.little_endian,
                outer_offset,
                out,
            ),
        },
        ObjectKind::Pe => match pe_sections(data) {
            Err(m) => Err(Error::Goblin(m)),
            Ok(t) => discover_sections(data, &t.1, t.0, true, outer_offset, out),
        },
        ObjectKind::Coff => match coff_sections(data) {
            Err(m) => Err(Error::Goblin(m)),
            Ok(t) => discover_sections(data, &t.1, t.0 & 0x0100 == 0, true, outer_offset, out),
        },
        ObjectKind::MachO => match macho_sections(data) {
            Err(m) => Err(Error::Goblin(m)),
            Ok(t) => discover_sections(
                data,
                &t.sections,
                t.is_64,
                t.little_endian,
                outer_offset,
                out,
            ),
        },
        ObjectKind::FatMachO => match fat_members(data) {
            Err(m) => Err(Error::Goblin(m)),
            Ok(members) => discover_members(data, &members, outer_offset, out),
        },
        ObjectKind::Archive => match archive_members(data) {
            Err(m) => Err(Error::Goblin(m)),
            Ok(members) => discover_members(data, &members, outer_offset, out),
        },
        ObjectKind::Unknown => {
            if outer_offset != 0 {
                match coff_sections(data) {
                    Err(_) => Err(Error::Unrecognised),
                    Ok(t) => discover_sections(
                        data,
                        &t.1,
                        t.0 & 0x0100 == 0,
                        true,
                        outer_offset,
                        out,
                    ),
                }
            } else {
                Err(Error::Unrecognised)
            }
        },
    }
}

} // verus!
