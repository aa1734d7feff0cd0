//! Trusted declarations for the outside calls this crate relies on.
//!
//! Everything here is believed, not verified: each wrapper's contract states
//! only what the called crate's source shows, and every caller's own proof
//! rests on these contracts.  The object-format parsing itself is done by
//! `goblin`; each wrapper reduces one parse to plain values (section names,
//! file offsets, sizes, bitness, endianness) that the verified code then
//! works on.  Each parse result is a function of the input bytes alone, so it
//! is given a name (`elf_sections_of`, ...) that the contracts speak through.

use vstd::prelude::*;

verus! {

/// What `String::from_utf8_lossy` returns for the given bytes; a function of
/// the bytes alone.
pub uninterp spec fn lossy_of(bytes: Seq<u8>) -> Seq<char>;

/// Relies on `String::from_utf8_lossy`: the result depends on the bytes alone.
#[verifier::external_body]
pub fn lossy_utf8(bytes: &[u8]) -> (r: String)
    ensures
        r@ == lossy_of(bytes@),
{
    String::from_utf8_lossy(bytes).into_owned()
}

/// The object formats this crate recognises.
#[derive(Debug, Clone, Copy, PartialEq, Eq, Structural)]
pub enum ObjectKind {
    Elf,
    Pe,
    MachO,
    FatMachO,
    Archive,
    Coff,
    Unknown,
}

/// One section as a format adapter reports it: name bytes, file offset of its
/// raw data, and its size.
pub struct SectionRec {
    pub name: Vec<u8>,
    pub offset: u64,
    pub size: u64,
}

impl SectionRec {
    /// The plain-value reading of a section record.
    pub open spec fn view_triple(&self) -> (Seq<u8>, u64, u64) {
        (self.name@, self.offset, self.size)
    }
}

/// A section table: the object's bitness, its payload endianness, and its
/// sections in file order.
pub struct SectionTable {
    pub is_64: bool,
    pub little_endian: bool,
    pub sections: Vec<SectionRec>,
}

/// What format `goblin::Object::parse` recognises in the given bytes, or its
/// error message; a function of the bytes alone.
pub uninterp spec fn object_kind_of(bytes: Seq<u8>) -> Result<ObjectKind, Seq<char>>;

/// What `goblin::elf::Elf::parse` reports of the given bytes: bitness, data
/// endianness, and each section's name, `sh_offset` and `sh_size`, in order;
/// a function of the bytes alone.
pub uninterp spec fn elf_sections_of(bytes: Seq<u8>) -> Result<
    (bool, bool, Seq<(Seq<u8>, u64, u64)>),
    Seq<char>,
>;

/// What `goblin::pe::PE::parse` reports: bitness and each section's name,
/// `pointer_to_raw_data` and `virtual_size`, in order.
pub uninterp spec fn pe_sections_of(bytes: Seq<u8>) -> Result<
    (bool, Seq<(Seq<u8>, u64, u64)>),
    Seq<char>,
>;

/// What `goblin::pe::Coff::parse` reports: the COFF header characteristics
/// and each section's name, `pointer_to_raw_data` and `virtual_size`.
pub uninterp spec fn coff_sections_of(bytes: Seq<u8>) -> Result<
    (u16, Seq<(Seq<u8>, u64, u64)>),
    Seq<char>,
>;

/// What `goblin::mach::MachO::parse` reports: bitness, endianness, and each
/// segment section's name, `offset` and `size`, in segment order.
pub uninterp spec fn macho_sections_of(bytes: Seq<u8>) -> Result<
    (bool, bool, Seq<(Seq<u8>, u64, u64)>),
    Seq<char>,
>;

/// What the fat Mach-O header reports: each architecture slice's file offset
/// and size, in order.
pub uninterp spec fn fat_members_of(bytes: Seq<u8>) -> Result<Seq<(u64, u64)>, Seq<char>>;

/// What `goblin::archive::Archive::parse` reports: each member's data offset
/// and size, in order.
pub uninterp spec fn archive_members_of(bytes: Seq<u8>) -> Result<Seq<(u64, u64)>, Seq<char>>;

/// Relies on `goblin::Object::parse`: format recognition by magic bytes.
#[verifier::external_body]
pub fn classify(bytes: &[u8]) -> (r: Result<ObjectKind, String>)
    ensures
        match r {
            Ok(k) => object_kind_of(bytes@) == Ok::<ObjectKind, Seq<char>>(k),
            Err(e) => object_kind_of(bytes@) == Err::<ObjectKind, Seq<char>>(e@),
        },
{
    match goblin::Object::parse(bytes) {
        Ok(goblin::Object::Elf(_)) => Ok(ObjectKind::Elf),
        Ok(goblin::Object::PE(_)) => Ok(ObjectKind::Pe),
        Ok(goblin::Object::Mach(goblin::mach::Mach::Binary(_))) => Ok(ObjectKind::MachO),
        Ok(goblin::Object::Mach(goblin::mach::Mach::Fat(_))) => Ok(ObjectKind::FatMachO),
        Ok(goblin::Object::Archive(_)) => Ok(ObjectKind::Archive),
        Ok(goblin::Object::COFF(_)) => Ok(ObjectKind::Coff),
        Ok(_) => Ok(ObjectKind::Unknown),
        Err(e) => Err(format!("{}", e)),
    }
}

/// Relies on `goblin::elf::Elf::parse`, its `section_headers` and
/// `shdr_strtab`: a section whose name the string table cannot give is
/// reported with an empty name.
#[verifier::external_body]
pub fn elf_sections(bytes: &[u8]) -> (r: Result<SectionTable, String>)
    ensures
        match r {
            Ok(t) => elf_sections_of(bytes@) == Ok::<_, Seq<char>>(
                (t.is_64, t.little_endian, t.sections@.map_values(|s: SectionRec| s.view_triple())),
            ),
            Err(e) => elf_sections_of(bytes@) == Err::<(bool, bool, Seq<(Seq<u8>, u64, u64)>), _>(
                e@,
            ),
        },
{
    match goblin::elf::Elf::parse(bytes) {
        Ok(elf) => {
            let sections = elf.section_headers.iter().map(|s| SectionRec {
                name: elf.shdr_strtab.get_at(s.sh_name).unwrap_or("").as_bytes().to_vec(),
                offset: s.sh_offset,
                size: s.sh_size,
            }).collect();
            Ok(SectionTable { is_64: elf.is_64, little_endian: elf.little_endian, sections })
        },
        Err(e) => Err(format!("{}", e)),
    }
}

/// Relies on `goblin::pe::PE::parse` and its `sections` table; PE raw data is
/// always little-endian.
#[verifier::external_body]
pub fn pe_sections(bytes: &[u8]) -> (r: Result<(bool, Vec<SectionRec>), String>)
    ensures
        match r {
            Ok(t) => pe_sections_of(bytes@) == Ok::<_, Seq<char>>(
                (t.0, t.1@.map_values(|s: SectionRec| s.view_triple())),
            ),
            Err(e) => pe_sections_of(bytes@) == Err::<(bool, Seq<(Seq<u8>, u64, u64)>), _>(e@),
        },
{
    match goblin::pe::PE::parse(bytes) {
        Ok(pe) => Ok((pe.is_64, pe.sections.iter().map(|s| SectionRec {
            name: s.name.to_vec(),
            offset: s.pointer_to_raw_data as u64,
            size: s.virtual_size as u64,
        }).collect())),
        Err(e) => Err(format!("{}", e)),
    }
}

/// Relies on `goblin::pe::Coff::parse`, its header `characteristics` and its
/// `sections` table.
#[verifier::external_body]
pub fn coff_sections(bytes: &[u8]) -> (r: Result<(u16, Vec<SectionRec>), String>)
    ensures
        match r {
            Ok(t) => coff_sections_of(bytes@) == Ok::<_, Seq<char>>(
                (t.0, t.1@.map_values(|s: SectionRec| s.view_triple())),
            ),
            Err(e) => coff_sections_of(bytes@) == Err::<(u16, Seq<(Seq<u8>, u64, u64)>), _>(e@),
        },
{
    match goblin::pe::Coff::parse(bytes) {
        Ok(coff) => Ok((coff.header.characteristics, coff.sections.iter().map(|s| SectionRec {
            name: s.name.to_vec(),
            offset: s.pointer_to_raw_data as u64,
            size: s.virtual_size as u64,
        }).collect())),
        Err(e) => Err(format!("{}", e)),
    }
}

/// Relies on `goblin::mach::MachO::parse`, its `segments` and each segment's
/// `sections`: a section whose name cannot be read is reported with an empty
/// name.
#[verifier::external_body]
pub fn macho_sections(bytes: &[u8]) -> (r: Result<SectionTable, String>)
    ensures
        match r {
            Ok(t) => macho_sections_of(bytes@) == Ok::<_, Seq<char>>(
                (t.is_64, t.little_endian, t.sections@.map_values(|s: SectionRec| s.view_triple())),
            ),
            Err(e) => macho_sections_of(bytes@) == Err::<
                (bool, bool, Seq<(Seq<u8>, u64, u64)>),
                _,
            >(e@),
        },
{
    (|| -> Result<SectionTable, goblin::error::Error> {
        let m = goblin::mach::MachO::parse(bytes, 0)?;
        let mut sections = Vec::new();
        for seg in m.segments.iter() {
            for (sec, _) in seg.sections()? {
                sections.push(SectionRec {
                    name: sec.name().map(|n| n.as_bytes().to_vec()).unwrap_or_default(),
                    offset: sec.offset as u64,
                    size: sec.size,
                });
            }
        }
        Ok(SectionTable { is_64: m.is_64, little_endian: m.little_endian, sections })
    })().map_err(|e| format!("{}", e))
}

/// Relies on `goblin::mach::Mach::parse` and `MultiArch::iter_arches`: each
/// fat architecture's `offset` and `size`.
#[verifier::external_body]
pub fn fat_members(bytes: &[u8]) -> (r: Result<Vec<(u64, u64)>, String>)
    ensures
        match r {
            Ok(v) => fat_members_of(bytes@) == Ok::<_, Seq<char>>(v@),
            Err(e) => fat_members_of(bytes@) == Err::<Seq<(u64, u64)>, _>(e@),
        },
{
    match goblin::mach::Mach::parse(bytes) {
        Ok(goblin::mach::Mach::Fat(fat)) => {
            let mut v: Vec<(u64, u64)> = Vec::new();
            for arch in fat.iter_arches() {
                match arch {
                    Ok(a) => v.push((a.offset as u64, a.size as u64)),
                    Err(e) => return Err(format!("{}", e)),
                }
            }
            Ok(v)
        },
        Ok(_) => Err(format!("not a fat Mach-O")),
        Err(e) => Err(format!("{}", e)),
    }
}

/// Relies on `goblin::archive::Archive::parse`, `len`, `get_at` and each
/// member's data `offset` and `size`.
#[verifier::external_body]
pub fn archive_members(bytes: &[u8]) -> (r: Result<Vec<(u64, u64)>, String>)
    ensures
        match r {
            Ok(v) => archive_members_of(bytes@) == Ok::<_, Seq<char>>(v@),
            Err(e) => archive_members_of(bytes@) == Err::<Seq<(u64, u64)>, _>(e@),
        },
{
    match goblin::archive::Archive::parse(bytes) {
        Ok(ar) => {
            let mut v: Vec<(u64, u64)> = Vec::new();
            for i in 0..ar.len() {
                match ar.get_at(i) {
                    Some(m) => v.push((m.offset, m.size() as u64)),
                    None => return Err(format!("archive member out of range")),
                }
            }
            Ok(v)
        },
        Err(e) => Err(format!("{}", e)),
    }
}

} // verus!
