//! End-to-end scenarios over hand-built ELF binaries and archives.

use linkstore::Embedder;
use linkstore::Error;

fn push_u16(v: &mut Vec<u8>, x: u16, le: bool) {
    if le {
        v.extend_from_slice(&x.to_le_bytes());
    } else {
        v.extend_from_slice(&x.to_be_bytes());
    }
}

fn push_u32(v: &mut Vec<u8>, x: u32, le: bool) {
    if le {
        v.extend_from_slice(&x.to_le_bytes());
    } else {
        v.extend_from_slice(&x.to_be_bytes());
    }
}

fn push_u64(v: &mut Vec<u8>, x: u64, le: bool) {
    if le {
        v.extend_from_slice(&x.to_le_bytes());
    } else {
        v.extend_from_slice(&x.to_be_bytes());
    }
}

/// One slot-directory entry: magic, name, NUL, size and padding words
/// (directory metadata is always little-endian), pad bytes, payload.
fn directory_entry(name: &str, padding: usize, payload: &[u8]) -> Vec<u8> {
    let mut v = Vec::new();
    v.push(0xEAu8);
    v.extend_from_slice(name.as_bytes());
    v.push(0);
    push_u64(&mut v, payload.len() as u64, true);
    push_u64(&mut v, padding as u64, true);
    v.extend_from_slice(&vec![0u8; padding]);
    v.extend_from_slice(payload);
    v
}

/// A minimal ELF64 with three sections: the null section, a `.lnkstre`
/// section holding `store` and a `.shstrtab`.  `le` picks the ELF data
/// encoding, which also decides the slot payloads' endianness.
fn build_elf64(le: bool, store: &[u8]) -> Vec<u8> {
    let shstrtab: &[u8] = b"\0.lnkstre\0.shstrtab\0";
    let store_off = 64u64;
    let strtab_off = store_off + store.len() as u64;
    let mut shoff = strtab_off + shstrtab.len() as u64;
    // section header table is 8-byte aligned for tidiness
    shoff += (8 - (shoff % 8)) % 8;

    let mut v = Vec::new();
    v.extend_from_slice(&[0x7f, b'E', b'L', b'F']);
    v.push(2); // 64-bit
    v.push(if le { 1 } else { 2 });
    v.push(1); // version
    v.extend_from_slice(&[0u8; 9]);
    push_u16(&mut v, 1, le); // ET_REL
    push_u16(&mut v, 0x3e, le); // x86-64
    push_u32(&mut v, 1, le);
    push_u64(&mut v, 0, le); // entry
    push_u64(&mut v, 0, le); // phoff
    push_u64(&mut v, shoff, le);
    push_u32(&mut v, 0, le); // flags
    push_u16(&mut v, 64, le); // ehsize
    push_u16(&mut v, 0, le); // phentsize
    push_u16(&mut v, 0, le); // phnum
    push_u16(&mut v, 64, le); // shentsize
    push_u16(&mut v, 3, le); // shnum
    push_u16(&mut v, 2, le); // shstrndx
    assert_eq!(v.len(), 64);

    v.extend_from_slice(store);
    v.extend_from_slice(shstrtab);
    while (v.len() as u64) < shoff {
        v.push(0);
    }

    // null section header
    v.extend_from_slice(&[0u8; 64]);
    // .lnkstre
    push_u32(&mut v, 1, le); // name offset in shstrtab
    push_u32(&mut v, 1, le); // SHT_PROGBITS
    push_u64(&mut v, 0, le); // flags
    push_u64(&mut v, 0, le); // addr
    push_u64(&mut v, store_off, le);
    push_u64(&mut v, store.len() as u64, le);
    push_u32(&mut v, 0, le); // link
    push_u32(&mut v, 0, le); // info
    push_u64(&mut v, 1, le); // addralign
    push_u64(&mut v, 0, le); // entsize
    // .shstrtab
    push_u32(&mut v, 10, le);
    push_u32(&mut v, 3, le); // SHT_STRTAB
    push_u64(&mut v, 0, le);
    push_u64(&mut v, 0, le);
    push_u64(&mut v, strtab_off, le);
    push_u64(&mut v, shstrtab.len() as u64, le);
    push_u32(&mut v, 0, le);
    push_u32(&mut v, 0, le);
    push_u64(&mut v, 1, le);
    push_u64(&mut v, 0, le);
    v
}

/// A Unix archive of the given members.
fn build_archive(members: &[&[u8]]) -> Vec<u8> {
    let mut v = Vec::new();
    v.extend_from_slice(b"!<arch>\n");
    for (i, m) in members.iter().enumerate() {
        let name = format!("m{}/", i);
        let mut hdr = format!("{:<16}{:<12}{:<6}{:<6}{:<8}{:<10}", name, 0, 0, 0, 644, m.len());
        hdr.push('`');
        hdr.push('\n');
        v.extend_from_slice(hdr.as_bytes());
        v.extend_from_slice(m);
        if m.len() % 2 == 1 {
            v.push(b'\n');
        }
    }
    v
}

/// The standard single-binary fixture: LS_A (u64 = 0xDEADBEEF),
/// LS_BYTES ([u8;4] = DE AD BE EF), LS_BIG (16 bytes).
fn fixture(le: bool) -> Vec<u8> {
    let mut store = Vec::new();
    let a: u64 = 0xDEADBEEF;
    store.extend_from_slice(&directory_entry(
        "LS_A",
        0,
        &if le { a.to_le_bytes() } else { a.to_be_bytes() },
    ));
    store.extend_from_slice(&directory_entry("LS_BYTES", 3, &[0xDE, 0xAD, 0xBE, 0xEF]));
    let big: u128 = 0xDEADBEEF;
    store.extend_from_slice(&directory_entry(
        "LS_BIG",
        0,
        &if le { big.to_le_bytes() } else { big.to_be_bytes() },
    ));
    build_elf64(le, &store)
}

#[test]
fn s1_u64_read_embed_reopen() {
    let bin = fixture(true);
    let em = Embedder::new(bin).unwrap();
    let mut it = em.read::<u64>("LS_A").unwrap();
    assert_eq!(it.next(), Some(0xDEADBEEF_u64));
    assert_eq!(it.next(), None);

    let mut em = Embedder::new(fixture(true)).unwrap();
    em.embed("LS_A", &69_u64).unwrap();
    let out = em.finish();
    let em2 = Embedder::new(out).unwrap();
    assert_eq!(em2.read::<u64>("LS_A").unwrap().next(), Some(69_u64));
}

#[test]
fn s2_byte_array_read_embed_reopen() {
    let em = Embedder::new(fixture(true)).unwrap();
    let mut it = em.try_read::<[u8; 4]>("LS_BYTES").unwrap();
    assert!(matches!(it.next(), Some(Ok([0xDE, 0xAD, 0xBE, 0xEF]))));

    let mut em = Embedder::new(fixture(true)).unwrap();
    em.embed("LS_BYTES", &[1u8, 2, 3, 4]).unwrap();
    let out = em.finish();
    let em2 = Embedder::new(out).unwrap();
    let mut it = em2.try_read::<[u8; 4]>("LS_BYTES").unwrap();
    assert!(matches!(it.next(), Some(Ok([1, 2, 3, 4]))));
}

#[test]
fn s3_u128_embed_reopen() {
    let mut em = Embedder::new(fixture(true)).unwrap();
    em.embed("LS_BIG", &(u128::MAX / 2)).unwrap();
    let out = em.finish();
    let em2 = Embedder::new(out).unwrap();
    assert_eq!(em2.read::<u128>("LS_BIG").unwrap().next(), Some(u128::MAX / 2));
}

#[test]
fn s4_mismatched_size() {
    let em = Embedder::new(fixture(true)).unwrap();
    match em.read::<u32>("LS_A") {
        Err(Error::MismatchedSize(found, expected)) => {
            assert_eq!(found, 8);
            assert_eq!(expected, 4);
        },
        _ => panic!("expected MismatchedSize"),
    }
}

#[test]
fn s5_not_present() {
    let em = Embedder::new(fixture(true)).unwrap();
    match em.read::<u64>("NONEXISTENT") {
        Err(Error::NotPresent(name)) => assert_eq!(name, "NONEXISTENT"),
        _ => panic!("expected NotPresent"),
    }
}

#[test]
fn s6_archive_siblings() {
    // Two members, each with a slot named X of the same size: embed stages
    // both and the flushed file holds the value in both members.
    let m0 = build_elf64(true, &directory_entry("X", 0, &7u32.to_le_bytes()));
    let m1 = build_elf64(true, &directory_entry("X", 0, &9u32.to_le_bytes()));
    let ar = build_archive(&[&m0, &m1]);
    let mut em = Embedder::new(ar).unwrap();
    em.embed("X", &1234u32).unwrap();
    let out = em.finish();
    let em2 = Embedder::new(out).unwrap();
    let mut it = em2.read::<u32>("X").unwrap();
    assert_eq!(it.next(), Some(1234));
    assert_eq!(it.next(), Some(1234));
    assert_eq!(it.next(), None);

    // Distinct sizes across siblings: embed must fail with MismatchedSize
    // and leave the file unchanged.
    let m2 = build_elf64(true, &directory_entry("X", 0, &7u32.to_le_bytes()));
    let m3 = build_elf64(true, &directory_entry("X", 0, &9u64.to_le_bytes()));
    let ar2 = build_archive(&[&m2, &m3]);
    let mut em = Embedder::new(ar2.clone()).unwrap();
    assert!(matches!(em.embed("X", &1234u32), Err(Error::MismatchedSize(8, 4))));
    let out = em.finish();
    assert_eq!(out, ar2);
}

#[test]
fn byte_level_minimality() {
    // After finish, a byte differs only where an embedded slot's payload is.
    let bin = fixture(true);
    let mut em = Embedder::new(bin.clone()).unwrap();
    em.embed("LS_A", &0x1122334455667788_u64).unwrap();
    let out = em.finish();
    assert_eq!(out.len(), bin.len());
    // LS_A's payload: header (64) + magic (1) + name (4) + NUL (1) + two
    // 8-byte words = offset 86, 8 bytes long.
    let payload = 64 + 1 + 4 + 1 + 16;
    for i in 0..bin.len() {
        if i < payload || i >= payload + 8 {
            assert_eq!(out[i], bin[i], "byte {} changed outside the slot", i);
        }
    }
    assert_eq!(&out[payload..payload + 8], &0x1122334455667788_u64.to_le_bytes());
}

#[test]
fn idempotent_embed_finish() {
    let mut em = Embedder::new(fixture(true)).unwrap();
    em.embed("LS_A", &42u64).unwrap();
    em.embed("LS_BYTES", &[9u8, 8, 7, 6]).unwrap();
    let once = em.finish();

    let mut em2 = Embedder::new(once.clone()).unwrap();
    em2.embed("LS_A", &42u64).unwrap();
    em2.embed("LS_BYTES", &[9u8, 8, 7, 6]).unwrap();
    let twice = em2.finish();
    assert_eq!(once, twice);
}

#[test]
fn endianness_on_disk() {
    // Little-endian ELF: the payload bytes are the LE encoding.
    let mut em = Embedder::new(fixture(true)).unwrap();
    em.embed("LS_A", &0x0102030405060708_u64).unwrap();
    let out = em.finish();
    let payload = 64 + 1 + 4 + 1 + 16;
    assert_eq!(&out[payload..payload + 8], &[8, 7, 6, 5, 4, 3, 2, 1]);

    // Big-endian ELF: the payload bytes are the BE encoding.
    let mut em = Embedder::new(fixture(false)).unwrap();
    assert_eq!(em.read::<u64>("LS_A").unwrap().next(), Some(0xDEADBEEF_u64));
    em.embed("LS_A", &0x0102030405060708_u64).unwrap();
    let out = em.finish();
    assert_eq!(&out[payload..payload + 8], &[1, 2, 3, 4, 5, 6, 7, 8]);
}

#[test]
fn container_member_isolation() {
    // Writing a slot of one archive member changes that member's payload
    // range and nothing else in the archive.
    let m0 = build_elf64(true, &directory_entry("ONLY0", 0, &7u32.to_le_bytes()));
    let m1 = build_elf64(true, &directory_entry("ONLY1", 0, &9u32.to_le_bytes()));
    let ar = build_archive(&[&m0, &m1]);
    let mut em = Embedder::new(ar.clone()).unwrap();
    em.embed("ONLY1", &77u32).unwrap();
    let out = em.finish();
    assert_eq!(out.len(), ar.len());
    // Member 1's data begins after the global header, member 0's header and
    // data (even-padded), and member 1's header.
    let m0_data = 8 + 60;
    let m1_data = m0_data + m0.len() + m0.len() % 2 + 60;
    let payload = m1_data + 64 + 1 + 5 + 1 + 16;
    for i in 0..ar.len() {
        if i < payload || i >= payload + 4 {
            assert_eq!(out[i], ar[i], "byte {} changed outside the slot", i);
        }
    }
    assert_eq!(&out[payload..payload + 4], &77u32.to_le_bytes());
    // Both members' directories are still intact.
    let em2 = Embedder::new(out).unwrap();
    assert_eq!(em2.read::<u32>("ONLY0").unwrap().next(), Some(7));
    assert_eq!(em2.read::<u32>("ONLY1").unwrap().next(), Some(77));
}

#[test]
fn unrecognised_format() {
    let junk = vec![0u8; 200];
    assert!(matches!(Embedder::new(junk), Err(Error::Unrecognised)));
}

#[test]
fn empty_name_is_rejected() {
    // An entry whose name is empty before its terminator.
    let mut store = Vec::new();
    store.push(0xEAu8);
    store.push(0); // empty name
    store.extend_from_slice(&4u64.to_le_bytes());
    store.extend_from_slice(&0u64.to_le_bytes());
    store.extend_from_slice(&[1, 2, 3, 4]);
    let bin = build_elf64(true, &store);
    assert!(matches!(Embedder::new(bin), Err(Error::NameDecodingError)));
}

#[test]
fn truncated_directory_is_rejected() {
    // The declared payload size overruns the section's budget.
    let mut store = Vec::new();
    store.push(0xEAu8);
    store.extend_from_slice(b"T\0");
    store.extend_from_slice(&1000u64.to_le_bytes());
    store.extend_from_slice(&0u64.to_le_bytes());
    store.extend_from_slice(&[0u8; 8]);
    let bin = build_elf64(true, &store);
    assert!(matches!(Embedder::new(bin), Err(Error::UnexpectedEof)));
}

#[test]
fn trailing_padding_is_tolerated() {
    // Zero bytes after the last record end the directory normally.
    let mut store = directory_entry("PADDED", 0, &5u32.to_le_bytes());
    store.extend_from_slice(&[0u8; 40]);
    let bin = build_elf64(true, &store);
    let em = Embedder::new(bin).unwrap();
    assert_eq!(em.read::<u32>("PADDED").unwrap().next(), Some(5));
}

#[test]
fn embed_unknown_name_changes_nothing() {
    let bin = fixture(true);
    let mut em = Embedder::new(bin.clone()).unwrap();
    match em.embed("MISSING", &1u8) {
        Err(Error::NotPresent(n)) => assert_eq!(n, "MISSING"),
        _ => panic!("expected NotPresent"),
    }
    assert_eq!(em.finish(), bin);
}

/// A bare COFF object (x86-64) with one `.lnkstre` section holding `store`.
fn build_coff(store: &[u8]) -> Vec<u8> {
    let mut v = Vec::new();
    push_u16(&mut v, 0x8664, true); // machine: x86-64
    push_u16(&mut v, 1, true); // one section
    push_u32(&mut v, 0, true); // timestamp
    push_u32(&mut v, 0, true); // symbol table
    push_u32(&mut v, 0, true); // symbol count
    push_u16(&mut v, 0, true); // optional header size
    push_u16(&mut v, 0, true); // characteristics: bit 0x0100 clear = 64-bit
    // section table entry
    v.extend_from_slice(b".lnkstre");
    let data_off = 20 + 40;
    push_u32(&mut v, store.len() as u32, true); // virtual_size
    push_u32(&mut v, 0, true); // virtual_address
    push_u32(&mut v, store.len() as u32, true); // size_of_raw_data
    push_u32(&mut v, data_off, true); // pointer_to_raw_data
    push_u32(&mut v, 0, true);
    push_u32(&mut v, 0, true);
    push_u16(&mut v, 0, true);
    push_u16(&mut v, 0, true);
    push_u32(&mut v, 0x40, true); // section characteristics
    assert_eq!(v.len() as u32, data_off);
    v.extend_from_slice(store);
    v
}

/// A minimal 64-bit little-endian Mach-O object with one segment holding one
/// `.lnkstre` section over `store`.
fn build_macho(store: &[u8]) -> Vec<u8> {
    let data_off: u32 = 32 + 72 + 80;
    let mut v = Vec::new();
    push_u32(&mut v, 0xfeedfacf, true); // 64-bit magic
    push_u32(&mut v, 0x01000007, true); // x86-64
    push_u32(&mut v, 3, true);
    push_u32(&mut v, 1, true); // MH_OBJECT
    push_u32(&mut v, 1, true); // one load command
    push_u32(&mut v, 72 + 80, true);
    push_u32(&mut v, 0, true); // flags
    push_u32(&mut v, 0, true); // reserved
    // LC_SEGMENT_64
    push_u32(&mut v, 0x19, true);
    push_u32(&mut v, 72 + 80, true);
    v.extend_from_slice(&[0u8; 16]); // segment name
    push_u64(&mut v, 0, true); // vmaddr
    push_u64(&mut v, store.len() as u64, true); // vmsize
    push_u64(&mut v, data_off as u64, true); // fileoff
    push_u64(&mut v, store.len() as u64, true); // filesize
    push_u32(&mut v, 7, true);
    push_u32(&mut v, 7, true);
    push_u32(&mut v, 1, true); // one section
    push_u32(&mut v, 0, true);
    // section_64
    let mut sectname = [0u8; 16];
    sectname[..8].copy_from_slice(b".lnkstre");
    v.extend_from_slice(&sectname);
    v.extend_from_slice(&[0u8; 16]); // segment name
    push_u64(&mut v, 0, true); // addr
    push_u64(&mut v, store.len() as u64, true); // size
    push_u32(&mut v, data_off, true); // offset
    push_u32(&mut v, 0, true); // align
    push_u32(&mut v, 0, true); // reloff
    push_u32(&mut v, 0, true); // nreloc
    push_u32(&mut v, 0, true); // flags
    push_u32(&mut v, 0, true);
    push_u32(&mut v, 0, true);
    push_u32(&mut v, 0, true);
    assert_eq!(v.len() as u32, data_off);
    v.extend_from_slice(store);
    v
}

/// A fat Mach-O container holding the given slices (fat headers are always
/// big-endian).
fn build_fat(members: &[&[u8]]) -> Vec<u8> {
    let mut v = Vec::new();
    push_u32(&mut v, 0xcafebabe, false);
    push_u32(&mut v, members.len() as u32, false);
    let mut off = 8 + 20 * members.len() as u32;
    let mut offs = Vec::new();
    for m in members {
        offs.push(off);
        push_u32(&mut v, 0x01000007, false); // cputype
        push_u32(&mut v, 3, false); // cpusubtype
        push_u32(&mut v, off, false);
        push_u32(&mut v, m.len() as u32, false);
        push_u32(&mut v, 0, false); // align
        off += m.len() as u32;
    }
    for m in members {
        v.extend_from_slice(m);
    }
    v
}

#[test]
fn coff_object_slots() {
    let coff = build_coff(&directory_entry("CF", 0, &11u64.to_le_bytes()));
    let mut em = Embedder::new(coff).unwrap();
    assert_eq!(em.read::<u64>("CF").unwrap().next(), Some(11));
    em.embed("CF", &22u64).unwrap();
    let out = em.finish();
    let em2 = Embedder::new(out).unwrap();
    assert_eq!(em2.read::<u64>("CF").unwrap().next(), Some(22));
}

#[test]
fn coff_inside_archive() {
    let coff = build_coff(&directory_entry("AC", 0, &5u32.to_le_bytes()));
    let ar = build_archive(&[&coff]);
    let mut em = Embedder::new(ar).unwrap();
    em.embed("AC", &6u32).unwrap();
    let out = em.finish();
    let em2 = Embedder::new(out).unwrap();
    assert_eq!(em2.read::<u32>("AC").unwrap().next(), Some(6));
}

#[test]
fn macho_slots() {
    let macho = build_macho(&directory_entry("MC", 0, &33u16.to_le_bytes()));
    let mut em = Embedder::new(macho).unwrap();
    assert_eq!(em.read::<u16>("MC").unwrap().next(), Some(33));
    em.embed("MC", &44u16).unwrap();
    let out = em.finish();
    let em2 = Embedder::new(out).unwrap();
    assert_eq!(em2.read::<u16>("MC").unwrap().next(), Some(44));
}

#[test]
fn fat_macho_slots() {
    let m0 = build_macho(&directory_entry("FT", 0, &1u32.to_le_bytes()));
    let m1 = build_macho(&directory_entry("FT", 0, &2u32.to_le_bytes()));
    let fat = build_fat(&[&m0, &m1]);
    let mut em = Embedder::new(fat).unwrap();
    let mut it = em.read::<u32>("FT").unwrap();
    assert_eq!(it.next(), Some(1));
    assert_eq!(it.next(), Some(2));
    em.embed("FT", &9u32).unwrap();
    let out = em.finish();
    let em2 = Embedder::new(out).unwrap();
    let mut it = em2.read::<u32>("FT").unwrap();
    assert_eq!(it.next(), Some(9));
    assert_eq!(it.next(), Some(9));
}

#[test]
fn object_parse_failure_is_reported() {
    // An ELF magic over a truncated header: the object parser's rejection
    // comes back as the Goblin error.
    let mut junk = vec![0x7f, b'E', b'L', b'F', 2, 1, 1];
    junk.extend_from_slice(&[0u8; 13]);
    assert!(matches!(Embedder::new(junk), Err(Error::Goblin(_))));
}

#[test]
fn magic_resync_skips_garbage() {
    // Non-magic garbage between records is scanned over: the decoder
    // resynchronises on the next 0xEA byte.
    let mut store = directory_entry("FIRST", 0, &1u16.to_le_bytes());
    store.extend_from_slice(&[0x55u8; 7]); // garbage, no magic byte
    store.extend_from_slice(&directory_entry("SECOND", 0, &2u16.to_le_bytes()));
    let bin = build_elf64(true, &store);
    let em = Embedder::new(bin).unwrap();
    assert_eq!(em.read::<u16>("FIRST").unwrap().next(), Some(1));
    assert_eq!(em.read::<u16>("SECOND").unwrap().next(), Some(2));
}
