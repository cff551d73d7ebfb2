use th06nc_data::encrytion::{apply_key, key_gen};
use th06nc_data::models::{
    index_key, index_size, packable_name, storage_for, ver0102_entry, ArchiveError, Entry, Header, Storage,
    ENTRY_LENGTH, MAIGC, VER0102_DATA, VER0102_ENTRY_LENGTH,
};

#[test]
fn storage_flags() {
    assert_eq!(Storage::from_flags(0), Storage::Stored);
    assert_eq!(Storage::from_flags(1), Storage::Zstd);
    assert_eq!(Storage::from_flags(2), Storage::Stored);
    assert_eq!(Storage::from_flags(0xFFFF), Storage::Zstd);
    assert_eq!(Storage::Stored.to_flags(), 0);
    assert_eq!(Storage::Zstd.to_flags(), 1);
    for s in [Storage::Stored, Storage::Zstd] {
        assert_eq!(Storage::from_flags(s.to_flags()), s);
    }
}

#[test]
fn storage_choice() {
    assert_eq!(storage_for(false, "a.anm"), Storage::Zstd);
    assert_eq!(storage_for(true, "a.anm"), Storage::Stored);
    assert_eq!(storage_for(false, "ver0102.dat"), Storage::Stored);
    assert_eq!(storage_for(false, "ver0102.da"), Storage::Zstd);
}

#[test]
fn entry_new_fills_fields() {
    let e = Entry::new(Storage::Zstd, 7, 100, 60, 4096, "stage1.ecl".to_string());
    assert_eq!(e.flags, 1);
    assert_eq!(e.key, 7);
    assert_eq!(e.raw_size, 100);
    assert_eq!(e.stored_size, 60);
    assert_eq!(e.offset, 4096);
    assert_eq!(e.name_len, 10);
    assert_eq!(e.name, "stage1.ecl");
    assert_eq!(e.storage(), Storage::Zstd);
}

#[test]
fn entry_new_counts_bytes_not_chars() {
    let e = Entry::new(Storage::Stored, 0, 0, 0, 0, "é".to_string());
    assert_eq!(e.name_len, 2);
}

#[test]
fn entry_write_exact_bytes() {
    let e = Entry::new(Storage::Zstd, 0x0403_0201, 0x0807_0605, 9, 0x1122, "ab".to_string());
    let mut out = vec![0xEEu8];
    e.write(&mut out);
    let expect: Vec<u8> = vec![
        0xEE, 1, 0, 1, 2, 3, 4, 5, 6, 7, 8, 0, 0, 0, 0, 9, 0, 0, 0, 0, 0, 0, 0, 0x22, 0x11, 0, 0,
        0, 0, 0, 0, 2, 0, b'a', b'b',
    ];
    assert_eq!(out, expect);
    assert_eq!(out.len(), 1 + ENTRY_LENGTH + 2);
}

#[test]
fn entry_read_back() {
    let e = Entry::new(Storage::Stored, 0xDEAD_BEEF, u64::MAX, 1, 2, "ver0102.dat".to_string());
    let mut bytes = Vec::new();
    e.write(&mut bytes);
    bytes.extend_from_slice(&[1, 2, 3]);
    let (back, n) = Entry::read(&bytes).unwrap();
    assert_eq!(n, ENTRY_LENGTH + 11);
    assert_eq!(back.flags, 0);
    assert_eq!(back.key, 0xDEAD_BEEF);
    assert_eq!(back.raw_size, u64::MAX);
    assert_eq!(back.stored_size, 1);
    assert_eq!(back.offset, 2);
    assert_eq!(back.name_len, 11);
    assert_eq!(back.name, "ver0102.dat");
}

#[test]
fn entry_read_truncated() {
    assert!(matches!(Entry::read(&[0u8; 31]), Err(ArchiveError::Truncated)));
    let mut bytes = vec![0u8; 32];
    bytes[30] = 3;
    bytes.extend_from_slice(b"ab");
    assert!(matches!(Entry::read(&bytes), Err(ArchiveError::Truncated)));
}

#[test]
fn entry_read_invalid_name() {
    let mut bytes = vec![0u8; 32];
    bytes[30] = 2;
    bytes.extend_from_slice(&[0xC3, 0x28]);
    assert!(matches!(Entry::read(&bytes), Err(ArchiveError::InvalidName)));
}

#[test]
fn entry_read_empty_name() {
    let bytes = vec![0u8; 32];
    let (e, n) = Entry::read(&bytes).unwrap();
    assert_eq!(n, 32);
    assert_eq!(e.name, "");
}

fn archive(entries: Vec<Entry>, name: &str) -> Vec<u8> {
    let mut index = Vec::new();
    for e in entries {
        e.write(&mut index);
    }
    let key = index_key(name);
    apply_key(&mut index, &key);
    let mut out = MAIGC.to_vec();
    out.extend_from_slice(&(index.len() as u32).to_le_bytes());
    out.extend_from_slice(&index);
    out
}

#[test]
fn index_key_is_key_of_crc32_of_name() {
    // zlib.crc32(b"th06") == 2468466981
    assert_eq!(index_key("th06"), key_gen(2_468_466_981));
    assert_eq!(index_key(""), key_gen(0));
}

#[test]
fn header_read_back() {
    let entries = vec![
        Entry::new(Storage::Zstd, 1, 10, 5, 64, "a.txt".to_string()),
        Entry::new(Storage::Stored, 2, 20, 20, 80, "bb.bin".to_string()),
    ];
    let mut bytes = archive(entries, "th06");
    bytes.extend_from_slice(&[0u8; 40]);
    let h = Header::read(&bytes, "th06").unwrap();
    assert_eq!(h.magic, MAIGC);
    assert_eq!(h.index_length, (2 * ENTRY_LENGTH + 11) as u32);
    assert_eq!(h.entries.len(), 2);
    assert_eq!(h.entries[0].name, "a.txt");
    assert_eq!(h.entries[0].storage(), Storage::Zstd);
    assert_eq!(h.entries[0].offset, 64);
    assert_eq!(h.entries[1].name, "bb.bin");
    assert_eq!(h.entries[1].raw_size, 20);
    assert_eq!(h.entries[1].key, 2);
}

#[test]
fn header_read_keyed_matches_read() {
    let bytes = archive(vec![Entry::new(Storage::Stored, 3, 1, 1, 0, "x".to_string())], "th06");
    let h = Header::read_keyed(&bytes, 2_468_466_981).unwrap();
    assert_eq!(h.entries.len(), 1);
    assert_eq!(h.entries[0].name, "x");
}

#[test]
fn header_empty_index() {
    let bytes = archive(Vec::new(), "any");
    let h = Header::read(&bytes, "any").unwrap();
    assert_eq!(h.index_length, 0);
    assert!(h.entries.is_empty());
}

#[test]
fn header_bad_magic() {
    let mut bytes = archive(Vec::new(), "any");
    bytes[0] = b'X';
    assert!(matches!(Header::read(&bytes, "any"), Err(ArchiveError::BadMagic)));
}

#[test]
fn header_truncated() {
    assert!(matches!(Header::read(b"PK", "a"), Err(ArchiveError::Truncated)));
    assert!(matches!(Header::read(b"PKGL\x01\x00", "a"), Err(ArchiveError::Truncated)));
    assert!(matches!(Header::read(b"PKGL\x05\x00\x00\x00abcd", "a"), Err(ArchiveError::Truncated)));
    // A short index that holds no full entry.
    assert!(matches!(Header::read(b"PKGL\x04\x00\x00\x00abcd", "a"), Err(ArchiveError::Truncated)));
}

#[test]
fn header_wrong_name_does_not_decrypt() {
    let bytes = archive(vec![Entry::new(Storage::Stored, 3, 1, 1, 0, "file.dat".to_string())], "th06");
    match Header::read(&bytes, "th07") {
        Ok(h) => assert!(h.entries.len() != 1 || h.entries[0].name != "file.dat"),
        Err(_) => {}
    }
}

#[test]
fn index_size_sums_entries() {
    assert_eq!(index_size(&[], false), Some(0));
    assert_eq!(index_size(&[], true), Some(VER0102_ENTRY_LENGTH as u64));
    assert_eq!(index_size(&[5, 6], true), Some(5 + 6 + 2 * 32 + 43));
    assert_eq!(index_size(&[u64::MAX - 32], false), Some(u64::MAX));
    assert_eq!(index_size(&[u64::MAX - 32], true), None);
    assert_eq!(index_size(&[u64::MAX], false), None);
}

#[test]
fn index_size_matches_written_index() {
    let names = ["a.txt", "longer_name.anm", "ver0102.dat"];
    let mut index = Vec::new();
    for n in names {
        Entry::new(Storage::Stored, 0, 0, 0, 0, n.to_string()).write(&mut index);
    }
    let lens: Vec<u64> = names[..2].iter().map(|n| n.len() as u64).collect();
    assert_eq!(index_size(&lens, true), Some(index.len() as u64));
}

#[test]
fn ver0102_payload() {
    let (e, payload) = ver0102_entry(77, 1024);
    assert_eq!(e.name, "ver0102.dat");
    assert_eq!(e.name_len, 11);
    assert_eq!(e.flags, 0);
    assert_eq!(e.key, 77);
    assert_eq!(e.raw_size, 63);
    assert_eq!(e.stored_size, 63);
    assert_eq!(e.offset, 1024);
    let mut plain = payload.clone();
    apply_key(&mut plain, &key_gen(77));
    assert_eq!(plain, VER0102_DATA.to_vec());
    assert_eq!(
        &plain[..],
        &b"This Game is Curtain Fire Shooting Game by Shrine Maiden.\nZUN\n\n"[..]
    );
}

#[test]
fn magic_is_pkgl() {
    assert_eq!(&MAIGC, b"PKGL");
}

#[test]
fn packable_names_are_ascii() {
    assert!(packable_name(b"stage1.ecl"));
    assert!(packable_name(b""));
    assert!(packable_name(&[0x7F]));
    assert!(!packable_name(&[0x80]));
    assert!(!packable_name("东方.dat".as_bytes()));
}
