use ubt_pir::export::{STATE_ENTRY_SIZE_PLAIN, STATE_HEADER_SIZE, STATE_MAGIC, STATE_VERSION};
use ubt_pir::{
    export_hashed, export_plain, DumpStorageEntry, DumpStorageRequest, HashedAccount, HashedSlot, ParamValue,
    StateHeader, Uint256,
};

fn entry(a: u8, s: u8, v: u64) -> DumpStorageEntry {
    let mut address = [0u8; 20];
    address[0] = a;
    let mut slot = [0u8; 32];
    slot[31] = s;
    DumpStorageEntry { address, slot, value: Uint256::from_u64(v) }
}

#[test]
fn header_bytes_are_little_endian() {
    let h = StateHeader::new(84, 2, 0x0102, 7, [0xcc; 32]);
    let b = h.as_bytes();
    assert_eq!(b.len(), STATE_HEADER_SIZE);
    assert_eq!(&b[0..4], b"PIR2");
    assert_eq!(&b[4..6], &[1, 0]);
    assert_eq!(&b[6..8], &[84, 0]);
    assert_eq!(&b[8..16], &[2, 0, 0, 0, 0, 0, 0, 0]);
    assert_eq!(&b[16..24], &[0x02, 0x01, 0, 0, 0, 0, 0, 0]);
    assert_eq!(&b[24..32], &[7, 0, 0, 0, 0, 0, 0, 0]);
    assert_eq!(&b[32..64], &[0xcc; 32]);
}

#[test]
fn header_round_trips() {
    let h = StateHeader::new(84, u64::MAX, 123_456, 1, [0x5a; 32]);
    assert_eq!(h.magic, STATE_MAGIC);
    assert_eq!(h.version, STATE_VERSION);
    assert_eq!(StateHeader::from_bytes(&h.as_bytes()), Some(h));
    let mut bad = h.as_bytes();
    bad[0] = b'X';
    assert_eq!(StateHeader::from_bytes(&bad), None);
}

#[test]
fn plain_export_sorts_and_frames_records() {
    let storage = vec![entry(3, 0, 9), entry(1, 2, 0), entry(1, 1, 4), entry(2, 0, 0x0102)];
    let mut out = Vec::new();
    let count = export_plain(&storage, 77, 1, [0xee; 32], &mut out);
    assert_eq!(count, 3);
    assert_eq!(out.len(), STATE_HEADER_SIZE + 3 * STATE_ENTRY_SIZE_PLAIN);
    let header = StateHeader::from_bytes(&out[0..64].try_into().unwrap()).unwrap();
    assert_eq!(header, StateHeader::new(84, 3, 77, 1, [0xee; 32]));
    assert_eq!(header.entry_size as usize, STATE_ENTRY_SIZE_PLAIN);
    let rec = |i: usize| &out[64 + 84 * i..64 + 84 * (i + 1)];
    assert_eq!(rec(0)[0], 1);
    assert_eq!(rec(0)[51], 1);
    assert_eq!(rec(0)[83], 4);
    assert_eq!(rec(1)[0], 2);
    assert_eq!(&rec(1)[82..84], &[1, 2]);
    assert_eq!(rec(2)[0], 3);
    assert_eq!(rec(2)[83], 9);
}

#[test]
fn plain_export_equals_chained_pages() {
    let mut storage = Vec::new();
    for a in 1..=5u8 {
        for s in 0..4u8 {
            storage.push(entry(a, s, (a as u64 + s as u64) % 3));
        }
    }
    let mut pages = Vec::new();
    let mut cursor = ParamValue::Null;
    loop {
        let page = DumpStorageRequest::parse(&Some(vec![cursor, ParamValue::Unsigned(3)])).unwrap().handle(&storage);
        pages.extend(page.entries.iter().copied());
        match page.next_cursor {
            Some(c) => cursor = ParamValue::Text(c),
            None => break,
        }
    }
    let mut shuffled = storage.clone();
    shuffled.reverse();
    let mut out = Vec::new();
    let count = export_plain(&shuffled, 1, 1, [0; 32], &mut out);
    assert_eq!(count as usize, pages.len());
    for (i, e) in pages.iter().enumerate() {
        let rec = &out[64 + 84 * i..64 + 84 * (i + 1)];
        assert_eq!(&rec[0..20], &e.address);
        assert_eq!(&rec[20..52], &e.slot);
        assert_eq!(&rec[52..84], &e.value.to_big_endian());
    }
}

#[test]
fn empty_plain_export_is_a_header() {
    let mut out = Vec::new();
    assert_eq!(export_plain(&[entry(1, 1, 0)], 5, 6, [1; 32], &mut out), 0);
    assert_eq!(out, StateHeader::new(84, 0, 5, 6, [1; 32]).as_bytes().to_vec());
}

#[test]
fn hashed_export_skips_empty_storage_and_zero_values() {
    let empty_root = ubt_pir::export::EMPTY_TRIE_HASH;
    let accounts = vec![
        HashedAccount {
            hashed_address: [1; 32],
            storage_root: empty_root,
            storage: Some(vec![HashedSlot { hashed_slot: [9; 32], value: Uint256::from_u64(1) }]),
        },
        HashedAccount {
            hashed_address: [2; 32],
            storage_root: [3; 32],
            storage: Some(vec![
                HashedSlot { hashed_slot: [4; 32], value: Uint256::from_u64(0) },
                HashedSlot { hashed_slot: [5; 32], value: Uint256::from_u64(0x0a0b) },
            ]),
        },
        HashedAccount { hashed_address: [6; 32], storage_root: [7; 32], storage: None },
    ];
    let mut out = Vec::new();
    let count = export_hashed(&accounts, &mut out);
    assert_eq!(count, 1);
    assert_eq!(out.len(), 96);
    assert_eq!(&out[0..32], &[2; 32]);
    assert_eq!(&out[32..64], &[5; 32]);
    assert_eq!(&out[94..96], &[0x0a, 0x0b]);
    assert_eq!(&out[64..94], &[0; 30]);
}
