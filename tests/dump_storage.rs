use ubt_pir::{DumpStorageEntry, DumpStorageRequest, PageCollector, ParamValue, RpcErr, Uint256};

fn addr(last: u8) -> [u8; 20] {
    let mut a = [0u8; 20];
    a[19] = last;
    a
}

fn slot(last: u8) -> [u8; 32] {
    let mut s = [0u8; 32];
    s[31] = last;
    s
}

fn entry(a: u8, s: u8, v: u64) -> DumpStorageEntry {
    DumpStorageEntry { address: addr(a), slot: slot(s), value: Uint256::from_u64(v) }
}

fn request(cursor: ParamValue, limit: ParamValue) -> Result<DumpStorageRequest, RpcErr> {
    DumpStorageRequest::parse(&Some(vec![cursor, limit]))
}

#[test]
fn two_pages_resume_after_cursor() {
    let storage = vec![entry(1, 0, 5), entry(2, 0, 7)];
    let first = request(ParamValue::Null, ParamValue::Unsigned(1)).unwrap().handle(&storage);
    assert_eq!(first.entries, vec![entry(1, 0, 5)]);
    assert!(first.has_more);
    let expected = format!("0x{}{}", "00".repeat(19) + "01", "00".repeat(32));
    assert_eq!(first.next_cursor, Some(expected.clone()));

    let second = request(ParamValue::Text(expected), ParamValue::Unsigned(1)).unwrap().handle(&storage);
    assert_eq!(second.entries, vec![entry(2, 0, 7)]);
    assert!(!second.has_more);
    assert_eq!(second.next_cursor, None);
}

#[test]
fn bad_limits_and_cursors_are_rejected() {
    assert!(matches!(request(ParamValue::Null, ParamValue::Unsigned(0)), Err(RpcErr::BadParams(_))));
    assert!(matches!(request(ParamValue::Null, ParamValue::Unsigned(10001)), Err(RpcErr::BadParams(_))));
    assert!(matches!(request(ParamValue::Text("0x1234".to_string()), ParamValue::Null), Err(RpcErr::BadParams(_))));
    assert!(matches!(request(ParamValue::Text("0xzz".to_string()), ParamValue::Null), Err(RpcErr::BadParams(_))));
    assert!(matches!(request(ParamValue::Unsigned(3), ParamValue::Null), Err(RpcErr::BadParams(_))));
    assert!(matches!(request(ParamValue::Null, ParamValue::Text("5".to_string())), Err(RpcErr::BadParams(_))));
    assert!(matches!(request(ParamValue::Null, ParamValue::Other), Err(RpcErr::BadParams(_))));
}

#[test]
fn limit_defaults_and_bounds() {
    let storage: Vec<DumpStorageEntry> = (1..=3).map(|i| entry(i, 0, 1)).collect();
    let page = DumpStorageRequest::parse(&None).unwrap().handle(&storage);
    assert_eq!(page.entries.len(), 3);
    assert!(!page.has_more);
    let page = DumpStorageRequest::parse(&Some(vec![])).unwrap().handle(&storage);
    assert_eq!(page.entries.len(), 3);
    assert!(request(ParamValue::Null, ParamValue::Unsigned(10000)).is_ok());
    assert!(request(ParamValue::Text(String::new()), ParamValue::Unsigned(1)).is_ok());
}

#[test]
fn cursor_accepts_upper_case_and_no_prefix() {
    let storage = vec![entry(1, 0, 5), entry(1, 1, 6), entry(2, 0, 7)];
    let text = "00".repeat(19) + "01" + &"00".repeat(31) + "00";
    let page = request(ParamValue::Text(text), ParamValue::Null).unwrap().handle(&storage);
    assert_eq!(page.entries, vec![entry(1, 1, 6), entry(2, 0, 7)]);
    let upper = format!("0x{}", ("00".repeat(19) + "01" + &"00".repeat(31) + "0A").to_uppercase());
    let page = request(ParamValue::Text(upper), ParamValue::Null).unwrap().handle(&storage);
    assert_eq!(page.entries, vec![entry(2, 0, 7)]);
}

#[test]
fn zero_values_are_skipped() {
    let storage = vec![entry(1, 0, 0), entry(1, 1, 3), entry(2, 0, 0)];
    let page = request(ParamValue::Null, ParamValue::Unsigned(5)).unwrap().handle(&storage);
    assert_eq!(page.entries, vec![entry(1, 1, 3)]);
    assert!(!page.has_more);
}

fn walk(storage: &[DumpStorageEntry], limit: u64) -> Vec<DumpStorageEntry> {
    let mut all = Vec::new();
    let mut cursor = ParamValue::Null;
    loop {
        let page = request(cursor, ParamValue::Unsigned(limit)).unwrap().handle(storage);
        all.extend(page.entries.iter().copied());
        if !page.has_more {
            assert!(page.next_cursor.is_none());
            return all;
        }
        assert_eq!(page.entries.len() as u64, limit);
        cursor = ParamValue::Text(page.next_cursor.unwrap());
    }
}

#[test]
fn chained_pages_reconstruct_every_non_zero_entry() {
    let mut storage = Vec::new();
    for a in 1..=4u8 {
        for s in 0..3u8 {
            storage.push(entry(a, s, ((a as u64) * 10 + s as u64) % 4));
        }
    }
    let expected: Vec<DumpStorageEntry> = storage.iter().copied().filter(|e| !e.value.is_zero()).collect();
    for limit in [1u64, 2, 3, 5, 100, 10000] {
        assert_eq!(walk(&storage, limit), expected);
    }
}

#[test]
fn next_page_starts_strictly_after_cursor() {
    let storage: Vec<DumpStorageEntry> = (1..=6).map(|i| entry(i, i, 1)).collect();
    let first = request(ParamValue::Null, ParamValue::Unsigned(2)).unwrap().handle(&storage);
    let last = *first.entries.last().unwrap();
    let second = request(ParamValue::Text(first.next_cursor.unwrap()), ParamValue::Unsigned(2)).unwrap().handle(&storage);
    assert!(second.entries.iter().all(|e| (e.address, e.slot) > (last.address, last.slot)));
    assert_eq!(second.entries[0], entry(3, 3, 1));
}

#[test]
fn collector_fed_entry_by_entry() {
    let mut c = PageCollector::new(None, 2);
    assert!(!c.is_full());
    for e in [entry(1, 0, 1), entry(1, 1, 0), entry(2, 0, 1), entry(3, 0, 1), entry(4, 0, 1)] {
        c.accept(e);
    }
    assert!(c.is_full());
    let page = c.finish();
    assert_eq!(page.entries, vec![entry(1, 0, 1), entry(2, 0, 1)]);
    assert!(page.has_more);
}
