use ubt::{
    chunkify_code, get_basic_data_key, get_code_chunk_key, get_code_hash_key, get_storage_slot_key, Address,
    BasicDataLeaf,
};
use ubt_pir::{account_updates_to_ubt, AccountInfo, AccountUpdate, Uint256};

fn account(address: [u8; 20]) -> AccountUpdate {
    AccountUpdate {
        address,
        removed: false,
        info: None,
        code: None,
        added_storage: Vec::new(),
        removed_storage: false,
    }
}

#[test]
fn removed_account_zeroes_basic_data_and_code_hash() {
    let mut u = account([7; 20]);
    u.removed = true;
    u.info = Some(AccountInfo { nonce: 3, balance: Uint256::from_u64(9), code_hash: [1; 32] });
    u.added_storage = vec![([1; 32], Uint256::from_u64(4))];
    let out = account_updates_to_ubt(&[u]);
    let a = Address::from([7u8; 20]);
    assert_eq!(out.len(), 2);
    assert_eq!(out[0].key, get_basic_data_key(&a).to_bytes().0);
    assert_eq!(out[0].value, Some([0u8; 32]));
    assert_eq!(out[1].key, get_code_hash_key(&a).to_bytes().0);
    assert_eq!(out[1].value, Some([0u8; 32]));
}

#[test]
fn account_fields_and_code_hash_are_encoded() {
    let mut u = account([5; 20]);
    u.info = Some(AccountInfo { nonce: 5, balance: Uint256::from_u64(1000), code_hash: [0xab; 32] });
    u.code = Some(vec![0x60, 0x01, 0x00]);
    let out = account_updates_to_ubt(&[u]);
    let a = Address::from([5u8; 20]);
    assert_eq!(out.len(), 3);
    assert_eq!(out[0].key, get_basic_data_key(&a).to_bytes().0);
    assert_eq!(out[0].value, Some(BasicDataLeaf::new(5, 1000, 3).encode().0));
    let mut expected = [0u8; 32];
    expected[7] = 3;
    expected[15] = 5;
    expected[30] = 0x03;
    expected[31] = 0xe8;
    assert_eq!(out[0].value, Some(expected));
    assert_eq!(out[1].key, get_code_hash_key(&a).to_bytes().0);
    assert_eq!(out[1].value, Some([0xab; 32]));
    assert_eq!(out[2].key, get_code_chunk_key(&a, 0).to_bytes().0);
}

#[test]
fn balance_above_128_bits_is_saturated() {
    let mut u = account([6; 20]);
    u.info = Some(AccountInfo { nonce: 0, balance: Uint256 { limbs: [1, 2, 3, 0] }, code_hash: [0; 32] });
    let out = account_updates_to_ubt(&[u]);
    let leaf = out[0].value.unwrap();
    assert_eq!(&leaf[16..32], &[0xff; 16]);
    assert_eq!(leaf, BasicDataLeaf::new(0, u128::MAX, 0).encode().0);
}

#[test]
fn balance_within_128_bits_is_kept() {
    let mut u = account([6; 20]);
    u.info = Some(AccountInfo { nonce: 0, balance: Uint256 { limbs: [1, 2, 0, 0] }, code_hash: [0; 32] });
    let out = account_updates_to_ubt(&[u]);
    let expected = (2u128 << 64) | 1;
    assert_eq!(out[0].value.unwrap(), BasicDataLeaf::new(0, expected, 0).encode().0);
}

#[test]
fn code_is_chunked_in_order() {
    let code: Vec<u8> = (0..40u8).collect();
    let mut u = account([8; 20]);
    u.code = Some(code.clone());
    let out = account_updates_to_ubt(&[u]);
    let a = Address::from([8u8; 20]);
    let chunks = chunkify_code(&code);
    assert_eq!(out.len(), 2);
    assert_eq!(chunks.len(), 2);
    for (i, chunk) in chunks.iter().enumerate() {
        assert_eq!(out[i].key, get_code_chunk_key(&a, i as u64).to_bytes().0);
        assert_eq!(out[i].value, Some(chunk.encode().0));
    }
    assert_eq!(out[1].value.unwrap()[1], 31);
    assert_eq!(out[1].value.unwrap()[10], 0);
}

#[test]
fn storage_values_are_big_endian() {
    let mut u = account([9; 20]);
    u.added_storage = vec![
        ([1; 32], Uint256 { limbs: [0x0102030405060708, 0, 0, 0x1122334455667788] }),
        ([2; 32], Uint256::from_u64(0)),
    ];
    let out = account_updates_to_ubt(&[u]);
    let a = Address::from([9u8; 20]);
    assert_eq!(out.len(), 2);
    assert_eq!(out[0].key, get_storage_slot_key(&a, &[1; 32]).to_bytes().0);
    let v = out[0].value.unwrap();
    assert_eq!(&v[0..8], &[0x11, 0x22, 0x33, 0x44, 0x55, 0x66, 0x77, 0x88]);
    assert_eq!(&v[24..32], &[1, 2, 3, 4, 5, 6, 7, 8]);
    assert_eq!(&v[8..24], &[0u8; 16]);
    assert_eq!(out[1].key, get_storage_slot_key(&a, &[2; 32]).to_bytes().0);
    assert_eq!(out[1].value, Some([0u8; 32]));
}

#[test]
fn diffs_are_translated_in_order() {
    let mut first = account([1; 20]);
    first.removed = true;
    let mut second = account([2; 20]);
    second.added_storage = vec![([0; 32], Uint256::from_u64(1))];
    let out = account_updates_to_ubt(&[first, second]);
    assert_eq!(out.len(), 3);
    assert_eq!(out[2].key, get_storage_slot_key(&Address::from([2u8; 20]), &[0; 32]).to_bytes().0);
    assert!(out.iter().all(|u| u.value.is_some()));
}
