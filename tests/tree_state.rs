use ubt::{get_basic_data_key, get_storage_slot_key, Address, BasicDataLeaf, B256};
use ubt_pir::{account_updates_to_ubt, AccountInfo, AccountUpdate, Uint256, UbtState, UbtUpdate};

fn basic_key(address: &Address) -> [u8; 32] {
    get_basic_data_key(address).to_bytes().0
}

#[test]
fn test_empty_tree_root() {
    let mut state = UbtState::new();
    let root = state.root();
    assert_eq!(root, [0u8; 32]);
}

#[test]
fn test_single_insert() {
    let mut state = UbtState::new();

    let address = Address::repeat_byte(0x42);
    let key = basic_key(&address);
    let leaf = BasicDataLeaf::new(1, 1000, 0);

    let updates = vec![UbtUpdate { key, value: Some(leaf.encode().0) }];

    let root = state.apply_block_updates(1, [0u8; 32], &updates);
    assert_ne!(root, [0u8; 32]);
    assert_eq!(state.current_head(), Some(1));
}

#[test]
fn test_storage_slot_insert() {
    let mut state = UbtState::new();

    let address = Address::repeat_byte(0x42);
    let slot = [0u8; 32];
    let key = get_storage_slot_key(&address, &slot).to_bytes().0;
    let value = B256::repeat_byte(0xff);

    let updates = vec![UbtUpdate { key, value: Some(value.0) }];

    let root = state.apply_block_updates(1, [0u8; 32], &updates);
    assert_ne!(root, [0u8; 32]);
}

#[test]
fn test_reset() {
    let mut state = UbtState::new();

    let address = Address::repeat_byte(0x42);
    let key = basic_key(&address);
    let leaf = BasicDataLeaf::new(1, 1000, 0);

    let updates = vec![UbtUpdate { key, value: Some(leaf.encode().0) }];

    state.apply_block_updates(1, [0u8; 32], &updates);
    assert_ne!(state.root(), [0u8; 32]);

    state.reset();
    assert_eq!(state.root(), [0u8; 32]);
    assert_eq!(state.current_head(), None);
    assert!(state.is_rebuilding());
}

#[test]
fn test_account_updates_to_ubt() {
    let update = AccountUpdate {
        address: [0x42; 20],
        removed: false,
        info: Some(AccountInfo { nonce: 5, balance: Uint256::from_u64(1000), code_hash: [0xab; 32] }),
        code: None,
        added_storage: Vec::new(),
        removed_storage: false,
    };

    let ubt_updates = account_updates_to_ubt(&[update]);

    assert_eq!(ubt_updates.len(), 2);
}

#[test]
fn test_account_updates_to_ubt_with_storage() {
    let storage = vec![([0x01; 32], Uint256::from_u64(100)), ([0x02; 32], Uint256::from_u64(200))];

    let update = AccountUpdate {
        address: [0x42; 20],
        removed: false,
        info: Some(AccountInfo { nonce: 1, balance: Uint256::from_u64(500), code_hash: [0u8; 32] }),
        code: None,
        added_storage: storage,
        removed_storage: false,
    };

    let ubt_updates = account_updates_to_ubt(&[update]);

    assert_eq!(ubt_updates.len(), 4);
}

fn sample_updates() -> Vec<UbtUpdate> {
    let a = Address::repeat_byte(0x11);
    let b = Address::repeat_byte(0x22);
    vec![
        UbtUpdate { key: basic_key(&a), value: Some([1u8; 32]) },
        UbtUpdate { key: basic_key(&b), value: Some([2u8; 32]) },
        UbtUpdate { key: get_storage_slot_key(&a, &[3u8; 32]).to_bytes().0, value: Some([3u8; 32]) },
        UbtUpdate { key: basic_key(&b), value: None },
    ]
}

#[test]
fn root_depends_on_content_not_order() {
    let updates = sample_updates();
    let mut reversed = updates.clone();
    reversed.reverse();
    let mut s1 = UbtState::new();
    let mut s2 = UbtState::with_capacity(16);
    let r1 = s1.apply_block_updates(7, [0u8; 32], &updates);
    let r2 = s2.apply_block_updates(7, [0u8; 32], &reversed);
    assert_eq!(r1, r2);
    assert_ne!(r1, [0u8; 32]);
}

#[test]
fn root_changes_when_a_value_changes() {
    let mut state = UbtState::new();
    let r1 = state.apply_block_updates(1, [0u8; 32], &sample_updates());
    let key = basic_key(&Address::repeat_byte(0x11));
    let r2 = state.apply_block_updates(2, [0u8; 32], &[UbtUpdate { key, value: Some([9u8; 32]) }]);
    assert_ne!(r1, r2);
    let r3 = state.apply_block_updates(3, [0u8; 32], &[UbtUpdate { key, value: Some([9u8; 32]) }]);
    assert_eq!(r2, r3);
}

#[test]
fn applying_a_block_twice_keeps_the_content() {
    let updates = sample_updates();
    let mut once = UbtState::new();
    let mut twice = UbtState::new();
    let r1 = once.apply_block_updates(5, [0u8; 32], &updates);
    twice.apply_block_updates(5, [0u8; 32], &updates);
    let r2 = twice.apply_block_updates(5, [0u8; 32], &updates);
    assert_eq!(r1, r2);
    assert_eq!(once.stem_count(), twice.stem_count());
    assert_eq!(twice.current_head(), Some(5));
}

#[test]
fn empty_batch_advances_head_only() {
    let mut state = UbtState::new();
    let root = state.apply_block_updates(9, [0u8; 32], &[]);
    assert_eq!(root, [0u8; 32]);
    assert_eq!(state.current_head(), Some(9));
    assert_eq!(state.stem_count(), 0);
}

#[test]
fn stem_count_counts_stems_not_leaves() {
    let mut state = UbtState::new();
    let a = Address::repeat_byte(0x11);
    let updates = vec![
        UbtUpdate { key: basic_key(&a), value: Some([1u8; 32]) },
        UbtUpdate { key: ubt::get_code_hash_key(&a).to_bytes().0, value: Some([2u8; 32]) },
    ];
    state.apply_block_updates(1, [0u8; 32], &updates);
    assert_eq!(state.stem_count(), 1);
}

#[test]
fn rebuilding_flag_is_cleared_by_the_caller() {
    let mut state = UbtState::default();
    assert!(!state.is_rebuilding());
    state.reset();
    assert!(state.is_rebuilding());
    state.apply_block_updates(1, [0u8; 32], &sample_updates());
    assert!(state.is_rebuilding());
    state.set_rebuilding(false);
    assert!(!state.is_rebuilding());
}

#[test]
fn zero_write_to_a_fresh_key_allocates_a_stem() {
    let mut state = UbtState::new();
    let key = basic_key(&Address::repeat_byte(0x33));
    let root = state.apply_block_updates(1, [0u8; 32], &[UbtUpdate { key, value: Some([0u8; 32]) }]);
    assert_eq!(state.stem_count(), 1);
    assert_ne!(root, [0u8; 32]);
}
