//! Derivation of tree leaf writes from account-state diffs.
use vstd::prelude::*;
use ubt::{
    chunkify_code, get_basic_data_key, get_code_chunk_key, get_code_hash_key, get_storage_slot_key,
    Address as TreeAddress, BasicDataLeaf,
};
use crate::bytes::{be_bytes, word_be, word_is_zero, word_value, Uint256};
use crate::tree::UbtUpdate;

verus! {

/// The key of an account's basic-data leaf.
pub uninterp spec fn basic_data_key_of(address: Seq<u8>) -> Seq<u8>;

/// The key of an account's code-hash leaf.
pub uninterp spec fn code_hash_key_of(address: Seq<u8>) -> Seq<u8>;

/// The key of an account's storage slot.
pub uninterp spec fn storage_slot_key_of(address: Seq<u8>, slot: Seq<u8>) -> Seq<u8>;

/// The key of an account's code chunk with the given index.
pub uninterp spec fn code_chunk_key_of(address: Seq<u8>, index: u64) -> Seq<u8>;

/// The encoded 32-byte chunks of a contract's code.
pub uninterp spec fn code_chunks_of(code: Seq<u8>) -> Seq<Seq<u8>>;

/// Relies on `ubt::get_basic_data_key`: a key whose subindex is 0.
#[verifier::external_body]
fn basic_data_key(address: &[u8; 20]) -> (r: [u8; 32])
    ensures
        r@ == basic_data_key_of(address@),
        r@[31] == 0,
{
    get_basic_data_key(&TreeAddress::from(*address)).to_bytes().0
}

/// Relies on `ubt::get_code_hash_key`: a key whose subindex is 1.
#[verifier::external_body]
fn code_hash_key(address: &[u8; 20]) -> (r: [u8; 32])
    ensures
        r@ == code_hash_key_of(address@),
        r@[31] == 1,
{
    get_code_hash_key(&TreeAddress::from(*address)).to_bytes().0
}

/// Relies on `ubt::get_storage_slot_key`.
#[verifier::external_body]
fn storage_slot_key(address: &[u8; 20], slot: &[u8; 32]) -> (r: [u8; 32])
    ensures
        r@ == storage_slot_key_of(address@, slot@),
{
    get_storage_slot_key(&TreeAddress::from(*address), slot).to_bytes().0
}

/// Relies on `ubt::get_code_chunk_key`, which adds the code offset 128 to
/// the index (the index stays below the bound so that the sum fits).
#[verifier::external_body]
fn code_chunk_key(address: &[u8; 20], index: u64) -> (r: [u8; 32])
    requires
        index <= u64::MAX - 128,
    ensures
        r@ == code_chunk_key_of(address@, index),
{
    get_code_chunk_key(&TreeAddress::from(*address), index).to_bytes().0
}

/// Relies on `ubt::chunkify_code` and `CodeChunk::encode`: one chunk per 31
/// bytes of code (rounded up); byte 0 of a chunk is its push-data marker and
/// bytes 1 to 31 are the chunk's slice of the code, padded with zeros.
#[verifier::external_body]
fn chunkify(code: &[u8]) -> (r: Vec<[u8; 32]>)
    ensures
        r@.len() == (code@.len() + 30) / 31,
        r@.len() == code_chunks_of(code@).len(),
        forall|i: int| 0 <= i < r@.len() ==> #[trigger] r@[i]@ == code_chunks_of(code@)[i],
        forall|i: int, j: int|
            0 <= i < r@.len() && 0 <= j < 31 ==> #[trigger] r@[i]@[1 + j] == if 31 * i + j < code@.len() {
                code@[31 * i + j]
            } else {
                0u8
            },
{
    chunkify_code(code).iter().map(|c| c.encode().0).collect()
}

/// The basic-data leaf: version 0, four reserved zero bytes, the low three
/// bytes of the code size, the nonce and the balance, all big-endian.
pub open spec fn basic_data_bytes(nonce: u64, balance: u128, code_size: u32) -> Seq<u8> {
    seq![0u8, 0u8, 0u8, 0u8, 0u8] + be_bytes(code_size as nat, 3) + be_bytes(nonce as nat, 8) + be_bytes(
        balance as nat,
        16,
    )
}

/// Relies on `BasicDataLeaf::new` and `BasicDataLeaf::encode`.
#[verifier::external_body]
fn basic_data_leaf(nonce: u64, balance: u128, code_size: u32) -> (r: [u8; 32])
    ensures
        r@ == basic_data_bytes(nonce, balance, code_size),
{
    BasicDataLeaf::new(nonce, balance, code_size).encode().0
}

/// Account fields carried by a diff.
#[derive(Debug, Clone, Copy, PartialEq, Eq)]
pub struct AccountInfo {
    pub nonce: u64,
    pub balance: Uint256,
    pub code_hash: [u8; 32],
}

/// The change to one account made by a block.
#[derive(Debug, Clone)]
pub struct AccountUpdate {
    pub address: [u8; 20],
    pub removed: bool,
    pub info: Option<AccountInfo>,
    /// The account's code, when it changed.
    pub code: Option<Vec<u8>>,
    /// Changed storage slots and their new values.
    pub added_storage: Vec<([u8; 32], Uint256)>,
    pub removed_storage: bool,
}

/// The all-zero 32-byte value.
pub open spec fn zero32() -> Seq<u8> {
    Seq::new(32, |i: int| 0u8)
}

/// A balance clamped to 128 bits.
pub open spec fn saturated_balance(b: Uint256) -> u128 {
    if word_value(b) > u128::MAX {
        u128::MAX
    } else {
        word_value(b) as u128
    }
}

/// The code size recorded in the basic-data leaf (truncated to 32 bits).
pub open spec fn code_size_of(u: AccountUpdate) -> u32 {
    match u.code {
        Some(c) => c@.len() as u32,
        None => 0,
    }
}

/// The leaf value of a storage slot: big-endian, or zero for zero.
pub open spec fn slot_value_bytes(v: Uint256) -> Seq<u8> {
    if word_is_zero(v) {
        zero32()
    } else {
        word_be(v)
    }
}

/// Writes for a removed account: its basic-data and code-hash leaves zeroed.
pub open spec fn removed_writes(a: Seq<u8>) -> Seq<(Seq<u8>, Seq<u8>)> {
    seq![(basic_data_key_of(a), zero32()), (code_hash_key_of(a), zero32())]
}

/// Writes for the account fields, if present.
pub open spec fn info_writes(u: AccountUpdate) -> Seq<(Seq<u8>, Seq<u8>)> {
    match u.info {
        Some(info) => seq![
            (basic_data_key_of(u.address@), basic_data_bytes(info.nonce, saturated_balance(info.balance), code_size_of(u))),
            (code_hash_key_of(u.address@), info.code_hash@),
        ],
        None => Seq::empty(),
    }
}

/// Writes for the code chunks, in chunk order.
pub open spec fn code_writes(u: AccountUpdate) -> Seq<(Seq<u8>, Seq<u8>)> {
    match u.code {
        Some(c) => Seq::new(
            code_chunks_of(c@).len(),
            |i: int| (code_chunk_key_of(u.address@, i as u64), code_chunks_of(c@)[i]),
        ),
        None => Seq::empty(),
    }
}

/// Writes for the changed storage slots, in the order given.
pub open spec fn storage_writes(u: AccountUpdate) -> Seq<(Seq<u8>, Seq<u8>)> {
    Seq::new(
        u.added_storage@.len(),
        |i: int| (storage_slot_key_of(u.address@, u.added_storage@[i].0@), slot_value_bytes(u.added_storage@[i].1)),
    )
}

/// The writes that one account diff yields.
pub open spec fn account_writes(u: AccountUpdate) -> Seq<(Seq<u8>, Seq<u8>)> {
    if u.removed {
        removed_writes(u.address@)
    } else {
        info_writes(u) + code_writes(u) + storage_writes(u)
    }
}

/// The writes that a list of account diffs yields, diff after diff.
pub open spec fn all_account_writes(us: Seq<AccountUpdate>) -> Seq<(Seq<u8>, Seq<u8>)>
    decreases us.len(),
{
    if us.len() == 0 {
        Seq::empty()
    } else {
        all_account_writes(us.drop_last()) + account_writes(us.last())
    }
}

/// The key and value of an update (an empty value for `None`).
pub open spec fn update_view(u: UbtUpdate) -> (Seq<u8>, Seq<u8>) {
    (
        u.key@,
        match u.value {
            Some(v) => v@,
            None => Seq::empty(),
        },
    )
}

/// The keys and values of a list of updates.
pub open spec fn updates_view(s: Seq<UbtUpdate>) -> Seq<(Seq<u8>, Seq<u8>)> {
    s.map_values(|u: UbtUpdate| update_view(u))
}

/// True when every update carries a value.
pub open spec fn all_valued(s: Seq<UbtUpdate>) -> bool {
    forall|i: int| 0 <= i < s.len() ==> (#[trigger] s[i]).value is Some
}

fn push_write(out: &mut Vec<UbtUpdate>, key: [u8; 32], value: [u8; 32])
    ensures
        updates_view(final(out)@) == updates_view(old(out)@).push((key@, value@)),
        all_valued(old(out)@) ==> all_valued(final(out)@),
{
    out.push(UbtUpdate { key, value: Some(value) });
    assert(updates_view(out@) =~= updates_view(old(out)@).push((key@, value@)));
}

/// The balance clamped to 128 bits.
fn saturate_balance(b: &Uint256) -> (r: u128)
    ensures
        r == saturated_balance(*b),
{
    let l0 = b.limbs[0] as u128;
    let l1 = b.limbs[1] as u128;
    let ghost l2 = b.limbs[2] as nat;
    let ghost l3 = b.limbs[3] as nat;
    if b.limbs[2] != 0 || b.limbs[3] != 0 {
        proof {
            assert(l2 * 0x1_0000_0000_0000_0000_0000_0000_0000_0000 + l3 * 0x1_0000_0000_0000_0000_0000_0000_0000_0000_0000_0000_0000_0000
                >= 0x1_0000_0000_0000_0000_0000_0000_0000_0000) by (nonlinear_arith)
                requires l2 != 0 || l3 != 0;
        }
        u128::MAX
    } else {
        proof {
            assert(l0 + l1 * 0x1_0000_0000_0000_0000 <= u128::MAX) by (nonlinear_arith)
                requires l0 < 0x1_0000_0000_0000_0000, l1 < 0x1_0000_0000_0000_0000;
        }
        l1 * 0x1_0000_0000_0000_0000 + l0
    }
}

fn zero_word() -> (r: [u8; 32])
    ensures
        r@ == zero32(),
{
    let r = [0u8; 32];
    assert(r@ =~= zero32());
    r
}

fn push_account_writes(out: &mut Vec<UbtUpdate>, u: &AccountUpdate)
    requires
        all_valued(old(out)@),
    ensures
        updates_view(final(out)@) == updates_view(old(out)@) + account_writes(*u),
        all_valued(final(out)@),
{
    let ghost start = updates_view(out@);
    if u.removed {
        push_write(out, basic_data_key(&u.address), zero_word());
        push_write(out, code_hash_key(&u.address), zero_word());
        assert(updates_view(out@) =~= start + account_writes(*u));
        return;
    }
    match &u.info {
        Some(info) => {
            let code_size: u32 = match &u.code {
                Some(c) => #[verifier::truncate] (c.len() as u32),
                None => 0,
            };
            let leaf = basic_data_leaf(info.nonce, saturate_balance(&info.balance), code_size);
            push_write(out, basic_data_key(&u.address), leaf);
            push_write(out, code_hash_key(&u.address), info.code_hash);
        },
        None => {},
    }
    assert(updates_view(out@) =~= start + info_writes(*u));
    let ghost after_info = updates_view(out@);
    match &u.code {
        Some(c) => {
            let chunks = chunkify(c.as_slice());
            let code_len: usize = c.len();
            let mut i: usize = 0;
            while i < chunks.len()
                invariant
                    0 <= i <= chunks@.len(),
                    chunks@.len() == code_chunks_of(c@).len(),
                    chunks@.len() == (c@.len() + 30) / 31,
                    forall|k: int| 0 <= k < chunks@.len() ==> #[trigger] chunks@[k]@ == code_chunks_of(c@)[k],
                    updates_view(out@) == after_info + code_writes(*u).subrange(0, i as int),
                    all_valued(out@),
                    u.code == Some(*c),
                    code_len == c@.len(),
                decreases chunks@.len() - i,
            {
                proof {
                    let n = code_len as int;
                    assert((n + 30) / 31 <= u64::MAX - 128) by (nonlinear_arith)
                        requires n <= 0xFFFF_FFFF_FFFF_FFFF;
                }
                let key = code_chunk_key(&u.address, i as u64);
                push_write(out, key, chunks[i]);
                assert(code_writes(*u).subrange(0, i + 1) =~= code_writes(*u).subrange(0, i as int).push(
                    code_writes(*u)[i as int],
                ));
                assert(updates_view(out@) =~= after_info + code_writes(*u).subrange(0, i + 1));
                i = i + 1;
            }
            assert(code_writes(*u).subrange(0, i as int) =~= code_writes(*u));
        },
        None => {},
    }
    assert(updates_view(out@) =~= start + info_writes(*u) + code_writes(*u));
    let ghost after_code = updates_view(out@);
    let mut j: usize = 0;
    while j < u.added_storage.len()
        invariant
            0 <= j <= u.added_storage@.len(),
            updates_view(out@) == after_code + storage_writes(*u).subrange(0, j as int),
            all_valued(out@),
        decreases u.added_storage@.len() - j,
    {
        let (slot, value) = u.added_storage[j];
        let key = storage_slot_key(&u.address, &slot);
        let bytes = if value.is_zero() {
            zero_word()
        } else {
            value.to_big_endian()
        };
        push_write(out, key, bytes);
        assert(storage_writes(*u).subrange(0, j + 1) =~= storage_writes(*u).subrange(0, j as int).push(
            storage_writes(*u)[j as int],
        ));
        assert(updates_view(out@) =~= after_code + storage_writes(*u).subrange(0, j + 1));
        j = j + 1;
    }
    assert(storage_writes(*u).subrange(0, j as int) =~= storage_writes(*u));
    assert(updates_view(out@) =~= start + account_writes(*u));
}

/// Convert account diffs into tree updates, diff after diff: a removed
/// account zeroes its basic-data and code-hash leaves; otherwise the
/// account fields (balance clamped to 128 bits), the code chunks and the
/// changed storage slots are written. Every update carries a value.
pub fn account_updates_to_ubt(updates: &[AccountUpdate]) -> (r: Vec<UbtUpdate>)
    ensures
        updates_view(r@) == all_account_writes(updates@),
        all_valued(r@),
{
    let mut out: Vec<UbtUpdate> = Vec::new();
    let mut i: usize = 0;
    assert(updates_view(out@) =~= all_account_writes(updates@.subrange(0, 0)));
    while i < updates.len()
        invariant
            0 <= i <= updates@.len(),
            updates_view(out@) == all_account_writes(updates@.subrange(0, i as int)),
            all_valued(out@),
        decreases updates@.len() - i,
    {
        push_account_writes(&mut out, &updates[i]);
        assert(updates@.subrange(0, i + 1).drop_last() =~= updates@.subrange(0, i as int));
        i = i + 1;
    }
    assert(updates@.subrange(0, i as int) =~= updates@);
    out
}

} // verus!
