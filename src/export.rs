//! The binary export of plain storage: a fixed 64-byte header and 84-byte
//! records in the canonical key order, and the legacy headerless format.
use vstd::prelude::*;
use crate::bytes::{
    le_bytes, le_value, lemma_le_value_of_bytes, pow256, u16_from_le, u16_le, u64_from_le, u64_le,
    word_be, word_is_zero, Uint256,
};
use crate::pager::{
    compare_entries, entry_key, lemma_lex_irreflexive, lex_lt, qualifying, strictly_sorted, DumpStorageEntry,
};

verus! {

broadcast use vstd::seq_lib::group_to_multiset_ensures;

/// File magic of the plain format.
pub const STATE_MAGIC: [u8; 4] = [0x50, 0x49, 0x52, 0x32];

/// Format version.
pub const STATE_VERSION: u16 = 1;

/// Header length in bytes.
pub const STATE_HEADER_SIZE: usize = 64;

/// Record length of the plain format: address, slot and value.
pub const STATE_ENTRY_SIZE_PLAIN: usize = 84;

/// Record length of the hashed format: hashed address, hashed slot, value.
pub const STATE_ENTRY_SIZE_HASHED: usize = 96;

/// Root hash of an empty trie: an account with this storage root has no
/// storage.
pub const EMPTY_TRIE_HASH: [u8; 32] = [
    0x56, 0xe8, 0x1f, 0x17, 0x1b, 0xcc, 0x55, 0xa6, 0xff, 0x83, 0x45, 0xe6, 0x92, 0xc0, 0xf8, 0x6e,
    0x5b, 0x48, 0xe0, 0x1b, 0x99, 0x6c, 0xad, 0xc0, 0x01, 0x62, 0x2f, 0xb5, 0xe3, 0x63, 0xb4, 0x21,
];

/// The 64-byte preamble of an export file.
#[derive(Clone, Copy, Debug, PartialEq, Eq)]
pub struct StateHeader {
    pub magic: [u8; 4],
    pub version: u16,
    pub entry_size: u16,
    pub entry_count: u64,
    pub block_number: u64,
    pub chain_id: u64,
    pub block_hash: [u8; 32],
}

/// The header's bytes: the magic, then the numbers little-endian, then the
/// block hash.
pub open spec fn header_bytes(h: StateHeader) -> Seq<u8> {
    h.magic@ + le_bytes(h.version as nat, 2) + le_bytes(h.entry_size as nat, 2) + le_bytes(
        h.entry_count as nat,
        8,
    ) + le_bytes(h.block_number as nat, 8) + le_bytes(h.chain_id as nat, 8) + h.block_hash@
}

/// `h` is the header that the 64 bytes `b` spell.
pub open spec fn decodes_to(b: Seq<u8>, h: StateHeader) -> bool {
    &&& b.len() == 64
    &&& h.magic@ == b.subrange(0, 4)
    &&& h.version as nat == le_value(b.subrange(4, 6))
    &&& h.entry_size as nat == le_value(b.subrange(6, 8))
    &&& h.entry_count as nat == le_value(b.subrange(8, 16))
    &&& h.block_number as nat == le_value(b.subrange(16, 24))
    &&& h.chain_id as nat == le_value(b.subrange(24, 32))
    &&& h.block_hash@ == b.subrange(32, 64)
}

/// Copies `N` bytes of `b` from position `at`.
fn bytes_at<const N: usize>(b: &[u8; 64], at: usize) -> (r: [u8; N])
    requires
        at + N <= 64,
    ensures
        r@ == b@.subrange(at as int, at + N),
{
    let mut r = [0u8; N];
    let mut i: usize = 0;
    while i < N
        invariant
            0 <= i <= N,
            at + N <= 64,
            r@.len() == N,
            b@.len() == 64,
            forall|t: int| 0 <= t < i ==> r@[t] == b@[at + t],
        decreases N - i,
    {
        r[i] = b[at + i];
        i = i + 1;
    }
    assert(r@ =~= b@.subrange(at as int, at + N));
    r
}

/// Appends `src` to `out`.
fn append_bytes(out: &mut Vec<u8>, src: &[u8])
    ensures
        final(out)@ == old(out)@ + src@,
{
    let mut i: usize = 0;
    while i < src.len()
        invariant
            0 <= i <= src@.len(),
            out@ == old(out)@ + src@.subrange(0, i as int),
        decreases src@.len() - i,
    {
        out.push(src[i]);
        assert(src@.subrange(0, i + 1) =~= src@.subrange(0, i as int).push(src@[i as int]));
        i = i + 1;
    }
    assert(src@.subrange(0, i as int) =~= src@);
}

impl StateHeader {
    /// A header of the current format for `entry_count` records of
    /// `entry_size` bytes.
    pub fn new(entry_size: u16, entry_count: u64, block_number: u64, chain_id: u64, block_hash: [u8; 32]) -> (r: Self)
        ensures
            r == (StateHeader {
                magic: STATE_MAGIC,
                version: STATE_VERSION,
                entry_size,
                entry_count,
                block_number,
                chain_id,
                block_hash,
            }),
    {
        StateHeader {
            magic: STATE_MAGIC,
            version: STATE_VERSION,
            entry_size,
            entry_count,
            block_number,
            chain_id,
            block_hash,
        }
    }

    /// The header's 64 bytes.
    pub fn as_bytes(self) -> (r: [u8; 64])
        ensures
            r@ == header_bytes(self),
    {
        let mut v: Vec<u8> = Vec::new();
        append_bytes(&mut v, self.magic.as_slice());
        append_bytes(&mut v, u16_le(self.version).as_slice());
        append_bytes(&mut v, u16_le(self.entry_size).as_slice());
        append_bytes(&mut v, u64_le(self.entry_count).as_slice());
        append_bytes(&mut v, u64_le(self.block_number).as_slice());
        append_bytes(&mut v, u64_le(self.chain_id).as_slice());
        append_bytes(&mut v, self.block_hash.as_slice());
        proof {
            lemma_header_bytes_len(self);
        }
        let mut r = [0u8; 64];
        let mut i: usize = 0;
        while i < 64
            invariant
                0 <= i <= 64,
                v@ == header_bytes(self),
                v@.len() == 64,
                r@.len() == 64,
                forall|t: int| 0 <= t < i ==> r@[t] == v@[t],
            decreases 64 - i,
        {
            r[i] = v[i];
            i = i + 1;
        }
        assert(r@ =~= v@);
        r
    }

    /// The header that 64 bytes spell, or `None` when they do not begin
    /// with the magic.
    pub fn from_bytes(b: &[u8; 64]) -> (r: Option<StateHeader>)
        ensures
            r is Some <==> b@.subrange(0, 4) == STATE_MAGIC@,
            r is Some ==> decodes_to(b@, r->Some_0),
    {
        let magic: [u8; 4] = bytes_at(b, 0);
        if magic[0] != STATE_MAGIC[0] || magic[1] != STATE_MAGIC[1] || magic[2] != STATE_MAGIC[2]
            || magic[3] != STATE_MAGIC[3] {
            return None;
        }
        assert(magic@ =~= STATE_MAGIC@);
        let h = StateHeader {
            magic,
            version: u16_from_le(bytes_at(b, 4)),
            entry_size: u16_from_le(bytes_at(b, 6)),
            entry_count: u64_from_le(bytes_at(b, 8)),
            block_number: u64_from_le(bytes_at(b, 16)),
            chain_id: u64_from_le(bytes_at(b, 24)),
            block_hash: bytes_at(b, 32),
        };
        Some(h)
    }
}

proof fn lemma_le_bytes_len(x: nat, n: nat)
    ensures
        le_bytes(x, n).len() == n,
    decreases n,
{
    if n > 0 {
        lemma_le_bytes_len(x / 256, (n - 1) as nat);
    }
}

proof fn lemma_header_bytes_len(h: StateHeader)
    ensures
        header_bytes(h).len() == 64,
{
    lemma_le_bytes_len(h.version as nat, 2);
    lemma_le_bytes_len(h.entry_size as nat, 2);
    lemma_le_bytes_len(h.entry_count as nat, 8);
    lemma_le_bytes_len(h.block_number as nat, 8);
    lemma_le_bytes_len(h.chain_id as nat, 8);
}

/// Encoding a header and decoding the bytes gives the same fields back,
/// and a header made by `new` carries the magic, so it always decodes.
pub proof fn lemma_header_round_trip(h: StateHeader, d: StateHeader)
    requires
        decodes_to(header_bytes(h), d),
    ensures
        d == h,
{
    let b = header_bytes(h);
    lemma_header_bytes_len(h);
    lemma_le_bytes_len(h.version as nat, 2);
    lemma_le_bytes_len(h.entry_size as nat, 2);
    lemma_le_bytes_len(h.entry_count as nat, 8);
    lemma_le_bytes_len(h.block_number as nat, 8);
    lemma_le_bytes_len(h.chain_id as nat, 8);
    reveal_with_fuel(pow256, 9);
    assert(pow256(2) == 0x1_0000);
    assert(pow256(8) == 0x1_0000_0000_0000_0000);
    lemma_le_value_of_bytes(h.version as nat, 2);
    lemma_le_value_of_bytes(h.entry_size as nat, 2);
    lemma_le_value_of_bytes(h.entry_count as nat, 8);
    lemma_le_value_of_bytes(h.block_number as nat, 8);
    lemma_le_value_of_bytes(h.chain_id as nat, 8);
    assert(b.subrange(0, 4) =~= h.magic@);
    assert(b.subrange(4, 6) =~= le_bytes(h.version as nat, 2));
    assert(b.subrange(6, 8) =~= le_bytes(h.entry_size as nat, 2));
    assert(b.subrange(8, 16) =~= le_bytes(h.entry_count as nat, 8));
    assert(b.subrange(16, 24) =~= le_bytes(h.block_number as nat, 8));
    assert(b.subrange(24, 32) =~= le_bytes(h.chain_id as nat, 8));
    assert(b.subrange(32, 64) =~= h.block_hash@);
    assert(d.magic =~= h.magic);
    assert(d.block_hash =~= h.block_hash);
}

/// One plain record: address, slot and big-endian value.
pub open spec fn record_bytes(e: DumpStorageEntry) -> Seq<u8> {
    e.address@ + e.slot@ + word_be(e.value)
}

/// The records of `s`, one after another.
pub open spec fn records_bytes(s: Seq<DumpStorageEntry>) -> Seq<u8>
    decreases s.len(),
{
    if s.len() == 0 {
        Seq::empty()
    } else {
        records_bytes(s.drop_last()) + record_bytes(s.last())
    }
}

/// No entry of `s` comes before one with a smaller key.
pub open spec fn sorted_by_key(s: Seq<DumpStorageEntry>) -> bool {
    forall|i: int, j: int| 0 <= i < j < s.len() ==> !lex_lt(entry_key(#[trigger] s[j]), entry_key(#[trigger] s[i]))
}

/// `s` is an order the plain export may write for `storage`: its non-zero
/// entries, rearranged into key order.
pub open spec fn is_export_order(storage: Seq<DumpStorageEntry>, s: Seq<DumpStorageEntry>) -> bool {
    &&& s.to_multiset() == qualifying(storage, None).to_multiset()
    &&& sorted_by_key(s)
}

/// The header of a plain export of `count` records.
pub open spec fn plain_header(count: u64, block_number: u64, chain_id: u64, block_hash: [u8; 32]) -> StateHeader {
    StateHeader {
        magic: STATE_MAGIC,
        version: STATE_VERSION,
        entry_size: STATE_ENTRY_SIZE_PLAIN as u16,
        entry_count: count,
        block_number,
        chain_id,
        block_hash,
    }
}

/// Relies on `slice::sort_unstable_by` with the canonical key comparison,
/// which is a total order: the result rearranges the input so that no
/// entry precedes one with a smaller key.
#[verifier::external_body]
fn sort_by_key(v: &mut Vec<DumpStorageEntry>)
    ensures
        final(v)@.to_multiset() == old(v)@.to_multiset(),
        sorted_by_key(final(v)@),
{
    v.sort_unstable_by(|a, b| compare_entries(a, b))
}

fn append_record(out: &mut Vec<u8>, e: &DumpStorageEntry)
    ensures
        final(out)@ == old(out)@ + record_bytes(*e),
{
    append_bytes(out, e.address.as_slice());
    append_bytes(out, e.slot.as_slice());
    append_bytes(out, e.value.to_big_endian().as_slice());
    assert(out@ =~= old(out)@ + record_bytes(*e));
}

/// Write the plain export of `storage` to `out`: the header, then one
/// record per non-zero entry in key order. Returns the number of records.
pub fn export_plain(
    storage: &[DumpStorageEntry],
    block_number: u64,
    chain_id: u64,
    block_hash: [u8; 32],
    out: &mut Vec<u8>,
) -> (count: u64)
    ensures
        exists|s: Seq<DumpStorageEntry>| #![trigger records_bytes(s)]
            {
                &&& is_export_order(storage@, s)
                &&& count == s.len()
                &&& final(out)@ == old(out)@ + header_bytes(plain_header(count, block_number, chain_id, block_hash))
                    + records_bytes(s)
            },
{
    let mut entries: Vec<DumpStorageEntry> = Vec::new();
    let mut i: usize = 0;
    while i < storage.len()
        invariant
            0 <= i <= storage@.len(),
            entries@ == qualifying(storage@.subrange(0, i as int), None),
        decreases storage@.len() - i,
    {
        let e = storage[i];
        assert(storage@.subrange(0, i + 1).drop_last() =~= storage@.subrange(0, i as int));
        if !e.value.is_zero() {
            entries.push(e);
        }
        i = i + 1;
    }
    assert(storage@.subrange(0, i as int) =~= storage@);
    sort_by_key(&mut entries);
    let count = entries.len() as u64;
    let header = StateHeader::new(STATE_ENTRY_SIZE_PLAIN as u16, count, block_number, chain_id, block_hash);
    append_bytes(out, header.as_bytes().as_slice());
    let ghost start = out@;
    let mut j: usize = 0;
    while j < entries.len()
        invariant
            0 <= j <= entries@.len(),
            out@ == start + records_bytes(entries@.subrange(0, j as int)),
        decreases entries@.len() - j,
    {
        append_record(out, &entries[j]);
        assert(entries@.subrange(0, j + 1).drop_last() =~= entries@.subrange(0, j as int));
        j = j + 1;
    }
    assert(entries@.subrange(0, j as int) =~= entries@);
    assert(out@ =~= old(out)@ + header_bytes(plain_header(count, block_number, chain_id, block_hash)) + records_bytes(entries@));
    count
}

/// A sequence in key order with the same entries as a strictly sorted
/// one is that sequence.
pub proof fn lemma_sorted_arrangement_unique(a: Seq<DumpStorageEntry>, b: Seq<DumpStorageEntry>)
    requires
        strictly_sorted(a),
        sorted_by_key(b),
        a.to_multiset() == b.to_multiset(),
    ensures
        a == b,
    decreases a.len(),
{
    assert(a.len() == b.len()) by {
        assert(a.len() == a.to_multiset().len());
        assert(b.len() == b.to_multiset().len());
    }
    if a.len() > 0 {
        assert(a.to_multiset().count(a[0]) > 0) by {
            assert(a.contains(a[0]));
        }
        assert(b.contains(a[0]));
        assert(b.to_multiset().count(b[0]) > 0) by {
            assert(b.contains(b[0]));
        }
        assert(a.contains(b[0]));
        let j = choose|j: int| 0 <= j < b.len() && b[j] == a[0];
        let i = choose|i: int| 0 <= i < a.len() && a[i] == b[0];
        if i > 0 {
            assert(lex_lt(entry_key(a[0]), entry_key(a[i])));
            if j == 0 {
                lemma_lex_irreflexive(entry_key(a[0]));
            } else {
                assert(!lex_lt(entry_key(b[j]), entry_key(b[0])));
            }
        }
        assert(a[0] == b[0]);
        let a1 = a.drop_first();
        let b1 = b.drop_first();
        assert(a.remove(0) =~= a1);
        assert(b.remove(0) =~= b1);
        assert(a1.to_multiset() =~= a.to_multiset().remove(a[0]));
        assert(b1.to_multiset() =~= b.to_multiset().remove(b[0]));
        assert(strictly_sorted(a1)) by {
            assert forall|x: int, y: int| 0 <= x < y < a1.len() implies lex_lt(entry_key(#[trigger] a1[x]), entry_key(#[trigger] a1[y])) by {
                assert(a1[x] == a[x + 1] && a1[y] == a[y + 1]);
            }
        }
        assert(sorted_by_key(b1)) by {
            assert forall|x: int, y: int| 0 <= x < y < b1.len() implies !lex_lt(entry_key(#[trigger] b1[y]), entry_key(#[trigger] b1[x])) by {
                assert(b1[x] == b[x + 1] && b1[y] == b[y + 1]);
            }
        }
        lemma_sorted_arrangement_unique(a1, b1);
        assert(a =~= seq![a[0]] + a1);
        assert(b =~= seq![b[0]] + b1);
    } else {
        assert(a =~= b);
    }
}

/// The plain export and the pages agree: over a source walked in key
/// order, the records an export writes are, in order, the entries of all
/// pages of any allowed size chained from the start of the keyspace.
pub proof fn lemma_export_matches_pages(storage: Seq<DumpStorageEntry>, s: Seq<DumpStorageEntry>, limit: int)
    requires
        strictly_sorted(storage),
        is_export_order(storage, s),
        1 <= limit <= crate::pager::MAX_DUMP_ENTRIES,
    ensures
        s == crate::pager::chained_pages(storage, None, limit, storage.len()),
{
    crate::pager::lemma_pages_reconstruct_all(storage, limit);
    lemma_sorted_arrangement_unique(qualifying(storage, None), s);
}

/// One storage slot of the primary trie, under its hashed key.
#[derive(Clone, Copy, Debug, PartialEq, Eq)]
pub struct HashedSlot {
    pub hashed_slot: [u8; 32],
    pub value: Uint256,
}

/// One account of the primary trie, under its hashed address, with its
/// storage slots when its storage trie could be opened.
#[derive(Clone, Debug)]
pub struct HashedAccount {
    pub hashed_address: [u8; 32],
    pub storage_root: [u8; 32],
    pub storage: Option<Vec<HashedSlot>>,
}

/// The 96-byte records of an account's non-zero slots.
pub open spec fn slot_records(hashed_address: Seq<u8>, slots: Seq<HashedSlot>) -> Seq<u8>
    decreases slots.len(),
{
    if slots.len() == 0 {
        Seq::empty()
    } else if word_is_zero(slots.last().value) {
        slot_records(hashed_address, slots.drop_last())
    } else {
        slot_records(hashed_address, slots.drop_last()) + hashed_address + slots.last().hashed_slot@ + word_be(
            slots.last().value,
        )
    }
}

/// The records of an account: none when its storage root is the empty
/// trie's or its storage is absent.
pub open spec fn account_records(a: HashedAccount) -> Seq<u8> {
    if a.storage_root == EMPTY_TRIE_HASH {
        Seq::empty()
    } else {
        match a.storage {
            None => Seq::empty(),
            Some(v) => slot_records(a.hashed_address@, v@),
        }
    }
}

/// The records of all accounts, in the order given.
pub open spec fn hashed_records(accounts: Seq<HashedAccount>) -> Seq<u8>
    decreases accounts.len(),
{
    if accounts.len() == 0 {
        Seq::empty()
    } else {
        hashed_records(accounts.drop_last()) + account_records(accounts.last())
    }
}

fn arrays_equal(a: &[u8; 32], b: &[u8; 32]) -> (r: bool)
    ensures
        r == (*a == *b),
{
    let mut i: usize = 0;
    while i < 32
        invariant
            0 <= i <= 32,
            forall|t: int| 0 <= t < i ==> a@[t] == b@[t],
        decreases 32 - i,
    {
        if a[i] != b[i] {
            return false;
        }
        i = i + 1;
    }
    assert(a@ =~= b@);
    assert(*a =~= *b);
    true
}

/// Write the legacy hashed export of `accounts` to `out`: no header, and
/// for each account with storage, one 96-byte record (hashed address,
/// hashed slot, big-endian value) per non-zero slot. Returns the number of
/// records.
pub fn export_hashed(accounts: &[HashedAccount], out: &mut Vec<u8>) -> (count: u64)
    ensures
        final(out)@ == old(out)@ + hashed_records(accounts@),
        count as int * 96 == hashed_records(accounts@).len(),
{
    let ghost start = out@;
    let mut count: u64 = 0;
    let mut i: usize = 0;
    while i < accounts.len()
        invariant
            0 <= i <= accounts@.len(),
            out@ == start + hashed_records(accounts@.subrange(0, i as int)),
            count as int * 96 == hashed_records(accounts@.subrange(0, i as int)).len(),
            start == old(out)@,
        decreases accounts@.len() - i,
    {
        let a = &accounts[i];
        assert(accounts@.subrange(0, i + 1).drop_last() =~= accounts@.subrange(0, i as int));
        let ghost before = out@;
        if !arrays_equal(&a.storage_root, &EMPTY_TRIE_HASH) {
            match &a.storage {
                None => {},
                Some(slots) => {
                    let mut j: usize = 0;
                    while j < slots.len()
                        invariant
                            0 <= j <= slots@.len(),
                            out@ == before + slot_records(a.hashed_address@, slots@.subrange(0, j as int)),
                            count as int * 96 == (out@.len() - start.len()),
                            before.len() >= start.len(),
                        decreases slots@.len() - j,
                    {
                        let slot = slots[j];
                        assert(slots@.subrange(0, j + 1).drop_last() =~= slots@.subrange(0, j as int));
                        if !slot.value.is_zero() {
                            append_bytes(out, a.hashed_address.as_slice());
                            append_bytes(out, slot.hashed_slot.as_slice());
                            append_bytes(out, slot.value.to_big_endian().as_slice());
                            let len = out.len();
                            proof {
                                crate::bytes::lemma_be_bytes_len(slot.value.limbs[0] as nat, 8);
                                crate::bytes::lemma_be_bytes_len(slot.value.limbs[1] as nat, 8);
                                crate::bytes::lemma_be_bytes_len(slot.value.limbs[2] as nat, 8);
                                crate::bytes::lemma_be_bytes_len(slot.value.limbs[3] as nat, 8);
                                assert(count as int * 96 + 96 <= len);
                                assert(len <= usize::MAX);
                            }
                            count = count + 1;
                        }
                        j = j + 1;
                        assert(out@ =~= before + slot_records(a.hashed_address@, slots@.subrange(0, j as int)));
                    }
                    assert(slots@.subrange(0, j as int) =~= slots@);
                },
            }
        }
        assert(out@ =~= start + hashed_records(accounts@.subrange(0, i + 1)));
        i = i + 1;
    }
    assert(accounts@.subrange(0, i as int) =~= accounts@);
    count
}

} // verus!
