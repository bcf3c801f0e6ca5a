//! The canonical order over plain storage and resumable, cursor-based pages.
use vstd::prelude::*;
use vstd::slice::slice_subrange;
use vstd::utf8::encode_utf8;
use core::cmp::Ordering;
use crate::bytes::{
    hex_bytes, hex_codes, hex_lower, is_hex_digit, lemma_hex_codes_decode, lemma_hex_lower_codes, hex_decode, hex_prefix_end, is_hex_text, prefixed_hex, strip_hex_prefixes,
    to_prefixed_hex, word_is_zero, Uint256,
};
use crate::rpc::{bad_params, params_view, ParamValue, RpcErr};

verus! {

/// Largest page a request may ask for.
pub const MAX_DUMP_ENTRIES: usize = 10000;

/// Page size when the request names none.
pub const DEFAULT_DUMP_LIMIT: u64 = 1000;

/// A resume point: the (address, slot) pair of the last entry delivered.
pub type Cursor = ([u8; 20], [u8; 32]);

/// One non-zero plain-storage slot.
#[derive(Debug, Clone, Copy, PartialEq, Eq)]
pub struct DumpStorageEntry {
    pub address: [u8; 20],
    pub slot: [u8; 32],
    pub value: Uint256,
}

/// `a` is smaller than `b` at position `i`, where they first differ.
pub open spec fn lt_at(a: Seq<u8>, b: Seq<u8>, i: int) -> bool {
    &&& 0 <= i < a.len()
    &&& i < b.len()
    &&& a.subrange(0, i) == b.subrange(0, i)
    &&& a[i] < b[i]
}

/// Lexicographic order over byte strings.
pub open spec fn lex_lt(a: Seq<u8>, b: Seq<u8>) -> bool {
    exists|i: int| #[trigger] lt_at(a, b, i)
}

/// No byte string is below itself.
pub proof fn lemma_lex_irreflexive(a: Seq<u8>)
    ensures
        !lex_lt(a, a),
{
}

/// The order is asymmetric.
pub proof fn lemma_lex_asymmetric(a: Seq<u8>, b: Seq<u8>)
    requires
        lex_lt(a, b),
    ensures
        !lex_lt(b, a),
{
    let i = choose|i: int| lt_at(a, b, i);
    if lex_lt(b, a) {
        let j = choose|j: int| lt_at(b, a, j);
        if i < j {
            assert(a.subrange(0, j)[i] == b.subrange(0, j)[i]);
        } else if j < i {
            assert(a.subrange(0, i)[j] == b.subrange(0, i)[j]);
        }
    }
}

/// The order is transitive.
pub proof fn lemma_lex_transitive(a: Seq<u8>, b: Seq<u8>, c: Seq<u8>)
    requires
        lex_lt(a, b),
        lex_lt(b, c),
    ensures
        lex_lt(a, c),
{
    let i = choose|i: int| lt_at(a, b, i);
    let j = choose|j: int| lt_at(b, c, j);
    let k = if i < j { i } else { j };
    assert(a.subrange(0, k) =~= c.subrange(0, k)) by {
        assert forall|t: int| 0 <= t < k implies a[t] == c[t] by {
            assert(a.subrange(0, i)[t] == b.subrange(0, i)[t]);
            assert(b.subrange(0, j)[t] == c.subrange(0, j)[t]);
        }
    }
    if i < j {
        assert(b.subrange(0, j)[i] == c.subrange(0, j)[i]);
    } else if j < i {
        assert(a.subrange(0, i)[j] == b.subrange(0, i)[j]);
    }
    assert(lt_at(a, c, k));
}

/// The 52-byte key of an entry: its address, then its slot.
pub open spec fn entry_key(e: DumpStorageEntry) -> Seq<u8> {
    e.address@ + e.slot@
}

/// The 52-byte key a cursor names.
pub open spec fn cursor_key(c: Cursor) -> Seq<u8> {
    c.0@ + c.1@
}

/// The cursor naming an entry.
pub open spec fn cursor_of(e: DumpStorageEntry) -> Cursor {
    (e.address, e.slot)
}

/// Byte `i` of the key made of `a` and `s`.
fn key_byte(a: &[u8; 20], s: &[u8; 32], i: usize) -> (r: u8)
    requires
        i < 52,
    ensures
        r == (a@ + s@)[i as int],
{
    if i < 20 {
        a[i]
    } else {
        s[i - 20]
    }
}

/// Compares the keys (a1, s1) and (a2, s2) in the canonical order.
pub fn compare_keys(a1: &[u8; 20], s1: &[u8; 32], a2: &[u8; 20], s2: &[u8; 32]) -> (r: Ordering)
    ensures
        (r == Ordering::Less) == lex_lt(a1@ + s1@, a2@ + s2@),
        (r == Ordering::Greater) == lex_lt(a2@ + s2@, a1@ + s1@),
        (r == Ordering::Equal) == (a1@ + s1@ == a2@ + s2@),
{
    let ghost k1 = a1@ + s1@;
    let ghost k2 = a2@ + s2@;
    let mut i: usize = 0;
    while i < 52
        invariant
            0 <= i <= 52,
            k1 == a1@ + s1@,
            k2 == a2@ + s2@,
            k1.len() == 52,
            k2.len() == 52,
            k1.subrange(0, i as int) == k2.subrange(0, i as int),
        decreases 52 - i,
    {
        let x = key_byte(a1, s1, i);
        let y = key_byte(a2, s2, i);
        if x < y {
            assert(lt_at(k1, k2, i as int));
            proof {
                lemma_lex_asymmetric(k1, k2);
            }
            return Ordering::Less;
        }
        if x > y {
            assert(lt_at(k2, k1, i as int));
            proof {
                lemma_lex_asymmetric(k2, k1);
            }
            return Ordering::Greater;
        }
        assert(k1.subrange(0, i + 1) =~= k2.subrange(0, i + 1)) by {
            assert forall|t: int| 0 <= t < i + 1 implies k1[t] == k2[t] by {
                if t < i {
                    assert(k1.subrange(0, i as int)[t] == k2.subrange(0, i as int)[t]);
                }
            }
        }
        i = i + 1;
    }
    assert(k1 =~= k2) by {
        assert(k1 =~= k1.subrange(0, 52));
        assert(k2 =~= k2.subrange(0, 52));
    }
    Ordering::Equal
}

/// Compares two entries by their keys in the canonical order.
pub fn compare_entries(a: &DumpStorageEntry, b: &DumpStorageEntry) -> (r: Ordering)
    ensures
        (r == Ordering::Less) == lex_lt(entry_key(*a), entry_key(*b)),
        (r == Ordering::Greater) == lex_lt(entry_key(*b), entry_key(*a)),
        (r == Ordering::Equal) == (entry_key(*a) == entry_key(*b)),
{
    compare_keys(&a.address, &a.slot, &b.address, &b.slot)
}

/// An entry belongs on a page: its value is non-zero and it lies strictly
/// after the cursor.
pub open spec fn qualifies(c: Option<Cursor>, e: DumpStorageEntry) -> bool {
    &&& !word_is_zero(e.value)
    &&& match c {
        None => true,
        Some(k) => lex_lt(cursor_key(k), entry_key(e)),
    }
}

/// The entries of `src` that belong on a page after `c`, in source order.
pub open spec fn qualifying(src: Seq<DumpStorageEntry>, c: Option<Cursor>) -> Seq<DumpStorageEntry>
    decreases src.len(),
{
    if src.len() == 0 {
        Seq::empty()
    } else if qualifies(c, src.last()) {
        qualifying(src.drop_last(), c).push(src.last())
    } else {
        qualifying(src.drop_last(), c)
    }
}

/// How many entries a page holds when `n` qualify.
pub open spec fn page_size(n: int, limit: int) -> int {
    if n > limit {
        limit
    } else {
        n
    }
}

/// A response page.
#[derive(Debug, Clone)]
pub struct DumpStorageResponse {
    /// Storage entries for this page.
    pub entries: Vec<DumpStorageEntry>,
    /// `0x`-prefixed hex of the last entry's key, when more entries follow.
    pub next_cursor: Option<String>,
    /// Whether more entries follow this page.
    pub has_more: bool,
}

/// `r` is the page of `limit` entries over the qualifying entries `q`.
pub open spec fn is_page_of(r: DumpStorageResponse, q: Seq<DumpStorageEntry>, limit: int) -> bool {
    &&& r.entries@ == q.take(page_size(q.len() as int, limit))
    &&& r.has_more == (q.len() > limit)
    &&& if r.has_more {
        &&& r.next_cursor is Some
        &&& r.next_cursor->Some_0@ == prefixed_hex(entry_key(q[limit - 1]))
    } else {
        r.next_cursor is None
    }
}

/// The 52 key bytes of an entry.
fn entry_key_bytes(e: &DumpStorageEntry) -> (r: [u8; 52])
    ensures
        r@ == entry_key(*e),
{
    let mut buf = [0u8; 52];
    let mut i: usize = 0;
    while i < 52
        invariant
            0 <= i <= 52,
            buf@.len() == 52,
            forall|t: int| 0 <= t < i ==> buf@[t] == entry_key(*e)[t],
        decreases 52 - i,
    {
        buf[i] = key_byte(&e.address, &e.slot, i);
        i = i + 1;
    }
    assert(buf@ =~= entry_key(*e));
    buf
}

/// Collects one page while plain storage is walked, entry by entry.
pub struct PageCollector {
    cursor: Option<Cursor>,
    limit: usize,
    entries: Vec<DumpStorageEntry>,
    seen: Ghost<Seq<DumpStorageEntry>>,
}

impl PageCollector {
    /// The entries fed so far.
    pub closed spec fn seen(&self) -> Seq<DumpStorageEntry> {
        self.seen@
    }

    /// The cursor the page starts after.
    pub closed spec fn cursor_spec(&self) -> Option<Cursor> {
        self.cursor
    }

    /// The page size asked for.
    pub closed spec fn limit_spec(&self) -> int {
        self.limit as int
    }

    /// The collected entries are the first qualifying ones, one more than
    /// the limit at most.
    pub closed spec fn inv(&self) -> bool {
        let q = qualifying(self.seen@, self.cursor);
        &&& 1 <= self.limit <= MAX_DUMP_ENTRIES
        &&& self.entries@ == q.take(page_size(q.len() as int, self.limit + 1))
    }

    /// A collector for the page after `cursor` with at most `limit` entries.
    pub fn new(cursor: Option<Cursor>, limit: usize) -> (r: Self)
        requires
            1 <= limit <= MAX_DUMP_ENTRIES,
        ensures
            r.inv(),
            r.seen() == Seq::<DumpStorageEntry>::empty(),
            r.cursor_spec() == cursor,
            r.limit_spec() == limit,
    {
        let r = PageCollector { cursor, limit, entries: Vec::new(), seen: Ghost(Seq::empty()) };
        assert(r.entries@ =~= qualifying(Seq::empty(), cursor).take(0));
        r
    }

    /// Whether more than a page of entries has qualified already, so that
    /// the rest of the walk cannot change the page.
    pub fn is_full(&self) -> (r: bool)
        requires
            self.inv(),
        ensures
            r == (qualifying(self.seen(), self.cursor_spec()).len() > self.limit_spec()),
    {
        self.entries.len() > self.limit
    }

    /// Feed the next entry of the walk.
    pub fn accept(&mut self, e: DumpStorageEntry)
        requires
            old(self).inv(),
        ensures
            final(self).inv(),
            final(self).seen() == old(self).seen().push(e),
            final(self).cursor_spec() == old(self).cursor_spec(),
            final(self).limit_spec() == old(self).limit_spec(),
    {
        let ghost q0 = qualifying(self.seen@, self.cursor);
        let ghost s1 = self.seen@.push(e);
        proof {
            assert(s1.drop_last() =~= self.seen@);
        }
        if self.entries.len() > self.limit {
            self.seen = Ghost(s1);
            proof {
                let q1 = qualifying(s1, self.cursor);
                assert(q1.take(self.limit + 1) =~= q0.take(self.limit + 1));
            }
            return;
        }
        if e.value.is_zero() {
            self.seen = Ghost(s1);
            return;
        }
        match &self.cursor {
            Some(c) => {
                match compare_keys(&c.0, &c.1, &e.address, &e.slot) {
                    Ordering::Less => {},
                    _ => {
                        self.seen = Ghost(s1);
                        return;
                    },
                }
            },
            None => {},
        }
        self.entries.push(e);
        self.seen = Ghost(s1);
        proof {
            let q1 = qualifying(s1, self.cursor);
            assert(q1 == q0.push(e));
            assert(q0.take(q0.len() as int) =~= q0);
            assert(q1.take(q1.len() as int) =~= q1);
        }
    }

    /// The page: the first `limit` qualifying entries, whether more
    /// qualify, and then the hex text of the last delivered key.
    pub fn finish(self) -> (r: DumpStorageResponse)
        requires
            self.inv(),
        ensures
            is_page_of(r, qualifying(self.seen(), self.cursor_spec()), self.limit_spec()),
    {
        let ghost q = qualifying(self.seen@, self.cursor);
        let mut entries = self.entries;
        let has_more = entries.len() > self.limit;
        if has_more {
            entries.pop();
            assert(entries@ =~= q.take(self.limit as int));
        } else {
            assert(entries@ =~= q.take(q.len() as int));
        }
        let next_cursor = if has_more {
            let last = entries[self.limit - 1];
            let key = entry_key_bytes(&last);
            Some(to_prefixed_hex(key.as_slice()))
        } else {
            None
        };
        DumpStorageResponse { entries, next_cursor, has_more }
    }
}

/// The cursor that text names: `Some(None)` for the start of the keyspace
/// (empty text), `Some(Some(k))` for the 52-byte key `k` spelt in hex after
/// any leading `0x`, and `None` for anything else.
pub open spec fn text_cursor(b: Seq<u8>) -> Option<Option<Seq<u8>>> {
    if b.len() == 0 {
        Some(None)
    } else {
        let h = strip_hex_prefixes(b);
        if is_hex_text(h) && hex_bytes(h).len() == 52 {
            Some(Some(hex_bytes(h)))
        } else {
            None
        }
    }
}

/// The cursor the parameters name, as `text_cursor` does: absent or null
/// is the start of the keyspace; a non-string value names none.
pub open spec fn cursor_param(params: Option<Seq<ParamValue>>) -> Option<Option<Seq<u8>>> {
    match params {
        None => Some(None),
        Some(p) => if p.len() == 0 {
            Some(None)
        } else {
            match p[0] {
                ParamValue::Null => Some(None),
                ParamValue::Text(s) => text_cursor(encode_utf8(s@)),
                _ => None,
            }
        },
    }
}

/// The page size the parameters ask for: 1000 when absent or null, `None`
/// when the value is not a non-negative integer.
pub open spec fn limit_param(params: Option<Seq<ParamValue>>) -> Option<u64> {
    match params {
        None => Some(DEFAULT_DUMP_LIMIT),
        Some(p) => if p.len() < 2 {
            Some(DEFAULT_DUMP_LIMIT)
        } else {
            match p[1] {
                ParamValue::Null => Some(DEFAULT_DUMP_LIMIT),
                ParamValue::Unsigned(n) => Some(n),
                _ => None,
            }
        },
    }
}

/// Splits 52 key bytes into an address and a slot.
fn split_key(d: &Vec<u8>) -> (r: Cursor)
    requires
        d@.len() == 52,
    ensures
        cursor_key(r) == d@,
{
    let mut address = [0u8; 20];
    let mut slot = [0u8; 32];
    let mut i: usize = 0;
    while i < 20
        invariant
            0 <= i <= 20,
            d@.len() == 52,
            address@.len() == 20,
            forall|t: int| 0 <= t < i ==> address@[t] == d@[t],
        decreases 20 - i,
    {
        address[i] = d[i];
        i = i + 1;
    }
    let mut j: usize = 0;
    while j < 32
        invariant
            0 <= j <= 32,
            d@.len() == 52,
            slot@.len() == 32,
            address@.len() == 20,
            forall|t: int| 0 <= t < 20 ==> address@[t] == d@[t],
            forall|t: int| 0 <= t < j ==> slot@[t] == d@[20 + t],
        decreases 32 - j,
    {
        slot[j] = d[20 + j];
        j = j + 1;
    }
    assert(address@ + slot@ =~= d@);
    (address, slot)
}

/// Parses cursor text as `text_cursor` describes.
fn parse_cursor_text(s: &String) -> (r: Option<Option<Cursor>>)
    ensures
        match text_cursor(encode_utf8(s@)) {
            None => r is None,
            Some(None) => r == Some(None::<Cursor>),
            Some(Some(k)) => r is Some && r->Some_0 is Some && cursor_key(r->Some_0->Some_0) == k,
        },
{
    let b = s.as_str().as_bytes();
    if b.len() == 0 {
        return Some(None);
    }
    let start = hex_prefix_end(b);
    let h = slice_subrange(b, start, b.len());
    match hex_decode(h) {
        None => None,
        Some(d) => {
            if d.len() != 52 {
                None
            } else {
                Some(Some(split_key(&d)))
            }
        },
    }
}

/// A request for one page of the non-zero plain-storage entries.
pub struct DumpStorageRequest {
    cursor: Option<Cursor>,
    limit: usize,
}

impl DumpStorageRequest {
    /// The cursor the page starts after.
    pub closed spec fn cursor_spec(&self) -> Option<Cursor> {
        self.cursor
    }

    /// The page size.
    pub closed spec fn limit_spec(&self) -> int {
        self.limit as int
    }

    /// The page size of a request lies between 1 and the maximum.
    #[verifier::type_invariant]
    closed spec fn limit_in_range(&self) -> bool {
        1 <= self.limit <= MAX_DUMP_ENTRIES
    }

    /// A collector for this request's page, to be fed the walk of plain
    /// storage entry by entry.
    pub fn collector(&self) -> (r: PageCollector)
        ensures
            r.inv(),
            r.seen() == Seq::<DumpStorageEntry>::empty(),
            r.cursor_spec() == self.cursor_spec(),
            r.limit_spec() == self.limit_spec(),
            1 <= self.limit_spec() <= MAX_DUMP_ENTRIES,
    {
        proof {
            use_type_invariant(self);
        }
        PageCollector::new(self.cursor, self.limit)
    }

    /// Read the cursor (first parameter) and the page size (second). The
    /// request is accepted exactly when the cursor is absent, null, empty
    /// or 52 bytes of hex, and the page size is absent, null or an integer
    /// from 1 to 10000; anything else is a `BadParams` error.
    pub fn parse(params: &Option<Vec<ParamValue>>) -> (r: Result<Self, RpcErr>)
        ensures
            r is Ok <==> ({
                &&& cursor_param(params_view(*params)) is Some
                &&& limit_param(params_view(*params)) is Some
                &&& 1 <= limit_param(params_view(*params))->Some_0 <= MAX_DUMP_ENTRIES
            }),
            r is Ok ==> r->Ok_0.limit_spec() == limit_param(params_view(*params))->Some_0,
            r is Ok ==> match cursor_param(params_view(*params))->Some_0 {
                None => r->Ok_0.cursor_spec() is None,
                Some(k) => r->Ok_0.cursor_spec() is Some && cursor_key(r->Ok_0.cursor_spec()->Some_0) == k,
            },
            r is Err ==> r->Err_0 is BadParams,
    {
        let cursor: Option<Cursor> = match params {
            None => None,
            Some(p) => {
                if p.len() == 0 {
                    None
                } else {
                    match &p[0] {
                        ParamValue::Null => None,
                        ParamValue::Text(s) => {
                            if s.as_str().is_empty() {
                                proof {
                                    assert(encode_utf8(s@).len() == 0);
                                }
                            }
                            match parse_cursor_text(s) {
                                Some(c) => c,
                                None => {
                                    return Err(bad_params("Cursor must be 52 bytes (20 address + 32 slot) of hex"));
                                },
                            }
                        },
                        _ => {
                            return Err(bad_params("cursor must be a string"));
                        },
                    }
                }
            },
        };
        let limit: u64 = match params {
            None => DEFAULT_DUMP_LIMIT,
            Some(p) => {
                if p.len() < 2 {
                    DEFAULT_DUMP_LIMIT
                } else {
                    match &p[1] {
                        ParamValue::Null => DEFAULT_DUMP_LIMIT,
                        ParamValue::Unsigned(n) => *n,
                        _ => {
                            return Err(bad_params("limit must be a number"));
                        },
                    }
                }
            },
        };
        if limit > MAX_DUMP_ENTRIES as u64 {
            return Err(bad_params("limit exceeds maximum of 10000"));
        }
        if limit == 0 {
            return Err(bad_params("limit must be > 0"));
        }
        Ok(DumpStorageRequest { cursor, limit: limit as usize })
    }

    /// The page over `storage`, walked in the order given: the first
    /// `limit` non-zero entries after the cursor, whether more follow, and
    /// then the cursor to resume from.
    pub fn handle(&self, storage: &[DumpStorageEntry]) -> (r: DumpStorageResponse)
        ensures
            is_page_of(r, qualifying(storage@, self.cursor_spec()), self.limit_spec()),
    {
        let mut collector = self.collector();
        let mut i: usize = 0;
        while i < storage.len()
            invariant
                0 <= i <= storage@.len(),
                collector.inv(),
                collector.seen() == storage@.subrange(0, i as int),
                collector.cursor_spec() == self.cursor_spec(),
                collector.limit_spec() == self.limit_spec(),
            decreases storage@.len() - i,
        {
            if collector.is_full() {
                proof {
                    lemma_full_page_is_settled(storage@, self.cursor, i as int, self.limit as int);
                }
                let r = collector.finish();
                proof {
                    let qa = qualifying(storage@.subrange(0, i as int), self.cursor);
                    let q = qualifying(storage@, self.cursor);
                    let l = self.limit as int;
                    assert(qa.take(l + 1)[l - 1] == q.take(l + 1)[l - 1]);
                    assert(qa.take(l) =~= q.take(l)) by {
                        assert forall|t: int| 0 <= t < l implies qa[t] == q[t] by {
                            assert(qa.take(l + 1)[t] == q.take(l + 1)[t]);
                        }
                    }
                }
                return r;
            }
            collector.accept(storage[i]);
            assert(storage@.subrange(0, i + 1) =~= storage@.subrange(0, i as int).push(storage@[i as int]));
            i = i + 1;
        }
        assert(storage@.subrange(0, i as int) =~= storage@);
        collector.finish()
    }
}

/// The qualifying entries of a prefix of `src` begin the qualifying
/// entries of `src`.
pub proof fn lemma_qualifying_prefix(src: Seq<DumpStorageEntry>, c: Option<Cursor>, i: int)
    requires
        0 <= i <= src.len(),
    ensures
        qualifying(src.subrange(0, i), c).len() <= qualifying(src, c).len(),
        qualifying(src, c).subrange(0, qualifying(src.subrange(0, i), c).len() as int) == qualifying(
            src.subrange(0, i),
            c,
        ),
    decreases src.len() - i,
{
    if i < src.len() {
        lemma_qualifying_prefix(src, c, i + 1);
        let a = src.subrange(0, i);
        let b = src.subrange(0, i + 1);
        assert(b.drop_last() =~= a);
        let qa = qualifying(a, c);
        let qb = qualifying(b, c);
        let q = qualifying(src, c);
        assert(q.subrange(0, qa.len() as int) =~= qb.subrange(0, qa.len() as int));
    } else {
        assert(src.subrange(0, i) =~= src);
    }
}

/// Once more than `limit` entries of a prefix qualify, the page of the
/// prefix is the page of the whole source.
proof fn lemma_full_page_is_settled(src: Seq<DumpStorageEntry>, c: Option<Cursor>, i: int, limit: int)
    requires
        0 <= i <= src.len(),
        0 <= limit,
        qualifying(src.subrange(0, i), c).len() > limit,
    ensures
        qualifying(src, c).len() > limit,
        qualifying(src.subrange(0, i), c).take(limit + 1) == qualifying(src, c).take(limit + 1),
{
    lemma_qualifying_prefix(src, c, i);
    let qa = qualifying(src.subrange(0, i), c);
    let q = qualifying(src, c);
    assert(qa.take(limit + 1) =~= q.take(limit + 1)) by {
        assert forall|t: int| 0 <= t < limit + 1 implies qa[t] == q[t] by {
            assert(q.subrange(0, qa.len() as int)[t] == q[t]);
        }
    }
}

/// Entries in strictly increasing key order (so no key repeats): the
/// order in which plain storage is walked.
pub open spec fn strictly_sorted(s: Seq<DumpStorageEntry>) -> bool {
    forall|i: int, j: int| 0 <= i < j < s.len() ==> lex_lt(entry_key(#[trigger] s[i]), entry_key(#[trigger] s[j]))
}

/// The qualifying entries are those of the source that qualify, and they
/// keep the source's order.
pub proof fn lemma_qualifying_members(src: Seq<DumpStorageEntry>, c: Option<Cursor>)
    ensures
        forall|e: DumpStorageEntry| #[trigger] qualifying(src, c).contains(e) <==> (src.contains(e) && qualifies(c, e)),
        qualifying(src, c).len() <= src.len(),
        strictly_sorted(src) ==> strictly_sorted(qualifying(src, c)),
    decreases src.len(),
{
    if src.len() > 0 {
        let s0 = src.drop_last();
        lemma_qualifying_members(s0, c);
        let q0 = qualifying(s0, c);
        let q = qualifying(src, c);
        assert(q.len() >= q0.len() && forall|t: int| 0 <= t < q0.len() ==> q[t] == q0[t]) by {
            if qualifies(c, src.last()) {
                assert(q == q0.push(src.last()));
            } else {
                assert(q == q0);
            }
        }
        assert forall|e: DumpStorageEntry| #[trigger] q.contains(e) <==> (src.contains(e) && qualifies(c, e)) by {
            if src.contains(e) && qualifies(c, e) {
                let k = choose|k: int| 0 <= k < src.len() && src[k] == e;
                if k < src.len() - 1 {
                    assert(s0[k] == e);
                    assert(s0.contains(e));
                    assert(q0.contains(e));
                    let t = choose|t: int| 0 <= t < q0.len() && q0[t] == e;
                    assert(q[t] == e);
                } else {
                    assert(q[q.len() - 1] == e);
                }
            }
            if q.contains(e) {
                let t = choose|t: int| 0 <= t < q.len() && q[t] == e;
                if t < q0.len() {
                    assert(q0[t] == e);
                    assert(q0.contains(e));
                    let k = choose|k: int| 0 <= k < s0.len() && s0[k] == e;
                    assert(src[k] == e);
                } else {
                    assert(src[src.len() - 1] == e);
                }
            }
        }
        if strictly_sorted(src) {
            assert(strictly_sorted(s0)) by {
                assert forall|i: int, j: int| 0 <= i < j < s0.len() implies lex_lt(entry_key(#[trigger] s0[i]), entry_key(#[trigger] s0[j])) by {
                    assert(s0[i] == src[i] && s0[j] == src[j]);
                }
            }
            if qualifies(c, src.last()) {
                assert forall|i: int, j: int| 0 <= i < j < q.len() implies lex_lt(entry_key(#[trigger] q[i]), entry_key(#[trigger] q[j])) by {
                    if j < q0.len() {
                        assert(q[i] == q0[i] && q[j] == q0[j]);
                    } else {
                        assert(q[i] == q0[i]);
                        assert(q0.contains(q0[i]));
                        let k = choose|k: int| 0 <= k < s0.len() && s0[k] == q0[i];
                        assert(src[k] == q0[i]);
                        assert(q[j] == src[src.len() - 1]);
                    }
                }
            }
        }
    }
}

/// Two strictly sorted sequences with the same members are equal.
pub proof fn lemma_sorted_members_equal(a: Seq<DumpStorageEntry>, b: Seq<DumpStorageEntry>)
    requires
        strictly_sorted(a),
        strictly_sorted(b),
        forall|e: DumpStorageEntry| a.contains(e) <==> b.contains(e),
    ensures
        a == b,
    decreases a.len(),
{
    if a.len() == 0 {
        if b.len() > 0 {
            assert(b.contains(b[0]));
        }
        assert(a =~= b);
    } else {
        assert(a.contains(a[0]));
        assert(b.len() > 0) by {
            assert(b.contains(a[0]));
        }
        assert(b.contains(b[0]));
        let j = choose|j: int| 0 <= j < b.len() && b[j] == a[0];
        let i = choose|i: int| 0 <= i < a.len() && a[i] == b[0];
        if j > 0 {
            assert(lex_lt(entry_key(b[0]), entry_key(b[j])));
            if i == 0 {
                lemma_lex_irreflexive(entry_key(a[0]));
            } else {
                assert(lex_lt(entry_key(a[0]), entry_key(a[i])));
                lemma_lex_asymmetric(entry_key(a[0]), entry_key(a[i]));
            }
        }
        assert(a[0] == b[0]);
        let a1 = a.drop_first();
        let b1 = b.drop_first();
        assert forall|e: DumpStorageEntry| #[trigger] a1.contains(e) <==> (a.contains(e) && e != a[0]) by {
            if a1.contains(e) {
                let t = choose|t: int| 0 <= t < a1.len() && a1[t] == e;
                assert(a[t + 1] == e);
                assert(lex_lt(entry_key(a[0]), entry_key(a[t + 1])));
                lemma_lex_irreflexive(entry_key(e));
            }
            if a.contains(e) && e != a[0] {
                let t = choose|t: int| 0 <= t < a.len() && a[t] == e;
                assert(a1[t - 1] == e);
            }
        }
        assert forall|e: DumpStorageEntry| #[trigger] b1.contains(e) <==> (b.contains(e) && e != b[0]) by {
            if b1.contains(e) {
                let t = choose|t: int| 0 <= t < b1.len() && b1[t] == e;
                assert(b[t + 1] == e);
                assert(lex_lt(entry_key(b[0]), entry_key(b[t + 1])));
                lemma_lex_irreflexive(entry_key(e));
            }
            if b.contains(e) && e != b[0] {
                let t = choose|t: int| 0 <= t < b.len() && b[t] == e;
                assert(b1[t - 1] == e);
            }
        }
        assert(strictly_sorted(a1)) by {
            assert forall|x: int, y: int| 0 <= x < y < a1.len() implies lex_lt(entry_key(#[trigger] a1[x]), entry_key(#[trigger] a1[y])) by {
                assert(a1[x] == a[x + 1] && a1[y] == a[y + 1]);
            }
        }
        assert(strictly_sorted(b1)) by {
            assert forall|x: int, y: int| 0 <= x < y < b1.len() implies lex_lt(entry_key(#[trigger] b1[x]), entry_key(#[trigger] b1[y])) by {
                assert(b1[x] == b[x + 1] && b1[y] == b[y + 1]);
            }
        }
        lemma_sorted_members_equal(a1, b1);
        assert(a =~= seq![a[0]] + a1);
        assert(b =~= seq![b[0]] + b1);
    }
}

/// Resuming from a page's cursor continues right after the page: over a
/// source walked in key order, the entries that qualify after the returned
/// cursor are exactly those that followed the page, and each lies strictly
/// after the last delivered entry.
pub proof fn lemma_cursor_resumes_after_page(src: Seq<DumpStorageEntry>, c: Option<Cursor>, limit: int)
    requires
        strictly_sorted(src),
        1 <= limit,
        qualifying(src, c).len() > limit,
    ensures
        qualifying(src, Some(cursor_of(qualifying(src, c)[limit - 1]))) == qualifying(src, c).skip(limit),
        forall|t: int| 0 <= t < qualifying(src, Some(cursor_of(qualifying(src, c)[limit - 1]))).len() ==>
            lex_lt(
                entry_key(qualifying(src, c)[limit - 1]),
                entry_key(#[trigger] qualifying(src, Some(cursor_of(qualifying(src, c)[limit - 1])))[t]),
            ),
{
    let q = qualifying(src, c);
    let last = q[limit - 1];
    let nc = Some(cursor_of(last));
    let r = qualifying(src, nc);
    let rest = q.skip(limit);
    lemma_qualifying_members(src, c);
    lemma_qualifying_members(src, nc);
    assert(cursor_key(cursor_of(last)) == entry_key(last));
    assert(q.contains(last));
    assert forall|e: DumpStorageEntry| r.contains(e) <==> rest.contains(e) by {
        if rest.contains(e) {
            let t = choose|t: int| 0 <= t < rest.len() && rest[t] == e;
            assert(q[limit + t] == e);
            assert(q.contains(e));
            assert(lex_lt(entry_key(q[limit - 1]), entry_key(q[limit + t])));
            assert(r.contains(e));
        }
        if r.contains(e) {
            assert(src.contains(e) && qualifies(nc, e));
            match c {
                Some(k) => {
                    lemma_lex_transitive(cursor_key(k), entry_key(last), entry_key(e));
                },
                None => {},
            }
            assert(qualifies(c, e));
            assert(q.contains(e));
            let t = choose|t: int| 0 <= t < q.len() && q[t] == e;
            if t < limit - 1 {
                assert(lex_lt(entry_key(q[t]), entry_key(q[limit - 1])));
                lemma_lex_asymmetric(entry_key(q[t]), entry_key(q[limit - 1]));
            } else if t == limit - 1 {
                lemma_lex_irreflexive(entry_key(e));
            } else {
                assert(rest[t - limit] == e);
            }
        }
    }
    assert(strictly_sorted(rest)) by {
        assert forall|x: int, y: int| 0 <= x < y < rest.len() implies lex_lt(entry_key(#[trigger] rest[x]), entry_key(#[trigger] rest[y])) by {
            assert(rest[x] == q[x + limit] && rest[y] == q[y + limit]);
        }
    }
    lemma_sorted_members_equal(r, rest);
    assert forall|t: int| 0 <= t < r.len() implies lex_lt(entry_key(last), entry_key(#[trigger] r[t])) by {
        assert(r.contains(r[t]));
    }
}

/// The concatenation of the pages of `limit` entries from cursor `c` on,
/// each page resuming from the previous page's cursor while more follow
/// (at most `fuel` further pages).
pub open spec fn chained_pages(src: Seq<DumpStorageEntry>, c: Option<Cursor>, limit: int, fuel: nat) -> Seq<DumpStorageEntry>
    decreases fuel,
{
    let q = qualifying(src, c);
    if fuel == 0 || limit <= 0 || q.len() <= limit {
        q.take(page_size(q.len() as int, limit))
    } else {
        q.take(limit) + chained_pages(src, Some(cursor_of(q[limit - 1])), limit, (fuel - 1) as nat)
    }
}

proof fn lemma_chained_pages_cover(src: Seq<DumpStorageEntry>, c: Option<Cursor>, limit: int, fuel: nat)
    requires
        strictly_sorted(src),
        1 <= limit,
        qualifying(src, c).len() <= (fuel + 1) * limit,
    ensures
        chained_pages(src, c, limit, fuel) == qualifying(src, c),
    decreases fuel,
{
    let q = qualifying(src, c);
    if q.len() <= limit {
        assert(q.take(q.len() as int) =~= q);
    } else {
        assert(fuel > 0) by (nonlinear_arith)
            requires q.len() > limit, q.len() <= (fuel + 1) * limit, limit >= 1;
        lemma_cursor_resumes_after_page(src, c, limit);
        let f1 = (fuel - 1) as nat;
        assert(q.len() - limit <= (f1 + 1) * limit) by (nonlinear_arith)
            requires q.len() <= (fuel + 1) * limit, f1 == fuel - 1;
        lemma_chained_pages_cover(src, Some(cursor_of(q[limit - 1])), limit, f1);
        assert(q.take(limit) + q.skip(limit) =~= q);
    }
}

/// Walking pages of any allowed size from the start of the keyspace, each
/// resuming from the previous page's cursor until no more follow, yields
/// every non-zero entry of a source walked in key order exactly once, in
/// key order, and nothing else.
pub proof fn lemma_pages_reconstruct_all(src: Seq<DumpStorageEntry>, limit: int)
    requires
        strictly_sorted(src),
        1 <= limit <= MAX_DUMP_ENTRIES,
    ensures
        chained_pages(src, None, limit, src.len()) == qualifying(src, None),
        strictly_sorted(qualifying(src, None)),
        forall|e: DumpStorageEntry| #[trigger] qualifying(src, None).contains(e) <==> (src.contains(e) && !word_is_zero(e.value)),
{
    lemma_qualifying_members(src, None);
    let n = src.len();
    assert(n <= (n + 1) * limit) by (nonlinear_arith)
        requires limit >= 1;
    lemma_chained_pages_cover(src, None, limit, n);
}

/// The cursor text a page hands out, fed back as the cursor, names the
/// key it was made from.
pub proof fn lemma_cursor_text_round_trip(k: Seq<u8>)
    requires
        k.len() == 52,
    ensures
        text_cursor(encode_utf8(prefixed_hex(k))) == Some(Some(k)),
{
    let t = prefixed_hex(k);
    lemma_hex_lower_codes(k);
    lemma_hex_codes_decode(k);
    let codes = seq![48u8, 120u8] + hex_codes(k);
    assert(vstd::utf8::is_ascii_chars(t)) by {
        assert forall|i: int| 0 <= i < t.len() implies '\0' <= #[trigger] t[i] <= '\u{7f}' by {
            if i >= 2 {
                assert(t[i] == hex_lower(k)[i - 2]);
            }
        }
    }
    vstd::utf8::is_ascii_chars_encode_utf8(t);
    let b = encode_utf8(t);
    assert(b =~= codes) by {
        assert forall|i: int| 0 <= i < b.len() implies b[i] == codes[i] by {
            assert(t[i] as u8 == b[i]);
            if i >= 2 {
                assert(t[i] == hex_lower(k)[i - 2]);
            }
        }
    }
    let h = hex_codes(k);
    assert(codes.subrange(2, codes.len() as int) =~= h);
    assert(is_hex_digit(h[1]));
    assert(strip_hex_prefixes(h) == h);
}

/// Two cursors naming the same key select the same entries.
pub proof fn lemma_qualifying_by_key(src: Seq<DumpStorageEntry>, c1: Cursor, c2: Cursor)
    requires
        cursor_key(c1) == cursor_key(c2),
    ensures
        qualifying(src, Some(c1)) == qualifying(src, Some(c2)),
    decreases src.len(),
{
    if src.len() > 0 {
        lemma_qualifying_by_key(src.drop_last(), c1, c2);
    }
}

/// Feeding a page's `next_cursor` back in starts strictly after the last
/// entry delivered: over a source walked in key order, a cursor parsed
/// from that text selects exactly the entries that followed the page, each
/// with a key above the last delivered one.
pub proof fn lemma_next_cursor_resumes(
    src: Seq<DumpStorageEntry>,
    c: Option<Cursor>,
    limit: int,
    r: DumpStorageResponse,
    parsed: Cursor,
)
    requires
        strictly_sorted(src),
        1 <= limit,
        is_page_of(r, qualifying(src, c), limit),
        r.has_more,
        text_cursor(encode_utf8(r.next_cursor->Some_0@)) == Some(Some(cursor_key(parsed))),
    ensures
        qualifying(src, Some(parsed)) == qualifying(src, c).skip(limit),
        forall|t: int| 0 <= t < qualifying(src, Some(parsed)).len() ==>
            lex_lt(entry_key(r.entries@.last()), entry_key(#[trigger] qualifying(src, Some(parsed))[t])),
{
    let q = qualifying(src, c);
    let last = q[limit - 1];
    lemma_cursor_text_round_trip(entry_key(last));
    assert(cursor_key(parsed) == entry_key(last));
    assert(cursor_key(cursor_of(last)) == entry_key(last));
    lemma_qualifying_by_key(src, parsed, cursor_of(last));
    lemma_cursor_resumes_after_page(src, c, limit);
    assert(r.entries@.last() == last);
}

} // verus!
