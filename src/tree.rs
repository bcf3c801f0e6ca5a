//! The binary commitment tree kept beside canonical block processing.
use vstd::prelude::*;
use ubt::{Blake3Hasher, TreeKey, UnifiedBinaryTree, B256};
use crate::bytes::all_zero;

verus! {

/// Block number type alias for clarity.
pub type BlockNumber = u64;

/// The binary commitment tree of the `ubt` crate, hashed with BLAKE3.
#[verifier::external_body]
pub struct BinaryTree {
    inner: UnifiedBinaryTree<Blake3Hasher>,
}

/// The non-zero leaf values a tree holds, by 32-byte key.
pub uninterp spec fn tree_values(t: BinaryTree) -> Map<Seq<u8>, Seq<u8>>;

/// The 31-byte stems the tree has allocated a stem node for.
pub uninterp spec fn tree_stems(t: BinaryTree) -> Set<Seq<u8>>;

/// The root hash of a tree holding `stems` and the non-zero `values`.
pub uninterp spec fn tree_root_of(stems: Set<Seq<u8>>, values: Map<Seq<u8>, Seq<u8>>) -> Seq<u8>;

/// The stem of a 32-byte tree key: its first 31 bytes.
pub open spec fn stem_of(k: Seq<u8>) -> Seq<u8> {
    k.subrange(0, 31)
}

/// One leaf write: a zero value clears the leaf, any other value sets it.
pub open spec fn write_one(m: Map<Seq<u8>, Seq<u8>>, k: Seq<u8>, v: Seq<u8>) -> Map<Seq<u8>, Seq<u8>> {
    if all_zero(v) {
        m.remove(k)
    } else {
        m.insert(k, v)
    }
}

/// The leaf values after the writes `w`, in order, on top of `m`.
pub open spec fn apply_writes(m: Map<Seq<u8>, Seq<u8>>, w: Seq<([u8; 32], [u8; 32])>) -> Map<Seq<u8>, Seq<u8>>
    decreases w.len(),
{
    if w.len() == 0 {
        m
    } else {
        write_one(apply_writes(m, w.drop_last()), w.last().0@, w.last().1@)
    }
}

/// The stems that the writes `w` touch.
pub open spec fn write_stems(w: Seq<([u8; 32], [u8; 32])>) -> Set<Seq<u8>>
    decreases w.len(),
{
    if w.len() == 0 {
        Set::empty()
    } else {
        write_stems(w.drop_last()).insert(stem_of(w.last().0@))
    }
}

/// The value the last write to `k` in `w` stores, if `w` writes `k`.
pub open spec fn last_write(w: Seq<([u8; 32], [u8; 32])>, k: Seq<u8>) -> Option<Seq<u8>>
    decreases w.len(),
{
    if w.len() == 0 {
        None
    } else if w.last().0@ == k {
        Some(w.last().1@)
    } else {
        last_write(w.drop_last(), k)
    }
}

proof fn lemma_apply_writes_at(m: Map<Seq<u8>, Seq<u8>>, w: Seq<([u8; 32], [u8; 32])>, k: Seq<u8>)
    ensures
        match last_write(w, k) {
            Some(v) => if all_zero(v) {
                !apply_writes(m, w).contains_key(k)
            } else {
                apply_writes(m, w).contains_key(k) && apply_writes(m, w)[k] == v
            },
            None => apply_writes(m, w).contains_key(k) == m.contains_key(k)
                && (m.contains_key(k) ==> apply_writes(m, w)[k] == m[k]),
        },
    decreases w.len(),
{
    if w.len() > 0 {
        lemma_apply_writes_at(m, w.drop_last(), k);
    }
}

/// Applying the same writes a second time changes nothing: the content
/// after two applications equals the content after one.
pub proof fn lemma_apply_writes_idempotent(m: Map<Seq<u8>, Seq<u8>>, w: Seq<([u8; 32], [u8; 32])>)
    ensures
        apply_writes(apply_writes(m, w), w) == apply_writes(m, w),
{
    let once = apply_writes(m, w);
    let twice = apply_writes(once, w);
    assert forall|k: Seq<u8>| #[trigger] twice.contains_key(k) == once.contains_key(k)
        && (once.contains_key(k) ==> twice[k] == once[k]) by {
        lemma_apply_writes_at(m, w, k);
        lemma_apply_writes_at(once, w, k);
    }
    assert(twice =~= once);
}

/// Relies on `UnifiedBinaryTree::new`: a tree with no stems and no values.
#[verifier::external_body]
fn new_tree() -> (t: BinaryTree)
    ensures
        tree_values(t).dom() == Set::<Seq<u8>>::empty(),
        tree_stems(t) == Set::<Seq<u8>>::empty(),
{
    BinaryTree { inner: UnifiedBinaryTree::new() }
}

/// Most stems one can reserve room for: the tree reserves hash tables for
/// this many stems and for twice as many cached nodes, and larger requests
/// overflow the tables' size computation.
pub const MAX_STEM_CAPACITY: usize = 0xFFFF_FFFF;

/// Relies on `UnifiedBinaryTree::with_capacity`: a tree with no stems and
/// no values. The capacity only reserves room (doubled for the node cache).
#[verifier::external_body]
fn new_tree_with_capacity(capacity: usize) -> (t: BinaryTree)
    requires
        capacity <= MAX_STEM_CAPACITY,
    ensures
        tree_values(t).dom() == Set::<Seq<u8>>::empty(),
        tree_stems(t) == Set::<Seq<u8>>::empty(),
{
    BinaryTree { inner: UnifiedBinaryTree::with_capacity(capacity) }
}

/// Relies on `UnifiedBinaryTree::insert_batch`: each entry in turn creates
/// its stem node if needed and sets the leaf (`StemNode::set_value` removes
/// it for a zero value). The stores happen before the root is rebuilt, and
/// a failed rebuild leaves the tree marked dirty, so the next `root_hash`
/// call rebuilds again; its result is therefore not needed here.
#[verifier::external_body]
fn tree_insert_batch(t: &mut BinaryTree, entries: Vec<([u8; 32], [u8; 32])>)
    ensures
        tree_values(*final(t)) == apply_writes(tree_values(*old(t)), entries@),
        tree_stems(*final(t)) == tree_stems(*old(t)).union(write_stems(entries@)),
{
    let _ = t.inner.insert_batch(
        entries.into_iter().map(|(k, v)| (TreeKey::from_bytes(B256::from(k)), B256::from(v))),
    );
}

/// Relies on `UnifiedBinaryTree::root_hash`: the hash is built from the
/// stem nodes alone, and a tree without stems hashes to zero. The rebuild
/// splits the distinct stems of its store bit by bit, and two distinct
/// 31-byte stems part before the 248-bit depth limit, so the depth error
/// does not occur.
#[verifier::external_body]
fn tree_root(t: &mut BinaryTree) -> (r: [u8; 32])
    ensures
        r@ == tree_root_of(tree_stems(*old(t)), tree_values(*old(t))),
        tree_stems(*old(t)).len() == 0 ==> all_zero(r@),
        tree_values(*final(t)) == tree_values(*old(t)),
        tree_stems(*final(t)) == tree_stems(*old(t)),
{
    t.inner.root_hash().expect("distinct stems part within the tree depth").0
}

/// Relies on `UnifiedBinaryTree::stem_count`: the number of stem nodes held.
#[verifier::external_body]
fn tree_stem_count(t: &BinaryTree) -> (r: usize)
    ensures
        r == tree_stems(*t).len(),
{
    t.inner.stem_count()
}

/// A single tree update: a 32-byte key (31-byte stem and 1-byte subindex)
/// and the value to store, or `None`, which is skipped.
#[derive(Debug, Clone, Copy, PartialEq, Eq)]
pub struct UbtUpdate {
    /// The 32-byte tree key (31-byte stem + 1-byte subindex).
    pub key: [u8; 32],
    /// The value to insert, or None.
    pub value: Option<[u8; 32]>,
}

/// The writes carried by `updates`: those with a value, in order.
pub open spec fn present_writes(updates: Seq<UbtUpdate>) -> Seq<([u8; 32], [u8; 32])>
    decreases updates.len(),
{
    if updates.len() == 0 {
        Seq::empty()
    } else {
        let rest = present_writes(updates.drop_last());
        match updates.last().value {
            Some(v) => rest.push((updates.last().key, v)),
            None => rest,
        }
    }
}

/// Tree values after one block's updates.
pub open spec fn block_values(m: Map<Seq<u8>, Seq<u8>>, updates: Seq<UbtUpdate>) -> Map<Seq<u8>, Seq<u8>> {
    apply_writes(m, present_writes(updates))
}

/// Tree stems after one block's updates.
pub open spec fn block_stems(s: Set<Seq<u8>>, updates: Seq<UbtUpdate>) -> Set<Seq<u8>> {
    s.union(write_stems(present_writes(updates)))
}

/// Applying one block's updates twice with the same arguments leaves the
/// same tree content (values and stems) as applying them once.
pub proof fn lemma_block_updates_idempotent(
    values: Map<Seq<u8>, Seq<u8>>,
    stems: Set<Seq<u8>>,
    updates: Seq<UbtUpdate>,
)
    ensures
        block_values(block_values(values, updates), updates) == block_values(values, updates),
        block_stems(block_stems(stems, updates), updates) == block_stems(stems, updates),
{
    lemma_apply_writes_idempotent(values, present_writes(updates));
    assert(block_stems(block_stems(stems, updates), updates) =~= block_stems(stems, updates));
}

/// The root is a function of the content: two states holding the same
/// stems and values have the same root.
pub proof fn lemma_root_follows_content(a: UbtState, b: UbtState)
    requires
        a.stems() == b.stems(),
        a.values() == b.values(),
    ensures
        a.root_spec() == b.root_spec(),
{
}

/// Tree state kept in sync with the canonical chain: the tree, the block it
/// reflects, and whether it is being rebuilt after a reorganisation.
pub struct UbtState {
    /// The tree (in memory).
    tree: BinaryTree,
    /// Current block number the tree is synced to.
    current_head: Option<BlockNumber>,
    /// Whether the tree is being rebuilt (e.g. after a reorg).
    rebuilding: bool,
}

impl UbtState {
    /// The non-zero leaf values, by key.
    pub closed spec fn values(&self) -> Map<Seq<u8>, Seq<u8>> {
        tree_values(self.tree)
    }

    /// The stems holding a stem node.
    pub closed spec fn stems(&self) -> Set<Seq<u8>> {
        tree_stems(self.tree)
    }

    /// The block the tree reflects.
    pub closed spec fn head(&self) -> Option<BlockNumber> {
        self.current_head
    }

    /// The rebuilding flag.
    pub closed spec fn rebuilding_flag(&self) -> bool {
        self.rebuilding
    }

    /// The root hash of the current content.
    pub open spec fn root_spec(&self) -> Seq<u8> {
        tree_root_of(self.stems(), self.values())
    }

    /// True of a state with no content, no head and the given flag.
    pub open spec fn is_fresh(&self, rebuilding: bool) -> bool {
        &&& self.values().dom() == Set::<Seq<u8>>::empty()
        &&& self.stems() == Set::<Seq<u8>>::empty()
        &&& self.head() is None
        &&& self.rebuilding_flag() == rebuilding
    }

    /// Create a new empty state.
    pub fn new() -> (s: Self)
        ensures
            s.is_fresh(false),
    {
        UbtState { tree: new_tree(), current_head: None, rebuilding: false }
    }

    /// Create a new empty state with room reserved for `stem_capacity` stems.
    pub fn with_capacity(stem_capacity: usize) -> (s: Self)
        requires
            stem_capacity <= MAX_STEM_CAPACITY,
        ensures
            s.is_fresh(false),
    {
        UbtState { tree: new_tree_with_capacity(stem_capacity), current_head: None, rebuilding: false }
    }

    /// The root hash of the current content; all zero for an empty tree.
    pub fn root(&mut self) -> (r: [u8; 32])
        ensures
            r@ == old(self).root_spec(),
            old(self).stems().len() == 0 ==> all_zero(r@),
            final(self).values() == old(self).values(),
            final(self).stems() == old(self).stems(),
            final(self).head() == old(self).head(),
            final(self).rebuilding_flag() == old(self).rebuilding_flag(),
    {
        tree_root(&mut self.tree)
    }

    /// The block number the tree is synced to.
    pub fn current_head(&self) -> (r: Option<BlockNumber>)
        ensures
            r == self.head(),
    {
        self.current_head
    }

    /// Whether the tree is being rebuilt.
    pub fn is_rebuilding(&self) -> (r: bool)
        ensures
            r == self.rebuilding_flag(),
    {
        self.rebuilding
    }

    /// Set the rebuilding flag.
    pub fn set_rebuilding(&mut self, rebuilding: bool)
        ensures
            final(self).rebuilding_flag() == rebuilding,
            final(self).values() == old(self).values(),
            final(self).stems() == old(self).stems(),
            final(self).head() == old(self).head(),
    {
        self.rebuilding = rebuilding;
    }

    /// Apply one block's updates as one batch, record the block as the
    /// head (also for an empty batch) and return the new root hash.
    /// Updates without a value are skipped; a later write to a key wins.
    pub fn apply_block_updates(
        &mut self,
        block_number: BlockNumber,
        _block_hash: [u8; 32],
        updates: &[UbtUpdate],
    ) -> (r: [u8; 32])
        ensures
            final(self).values() == block_values(old(self).values(), updates@),
            final(self).stems() == block_stems(old(self).stems(), updates@),
            final(self).head() == Some(block_number),
            final(self).rebuilding_flag() == old(self).rebuilding_flag(),
            r@ == final(self).root_spec(),
    {
        let mut entries: Vec<([u8; 32], [u8; 32])> = Vec::new();
        let mut i: usize = 0;
        while i < updates.len()
            invariant
                0 <= i <= updates@.len(),
                entries@ == present_writes(updates@.subrange(0, i as int)),
            decreases updates@.len() - i,
        {
            let u = updates[i];
            proof {
                assert(updates@.subrange(0, i + 1).drop_last() == updates@.subrange(0, i as int));
            }
            match u.value {
                Some(v) => entries.push((u.key, v)),
                None => {},
            }
            i = i + 1;
        }
        proof {
            assert(updates@.subrange(0, updates@.len() as int) == updates@);
            if entries@.len() == 0 {
                assert(write_stems(entries@) == Set::<Seq<u8>>::empty());
                assert(self.stems().union(Set::<Seq<u8>>::empty()) =~= self.stems());
            }
        }
        if entries.len() > 0 {
            tree_insert_batch(&mut self.tree, entries);
        }
        self.current_head = Some(block_number);
        self.root()
    }

    /// Discard all content and the head, and mark the state as rebuilding.
    /// Clearing the flag again is the caller's task.
    pub fn reset(&mut self)
        ensures
            final(self).is_fresh(true),
    {
        self.tree = new_tree();
        self.current_head = None;
        self.rebuilding = true;
    }

    /// The number of distinct stems in the tree (not the number of leaves).
    pub fn stem_count(&self) -> (r: usize)
        ensures
            r == self.stems().len(),
    {
        tree_stem_count(&self.tree)
    }
}

impl Default for UbtState {
    fn default() -> (s: Self)
        ensures
            s.is_fresh(false),
    {
        Self::new()
    }
}

} // verus!
