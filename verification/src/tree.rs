//! Skov, the block tree: the arena of linked blocks with their statuses, the
//! two waiting queues (orphans awaiting their parent; blocks awaiting their
//! declared last-finalized block), and the ordered finalization list whose
//! highest-index entry is the current last finalized block.

use vstd::prelude::*;
use crate::block::{Block, BlockV, PendingBlock, PendingBlockV, BLOCK_HASH_LEN};
use crate::finalization::{FinalizationProof, FinalizationRecord, FinalizationRecordV};
use crate::wire::{bytes_eq, copy_bytes};
use crate::ext::current_time_millis;

verus! {

/// The lifecycle state of a linked block.
#[derive(Clone, Copy, Debug, PartialEq, Eq, Structural)]
pub enum BlockStatus {
    Alive,
    Dead,
    Finalized,
}

/// Why Skov could not, or would not, act.
#[derive(Clone, Copy, Debug, PartialEq, Eq, Structural)]
pub enum SkovError {
    /// The block's parent is not in the tree yet; the block was queued.
    AwaitingParent,
    /// The block declares a last-finalized block other than the current one;
    /// the block was queued.
    AwaitingLastFinalized,
    /// A genesis block is already in place.
    AlreadyInitialized,
}

/// The transaction pool the tree holds a reference to; opaque payloads.
pub struct TransactionTable {
    pub transactions: Vec<Vec<u8>>,
}

impl TransactionTable {
    /// An empty table.
    pub fn new() -> (r: TransactionTable)
        ensures
            r.transactions@.len() == 0,
    {
        TransactionTable { transactions: Vec::new() }
    }
}

/// A block linked into the tree: the block, its content hash, its parent and
/// last-finalized blocks by arena index, its height and arrival time.
pub struct BlockPtr {
    pub hash: Vec<u8>,
    pub block: Block,
    pub parent_idx: usize,
    pub last_finalized_idx: usize,
    pub height: u64,
    pub received_at: i64,
}

/// Mathematical model of a linked block.
pub struct BlockPtrV {
    pub hash: Seq<u8>,
    pub block: BlockV,
    pub parent_idx: usize,
    pub last_finalized_idx: usize,
    pub height: u64,
    pub received_at: i64,
}

impl View for BlockPtr {
    type V = BlockPtrV;

    open spec fn view(&self) -> BlockPtrV {
        BlockPtrV {
            hash: self.hash@,
            block: self.block@,
            parent_idx: self.parent_idx,
            last_finalized_idx: self.last_finalized_idx,
            height: self.height,
            received_at: self.received_at,
        }
    }
}

impl FinalizationRecord {
    /// The synthetic record that finalizes the genesis block: index zero, an
    /// empty proof, no delay.
    pub fn genesis(genesis_block_ptr: &BlockPtr) -> (r: FinalizationRecord)
        ensures
            r@.index == 0,
            r@.block_pointer == genesis_block_ptr@.hash,
            r@.proof.len() == 0,
            r@.delay == 0,
    {
        FinalizationRecord {
            index: 0,
            block_pointer: copy_bytes(&genesis_block_ptr.hash),
            proof: FinalizationProof(Vec::new()),
            delay: 0,
        }
    }
}

/// The block tree state.
pub struct SkovData {
    /// The arena of linked blocks, in insertion order; the genesis block is
    /// first.
    pub block_tree: Vec<BlockPtr>,
    /// Each linked block's status, by the same index.
    pub block_statuses: Vec<BlockStatus>,
    /// Blocks waiting for their parent, keyed by the parent's hash.
    pub orphan_blocks: Vec<(Vec<u8>, Vec<PendingBlock>)>,
    /// Blocks waiting for their declared last-finalized block, keyed by that
    /// block's hash.
    pub awaiting_last_finalized: Vec<(Vec<u8>, Vec<PendingBlock>)>,
    /// Finalization records, each with the arena index of the block it
    /// finalizes.
    pub finalization_list: Vec<(FinalizationRecord, usize)>,
    /// The position in `finalization_list` of the highest-index record.
    pub last_fin_pos: usize,
    /// The arena index of the genesis block; `None` only before genesis.
    pub genesis_idx: Option<usize>,
    /// The transaction pool.
    pub transaction_table: TransactionTable,
}

impl SkovData {
    /// How many blocks the tree holds.
    pub open spec fn tree_len(self) -> nat {
        self.block_tree@.len()
    }

    /// Whether a block with this hash is in the tree.
    pub open spec fn tree_contains(self, h: Seq<u8>) -> bool {
        exists|i: int| 0 <= i < self.tree_len() && (#[trigger] self.block_tree@[i])@.hash == h
    }

    /// The arena index of the block with this hash.
    pub open spec fn tree_index_of(self, h: Seq<u8>) -> int {
        choose|i: int| 0 <= i < self.tree_len() && (#[trigger] self.block_tree@[i])@.hash == h
    }

    /// The status of the block with this hash.
    pub open spec fn status_of(self, h: Seq<u8>) -> BlockStatus {
        self.block_statuses@[self.tree_index_of(h)]
    }

    /// Whether the genesis block is in place.
    pub open spec fn has_genesis(self) -> bool {
        self.tree_len() > 0
    }

    /// The highest-index finalization record.
    pub open spec fn spec_last_finalized_record(self) -> FinalizationRecordV {
        self.finalization_list@[self.last_fin_pos as int].0@
    }

    /// The arena index of the last finalized block.
    pub open spec fn last_finalized_idx(self) -> int {
        self.finalization_list@[self.last_fin_pos as int].1 as int
    }

    /// The last finalized block.
    pub open spec fn spec_last_finalized(self) -> BlockPtrV {
        self.block_tree@[self.last_finalized_idx()]@
    }

    /// The hash of the last finalized block.
    pub open spec fn last_finalized_hash(self) -> Seq<u8> {
        self.spec_last_finalized().hash
    }

    /// Well-formedness of one waiting queue: keys are unique, no list is
    /// empty, and every queued block names the key it waits on through
    /// `key_of`.
    pub open spec fn queue_wf(
        entries: Seq<(Vec<u8>, Vec<PendingBlock>)>,
        key_of: spec_fn(PendingBlockV) -> Seq<u8>,
    ) -> bool {
        (forall|i: int, j: int|
            0 <= i < j < entries.len() ==> (#[trigger] entries[i]).0@ != (
            #[trigger] entries[j]).0@) && (forall|i: int|
            0 <= i < entries.len() ==> (#[trigger] entries[i]).1@.len() > 0) && (forall|
            i: int,
            j: int,
        |
            0 <= i < entries.len() && 0 <= j < (#[trigger] entries[i]).1@.len() ==> (
            #[trigger] entries[i].1@[j])@.wf() && key_of(entries[i].1@[j]@) == entries[i].0@)
    }

    /// The structural part of the tree's invariant: the arena is acyclic
    /// with heights one above the parent, hashes are unique, the
    /// finalization list names finalized blocks with unique indices and its
    /// maximum is tracked, and the waiting queues are keyed consistently.
    pub open spec fn wf_core(self) -> bool {
        let t = self.block_tree@;
        let st = self.block_statuses@;
        let f = self.finalization_list@;
        &&& st.len() == t.len()
        &&& forall|i: int, j: int| 0 <= i < j < t.len() ==> (#[trigger] t[i])@.hash != (#[trigger] t[j])@.hash
        &&& forall|i: int| 0 <= i < t.len() ==> (#[trigger] t[i])@.hash.len() == BLOCK_HASH_LEN
        &&& forall|i: int|
            0 < i < t.len() ==> (#[trigger] t[i])@.parent_idx < i && t[i]@.last_finalized_idx < i
                && t[i]@.height == t[t[i]@.parent_idx as int]@.height + 1
        &&& forall|i: int| 0 <= i < t.len() ==> (#[trigger] t[i])@.height <= i
        &&& (t.len() > 0 ==> t[0]@.parent_idx == 0 && t[0]@.height == 0
            && t[0]@.last_finalized_idx == 0)
        &&& (t.len() == 0 <==> self.genesis_idx is None)
        &&& (self.genesis_idx matches Some(g) ==> g == 0)
        &&& (t.len() == 0 <==> f.len() == 0)
        &&& forall|k: int|
            0 <= k < f.len() ==> (#[trigger] f[k]).1 < t.len() && st[f[k].1 as int]
                == BlockStatus::Finalized && f[k].0@.block_pointer == t[f[k].1 as int]@.hash
        &&& forall|k: int, l: int| 0 <= k < l < f.len() ==> (#[trigger] f[k]).0@.index != (#[trigger] f[l]).0@.index
        &&& (f.len() > 0 ==> self.last_fin_pos < f.len() && forall|k: int|
            0 <= k < f.len() ==> (#[trigger] f[k]).0@.index
                <= f[self.last_fin_pos as int].0@.index)
        &&& Self::queue_wf(self.orphan_blocks@, |pb: PendingBlockV| pb.block.pointer)
        &&& Self::queue_wf(
            self.awaiting_last_finalized@,
            |pb: PendingBlockV| pb.block.last_finalized,
        )
    }

    /// No block still waits on a dependency that is already satisfied: no
    /// orphan queue key is in the tree, and no block waits on the block that
    /// is already the last finalized one.
    pub open spec fn queues_normalized(self) -> bool {
        &&& forall|i: int|
            0 <= i < self.orphan_blocks@.len() ==> !self.tree_contains(
                (#[trigger] self.orphan_blocks@[i]).0@,
            )
        &&& (self.has_genesis() ==> forall|i: int|
            0 <= i < self.awaiting_last_finalized@.len() ==> (
            #[trigger] self.awaiting_last_finalized@[i]).0@ != self.last_finalized_hash())
    }

    /// The tree's invariant.
    pub open spec fn wf(self) -> bool {
        self.wf_core() && self.queues_normalized()
    }

    /// An empty tree, before genesis.
    pub fn new() -> (r: SkovData)
        ensures
            r.wf(),
            !r.has_genesis(),
            r.orphan_blocks@.len() == 0,
            r.awaiting_last_finalized@.len() == 0,
            r.finalization_list@.len() == 0,
    {
        SkovData {
            block_tree: Vec::new(),
            block_statuses: Vec::new(),
            orphan_blocks: Vec::new(),
            awaiting_last_finalized: Vec::new(),
            finalization_list: Vec::new(),
            last_fin_pos: 0,
            genesis_idx: None,
            transaction_table: TransactionTable::new(),
        }
    }

    /// The arena index of the block with this hash, if it is in the tree.
    pub fn find_block_index(&self, hash: &Vec<u8>) -> (r: Option<usize>)
        requires
            self.wf_core(),
        ensures
            match r {
                Some(i) => i < self.tree_len() && self.block_tree@[i as int]@.hash == hash@
                    && self.tree_contains(hash@) && self.tree_index_of(hash@) == i as int,
                None => !self.tree_contains(hash@),
            },
    {
        let mut i: usize = 0;
        let n = self.block_tree.len();
        while i < n
            invariant
                self.wf_core(),
                i <= n,
                n == self.tree_len(),
                forall|j: int| 0 <= j < i ==> (#[trigger] self.block_tree@[j])@.hash != hash@,
            decreases n - i,
        {
            if bytes_eq(&self.block_tree[i].hash, hash) {
                proof {
                    let found = i as int;
                    assert(self.tree_contains(hash@));
                    let w = self.tree_index_of(hash@);
                    if w != found {
                        assert(self.block_tree@[w]@.hash == self.block_tree@[found]@.hash);
                        assert(false);
                    }
                }
                return Some(i);
            }
            i = i + 1;
        }
        proof {
            if self.tree_contains(hash@) {
                let w = self.tree_index_of(hash@);
                assert(self.block_tree@[w]@.hash == hash@);
                assert(false);
            }
        }
        None
    }

    /// Installs the genesis block: it enters the tree finalized, under the
    /// synthetic finalization record at index zero.
    pub fn add_genesis(&mut self, genesis_block_ptr: BlockPtr) -> (r: Result<(), SkovError>)
        requires
            old(self).wf(),
            old(self).orphan_blocks@.len() == 0,
            old(self).awaiting_last_finalized@.len() == 0,
            genesis_block_ptr@.hash.len() == BLOCK_HASH_LEN,
            genesis_block_ptr@.parent_idx == 0,
            genesis_block_ptr@.last_finalized_idx == 0,
            genesis_block_ptr@.height == 0,
        ensures
            final(self).wf(),
            old(self).has_genesis() ==> r == Err::<(), SkovError>(SkovError::AlreadyInitialized)
                && *final(self) == *old(self),
            !old(self).has_genesis() ==> {
                &&& r == Ok::<(), SkovError>(())
                &&& final(self).has_genesis()
                &&& final(self).tree_len() == 1
                &&& final(self).block_tree@[0]@ == genesis_block_ptr@
                &&& final(self).block_statuses@[0] == BlockStatus::Finalized
                &&& final(self).finalization_list@.len() == 1
                &&& final(self).spec_last_finalized_record().index == 0
                &&& final(self).spec_last_finalized_record().block_pointer
                    == genesis_block_ptr@.hash
                &&& final(self).spec_last_finalized_record().proof.len() == 0
                &&& final(self).last_finalized_hash() == genesis_block_ptr@.hash
                &&& final(self).orphan_blocks@ == old(self).orphan_blocks@
                &&& final(self).awaiting_last_finalized@ == old(self).awaiting_last_finalized@
            },
    {
        if self.block_tree.len() > 0 {
            return Err(SkovError::AlreadyInitialized);
        }
        let genesis_finalization_record = FinalizationRecord::genesis(&genesis_block_ptr);
        self.block_tree.push(genesis_block_ptr);
        self.block_statuses.push(BlockStatus::Finalized);
        self.finalization_list.push((genesis_finalization_record, 0));
        self.last_fin_pos = 0;
        self.genesis_idx = Some(0);
        proof {
            assert(self.wf());
        }
        Ok(())
    }

    /// The last finalized block: the one the highest-index record names.
    pub fn get_last_finalized(&self) -> (r: &BlockPtr)
        requires
            self.wf(),
            self.has_genesis(),
        ensures
            r@ == self.spec_last_finalized(),
    {
        let pos = self.finalization_list[self.last_fin_pos].1;
        &self.block_tree[pos]
    }

    /// The slot of the last finalized block.
    pub fn get_last_finalized_slot(&self) -> (r: u64)
        requires
            self.wf(),
            self.has_genesis(),
        ensures
            r == self.spec_last_finalized().block.slot,
    {
        self.get_last_finalized().block.slot()
    }

    /// The height of the last finalized block.
    pub fn get_last_finalized_height(&self) -> (r: u64)
        requires
            self.wf(),
            self.has_genesis(),
        ensures
            r == self.spec_last_finalized().height,
    {
        self.get_last_finalized().height
    }

    /// The index the next finalization record must carry: one past the
    /// highest index recorded so far.
    pub fn get_next_finalization_index(&self) -> (r: u64)
        requires
            self.wf(),
            self.has_genesis(),
            self.spec_last_finalized_record().index < u64::MAX,
        ensures
            r == self.spec_last_finalized_record().index + 1,
    {
        self.finalization_list[self.last_fin_pos].0.index + 1
    }

    /// The block with this hash, if it is in the tree.
    pub fn get_block_by_hash(&self, hash: &Vec<u8>) -> (r: Option<&BlockPtr>)
        requires
            self.wf(),
        ensures
            match r {
                Some(ptr) => self.tree_contains(hash@) && ptr@ == self.block_tree@[
                    self.tree_index_of(hash@)
                ]@ && ptr@.hash == hash@,
                None => !self.tree_contains(hash@),
            },
    {
        match self.find_block_index(hash) {
            Some(i) => Some(&self.block_tree[i]),
            None => None,
        }
    }

    /// The status of the block with this hash, if it is in the tree.
    pub fn get_block_status(&self, hash: &Vec<u8>) -> (r: Option<BlockStatus>)
        requires
            self.wf(),
        ensures
            match r {
                Some(st) => self.tree_contains(hash@) && st == self.status_of(hash@),
                None => !self.tree_contains(hash@),
            },
    {
        match self.find_block_index(hash) {
            Some(i) => Some(self.block_statuses[i]),
            None => None,
        }
    }
}

} // verus!

verus! {

/// The models of the blocks a queue holds.
pub open spec fn pending_views(list: Seq<PendingBlock>) -> Seq<PendingBlockV> {
    list.map_values(|pb: PendingBlock| pb@)
}

/// The blocks a waiting queue holds under a key; empty when the key is
/// absent.
pub open spec fn waiters_at(entries: Seq<(Vec<u8>, Vec<PendingBlock>)>, k: Seq<u8>) -> Seq<
    PendingBlockV,
>
    decreases entries.len(),
{
    if entries.len() == 0 {
        Seq::empty()
    } else if entries[0].0@ == k {
        pending_views(entries[0].1@)
    } else {
        waiters_at(entries.drop_first(), k)
    }
}

/// How many blocks a waiting queue holds in all.
pub open spec fn queued_count(entries: Seq<(Vec<u8>, Vec<PendingBlock>)>) -> nat
    decreases entries.len(),
{
    if entries.len() == 0 {
        0
    } else {
        entries[0].1@.len() + queued_count(entries.drop_first())
    }
}

/// A key that no entry carries has no waiters.
proof fn lemma_waiters_absent(entries: Seq<(Vec<u8>, Vec<PendingBlock>)>, k: Seq<u8>)
    requires
        forall|i: int| 0 <= i < entries.len() ==> (#[trigger] entries[i]).0@ != k,
    ensures
        waiters_at(entries, k) == Seq::<PendingBlockV>::empty(),
    decreases entries.len(),
{
    if entries.len() > 0 {
        lemma_waiters_absent(entries.drop_first(), k);
    }
}

/// Replacing the entry at `pos` changes only that key's waiters.
proof fn lemma_waiters_update(
    entries: Seq<(Vec<u8>, Vec<PendingBlock>)>,
    pos: int,
    e: (Vec<u8>, Vec<PendingBlock>),
    k: Seq<u8>,
)
    requires
        0 <= pos < entries.len(),
        forall|i: int, j: int|
            0 <= i < j < entries.len() ==> (#[trigger] entries[i]).0@ != (
            #[trigger] entries[j]).0@,
        e.0@ == entries[pos].0@,
    ensures
        waiters_at(entries.update(pos, e), k) == if k == e.0@ {
            pending_views(e.1@)
        } else {
            waiters_at(entries, k)
        },
    decreases entries.len(),
{
    let s2 = entries.update(pos, e);
    if pos == 0 {
        if k == e.0@ {
        } else {
            assert(s2.drop_first() =~= entries.drop_first());
        }
    } else {
        assert(s2[0] == entries[0]);
        if k == entries[0].0@ {
            assert(entries[pos].0@ != entries[0].0@);
        } else {
            assert(s2.drop_first() =~= entries.drop_first().update(pos - 1, e));
            lemma_waiters_update(entries.drop_first(), pos - 1, e, k);
        }
    }
}

/// Appending an entry under a fresh key changes only that key's waiters.
proof fn lemma_waiters_push(
    entries: Seq<(Vec<u8>, Vec<PendingBlock>)>,
    e: (Vec<u8>, Vec<PendingBlock>),
    k: Seq<u8>,
)
    requires
        forall|i: int| 0 <= i < entries.len() ==> (#[trigger] entries[i]).0@ != e.0@,
    ensures
        waiters_at(entries.push(e), k) == if k == e.0@ {
            pending_views(e.1@)
        } else {
            waiters_at(entries, k)
        },
    decreases entries.len(),
{
    let s2 = entries.push(e);
    if entries.len() == 0 {
        assert(s2.len() == 1);
        assert(s2[0] == e);
        if k == e.0@ {
            assert(waiters_at(s2, k) == pending_views(s2[0].1@));
            assert(pending_views(s2[0].1@) == pending_views(e.1@));
        } else {
            assert(s2.drop_first() =~= Seq::<(Vec<u8>, Vec<PendingBlock>)>::empty());
            assert(waiters_at(s2, k) == waiters_at(s2.drop_first(), k));
            assert(waiters_at(s2.drop_first(), k) == Seq::<PendingBlockV>::empty());
            assert(waiters_at(entries, k) == Seq::<PendingBlockV>::empty());
        }
    } else {
        assert(s2[0] == entries[0]);
        assert(s2.drop_first() =~= entries.drop_first().push(e));
        assert(forall|i: int|
            0 <= i < entries.drop_first().len() ==> #[trigger] entries.drop_first()[i]
                == entries[i + 1]);
        lemma_waiters_push(entries.drop_first(), e, k);
        if k == entries[0].0@ {
            assert(waiters_at(s2, k) == pending_views(entries[0].1@));
            assert(waiters_at(entries, k) == pending_views(entries[0].1@));
            assert(k != e.0@);
        } else {
            assert(waiters_at(s2, k) == waiters_at(s2.drop_first(), k));
            assert(waiters_at(entries, k) == waiters_at(entries.drop_first(), k));
        }
    }
}

/// Removing the entry at `pos` empties that key's waiters and changes no
/// other key's.
proof fn lemma_waiters_remove(entries: Seq<(Vec<u8>, Vec<PendingBlock>)>, pos: int, k: Seq<u8>)
    requires
        0 <= pos < entries.len(),
        forall|i: int, j: int|
            0 <= i < j < entries.len() ==> (#[trigger] entries[i]).0@ != (
            #[trigger] entries[j]).0@,
    ensures
        waiters_at(entries.remove(pos), k) == if k == entries[pos].0@ {
            Seq::<PendingBlockV>::empty()
        } else {
            waiters_at(entries, k)
        },
    decreases entries.len(),
{
    let s2 = entries.remove(pos);
    if pos == 0 {
        assert(s2 =~= entries.drop_first());
        if k == entries[0].0@ {
            assert(forall|i: int|
                0 <= i < entries.drop_first().len() ==> (#[trigger] entries.drop_first()[i]).0@
                    != k);
            lemma_waiters_absent(entries.drop_first(), k);
        }
    } else {
        assert(s2[0] == entries[0]);
        if k == entries[0].0@ {
            assert(entries[pos].0@ != entries[0].0@);
        } else {
            assert(s2.drop_first() =~= entries.drop_first().remove(pos - 1));
            lemma_waiters_remove(entries.drop_first(), pos - 1, k);
        }
    }
}

/// How `queued_count` changes when an entry is replaced.
proof fn lemma_queued_count_update(
    entries: Seq<(Vec<u8>, Vec<PendingBlock>)>,
    pos: int,
    e: (Vec<u8>, Vec<PendingBlock>),
)
    requires
        0 <= pos < entries.len(),
    ensures
        queued_count(entries.update(pos, e)) == queued_count(entries) - entries[pos].1@.len()
            + e.1@.len(),
    decreases entries.len(),
{
    let s2 = entries.update(pos, e);
    if pos == 0 {
        assert(s2.drop_first() =~= entries.drop_first());
    } else {
        assert(s2[0] == entries[0]);
        assert(s2.drop_first() =~= entries.drop_first().update(pos - 1, e));
        lemma_queued_count_update(entries.drop_first(), pos - 1, e);
    }
}

/// How `queued_count` changes when an entry is appended.
proof fn lemma_queued_count_push(
    entries: Seq<(Vec<u8>, Vec<PendingBlock>)>,
    e: (Vec<u8>, Vec<PendingBlock>),
)
    ensures
        queued_count(entries.push(e)) == queued_count(entries) + e.1@.len(),
    decreases entries.len(),
{
    let s2 = entries.push(e);
    if entries.len() == 0 {
        assert(s2.len() == 1);
        assert(s2[0] == e);
        assert(s2.drop_first() =~= Seq::<(Vec<u8>, Vec<PendingBlock>)>::empty());
        assert(queued_count(s2.drop_first()) == 0);
        assert(queued_count(s2) == s2[0].1@.len() + queued_count(s2.drop_first()));
        assert(queued_count(entries) == 0);
        assert(queued_count(s2) == e.1@.len());
    } else {
        assert(s2[0] == entries[0]);
        assert(s2.drop_first() =~= entries.drop_first().push(e));
        lemma_queued_count_push(entries.drop_first(), e);
        assert(queued_count(s2) == s2[0].1@.len() + queued_count(s2.drop_first()));
        assert(queued_count(entries) == entries[0].1@.len() + queued_count(entries.drop_first()));
    }
}

/// How `queued_count` changes when an entry is removed.
proof fn lemma_queued_count_remove(entries: Seq<(Vec<u8>, Vec<PendingBlock>)>, pos: int)
    requires
        0 <= pos < entries.len(),
    ensures
        queued_count(entries.remove(pos)) == queued_count(entries) - entries[pos].1@.len(),
    decreases entries.len(),
{
    let s2 = entries.remove(pos);
    if pos == 0 {
        assert(s2 =~= entries.drop_first());
    } else {
        assert(s2[0] == entries[0]);
        assert(s2.drop_first() =~= entries.drop_first().remove(pos - 1));
        lemma_queued_count_remove(entries.drop_first(), pos - 1);
    }
}

/// The position of a key in a waiting queue.
fn queue_position(entries: &Vec<(Vec<u8>, Vec<PendingBlock>)>, key: &Vec<u8>) -> (r: Option<usize>)
    ensures
        match r {
            Some(p) => p < entries@.len() && entries@[p as int].0@ == key@,
            None => forall|i: int| 0 <= i < entries@.len() ==> (#[trigger] entries@[i]).0@ != key@,
        },
{
    let mut i: usize = 0;
    let n = entries.len();
    while i < n
        invariant
            i <= n,
            n == entries@.len(),
            forall|j: int| 0 <= j < i ==> (#[trigger] entries@[j]).0@ != key@,
        decreases n - i,
    {
        if bytes_eq(&entries[i].0, key) {
            return Some(i);
        }
        i = i + 1;
    }
    None
}

} // verus!

verus! {

impl SkovData {
    /// Queues a block under the hash of its missing parent.
    fn queue_orphan_block(&mut self, pending_block: PendingBlock)
        requires
            old(self).wf_core(),
            pending_block@.wf(),
        ensures
            final(self).wf_core(),
            final(self).block_tree@ == old(self).block_tree@,
            final(self).block_statuses@ == old(self).block_statuses@,
            final(self).awaiting_last_finalized@ == old(self).awaiting_last_finalized@,
            final(self).finalization_list@ == old(self).finalization_list@,
            final(self).last_fin_pos == old(self).last_fin_pos,
            final(self).genesis_idx == old(self).genesis_idx,
            forall|k: Seq<u8>|
                #[trigger] waiters_at(final(self).orphan_blocks@, k) == if k
                    == pending_block@.block.pointer {
                    waiters_at(old(self).orphan_blocks@, k).push(pending_block@)
                } else {
                    waiters_at(old(self).orphan_blocks@, k)
                },
            forall|i: int|
                0 <= i < final(self).orphan_blocks@.len() ==> (
                #[trigger] final(self).orphan_blocks@[i]).0@ == pending_block@.block.pointer
                    || exists|j: int|
                    0 <= j < old(self).orphan_blocks@.len() && (
                    #[trigger] old(self).orphan_blocks@[j]).0@
                        == final(self).orphan_blocks@[i].0@,
            queued_count(final(self).orphan_blocks@) == queued_count(old(self).orphan_blocks@)
                + 1,
    {
        let ghost s0 = self.orphan_blocks@;
        let ghost pbv = pending_block@;
        match queue_position(&self.orphan_blocks, &pending_block.block.pointer) {
            Some(pos) => {
                let mut entry = self.orphan_blocks.remove(pos);
                let ghost key0 = entry.0@;
                entry.1.push(pending_block);
                self.orphan_blocks.insert(pos, entry);
                proof {
                    let e = self.orphan_blocks@[pos as int];
                    assert(self.orphan_blocks@ =~= s0.update(pos as int, e));
                    assert(e.0@ == key0 && key0 == pbv.block.pointer);
                    assert(e.1@ =~= s0[pos as int].1@.push(pending_block));
                    assert forall|k: Seq<u8>|
                        #[trigger] waiters_at(self.orphan_blocks@, k) == if k
                            == pbv.block.pointer {
                            waiters_at(s0, k).push(pending_block@)
                        } else {
                            waiters_at(s0, k)
                        } by {
                        lemma_waiters_update(s0, pos as int, e, k);
                        if k == pbv.block.pointer {
                            assert(pending_views(e.1@) =~= pending_views(s0[pos as int].1@).push(
                                pending_block@,
                            ));
                            lemma_waiters_update(s0, pos as int, s0[pos as int], k);
                            assert(s0.update(pos as int, s0[pos as int]) =~= s0);
                        }
                    }
                    lemma_queued_count_update(s0, pos as int, e);
                    assert(self.wf_core());
                }
            },
            None => {
                let key = copy_bytes(&pending_block.block.pointer);
                let mut list: Vec<PendingBlock> = Vec::new();
                list.push(pending_block);
                self.orphan_blocks.push((key, list));
                proof {
                    let e = self.orphan_blocks@[s0.len() as int];
                    assert(self.orphan_blocks@ =~= s0.push(e));
                    assert(e.0@ == pbv.block.pointer);
                    assert(e.1@.len() == 1 && e.1@[0] == pending_block);
                    assert forall|k: Seq<u8>|
                        #[trigger] waiters_at(self.orphan_blocks@, k) == if k
                            == pbv.block.pointer {
                            waiters_at(s0, k).push(pending_block@)
                        } else {
                            waiters_at(s0, k)
                        } by {
                        lemma_waiters_push(s0, e, k);
                        if k == pbv.block.pointer {
                            lemma_waiters_absent(s0, k);
                            assert(pending_views(e.1@) =~= Seq::<PendingBlockV>::empty().push(
                                pending_block@,
                            ));
                        }
                    }
                    lemma_queued_count_push(s0, e);
                    assert(self.wf_core());
                }
            },
        }
    }

    /// Queues a block under the hash of the last-finalized block it declares.
    fn queue_block_wo_last_finalized(&mut self, pending_block: PendingBlock)
        requires
            old(self).wf_core(),
            pending_block@.wf(),
        ensures
            final(self).wf_core(),
            final(self).block_tree@ == old(self).block_tree@,
            final(self).block_statuses@ == old(self).block_statuses@,
            final(self).orphan_blocks@ == old(self).orphan_blocks@,
            final(self).finalization_list@ == old(self).finalization_list@,
            final(self).last_fin_pos == old(self).last_fin_pos,
            final(self).genesis_idx == old(self).genesis_idx,
            forall|k: Seq<u8>|
                #[trigger] waiters_at(final(self).awaiting_last_finalized@, k) == if k
                    == pending_block@.block.last_finalized {
                    waiters_at(old(self).awaiting_last_finalized@, k).push(pending_block@)
                } else {
                    waiters_at(old(self).awaiting_last_finalized@, k)
                },
            forall|i: int|
                0 <= i < final(self).awaiting_last_finalized@.len() ==> (
                #[trigger] final(self).awaiting_last_finalized@[i]).0@
                    == pending_block@.block.last_finalized || exists|j: int|
                    0 <= j < old(self).awaiting_last_finalized@.len() && (
                    #[trigger] old(self).awaiting_last_finalized@[j]).0@
                        == final(self).awaiting_last_finalized@[i].0@,
            queued_count(final(self).awaiting_last_finalized@) == queued_count(
                old(self).awaiting_last_finalized@,
            ) + 1,
    {
        let ghost s0 = self.awaiting_last_finalized@;
        let ghost pbv = pending_block@;
        match queue_position(&self.awaiting_last_finalized, &pending_block.block.last_finalized) {
            Some(pos) => {
                let mut entry = self.awaiting_last_finalized.remove(pos);
                let ghost key0 = entry.0@;
                entry.1.push(pending_block);
                self.awaiting_last_finalized.insert(pos, entry);
                proof {
                    let e = self.awaiting_last_finalized@[pos as int];
                    assert(self.awaiting_last_finalized@ =~= s0.update(pos as int, e));
                    assert(e.0@ == key0 && key0 == pbv.block.last_finalized);
                    assert(e.1@ =~= s0[pos as int].1@.push(pending_block));
                    assert forall|k: Seq<u8>|
                        #[trigger] waiters_at(self.awaiting_last_finalized@, k) == if k
                            == pbv.block.last_finalized {
                            waiters_at(s0, k).push(pending_block@)
                        } else {
                            waiters_at(s0, k)
                        } by {
                        lemma_waiters_update(s0, pos as int, e, k);
                        if k == pbv.block.last_finalized {
                            assert(pending_views(e.1@) =~= pending_views(s0[pos as int].1@).push(
                                pending_block@,
                            ));
                            lemma_waiters_update(s0, pos as int, s0[pos as int], k);
                            assert(s0.update(pos as int, s0[pos as int]) =~= s0);
                        }
                    }
                    lemma_queued_count_update(s0, pos as int, e);
                    assert(self.wf_core());
                }
            },
            None => {
                let key = copy_bytes(&pending_block.block.last_finalized);
                let mut list: Vec<PendingBlock> = Vec::new();
                list.push(pending_block);
                self.awaiting_last_finalized.push((key, list));
                proof {
                    let e = self.awaiting_last_finalized@[s0.len() as int];
                    assert(self.awaiting_last_finalized@ =~= s0.push(e));
                    assert(e.0@ == pbv.block.last_finalized);
                    assert(e.1@.len() == 1 && e.1@[0] == pending_block);
                    assert forall|k: Seq<u8>|
                        #[trigger] waiters_at(self.awaiting_last_finalized@, k) == if k
                            == pbv.block.last_finalized {
                            waiters_at(s0, k).push(pending_block@)
                        } else {
                            waiters_at(s0, k)
                        } by {
                        lemma_waiters_push(s0, e, k);
                        if k == pbv.block.last_finalized {
                            lemma_waiters_absent(s0, k);
                            assert(pending_views(e.1@) =~= Seq::<PendingBlockV>::empty().push(
                                pending_block@,
                            ));
                        }
                    }
                    lemma_queued_count_push(s0, e);
                    assert(self.wf_core());
                }
            },
        }
    }
}

} // verus!

verus! {

impl SkovData {
    /// One linkage attempt: admits the block if its parent is in the tree
    /// and it declares the current last-finalized block; queues it otherwise.
    /// Returns the admitted block's hash, `None` for a block already in the
    /// tree, or the reason the block was queued.
    #[verifier::rlimit(100)]
    fn try_link(&mut self, pending_block: PendingBlock) -> (r: Result<Option<Vec<u8>>, SkovError>)
        requires
            old(self).wf_core(),
            old(self).has_genesis(),
            pending_block@.wf(),
        ensures
            final(self).wf_core(),
            final(self).has_genesis(),
            final(self).finalization_list@ == old(self).finalization_list@,
            final(self).last_fin_pos == old(self).last_fin_pos,
            final(self).genesis_idx == old(self).genesis_idx,
            old(self).block_tree@.len() <= final(self).block_tree@.len(),
            forall|i: int|
                0 <= i < old(self).block_tree@.len() ==> #[trigger] final(self).block_tree@[i]
                    == old(self).block_tree@[i] && final(self).block_statuses@[i] == old(
                    self,
                ).block_statuses@[i],
            final(self).last_finalized_hash() == old(self).last_finalized_hash(),
            match r {
                Ok(o) => match o {
                    None => old(self).tree_contains(pending_block@.hash) && *final(self) == *old(
                        self,
                    ),
                    Some(h) => {
                        &&& h@ == pending_block@.hash
                        &&& !old(self).tree_contains(pending_block@.hash)
                        &&& old(self).tree_contains(pending_block@.block.pointer)
                        &&& pending_block@.block.last_finalized == old(self).last_finalized_hash()
                        &&& final(self).block_tree@.len() == old(self).block_tree@.len() + 1
                        &&& final(self).block_tree@[old(self).block_tree@.len() as int]@.hash
                            == pending_block@.hash
                        &&& final(self).block_tree@[old(self).block_tree@.len() as int]@.block
                            == pending_block@.block
                        &&& final(self).block_statuses@[old(self).block_tree@.len() as int]
                            == BlockStatus::Alive
                        &&& final(self).orphan_blocks@ == old(self).orphan_blocks@
                        &&& final(self).awaiting_last_finalized@ == old(
                            self,
                        ).awaiting_last_finalized@
                        &&& final(self).tree_contains(pending_block@.hash)
                    },
                },
                Err(e) => {
                    &&& !old(self).tree_contains(pending_block@.hash)
                    &&& final(self).block_tree@ == old(self).block_tree@
                    &&& final(self).block_statuses@ == old(self).block_statuses@
                    &&& e != SkovError::AlreadyInitialized
                    &&& (e == SkovError::AwaitingParent ==> {
                        &&& !old(self).tree_contains(pending_block@.block.pointer)
                        &&& final(self).awaiting_last_finalized@ == old(
                            self,
                        ).awaiting_last_finalized@
                        &&& (forall|k: Seq<u8>|
                            #[trigger] waiters_at(final(self).orphan_blocks@, k) == if k
                                == pending_block@.block.pointer {
                                waiters_at(old(self).orphan_blocks@, k).push(pending_block@)
                            } else {
                                waiters_at(old(self).orphan_blocks@, k)
                            })
                        &&& (forall|i: int|
                            0 <= i < final(self).orphan_blocks@.len() ==> (
                            #[trigger] final(self).orphan_blocks@[i]).0@
                                == pending_block@.block.pointer || exists|j: int|
                                0 <= j < old(self).orphan_blocks@.len() && (
                                #[trigger] old(self).orphan_blocks@[j]).0@
                                    == final(self).orphan_blocks@[i].0@)
                        &&& queued_count(final(self).orphan_blocks@) == queued_count(
                            old(self).orphan_blocks@,
                        ) + 1
                    })
                    &&& (e == SkovError::AwaitingLastFinalized ==> {
                        &&& old(self).tree_contains(pending_block@.block.pointer)
                        &&& pending_block@.block.last_finalized != old(self).last_finalized_hash()
                        &&& final(self).orphan_blocks@ == old(self).orphan_blocks@
                        &&& (forall|k: Seq<u8>|
                            #[trigger] waiters_at(final(self).awaiting_last_finalized@, k) == if k
                                == pending_block@.block.last_finalized {
                                waiters_at(old(self).awaiting_last_finalized@, k).push(
                                    pending_block@,
                                )
                            } else {
                                waiters_at(old(self).awaiting_last_finalized@, k)
                            })
                        &&& (forall|i: int|
                            0 <= i < final(self).awaiting_last_finalized@.len() ==> (
                            #[trigger] final(self).awaiting_last_finalized@[i]).0@
                                == pending_block@.block.last_finalized || exists|j: int|
                                0 <= j < old(self).awaiting_last_finalized@.len() && (
                                #[trigger] old(self).awaiting_last_finalized@[j]).0@
                                    == final(self).awaiting_last_finalized@[i].0@)
                        &&& queued_count(final(self).awaiting_last_finalized@) == queued_count(
                            old(self).awaiting_last_finalized@,
                        ) + 1
                    })
                },
            },
    {
        let ghost pbv = pending_block@;
        if self.find_block_index(&pending_block.hash).is_some() {
            return Ok(None);
        }
        let parent_idx = match self.find_block_index(&pending_block.block.pointer) {
            Some(p) => p,
            None => {
                self.queue_orphan_block(pending_block);
                return Err(SkovError::AwaitingParent);
            },
        };
        let lf_idx = self.finalization_list[self.last_fin_pos].1;
        if !bytes_eq(&pending_block.block.last_finalized, &self.block_tree[lf_idx].hash) {
            self.queue_block_wo_last_finalized(pending_block);
            return Err(SkovError::AwaitingLastFinalized);
        }
        let h = self.link_new_block(pending_block, parent_idx, lf_idx);
        Ok(Some(h))
    }

    /// Appends an accepted block to the arena with status `Alive`.
    #[verifier::rlimit(100)]
    fn link_new_block(
        &mut self,
        pending_block: PendingBlock,
        parent_idx: usize,
        lf_idx: usize,
    ) -> (h: Vec<u8>)
        requires
            old(self).wf_core(),
            old(self).has_genesis(),
            pending_block@.wf(),
            !old(self).tree_contains(pending_block@.hash),
            parent_idx < old(self).block_tree@.len(),
            old(self).block_tree@[parent_idx as int]@.hash == pending_block@.block.pointer,
            lf_idx == old(self).last_finalized_idx(),
        ensures
            final(self).wf_core(),
            final(self).finalization_list@ == old(self).finalization_list@,
            final(self).last_fin_pos == old(self).last_fin_pos,
            final(self).genesis_idx == old(self).genesis_idx,
            final(self).orphan_blocks@ == old(self).orphan_blocks@,
            final(self).awaiting_last_finalized@ == old(self).awaiting_last_finalized@,
            forall|i: int|
                0 <= i < old(self).block_tree@.len() ==> #[trigger] final(self).block_tree@[i]
                    == old(self).block_tree@[i] && final(self).block_statuses@[i] == old(
                    self,
                ).block_statuses@[i],
            final(self).block_tree@.len() == old(self).block_tree@.len() + 1,
            final(self).block_tree@[old(self).block_tree@.len() as int]@.hash
                == pending_block@.hash,
            final(self).block_tree@[old(self).block_tree@.len() as int]@.block
                == pending_block@.block,
            final(self).block_statuses@[old(self).block_tree@.len() as int] == BlockStatus::Alive,
            final(self).tree_contains(pending_block@.hash),
            final(self).last_finalized_hash() == old(self).last_finalized_hash(),
            h@ == pending_block@.hash,
    {
        let ghost pbv = pending_block@;
        let received_at = current_time_millis();
        let n = self.block_tree.len();
        proof {
            assert(parent_idx < n);
            assert(self.block_tree@[parent_idx as int]@.height <= parent_idx);
            assert(self.block_tree@[parent_idx as int]@.height + 1 <= n <= usize::MAX);
        }
        let height = self.block_tree[parent_idx].height + 1;
        let hash_copy = copy_bytes(&pending_block.hash);
        let PendingBlock { block, hash } = pending_block;
        let ptr = BlockPtr {
            hash,
            block,
            parent_idx,
            last_finalized_idx: lf_idx,
            height,
            received_at,
        };
        let ghost n0 = self.block_tree@.len();
        self.push_block_entry(ptr);
        proof {
            lemma_link_preserves_wf(*old(self), *self, pbv);
        }
        hash_copy
    }

    /// Appends one block and its status to the arena; pure bookkeeping.
    fn push_block_entry(&mut self, ptr: BlockPtr)
        ensures
            final(self).block_tree@ == old(self).block_tree@.push(ptr),
            final(self).block_statuses@ == old(self).block_statuses@.push(BlockStatus::Alive),
            final(self).orphan_blocks@ == old(self).orphan_blocks@,
            final(self).awaiting_last_finalized@ == old(self).awaiting_last_finalized@,
            final(self).finalization_list@ == old(self).finalization_list@,
            final(self).last_fin_pos == old(self).last_fin_pos,
            final(self).genesis_idx == old(self).genesis_idx,
    {
        self.block_tree.push(ptr);
        self.block_statuses.push(BlockStatus::Alive);
    }
}

/// Appending a fresh, well-formed block whose parent is in the tree, with
/// height one above its parent's and pointers below itself, preserves the
/// structural invariant and leaves the last finalized block unchanged.
#[verifier::rlimit(100)]
proof fn lemma_link_preserves_wf(s0: SkovData, s1: SkovData, pbv: PendingBlockV)
    requires
        s0.wf_core(),
        s0.has_genesis(),
        pbv.wf(),
        !s0.tree_contains(pbv.hash),
        s1.block_tree@.len() == s0.block_tree@.len() + 1,
        forall|i: int|
            0 <= i < s0.block_tree@.len() ==> #[trigger] s1.block_tree@[i] == s0.block_tree@[i],
        s1.block_statuses@ == s0.block_statuses@.push(BlockStatus::Alive),
        s1.block_tree@[s0.block_tree@.len() as int]@.hash == pbv.hash,
        s1.block_tree@[s0.block_tree@.len() as int]@.parent_idx < s0.block_tree@.len(),
        s1.block_tree@[s0.block_tree@.len() as int]@.last_finalized_idx < s0.block_tree@.len(),
        s1.block_tree@[s0.block_tree@.len() as int]@.height == s0.block_tree@[
            s1.block_tree@[s0.block_tree@.len() as int]@.parent_idx as int
        ]@.height + 1,
        s1.block_tree@[s0.block_tree@.len() as int]@.height <= s0.block_tree@.len(),
        s1.finalization_list@ == s0.finalization_list@,
        s1.last_fin_pos == s0.last_fin_pos,
        s1.genesis_idx == s0.genesis_idx,
        s1.orphan_blocks@ == s0.orphan_blocks@,
        s1.awaiting_last_finalized@ == s0.awaiting_last_finalized@,
    ensures
        s1.wf_core(),
        s1.tree_contains(pbv.hash),
        s1.last_finalized_hash() == s0.last_finalized_hash(),
{
    let n0 = s0.block_tree@.len() as int;
    let t = s1.block_tree@;
    let st = s1.block_statuses@;
    let f = s1.finalization_list@;
    assert(st.len() == t.len());
    assert forall|i: int, j: int|
        0 <= i < j < t.len() implies (#[trigger] t[i])@.hash != (#[trigger] t[j])@.hash by {
        if j == n0 {
            assert(s0.block_tree@[i]@.hash != pbv.hash);
        } else {
            assert(s0.block_tree@[i]@.hash != s0.block_tree@[j]@.hash);
        }
    }
    assert forall|i: int| 0 <= i < t.len() implies (#[trigger] t[i])@.hash.len()
        == BLOCK_HASH_LEN by {
        if i != n0 {
            assert(t[i] == s0.block_tree@[i]);
        }
    }
    assert forall|i: int|
        0 < i < t.len() implies (#[trigger] t[i])@.parent_idx < i && t[i]@.last_finalized_idx < i
            && t[i]@.height == t[t[i]@.parent_idx as int]@.height + 1 by {
        if i != n0 {
            assert(t[i] == s0.block_tree@[i]);
            assert(t[t[i]@.parent_idx as int] == s0.block_tree@[t[i]@.parent_idx as int]);
        } else {
            assert(t[t[i]@.parent_idx as int] == s0.block_tree@[t[i]@.parent_idx as int]);
        }
    }
    assert forall|i: int| 0 <= i < t.len() implies (#[trigger] t[i])@.height <= i by {
        if i != n0 {
            assert(t[i] == s0.block_tree@[i]);
        }
    }
    assert(t[0] == s0.block_tree@[0]);
    assert forall|k: int|
        0 <= k < f.len() implies (#[trigger] f[k]).1 < t.len() && st[f[k].1 as int]
            == BlockStatus::Finalized && f[k].0@.block_pointer == t[f[k].1 as int]@.hash by {
        assert(f[k] == s0.finalization_list@[k]);
        assert(f[k].1 < n0);
        assert(t[f[k].1 as int] == s0.block_tree@[f[k].1 as int]);
        assert(st[f[k].1 as int] == s0.block_statuses@[f[k].1 as int]);
    }
    assert(s1.wf_core());
    assert(s1.tree_contains(pbv.hash));
    assert(t[s0.last_finalized_idx()] == s0.block_tree@[s0.last_finalized_idx()]);
    assert(s1.last_finalized_hash() == s0.last_finalized_hash());
}

} // verus!

verus! {

/// Whether the block at `anc` is an ancestor of (or is) the block at `des`,
/// following parent indices.
pub open spec fn spec_is_ancestor(t: Seq<BlockPtr>, anc: int, des: int) -> bool
    decreases des,
{
    if anc == des {
        true
    } else if des <= 0 || des >= t.len() || t[des]@.parent_idx as int >= des {
        false
    } else {
        spec_is_ancestor(t, anc, t[des]@.parent_idx as int)
    }
}

/// Whether a worklist of hashes holds `k`.
pub open spec fn work_contains(w: Seq<Vec<u8>>, k: Seq<u8>) -> bool {
    exists|j: int| 0 <= j < w.len() && (#[trigger] w[j])@ == k
}

/// Whether the finalization list holds a record structurally equal to `rv`.
pub open spec fn contains_record(f: Seq<(FinalizationRecord, usize)>, rv: FinalizationRecordV) -> bool {
    exists|k: int| 0 <= k < f.len() && (#[trigger] f[k]).0@ == rv
}

/// Whether the finalization list holds a record at index `index`.
pub open spec fn contains_fin_index(f: Seq<(FinalizationRecord, usize)>, index: u64) -> bool {
    exists|k: int| 0 <= k < f.len() && (#[trigger] f[k]).0@.index == index
}

/// Whether two finalization records hold the same data.
fn record_eq(a: &FinalizationRecord, b: &FinalizationRecord) -> (r: bool)
    ensures
        r == (a@ == b@),
{
    if a.index != b.index {
        return false;
    }
    if a.delay != b.delay {
        return false;
    }
    if !bytes_eq(&a.block_pointer, &b.block_pointer) {
        return false;
    }
    if a.proof.0.len() != b.proof.0.len() {
        proof {
            assert(a@.proof.len() != b@.proof.len());
        }
        return false;
    }
    let n = a.proof.0.len();
    let mut i: usize = 0;
    while i < n
        invariant
            i <= n,
            n == a.proof.0@.len(),
            n == b.proof.0@.len(),
            forall|j: int| 0 <= j < i ==> #[trigger] a.proof@[j] == b.proof@[j],
        decreases n - i,
    {
        if a.proof.0[i].0 != b.proof.0[i].0 {
            proof {
                assert(a.proof@[i as int] != b.proof@[i as int]);
                assert(a@.proof != b@.proof);
            }
            return false;
        }
        if !bytes_eq(&a.proof.0[i].1, &b.proof.0[i].1) {
            proof {
                assert(a.proof@[i as int] != b.proof@[i as int]);
                assert(a@.proof != b@.proof);
            }
            return false;
        }
        proof {
            assert(a.proof@[i as int] == b.proof@[i as int]);
        }
        i = i + 1;
    }
    proof {
        assert(a.proof@ =~= b.proof@);
    }
    true
}

impl SkovData {
    /// Whether the block at `anc` is an ancestor of (or is) the block at
    /// `des`.
    fn is_ancestor(&self, anc: usize, des: usize) -> (r: bool)
        requires
            self.wf_core(),
            anc < self.tree_len(),
            des < self.tree_len(),
        ensures
            r == spec_is_ancestor(self.block_tree@, anc as int, des as int),
    {
        let mut cur = des;
        loop
            invariant
                self.wf_core(),
                anc < self.tree_len(),
                cur < self.tree_len(),
                spec_is_ancestor(self.block_tree@, anc as int, des as int) == spec_is_ancestor(
                    self.block_tree@,
                    anc as int,
                    cur as int,
                ),
            decreases cur,
        {
            if cur == anc {
                return true;
            }
            if cur == 0 {
                return false;
            }
            cur = self.block_tree[cur].parent_idx;
        }
    }

    /// Marks dead every live block at height at most `h` that is not an
    /// ancestor of the block at `survivor`.
    fn prune_at(&mut self, survivor: usize, h: u64)
        requires
            old(self).wf_core(),
            survivor < old(self).tree_len(),
        ensures
            final(self).wf_core(),
            final(self).block_tree@ == old(self).block_tree@,
            final(self).orphan_blocks@ == old(self).orphan_blocks@,
            final(self).awaiting_last_finalized@ == old(self).awaiting_last_finalized@,
            final(self).finalization_list@ == old(self).finalization_list@,
            final(self).last_fin_pos == old(self).last_fin_pos,
            final(self).genesis_idx == old(self).genesis_idx,
            final(self).block_statuses@.len() == old(self).block_statuses@.len(),
            forall|i: int|
                0 <= i < old(self).block_statuses@.len()
                    ==> #[trigger] final(self).block_statuses@[i] == if old(
                    self,
                ).block_statuses@[i] == BlockStatus::Alive && old(self).block_tree@[i]@.height <= h
                    && !spec_is_ancestor(old(self).block_tree@, survivor as int, i) {
                    BlockStatus::Dead
                } else {
                    old(self).block_statuses@[i]
                },
    {
        let n = self.block_tree.len();
        let mut i: usize = 0;
        while i < n
            invariant
                self.wf_core(),
                i <= n,
                n == self.tree_len(),
                survivor < self.tree_len(),
                self.block_tree@ == old(self).block_tree@,
                self.orphan_blocks@ == old(self).orphan_blocks@,
                self.awaiting_last_finalized@ == old(self).awaiting_last_finalized@,
                self.finalization_list@ == old(self).finalization_list@,
                self.last_fin_pos == old(self).last_fin_pos,
                self.genesis_idx == old(self).genesis_idx,
                self.block_statuses@.len() == old(self).block_statuses@.len(),
                forall|j: int|
                    0 <= j < i ==> #[trigger] self.block_statuses@[j] == if old(
                        self,
                    ).block_statuses@[j] == BlockStatus::Alive && old(self).block_tree@[j]@.height
                        <= h && !spec_is_ancestor(old(self).block_tree@, survivor as int, j) {
                        BlockStatus::Dead
                    } else {
                        old(self).block_statuses@[j]
                    },
                forall|j: int|
                    i <= j < n ==> #[trigger] self.block_statuses@[j] == old(
                        self,
                    ).block_statuses@[j],
            decreases n - i,
        {
            let should_die = self.block_statuses[i] == BlockStatus::Alive
                && self.block_tree[i].height <= h && !self.is_ancestor(survivor, i);
            if should_die {
                let ghost st0 = self.block_statuses@;
                self.block_statuses[i] = BlockStatus::Dead;
                proof {
                    assert(self.block_statuses@ =~= st0.update(i as int, BlockStatus::Dead));
                    assert forall|k: int|
                        0 <= k < self.finalization_list@.len() implies (
                        #[trigger] self.finalization_list@[k]).1 < self.tree_len()
                            && self.block_statuses@[self.finalization_list@[k].1 as int]
                            == BlockStatus::Finalized && self.finalization_list@[k].0@.block_pointer
                            == self.block_tree@[self.finalization_list@[k].1 as int]@.hash by {
                        assert(st0[self.finalization_list@[k].1 as int]
                            == BlockStatus::Finalized);
                        assert(self.finalization_list@[k].1 != i);
                    }
                    assert(self.wf_core());
                }
            }
            i = i + 1;
        }
    }
}

} // verus!

verus! {

/// The arena of `s1` extends that of `s0`: every already-linked block and
/// its status are unchanged.
pub open spec fn tree_extends(s0: SkovData, s1: SkovData) -> bool {
    &&& s0.block_tree@.len() <= s1.block_tree@.len()
    &&& s1.block_tree@.subrange(0, s0.block_tree@.len() as int) == s0.block_tree@
    &&& s1.block_statuses@.len() == s1.block_tree@.len()
    &&& s0.block_statuses@.len() == s0.block_tree@.len()
    &&& s1.block_statuses@.subrange(0, s0.block_tree@.len() as int) == s0.block_statuses@
}

/// The blocks of `s1` extend those of `s0`; statuses may differ.
pub open spec fn blocks_extend(s0: SkovData, s1: SkovData) -> bool {
    &&& s0.block_tree@.len() <= s1.block_tree@.len()
    &&& s1.block_tree@.subrange(0, s0.block_tree@.len() as int) == s0.block_tree@
}

/// Extension of the arena is transitive.
pub proof fn lemma_tree_extends_trans(a: SkovData, b: SkovData, c: SkovData)
    requires
        tree_extends(a, b),
        tree_extends(b, c),
    ensures
        tree_extends(a, c),
{
    assert(c.block_tree@.subrange(0, a.block_tree@.len() as int) =~= b.block_tree@.subrange(
        0,
        a.block_tree@.len() as int,
    ));
    assert(c.block_statuses@.subrange(0, a.block_tree@.len() as int)
        =~= b.block_statuses@.subrange(0, a.block_tree@.len() as int));
}

/// An extended arena agrees with the old one at every old index.
pub proof fn lemma_tree_extends_index(a: SkovData, b: SkovData, i: int)
    requires
        tree_extends(a, b),
        0 <= i < a.block_tree@.len(),
    ensures
        b.block_tree@[i] == a.block_tree@[i],
        b.block_statuses@[i] == a.block_statuses@[i],
{
    assert(b.block_tree@.subrange(0, a.block_tree@.len() as int)[i] == b.block_tree@[i]);
    assert(b.block_statuses@.subrange(0, a.block_tree@.len() as int)[i] == b.block_statuses@[i]);
}

/// Every key of `entries1` already keyed an entry of `entries0`, and none
/// of them is `h`.
pub open spec fn keys_dropped_to(
    entries0: Seq<(Vec<u8>, Vec<PendingBlock>)>,
    entries1: Seq<(Vec<u8>, Vec<PendingBlock>)>,
    h: Seq<u8>,
) -> bool {
    forall|i: int|
        0 <= i < entries1.len() ==> (#[trigger] entries1[i]).0@ != h && exists|j: int|
            0 <= j < entries0.len() && (#[trigger] entries0[j]).0@ == entries1[i].0@
}

/// No orphan-queue key is in the tree, except keys still on the worklist.
pub open spec fn orphan_norm_except(s: SkovData, w: Seq<Vec<u8>>) -> bool {
    forall|i: int|
        0 <= i < s.orphan_blocks@.len() ==> !s.tree_contains(
            (#[trigger] s.orphan_blocks@[i]).0@,
        ) || work_contains(w, s.orphan_blocks@[i].0@)
}

/// No awaiting-queue key is the last finalized hash, except keys still on
/// the worklist.
pub open spec fn awaiting_norm_except(s: SkovData, w: Seq<Vec<u8>>) -> bool {
    forall|i: int|
        0 <= i < s.awaiting_last_finalized@.len() ==> (
        #[trigger] s.awaiting_last_finalized@[i]).0@ != s.last_finalized_hash() || work_contains(
            w,
            s.awaiting_last_finalized@[i].0@,
        )
}

/// Admitting one block keeps both queues normalized, once the admitted hash
/// joins the worklist.
proof fn lemma_norm_after_admit(
    s0: SkovData,
    s1: SkovData,
    w0: Seq<Vec<u8>>,
    w1: Seq<Vec<u8>>,
    hh: Vec<u8>,
)
    requires
        orphan_norm_except(s0, w0),
        awaiting_norm_except(s0, w0),
        s1.orphan_blocks@ == s0.orphan_blocks@,
        s1.awaiting_last_finalized@ == s0.awaiting_last_finalized@,
        s1.block_tree@.len() == s0.block_tree@.len() + 1,
        forall|i: int|
            0 <= i < s0.block_tree@.len() ==> #[trigger] s1.block_tree@[i] == s0.block_tree@[i],
        s1.block_tree@[s0.block_tree@.len() as int]@.hash == hh@,
        s1.last_finalized_hash() == s0.last_finalized_hash(),
        w1 == w0.push(hh),
    ensures
        orphan_norm_except(s1, w1),
        awaiting_norm_except(s1, w1),
{
    assert(forall|j: int| 0 <= j < w0.len() ==> #[trigger] w1[j] == w0[j]);
    assert forall|i: int|
        0 <= i < s1.orphan_blocks@.len() implies !s1.tree_contains(
        (#[trigger] s1.orphan_blocks@[i]).0@,
    ) || work_contains(w1, s1.orphan_blocks@[i].0@) by {
        let k = s1.orphan_blocks@[i].0@;
        if s1.tree_contains(k) {
            let w = s1.tree_index_of(k);
            assert(s1.block_tree@[w]@.hash == k);
            if w < s0.block_tree@.len() {
                assert(s0.block_tree@[w]@.hash == k);
                assert(s0.tree_contains(k));
                assert(s0.orphan_blocks@[i].0@ == k);
                if work_contains(w0, k) {
                    let j = choose|j: int| 0 <= j < w0.len() && (#[trigger] w0[j])@ == k;
                    assert((w1[j])@ == k);
                }
            } else {
                assert(k == hh@);
                assert((w1[w0.len() as int])@ == k);
            }
        }
    }
    assert forall|i: int|
        0 <= i < s1.awaiting_last_finalized@.len() implies (
    #[trigger] s1.awaiting_last_finalized@[i]).0@ != s1.last_finalized_hash() || work_contains(
        w1,
        s1.awaiting_last_finalized@[i].0@,
    ) by {
        let k = s1.awaiting_last_finalized@[i].0@;
        if k == s1.last_finalized_hash() {
            assert(s0.awaiting_last_finalized@[i].0@ == k);
            assert(work_contains(w0, k));
            let j = choose|j: int| 0 <= j < w0.len() && (#[trigger] w0[j])@ == k;
            assert((w1[j])@ == k);
        }
    }
}

/// Queueing a block under a key that is not satisfiable keeps both queues
/// normalized.
proof fn lemma_norm_after_defer(s0: SkovData, s1: SkovData, w: Seq<Vec<u8>>, pbv: PendingBlockV)
    requires
        orphan_norm_except(s0, w),
        awaiting_norm_except(s0, w),
        s1.block_tree@ == s0.block_tree@,
        s1.last_finalized_hash() == s0.last_finalized_hash(),
        forall|i: int|
            0 <= i < s1.orphan_blocks@.len() ==> ((#[trigger] s1.orphan_blocks@[i]).0@
                == pbv.block.pointer && !s0.tree_contains(pbv.block.pointer)) || exists|j: int|
                0 <= j < s0.orphan_blocks@.len() && (#[trigger] s0.orphan_blocks@[j]).0@
                    == s1.orphan_blocks@[i].0@,
        forall|i: int|
            0 <= i < s1.awaiting_last_finalized@.len() ==> ((
            #[trigger] s1.awaiting_last_finalized@[i]).0@ == pbv.block.last_finalized
                && pbv.block.last_finalized != s0.last_finalized_hash()) || exists|j: int|
                0 <= j < s0.awaiting_last_finalized@.len() && (
                #[trigger] s0.awaiting_last_finalized@[j]).0@
                    == s1.awaiting_last_finalized@[i].0@,
    ensures
        orphan_norm_except(s1, w),
        awaiting_norm_except(s1, w),
{
    assert forall|i: int|
        0 <= i < s1.orphan_blocks@.len() implies !s1.tree_contains(
        (#[trigger] s1.orphan_blocks@[i]).0@,
    ) || work_contains(w, s1.orphan_blocks@[i].0@) by {
        let k = s1.orphan_blocks@[i].0@;
        if s1.tree_contains(k) {
            assert(s0.tree_contains(k));
            let j = choose|j: int|
                0 <= j < s0.orphan_blocks@.len() && (#[trigger] s0.orphan_blocks@[j]).0@ == k;
            assert(!s0.tree_contains(s0.orphan_blocks@[j].0@) || work_contains(
                w,
                s0.orphan_blocks@[j].0@,
            ));
        }
    }
    assert forall|i: int|
        0 <= i < s1.awaiting_last_finalized@.len() implies (
    #[trigger] s1.awaiting_last_finalized@[i]).0@ != s1.last_finalized_hash() || work_contains(
        w,
        s1.awaiting_last_finalized@[i].0@,
    ) by {
        let k = s1.awaiting_last_finalized@[i].0@;
        if k == s1.last_finalized_hash() {
            let j = choose|j: int|
                0 <= j < s0.awaiting_last_finalized@.len() && (
                #[trigger] s0.awaiting_last_finalized@[j]).0@ == k;
            assert(s0.awaiting_last_finalized@[j].0@ != s0.last_finalized_hash()
                || work_contains(w, s0.awaiting_last_finalized@[j].0@));
        }
    }
}

impl SkovData {
    /// Re-offers each block in `to_offer` once, pushing the hash of every
    /// admitted block onto the worklist.
    #[verifier::rlimit(100)]
    fn reoffer_all(&mut self, to_offer: Vec<PendingBlock>, work: &mut Vec<Vec<u8>>)
        requires
            old(self).wf_core(),
            old(self).has_genesis(),
            forall|j: int| 0 <= j < to_offer@.len() ==> (#[trigger] to_offer@[j])@.wf(),
            orphan_norm_except(*old(self), old(work)@),
            awaiting_norm_except(*old(self), old(work)@),
        ensures
            final(self).wf_core(),
            final(self).has_genesis(),
            final(self).finalization_list@ == old(self).finalization_list@,
            final(self).last_fin_pos == old(self).last_fin_pos,
            final(self).genesis_idx == old(self).genesis_idx,
            tree_extends(*old(self), *final(self)),
            final(self).last_finalized_hash() == old(self).last_finalized_hash(),
            orphan_norm_except(*final(self), final(work)@),
            awaiting_norm_except(*final(self), final(work)@),
            2 * (queued_count(final(self).orphan_blocks@) + queued_count(
                final(self).awaiting_last_finalized@,
            )) + final(work)@.len() <= 2 * (queued_count(old(self).orphan_blocks@) + queued_count(
                old(self).awaiting_last_finalized@,
            )) + old(work)@.len() + 2 * to_offer@.len(),
    {
        let ghost budget = 2 * (queued_count(self.orphan_blocks@) + queued_count(
            self.awaiting_last_finalized@,
        )) + work@.len() + 2 * to_offer@.len();
        let mut to_offer = to_offer;
        proof {
            assert(self.block_tree@.subrange(0, self.block_tree@.len() as int)
                =~= self.block_tree@);
            assert(self.block_statuses@.subrange(0, self.block_tree@.len() as int)
                =~= self.block_statuses@);
        }
        while to_offer.len() > 0
            invariant
                self.wf_core(),
                self.has_genesis(),
                self.finalization_list@ == old(self).finalization_list@,
                self.last_fin_pos == old(self).last_fin_pos,
                self.genesis_idx == old(self).genesis_idx,
                tree_extends(*old(self), *self),
                self.last_finalized_hash() == old(self).last_finalized_hash(),
                forall|j: int| 0 <= j < to_offer@.len() ==> (#[trigger] to_offer@[j])@.wf(),
                orphan_norm_except(*self, work@),
                awaiting_norm_except(*self, work@),
                2 * (queued_count(self.orphan_blocks@) + queued_count(
                    self.awaiting_last_finalized@,
                )) + work@.len() + 2 * to_offer@.len() <= budget,
            decreases to_offer@.len(),
        {
            let pb = to_offer.remove(0);
            let ghost work0 = work@;
            let ghost self0 = *self;
            match self.try_link(pb) {
                Ok(admitted) => match admitted {
                    Some(hh) => {
                        proof {
                            lemma_norm_after_admit(self0, *self, work0, work0.push(hh), hh);
                            assert forall|i: int|
                                0 <= i < self0.block_tree@.len() implies self.block_tree@[i]
                                == self0.block_tree@[i] && self.block_statuses@[i]
                                == self0.block_statuses@[i] by {
                                assert(self.block_tree@[i] == self0.block_tree@[i]);
                            }
                            assert(self.block_tree@.subrange(0, self0.block_tree@.len() as int)
                                =~= self0.block_tree@);
                            assert(self.block_statuses@.subrange(
                                0,
                                self0.block_tree@.len() as int,
                            ) =~= self0.block_statuses@);
                            lemma_tree_extends_trans(*old(self), self0, *self);
                        }
                        work.push(hh);
                    },
                    None => {},
                },
                Err(e) => {
                    proof {
                        lemma_norm_after_defer(self0, *self, work0, pb@);
                        assert(self.block_tree@ == self0.block_tree@);
                        assert(self.block_statuses@ == self0.block_statuses@);
                        assert(self.block_tree@.subrange(0, self0.block_tree@.len() as int)
                            =~= self0.block_tree@);
                        assert(self.block_statuses@.subrange(0, self0.block_tree@.len() as int)
                            =~= self0.block_statuses@);
                        lemma_tree_extends_trans(*old(self), self0, *self);
                    }
                },
            }
        }
    }
}

} // verus!

verus! {

impl SkovData {
    /// Takes the waiting list stored under `h` in the orphan queue, if any.
    #[verifier::rlimit(100)]
    fn take_orphan_waiters(&mut self, h: &Vec<u8>) -> (r: Vec<PendingBlock>)
        requires
            old(self).wf_core(),
        ensures
            final(self).wf_core(),
            final(self).block_tree@ == old(self).block_tree@,
            final(self).block_statuses@ == old(self).block_statuses@,
            final(self).awaiting_last_finalized@ == old(self).awaiting_last_finalized@,
            final(self).finalization_list@ == old(self).finalization_list@,
            final(self).last_fin_pos == old(self).last_fin_pos,
            final(self).genesis_idx == old(self).genesis_idx,
            forall|j: int| 0 <= j < r@.len() ==> (#[trigger] r@[j])@.wf(),
            keys_dropped_to(old(self).orphan_blocks@, final(self).orphan_blocks@, h@),
            queued_count(final(self).orphan_blocks@) + r@.len() <= queued_count(
                old(self).orphan_blocks@,
            ),
    {
        let ghost s0 = self.orphan_blocks@;
        match queue_position(&self.orphan_blocks, h) {
            Some(pos) => {
                let entry = self.orphan_blocks.remove(pos);
                proof {
                    lemma_queued_count_remove(s0, pos as int);
                    assert(forall|i: int|
                        0 <= i < self.orphan_blocks@.len() ==> #[trigger] self.orphan_blocks@[i]
                            == if i < pos {
                            s0[i]
                        } else {
                            s0[i + 1]
                        });
                    assert(keys_dropped_to(s0, self.orphan_blocks@, h@)) by {
                        assert forall|i: int|
                            0 <= i < self.orphan_blocks@.len() implies (
                        #[trigger] self.orphan_blocks@[i]).0@ != h@ && exists|j: int|
                            0 <= j < s0.len() && (#[trigger] s0[j]).0@
                                == self.orphan_blocks@[i].0@ by {
                            if i < pos {
                                assert(s0[i].0@ != s0[pos as int].0@);
                                assert((s0[i]).0@ == self.orphan_blocks@[i].0@);
                            } else {
                                assert(s0[i + 1].0@ != s0[pos as int].0@);
                                assert((s0[i + 1]).0@ == self.orphan_blocks@[i].0@);
                            }
                        }
                    }
                    assert(self.wf_core());
                }
                entry.1
            },
            None => {
                proof {
                    assert(keys_dropped_to(s0, self.orphan_blocks@, h@)) by {
                        assert forall|i: int|
                            0 <= i < self.orphan_blocks@.len() implies (
                        #[trigger] self.orphan_blocks@[i]).0@ != h@ && exists|j: int|
                            0 <= j < s0.len() && (#[trigger] s0[j]).0@
                                == self.orphan_blocks@[i].0@ by {
                            assert((s0[i]).0@ == self.orphan_blocks@[i].0@);
                        }
                    }
                }
                Vec::new()
            },
        }
    }

    /// Takes the waiting list stored under `h` in the awaiting queue, if
    /// any.
    #[verifier::rlimit(100)]
    fn take_awaiting_waiters(&mut self, h: &Vec<u8>) -> (r: Vec<PendingBlock>)
        requires
            old(self).wf_core(),
        ensures
            final(self).wf_core(),
            final(self).block_tree@ == old(self).block_tree@,
            final(self).block_statuses@ == old(self).block_statuses@,
            final(self).orphan_blocks@ == old(self).orphan_blocks@,
            final(self).finalization_list@ == old(self).finalization_list@,
            final(self).last_fin_pos == old(self).last_fin_pos,
            final(self).genesis_idx == old(self).genesis_idx,
            forall|j: int| 0 <= j < r@.len() ==> (#[trigger] r@[j])@.wf(),
            keys_dropped_to(
                old(self).awaiting_last_finalized@,
                final(self).awaiting_last_finalized@,
                h@,
            ),
            queued_count(final(self).awaiting_last_finalized@) + r@.len() <= queued_count(
                old(self).awaiting_last_finalized@,
            ),
    {
        let ghost s0 = self.awaiting_last_finalized@;
        match queue_position(&self.awaiting_last_finalized, h) {
            Some(pos) => {
                let entry = self.awaiting_last_finalized.remove(pos);
                proof {
                    lemma_queued_count_remove(s0, pos as int);
                    assert(forall|i: int|
                        0 <= i < self.awaiting_last_finalized@.len()
                            ==> #[trigger] self.awaiting_last_finalized@[i] == if i < pos {
                            s0[i]
                        } else {
                            s0[i + 1]
                        });
                    assert(keys_dropped_to(s0, self.awaiting_last_finalized@, h@)) by {
                        assert forall|i: int|
                            0 <= i < self.awaiting_last_finalized@.len() implies (
                        #[trigger] self.awaiting_last_finalized@[i]).0@ != h@ && exists|j: int|
                            0 <= j < s0.len() && (#[trigger] s0[j]).0@
                                == self.awaiting_last_finalized@[i].0@ by {
                            if i < pos {
                                assert(s0[i].0@ != s0[pos as int].0@);
                                assert((s0[i]).0@ == self.awaiting_last_finalized@[i].0@);
                            } else {
                                assert(s0[i + 1].0@ != s0[pos as int].0@);
                                assert((s0[i + 1]).0@ == self.awaiting_last_finalized@[i].0@);
                            }
                        }
                    }
                    assert(self.wf_core());
                }
                entry.1
            },
            None => {
                proof {
                    assert(keys_dropped_to(s0, self.awaiting_last_finalized@, h@)) by {
                        assert forall|i: int|
                            0 <= i < self.awaiting_last_finalized@.len() implies (
                        #[trigger] self.awaiting_last_finalized@[i]).0@ != h@ && exists|j: int|
                            0 <= j < s0.len() && (#[trigger] s0[j]).0@
                                == self.awaiting_last_finalized@[i].0@ by {
                            assert((s0[i]).0@ == self.awaiting_last_finalized@[i].0@);
                        }
                    }
                }
                Vec::new()
            },
        }
    }

    /// Re-offers every pending block keyed on a hash that just became
    /// satisfiable, starting from `start`, until no admission occurs.
    /// Orphans are re-offered before blocks awaiting their last-finalized
    /// block; within a list the order is first-in, first-out.
    #[verifier::rlimit(100)]
    fn drain_waiters(&mut self, start: Vec<u8>)
        requires
            old(self).wf_core(),
            old(self).has_genesis(),
            forall|i: int|
                0 <= i < old(self).orphan_blocks@.len() ==> !old(self).tree_contains(
                    (#[trigger] old(self).orphan_blocks@[i]).0@,
                ) || old(self).orphan_blocks@[i].0@ == start@,
            forall|i: int|
                0 <= i < old(self).awaiting_last_finalized@.len() ==> (
                #[trigger] old(self).awaiting_last_finalized@[i]).0@ != old(
                    self,
                ).last_finalized_hash() || old(self).awaiting_last_finalized@[i].0@ == start@,
        ensures
            final(self).wf(),
            final(self).has_genesis(),
            final(self).finalization_list@ == old(self).finalization_list@,
            final(self).last_fin_pos == old(self).last_fin_pos,
            final(self).genesis_idx == old(self).genesis_idx,
            tree_extends(*old(self), *final(self)),
            final(self).last_finalized_hash() == old(self).last_finalized_hash(),
    {
        let mut work: Vec<Vec<u8>> = Vec::new();
        work.push(start);
        proof {
            assert(self.block_tree@.subrange(0, self.block_tree@.len() as int)
                =~= self.block_tree@);
            assert(self.block_statuses@.subrange(0, self.block_tree@.len() as int)
                =~= self.block_statuses@);
        }
        proof {
            assert forall|i: int|
                0 <= i < self.orphan_blocks@.len() implies !self.tree_contains(
                (#[trigger] self.orphan_blocks@[i]).0@,
            ) || work_contains(work@, self.orphan_blocks@[i].0@) by {
                if self.tree_contains(self.orphan_blocks@[i].0@) {
                    assert((work@[0])@ == self.orphan_blocks@[i].0@);
                }
            }
            assert forall|i: int|
                0 <= i < self.awaiting_last_finalized@.len() implies (
            #[trigger] self.awaiting_last_finalized@[i]).0@ != self.last_finalized_hash()
                || work_contains(work@, self.awaiting_last_finalized@[i].0@) by {
                if self.awaiting_last_finalized@[i].0@ == self.last_finalized_hash() {
                    assert((work@[0])@ == self.awaiting_last_finalized@[i].0@);
                }
            }
        }
        while work.len() > 0
            invariant
                self.wf_core(),
                self.has_genesis(),
                self.finalization_list@ == old(self).finalization_list@,
                self.last_fin_pos == old(self).last_fin_pos,
                self.genesis_idx == old(self).genesis_idx,
                tree_extends(*old(self), *self),
                self.last_finalized_hash() == old(self).last_finalized_hash(),
                orphan_norm_except(*self, work@),
                awaiting_norm_except(*self, work@),
            decreases 2 * (queued_count(self.orphan_blocks@) + queued_count(
                self.awaiting_last_finalized@,
            )) + work@.len(),
        {
            let ghost m_start = 2 * (queued_count(self.orphan_blocks@) + queued_count(
                self.awaiting_last_finalized@,
            )) + work@.len();
            let ghost work_before = work@;
            let h = work.remove(0);
            proof {
                assert(h == work_before[0]);
                assert(forall|j: int|
                    0 <= j < work@.len() ==> #[trigger] work@[j] == work_before[j + 1]);
            }
            let ghost orphan_pre = self.orphan_blocks@;
            let ghost awaiting_pre = self.awaiting_last_finalized@;
            let mut to_offer = self.take_orphan_waiters(&h);
            let mut rest = self.take_awaiting_waiters(&h);
            to_offer.append(&mut rest);
            proof {
                assert forall|i: int|
                    0 <= i < self.orphan_blocks@.len() implies !self.tree_contains(
                    (#[trigger] self.orphan_blocks@[i]).0@,
                ) || work_contains(work@, self.orphan_blocks@[i].0@) by {
                    let k = self.orphan_blocks@[i].0@;
                    if self.tree_contains(k) {
                        let j = choose|j: int|
                            0 <= j < orphan_pre.len() && (#[trigger] orphan_pre[j]).0@ == k;
                        assert(work_contains(work_before, k));
                        let jj = choose|jj: int|
                            0 <= jj < work_before.len() && (#[trigger] work_before[jj])@ == k;
                        if jj == 0 {
                            assert(h@ == k);
                            assert(false);
                        } else {
                            assert(work@[jj - 1] == work_before[jj]);
                        }
                    }
                }
                assert forall|i: int|
                    0 <= i < self.awaiting_last_finalized@.len() implies (
                #[trigger] self.awaiting_last_finalized@[i]).0@ != self.last_finalized_hash()
                    || work_contains(work@, self.awaiting_last_finalized@[i].0@) by {
                    let k = self.awaiting_last_finalized@[i].0@;
                    if k == self.last_finalized_hash() {
                        let j = choose|j: int|
                            0 <= j < awaiting_pre.len() && (#[trigger] awaiting_pre[j]).0@ == k;
                        assert(work_contains(work_before, k));
                        let jj = choose|jj: int|
                            0 <= jj < work_before.len() && (#[trigger] work_before[jj])@ == k;
                        if jj == 0 {
                            assert(h@ == k);
                            assert(false);
                        } else {
                            assert(work@[jj - 1] == work_before[jj]);
                        }
                    }
                }
            }
            let ghost self_mid = *self;
            self.reoffer_all(to_offer, &mut work);
            proof {
                lemma_tree_extends_trans(*old(self), self_mid, *self);
                assert(2 * (queued_count(self.orphan_blocks@) + queued_count(
                    self.awaiting_last_finalized@,
                )) + work@.len() < m_start);
            }
        }
        proof {
            assert(self.queues_normalized());
        }
    }
}

} // verus!

verus! {

impl SkovData {
    /// Whether the finalization list already holds this record, or another
    /// record at the same index.
    fn scan_finalization_list(&self, record: &FinalizationRecord) -> (r: (bool, bool))
        ensures
            r.0 == contains_record(self.finalization_list@, record@),
            r.1 == contains_fin_index(self.finalization_list@, record@.index),
    {
        let mut dup = false;
        let mut conflict = false;
        let n = self.finalization_list.len();
        let mut k: usize = 0;
        while k < n
            invariant
                k <= n,
                n == self.finalization_list@.len(),
                dup == contains_record(self.finalization_list@.subrange(0, k as int), record@),
                conflict == contains_fin_index(
                    self.finalization_list@.subrange(0, k as int),
                    record@.index,
                ),
            decreases n - k,
        {
            let ghost pre = self.finalization_list@.subrange(0, k as int);
            if record_eq(&self.finalization_list[k].0, record) {
                dup = true;
            }
            if self.finalization_list[k].0.index == record.index {
                conflict = true;
            }
            k = k + 1;
            proof {
                let cur = self.finalization_list@.subrange(0, k as int);
                assert(forall|j: int| 0 <= j < k - 1 ==> #[trigger] cur[j] == pre[j]);
                assert(cur[k - 1] == self.finalization_list@[k - 1]);
                if dup {
                    assert(contains_record(cur, record@));
                } else {
                    assert(forall|j: int| 0 <= j < k ==> (#[trigger] cur[j]).0@ != record@);
                }
                if conflict {
                    assert(contains_fin_index(cur, record@.index));
                } else {
                    assert(forall|j: int|
                        0 <= j < k ==> (#[trigger] cur[j]).0@.index != record@.index);
                }
            }
        }
        proof {
            assert(self.finalization_list@.subrange(0, n as int) =~= self.finalization_list@);
        }
        (dup, conflict)
    }

    /// Admits a block, queueing it instead when its parent is missing or its
    /// declared last-finalized block is stale, and re-offers every block a
    /// successful admission unblocks. Returns the previous occupant of the
    /// block's slot, which is always `None`: an already-present block is
    /// left untouched.
    #[verifier::rlimit(100)]
    pub fn add_block(&mut self, pending_block: PendingBlock) -> (r: Result<
        Option<(BlockPtr, BlockStatus)>,
        SkovError,
    >)
        requires
            old(self).wf(),
            old(self).has_genesis(),
            pending_block@.wf(),
        ensures
            final(self).wf(),
            final(self).has_genesis(),
            final(self).finalization_list@ == old(self).finalization_list@,
            final(self).last_fin_pos == old(self).last_fin_pos,
            final(self).last_finalized_hash() == old(self).last_finalized_hash(),
            tree_extends(*old(self), *final(self)),
            match r {
                Ok(prev) => {
                    &&& prev is None
                    &&& (old(self).tree_contains(pending_block@.hash) ==> final(self).block_tree@
                        == old(self).block_tree@ && final(self).orphan_blocks@ == old(
                        self,
                    ).orphan_blocks@ && final(self).awaiting_last_finalized@ == old(
                        self,
                    ).awaiting_last_finalized@)
                    &&& (!old(self).tree_contains(pending_block@.hash) ==> {
                        &&& old(self).tree_contains(pending_block@.block.pointer)
                        &&& pending_block@.block.last_finalized == old(
                            self,
                        ).last_finalized_hash()
                        &&& final(self).tree_contains(pending_block@.hash)
                        &&& final(self).status_of(pending_block@.hash) == BlockStatus::Alive
                        &&& final(self).block_tree@[old(self).block_tree@.len() as int]@.hash
                            == pending_block@.hash
                    })
                },
                Err(e) => {
                    &&& !old(self).tree_contains(pending_block@.hash)
                    &&& final(self).block_tree@ == old(self).block_tree@
                    &&& final(self).block_statuses@ == old(self).block_statuses@
                    &&& e != SkovError::AlreadyInitialized
                    &&& (e == SkovError::AwaitingParent ==> {
                        &&& !old(self).tree_contains(pending_block@.block.pointer)
                        &&& final(self).awaiting_last_finalized@ == old(
                            self,
                        ).awaiting_last_finalized@
                        &&& (forall|k: Seq<u8>|
                            #[trigger] waiters_at(final(self).orphan_blocks@, k) == if k
                                == pending_block@.block.pointer {
                                waiters_at(old(self).orphan_blocks@, k).push(pending_block@)
                            } else {
                                waiters_at(old(self).orphan_blocks@, k)
                            })
                    })
                    &&& (e == SkovError::AwaitingLastFinalized ==> {
                        &&& old(self).tree_contains(pending_block@.block.pointer)
                        &&& pending_block@.block.last_finalized != old(self).last_finalized_hash()
                        &&& final(self).orphan_blocks@ == old(self).orphan_blocks@
                        &&& (forall|k: Seq<u8>|
                            #[trigger] waiters_at(final(self).awaiting_last_finalized@, k) == if k
                                == pending_block@.block.last_finalized {
                                waiters_at(old(self).awaiting_last_finalized@, k).push(
                                    pending_block@,
                                )
                            } else {
                                waiters_at(old(self).awaiting_last_finalized@, k)
                            })
                    })
                },
            },
    {
        let ghost pbv = pending_block@;
        match self.try_link(pending_block) {
            Ok(admitted) => match admitted {
                Some(h) => {
                    let ghost mid = *self;
                    let ghost n0 = old(self).block_tree@.len() as int;
                    proof {
                        assert forall|i: int|
                            0 <= i < mid.orphan_blocks@.len() implies !mid.tree_contains(
                            (#[trigger] mid.orphan_blocks@[i]).0@,
                        ) || mid.orphan_blocks@[i].0@ == h@ by {
                            let k = mid.orphan_blocks@[i].0@;
                            if mid.tree_contains(k) {
                                let w = mid.tree_index_of(k);
                                assert(mid.block_tree@[w]@.hash == k);
                                if w < n0 {
                                    assert(old(self).block_tree@[w]@.hash == k);
                                    assert(old(self).tree_contains(k));
                                    assert(!old(self).tree_contains(
                                        old(self).orphan_blocks@[i].0@,
                                    ));
                                    assert(false);
                                } else {
                                    assert(k == pbv.hash);
                                }
                            }
                        }
                    }
                    self.drain_waiters(h);
                    proof {
                        assert forall|i: int|
                            0 <= i < n0 implies mid.block_tree@[i] == old(self).block_tree@[i]
                            && mid.block_statuses@[i] == old(self).block_statuses@[i] by {
                            assert(mid.block_tree@[i] == old(self).block_tree@[i]);
                        }
                        assert(mid.block_tree@.subrange(0, n0) =~= old(self).block_tree@);
                        assert(mid.block_statuses@.subrange(0, n0) =~= old(
                            self,
                        ).block_statuses@);
                        lemma_tree_extends_trans(*old(self), mid, *self);
                        lemma_tree_extends_index(mid, *self, n0);
                        assert(self.block_tree@[n0]@.hash == pbv.hash);
                        assert(self.tree_contains(pbv.hash));
                        let w = self.tree_index_of(pbv.hash);
                        if w != n0 {
                            assert(self.block_tree@[w]@.hash == self.block_tree@[n0]@.hash);
                            assert(false);
                        }
                        assert(self.block_statuses@[n0] == mid.block_statuses@[n0]);
                        assert(self.status_of(pbv.hash) == BlockStatus::Alive);
                    }
                    Ok(None)
                },
                None => {
                    proof {
                        assert(self.block_tree@.subrange(0, self.block_tree@.len() as int)
                            =~= self.block_tree@);
                        assert(self.block_statuses@.subrange(0, self.block_tree@.len() as int)
                            =~= self.block_statuses@);
                    }
                    Ok(None)
                },
            },
            Err(e) => {
                proof {
                    assert forall|i: int|
                        0 <= i < self.orphan_blocks@.len() implies !self.tree_contains(
                        (#[trigger] self.orphan_blocks@[i]).0@,
                    ) by {
                        let k = self.orphan_blocks@[i].0@;
                        if self.tree_contains(k) {
                            assert(old(self).tree_contains(k));
                            if e == SkovError::AwaitingParent {
                                if k == pbv.block.pointer {
                                    assert(!old(self).tree_contains(pbv.block.pointer));
                                    assert(false);
                                }
                                let j = choose|j: int|
                                    0 <= j < old(self).orphan_blocks@.len() && (
                                    #[trigger] old(self).orphan_blocks@[j]).0@ == k;
                                assert(!old(self).tree_contains(old(self).orphan_blocks@[j].0@));
                                assert(false);
                            } else {
                                assert(self.orphan_blocks@ == old(self).orphan_blocks@);
                                assert(!old(self).tree_contains(old(self).orphan_blocks@[i].0@));
                                assert(false);
                            }
                        }
                    }
                    assert forall|i: int|
                        0 <= i < self.awaiting_last_finalized@.len() implies (
                    #[trigger] self.awaiting_last_finalized@[i]).0@
                        != self.last_finalized_hash() by {
                        let k = self.awaiting_last_finalized@[i].0@;
                        if k == self.last_finalized_hash() {
                            if e == SkovError::AwaitingLastFinalized {
                                if k == pbv.block.last_finalized {
                                    assert(pbv.block.last_finalized != old(
                                        self,
                                    ).last_finalized_hash());
                                    assert(false);
                                }
                                let j = choose|j: int|
                                    0 <= j < old(self).awaiting_last_finalized@.len() && (
                                    #[trigger] old(self).awaiting_last_finalized@[j]).0@ == k;
                                assert(old(self).awaiting_last_finalized@[j].0@ != old(
                                    self,
                                ).last_finalized_hash());
                                assert(false);
                            } else {
                                assert(self.awaiting_last_finalized@ == old(
                                    self,
                                ).awaiting_last_finalized@);
                                assert(old(self).awaiting_last_finalized@[i].0@ != old(
                                    self,
                                ).last_finalized_hash());
                                assert(false);
                            }
                        }
                    }
                    assert(self.block_tree@.subrange(0, self.block_tree@.len() as int)
                        =~= self.block_tree@);
                    assert(self.block_statuses@.subrange(0, self.block_tree@.len() as int)
                        =~= self.block_statuses@);
                }
                Err(e)
            },
        }
    }
}

} // verus!

verus! {

impl SkovData {
    /// Records a finalization: the named block becomes `Finalized`; the
    /// record joins the list unless it, or another record at its index, is
    /// already there; on acceptance every live block at or below the newly
    /// finalized height that is not one of its ancestors dies, and blocks
    /// waiting on the newly finalized block are re-offered. Returns whether
    /// the record was added.
    #[verifier::rlimit(100)]
    pub fn add_finalization(&mut self, record: FinalizationRecord) -> (r: bool)
        requires
            old(self).wf(),
            old(self).has_genesis(),
            old(self).tree_contains(record@.block_pointer),
        ensures
            final(self).wf(),
            final(self).has_genesis(),
            blocks_extend(*old(self), *final(self)),
            r == (!contains_record(old(self).finalization_list@, record@) && !contains_fin_index(
                old(self).finalization_list@,
                record@.index,
            )),
            contains_record(old(self).finalization_list@, record@) ==> final(self).block_tree@
                == old(self).block_tree@ && final(self).block_statuses@ == old(
                self,
            ).block_statuses@ && final(self).finalization_list@ == old(self).finalization_list@
                && final(self).orphan_blocks@ == old(self).orphan_blocks@ && final(self).awaiting_last_finalized@ == old(self).awaiting_last_finalized@ && final(self).last_fin_pos == old(self).last_fin_pos,
            !contains_record(old(self).finalization_list@, record@) && contains_fin_index(
                old(self).finalization_list@,
                record@.index,
            ) ==> final(self).block_tree@ == old(self).block_tree@ && final(self).block_statuses@ == old(self).block_statuses@.update(
                old(self).tree_index_of(record@.block_pointer),
                BlockStatus::Finalized,
            ) && final(self).finalization_list@ == old(self).finalization_list@ && final(self).orphan_blocks@ == old(self).orphan_blocks@ && final(self).awaiting_last_finalized@
                == old(self).awaiting_last_finalized@ && final(self).last_fin_pos == old(
                self,
            ).last_fin_pos,
            r ==> {
                &&& final(self).finalization_list@.len() == old(self).finalization_list@.len() + 1
                &&& (forall|k: int|
                    0 <= k < old(self).finalization_list@.len() ==> #[trigger] final(self).finalization_list@[k] == old(self).finalization_list@[k])
                &&& final(self).finalization_list@[old(self).finalization_list@.len() as int].0@
                    == record@
                &&& final(self).finalization_list@[old(self).finalization_list@.len() as int].1
                    as int == old(self).tree_index_of(record@.block_pointer)
                &&& final(self).spec_last_finalized_record() == if record@.index > old(
                    self,
                ).spec_last_finalized_record().index {
                    record@
                } else {
                    old(self).spec_last_finalized_record()
                }
                &&& (forall|i: int|
                    0 <= i < old(self).block_tree@.len() ==> #[trigger] final(self).block_statuses@[i] == {
                        let idx = old(self).tree_index_of(record@.block_pointer);
                        let st1 = old(self).block_statuses@.update(idx, BlockStatus::Finalized);
                        if st1[i] == BlockStatus::Alive && old(self).block_tree@[i]@.height <= old(
                            self,
                        ).block_tree@[idx]@.height && !spec_is_ancestor(
                            old(self).block_tree@,
                            idx,
                            i,
                        ) {
                            BlockStatus::Dead
                        } else {
                            st1[i]
                        }
                    })
            },
            final(self).spec_last_finalized_record().index >= old(
                self,
            ).spec_last_finalized_record().index,
    {
        let ghost recv = record@;
        let ghost old_s = *old(self);
        let idx = match self.find_block_index(&record.block_pointer) {
            Some(i) => i,
            None => {
                proof {
                    assert(false);
                }
                unreached()
            },
        };
        let (dup, conflict) = self.scan_finalization_list(&record);
        let ghost st_pre = self.block_statuses@;
        self.block_statuses[idx] = BlockStatus::Finalized;
        proof {
            assert(self.block_statuses@ =~= st_pre.update(idx as int, BlockStatus::Finalized));
            assert forall|k: int|
                0 <= k < self.finalization_list@.len() implies (
            #[trigger] self.finalization_list@[k]).1 < self.tree_len()
                && self.block_statuses@[self.finalization_list@[k].1 as int]
                == BlockStatus::Finalized && self.finalization_list@[k].0@.block_pointer
                == self.block_tree@[self.finalization_list@[k].1 as int]@.hash by {
                assert(st_pre[self.finalization_list@[k].1 as int] == BlockStatus::Finalized);
            }
            assert(self.wf());
        }
        if dup {
            proof {
                let k = choose|k: int|
                    0 <= k < old_s.finalization_list@.len() && (
                    #[trigger] old_s.finalization_list@[k]).0@ == recv;
                let fk = old_s.finalization_list@[k];
                assert(old_s.block_tree@[fk.1 as int]@.hash == recv.block_pointer);
                assert(old_s.block_tree@[idx as int]@.hash == recv.block_pointer);
                if fk.1 as int != idx as int {
                    assert(false);
                }
                assert(st_pre[idx as int] == BlockStatus::Finalized);
                assert(self.block_statuses@ =~= st_pre);
                assert(self.block_tree@.subrange(0, self.block_tree@.len() as int)
                    =~= self.block_tree@);
                assert(self.block_statuses@.subrange(0, self.block_tree@.len() as int)
                    =~= self.block_statuses@);
            }
            return false;
        }
        if conflict {
            proof {
                assert(self.block_tree@.subrange(0, self.block_tree@.len() as int)
                    =~= self.block_tree@);
                assert(self.block_statuses@.subrange(0, self.block_tree@.len() as int)
                    =~= self.block_statuses@);
            }
            return false;
        }
        let h = self.block_tree[idx].height;
        let rec_index = record.index;
        let cur_max = self.finalization_list[self.last_fin_pos].0.index;
        let newpos = self.finalization_list.len();
        self.finalization_list.push((record, idx));
        if rec_index > cur_max {
            self.last_fin_pos = newpos;
        }
        proof {
            let f = self.finalization_list@;
            assert(f[newpos as int].0@ == recv && f[newpos as int].1 == idx);
            assert(forall|k: int|
                0 <= k < newpos ==> #[trigger] f[k] == old_s.finalization_list@[k]);
            assert forall|k: int, l: int|
                0 <= k < l < f.len() implies (#[trigger] f[k]).0@.index != (
            #[trigger] f[l]).0@.index by {
                if l == newpos as int {
                    assert(!contains_fin_index(old_s.finalization_list@, recv.index));
                    assert(old_s.finalization_list@[k].0@.index != recv.index);
                }
            }
            assert forall|k: int|
                0 <= k < f.len() implies (#[trigger] f[k]).0@.index
                    <= f[self.last_fin_pos as int].0@.index by {
                if rec_index > cur_max {
                    if k != newpos as int {
                        assert(f[k].0@.index <= cur_max);
                    }
                } else {
                    if k != newpos as int {
                        assert(f[k].0@.index
                            <= old_s.finalization_list@[old_s.last_fin_pos as int].0@.index);
                    }
                }
            }
            assert(self.wf_core());
        }
        let ghost mid1 = *self;
        self.prune_at(idx, h);
        let start = copy_bytes(&self.block_tree[idx].hash);
        let ghost mid2 = *self;
        proof {
            assert(mid2.last_finalized_hash() == self.block_tree@[
                self.finalization_list@[self.last_fin_pos as int].1 as int
            ]@.hash);
            assert forall|i: int|
                0 <= i < mid2.awaiting_last_finalized@.len() implies (
            #[trigger] mid2.awaiting_last_finalized@[i]).0@ != mid2.last_finalized_hash()
                || mid2.awaiting_last_finalized@[i].0@ == start@ by {
                let k = mid2.awaiting_last_finalized@[i].0@;
                if k == mid2.last_finalized_hash() && k != start@ {
                    if rec_index > cur_max {
                        assert(mid2.last_finalized_hash() == self.block_tree@[idx as int]@.hash);
                        assert(false);
                    } else {
                        assert(mid2.last_finalized_hash() == old_s.last_finalized_hash());
                        assert(old_s.awaiting_last_finalized@[i].0@
                            != old_s.last_finalized_hash());
                        assert(false);
                    }
                }
            }
        }
        self.drain_waiters(start);
        proof {
            assert(mid2.block_tree@.subrange(0, mid2.block_tree@.len() as int)
                =~= mid2.block_tree@);
            assert(old_s.block_statuses@.len() == old_s.block_tree@.len());
            assert(mid2.block_tree@ == old_s.block_tree@);
            assert(mid2.block_statuses@.subrange(0, mid2.block_tree@.len() as int)
                =~= mid2.block_statuses@);
            assert(self.block_tree@.subrange(0, old_s.block_tree@.len() as int)
                =~= old_s.block_tree@);
            assert forall|i: int|
                0 <= i < old_s.block_tree@.len() implies #[trigger] self.block_statuses@[i]
                == mid2.block_statuses@[i] by {
                lemma_tree_extends_index(mid2, *self, i);
            }
            assert forall|k: int|
                0 <= k < old_s.finalization_list@.len() implies #[trigger] self.finalization_list@[k]
                == old_s.finalization_list@[k] by {
            }
            if idx as int != old_s.tree_index_of(recv.block_pointer) {
                assert(old_s.block_tree@[old_s.tree_index_of(recv.block_pointer)]@.hash
                    == recv.block_pointer);
                assert(false);
            }
        }
        true
    }
}

} // verus!
