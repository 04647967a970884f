//! The leaf storage contract and the sandbox interface the runtime drives.
//!
//! A `Storage` is the durable, versioned home of leaves. Opening it yields a
//! `LeafStorage`: a view that buffers stores and spent-marks until `commit`
//! publishes them under a new monotonic version. Reverting a `Storage` wipes
//! every effect committed after the given version.

use vstd::prelude::*;

use crate::leaf::{Leaf, LeafView};
use crate::script::Script;
use crate::types::{Bytes, IndexKey, LeafId, LeafIdView};
use crate::unsigned_tx::UnsignedTransaction;

verus! {

/// Failures of a storage backend.
#[derive(Debug, Clone, Copy, PartialEq, Eq, Structural)]
pub enum StorageError {
    /// Something the backend needed was not there.
    NotFound,
    /// The backend refused a conflicting write or commit.
    Conflict,
}

/// A leaf together with its id, as handed out by the secondary index.
#[derive(Debug)]
pub struct LeafWithId {
    pub leaf_id: LeafId,
    pub leaf: Leaf,
}

/// What the durable store remembers of one leaf: its value, the version
/// that stored it, and the version that spent it, if any.
pub struct StoredLeafView {
    pub leaf: LeafView,
    pub stored_at: u64,
    pub spent_at: Option<u64>,
}

/// The plain leaves of a committed map.
pub open spec fn leaves_of(m: Map<LeafIdView, StoredLeafView>) -> Map<LeafIdView, LeafView> {
    Map::new(|id: LeafIdView| m.contains_key(id), |id: LeafIdView| m[id].leaf)
}

/// The spent ids of a committed map.
pub open spec fn spent_of(m: Map<LeafIdView, StoredLeafView>) -> Set<LeafIdView> {
    Set::new(|id: LeafIdView| m.contains_key(id) && m[id].spent_at is Some)
}

/// A committed map with every effect after `v` removed: leaves stored later
/// vanish, and spent marks set later come off.
pub open spec fn revert_map(m: Map<LeafIdView, StoredLeafView>, v: u64) -> Map<
    LeafIdView,
    StoredLeafView,
> {
    Map::new(
        |id: LeafIdView| m.contains_key(id) && m[id].stored_at <= v,
        |id: LeafIdView|
            StoredLeafView {
                leaf: m[id].leaf,
                stored_at: m[id].stored_at,
                spent_at: match m[id].spent_at {
                    Option::Some(s) => if s <= v {
                        Option::Some(s)
                    } else {
                        Option::None
                    },
                    Option::None => Option::None,
                },
            },
    )
}

/// A committed map with the spent entries compacted away.
pub open spec fn purge_map(m: Map<LeafIdView, StoredLeafView>) -> Map<LeafIdView, StoredLeafView> {
    Map::new(|id: LeafIdView| m.contains_key(id) && m[id].spent_at is None, |id: LeafIdView| m[id])
}

/// What a view's buffered writes make of a base map once committed at `v`:
/// pending stores land (as fresh, unspent leaves) at `v`, pending spent
/// marks land at `v` where the leaf was not already spent.
pub open spec fn commit_map(
    base: Map<LeafIdView, StoredLeafView>,
    stores: Map<LeafIdView, LeafView>,
    spends: Set<LeafIdView>,
    v: u64,
) -> Map<LeafIdView, StoredLeafView> {
    Map::new(
        |id: LeafIdView| base.contains_key(id) || stores.contains_key(id),
        |id: LeafIdView|
            StoredLeafView {
                leaf: if stores.contains_key(id) {
                    stores[id]
                } else {
                    base[id].leaf
                },
                stored_at: if stores.contains_key(id) {
                    v
                } else {
                    base[id].stored_at
                },
                spent_at: if !stores.contains_key(id) && base.contains_key(id) && base[id].spent_at
                    is Some {
                    base[id].spent_at
                } else if spends.contains(id) {
                    Option::Some(v)
                } else {
                    Option::None
                },
            },
    )
}

/// The leaves a view shows: the base leaves with the pending stores laid
/// over them.
pub open spec fn merged_leaves(
    base: Map<LeafIdView, StoredLeafView>,
    stores: Map<LeafIdView, LeafView>,
) -> Map<LeafIdView, LeafView> {
    Map::new(
        |id: LeafIdView| base.contains_key(id) || stores.contains_key(id),
        |id: LeafIdView|
            if stores.contains_key(id) {
                stores[id]
            } else {
                base[id].leaf
            },
    )
}

/// A storage view for one batch: point lookup and secondary-index lookup
/// over the visible leaves, with stores and spent-marks buffered until
/// commit.
///
/// `leaves` and `spent` are what readers see; `base`, `pending_stores` and
/// `pending_spends` say how that picture splits into the committed snapshot
/// and the buffered writes, which is what `commit` publishes.
pub trait LeafStorage: Sized {
    /// Every leaf a reader can see, spent or not, keyed by id.
    spec fn leaves(&self) -> Map<LeafIdView, LeafView>;

    /// The ids marked spent, committed or pending.
    spec fn spent(&self) -> Set<LeafIdView>;

    /// The committed snapshot this view was opened over.
    spec fn base(&self) -> Map<LeafIdView, StoredLeafView>;

    /// The version the snapshot was taken at.
    spec fn base_version(&self) -> u64;

    /// The buffered stores.
    spec fn pending_stores(&self) -> Map<LeafIdView, LeafView>;

    /// The buffered spent-marks.
    spec fn pending_spends(&self) -> Set<LeafIdView>;

    /// The view's internal invariant.
    spec fn inv(&self) -> bool;

    /// What readers see is the base with the buffered writes laid over it.
    proof fn view_coherent(&self)
        requires
            self.inv(),
        ensures
            self.leaves() == merged_leaves(self.base(), self.pending_stores()),
            self.spent() == spent_of(self.base()).union(self.pending_spends()),
    ;

    /// Buffers a store. A later read sees the leaf; a later commit makes it
    /// durable. Storing an id again replaces the buffered leaf.
    fn store_leaf(&mut self, leaf_id: &LeafId, leaf: Leaf) -> (r: Result<(), StorageError>)
        requires
            old(self).inv(),
            leaf_id.wf(),
            leaf.wf(),
        ensures
            final(self).inv(),
            final(self).base() == old(self).base(),
            final(self).base_version() == old(self).base_version(),
            r is Ok ==> final(self).pending_stores() == old(self).pending_stores().insert(
                leaf_id@,
                leaf@,
            ) && final(self).pending_spends() == old(self).pending_spends(),
            r is Err ==> final(self).pending_stores() == old(self).pending_stores()
                && final(self).pending_spends() == old(self).pending_spends(),
    ;

    /// Point lookup over the visible leaves; spent leaves are still seen.
    fn get_leaf(&self, leaf_id: &LeafId) -> (r: Result<Option<Leaf>, StorageError>)
        requires
            self.inv(),
            leaf_id.wf(),
        ensures
            r matches Ok(found) ==> ((found matches Option::Some(l) ==> self.leaves().contains_key(
                leaf_id@,
            ) && l.wf() && l@ == self.leaves()[leaf_id@]) && (found is None
                ==> !self.leaves().contains_key(leaf_id@))),
    ;

    /// Whether the leaf is marked spent, committed or pending.
    fn is_leaf_spent(&self, leaf_id: &LeafId) -> (r: Result<bool, StorageError>)
        requires
            self.inv(),
            leaf_id.wf(),
        ensures
            r matches Ok(b) ==> b == self.spent().contains(leaf_id@),
    ;

    /// All visible leaves bearing the index key, each exactly once, in no
    /// particular order.
    fn get_leaf_by_index_key(&self, index_key: &IndexKey) -> (r: Result<
        Vec<LeafWithId>,
        StorageError,
    >)
        requires
            self.inv(),
            index_key.wf(),
        ensures
            r matches Ok(found) ==> ((forall|j: int|
                0 <= j < found@.len() ==> {
                    let p = #[trigger] found@[j];
                    &&& p.leaf_id.wf()
                    &&& p.leaf.wf()
                    &&& self.leaves().contains_key(p.leaf_id@)
                    &&& p.leaf@ == self.leaves()[p.leaf_id@]
                    &&& p.leaf@.index_key == index_key@
                }) && (forall|id: LeafIdView|
                self.leaves().contains_key(id) && (#[trigger] self.leaves()[id]).index_key
                    == index_key@ ==> exists|j: int|
                    0 <= j < found@.len() && (#[trigger] found@[j]).leaf_id@ == id) && (forall|
                j1: int,
                j2: int,
            |
                0 <= j1 < j2 < found@.len() ==> (#[trigger] found@[j1]).leaf_id@ != (
                #[trigger] found@[j2]).leaf_id@)),
    ;

    /// Buffers a spent-mark; idempotent. The leaf stays visible to
    /// `get_leaf`.
    fn mark_leaf_as_spent(&mut self, leaf_id: &LeafId) -> (r: Result<(), StorageError>)
        requires
            old(self).inv(),
            leaf_id.wf(),
        ensures
            final(self).inv(),
            final(self).base() == old(self).base(),
            final(self).base_version() == old(self).base_version(),
            final(self).pending_stores() == old(self).pending_stores(),
            r is Ok ==> final(self).pending_spends() == old(self).pending_spends().insert(leaf_id@),
            r is Err ==> final(self).pending_spends() == old(self).pending_spends(),
    ;

    /// Compacts away the committed leaves already marked spent. Buffered
    /// writes, whose version is yet to come, stay.
    fn purge_spent_leaves(&mut self) -> (r: Result<(), StorageError>)
        requires
            old(self).inv(),
        ensures
            final(self).inv(),
            final(self).base_version() == old(self).base_version(),
            final(self).pending_stores() == old(self).pending_stores(),
            final(self).pending_spends() == old(self).pending_spends(),
            r is Ok ==> final(self).base() == purge_map(old(self).base()),
            r is Err ==> final(self).base() == old(self).base(),
    ;
}

/// A storage view that can publish its buffered writes.
pub trait CommittableStorage: LeafStorage {
    /// The durable storage this view commits into.
    type Committed: Storage;

    /// Publishes the buffered writes under `version`, which must move
    /// forward from the snapshot's version, and hands back the durable
    /// storage. Dropping the view instead discards every buffered write.
    fn commit(self, version: u64) -> (r: Result<Self::Committed, StorageError>)
        requires
            self.inv(),
            version > self.base_version(),
        ensures
            r matches Ok(s) ==> s.inv() && s.version() == version && s.committed() == commit_map(
                self.base(),
                self.pending_stores(),
                self.pending_spends(),
                version,
            ),
    ;
}

/// The durable, versioned home of leaves.
pub trait Storage: Sized {
    /// The view type a batch works through. A usable storage also makes it
    /// committable back into `Self`; that bound stands where a batch runs.
    type LeafStorage: LeafStorage;

    /// Everything committed, with each leaf's store and spend versions.
    spec fn committed(&self) -> Map<LeafIdView, StoredLeafView>;

    /// The version of the last commit.
    spec fn version(&self) -> u64;

    /// The storage's internal invariant.
    spec fn inv(&self) -> bool;

    /// The version of the last commit.
    fn current_version(&self) -> (r: u64)
        requires
            self.inv(),
        ensures
            r == self.version(),
    ;

    /// Opens a view over the committed state for one batch.
    fn open_leaf_storage(&self) -> (r: Result<Self::LeafStorage, StorageError>)
        requires
            self.inv(),
        ensures
            r matches Ok(v) ==> v.inv() && v.base() == self.committed() && v.base_version()
                == self.version() && v.pending_stores() == Map::<LeafIdView, LeafView>::empty()
                && v.pending_spends() == Set::<LeafIdView>::empty(),
    ;

    /// Removes every effect committed at versions after `version`: leaves
    /// stored later vanish, spent marks set later come off.
    fn revert_to_version(&mut self, version: u64) -> (r: Result<(), StorageError>)
        requires
            old(self).inv(),
        ensures
            final(self).inv(),
            r is Ok ==> final(self).committed() == revert_map(old(self).committed(), version)
                && final(self).version() == (if version < old(self).version() {
                version
            } else {
                old(self).version()
            }),
            r is Err ==> final(self).committed() == old(self).committed() && final(self).version()
                == old(self).version(),
    ;
}

/// Failures of the script sandbox.
#[derive(Debug, Clone, Copy, PartialEq, Eq, Structural)]
pub enum SandboxError {
    /// The guest code did not compile into a module.
    CompileFailed,
    /// The guest trapped or returned a nonzero verdict.
    Trapped,
    /// The guest exports no entry point of the expected shape.
    MissingEntryPoint,
    /// The engine could not be built.
    EngineInit,
}

/// The sandboxed script engine the runtime drives. What guest code decides
/// cannot be specified here; the runtime only acts on pass or fail.
pub trait ScriptValidator {
    /// Runs a locking script against the transaction and the input's
    /// unlocker; pass is `Ok`.
    fn validate_script(&self, script: &Script, unsigned: &UnsignedTransaction, unlocker: &Bytes)
        -> Result<(), SandboxError>;

    /// Runs an operator's bytecode against the transaction; pass is `Ok`.
    fn validate_operator(
        &self,
        operator_code: &Bytes,
        operator_leaf_id: &LeafId,
        unsigned: &UnsignedTransaction,
    ) -> Result<(), SandboxError>;
}

} // verus!
