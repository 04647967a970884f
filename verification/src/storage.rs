//! An in-memory, versioned leaf store: the reference implementation of the
//! storage contract, with buffered batch views, commit, revert and purge.

use vstd::prelude::*;

use crate::collect::{
    dedup_pairs, ids_contains, ids_set, lemma_ids_set_push, lemma_pairs_map_contains,
    lemma_pairs_map_push, pairs_contains_key, pairs_lookup_last, pairs_map,
};
use crate::leaf::{Leaf, LeafView};
use crate::traits::{
    commit_map, merged_leaves, purge_map, revert_map, spent_of, CommittableStorage, LeafStorage,
    LeafWithId, Storage, StorageError, StoredLeafView,
};
use crate::types::{IndexKey, LeafId, LeafIdView};

verus! {

/// One committed record: a leaf, the version that stored it, and the version
/// that spent it, if any.
#[derive(Debug)]
pub struct StoredLeaf {
    pub id: LeafId,
    pub leaf: Leaf,
    pub stored_at: u64,
    pub spent_at: Option<u64>,
}

impl StoredLeaf {
    /// What the record says, without its id.
    pub open spec fn entry_view(&self) -> StoredLeafView {
        StoredLeafView { leaf: self.leaf@, stored_at: self.stored_at, spent_at: self.spent_at }
    }

    pub open spec fn wf(&self) -> bool {
        self.id.wf() && self.leaf.wf()
    }
}

/// The committed map a vector of records denotes; a later record overrides
/// an earlier one with the same id.
pub open spec fn entries_map(s: Seq<StoredLeaf>) -> Map<LeafIdView, StoredLeafView>
    decreases s.len(),
{
    if s.len() == 0 {
        Map::empty()
    } else {
        entries_map(s.drop_last()).insert(s.last().id@, s.last().entry_view())
    }
}

/// An id is in the map exactly when some record carries it.
pub proof fn lemma_entries_map_contains(s: Seq<StoredLeaf>, k: LeafIdView)
    ensures
        entries_map(s).contains_key(k) <==> exists|i: int| 0 <= i < s.len() && (#[trigger] s[i]).id@
            == k,
    decreases s.len(),
{
    if s.len() > 0 {
        lemma_entries_map_contains(s.drop_last(), k);
        if s.last().id@ == k {
            assert((s[s.len() - 1]).id@ == k);
        } else if entries_map(s).contains_key(k) {
            let i = choose|i: int|
                0 <= i < s.drop_last().len() && (#[trigger] s.drop_last()[i]).id@ == k;
            assert((s[i]).id@ == k);
        } else if exists|i: int| 0 <= i < s.len() && (#[trigger] s[i]).id@ == k {
            let i = choose|i: int| 0 <= i < s.len() && (#[trigger] s[i]).id@ == k;
            assert(i < s.len() - 1);
            assert((s.drop_last()[i]).id@ == k);
        }
    }
}

/// The record under an id is the last record that carries the id.
pub proof fn lemma_entries_map_value(s: Seq<StoredLeaf>, i: int)
    requires
        0 <= i < s.len(),
        forall|j: int| i < j < s.len() ==> (#[trigger] s[j]).id@ != s[i].id@,
    ensures
        entries_map(s).contains_key(s[i].id@),
        entries_map(s)[s[i].id@] == s[i].entry_view(),
    decreases s.len(),
{
    lemma_entries_map_contains(s, s[i].id@);
    if i == s.len() - 1 {
    } else {
        assert(s.last().id@ != s[i].id@);
        assert(forall|j: int| i < j < s.drop_last().len() ==> (#[trigger] s.drop_last()[j]).id@
            != s.drop_last()[i].id@);
        lemma_entries_map_value(s.drop_last(), i);
        assert(s.drop_last()[i] == s[i]);
    }
}

/// Appending one record inserts its id.
pub proof fn lemma_entries_map_push(s: Seq<StoredLeaf>, t: StoredLeaf)
    ensures
        entries_map(s.push(t)) == entries_map(s).insert(t.id@, t.entry_view()),
{
    assert(s.push(t).drop_last() =~= s);
    assert(s.push(t).last() == t);
}

/// The durable, versioned home of leaves, held in memory.
#[derive(Debug)]
pub struct MemoryStorage {
    entries: Vec<StoredLeaf>,
    version: u64,
}

impl MemoryStorage {
    /// An empty store at version zero.
    pub fn new() -> (r: Self)
        ensures
            r.inv(),
            r.committed() == Map::<LeafIdView, StoredLeafView>::empty(),
            r.version() == 0,
    {
        Self { entries: Vec::new(), version: 0 }
    }
}

impl Storage for MemoryStorage {
    type LeafStorage = MemoryLeafStorage;

    closed spec fn committed(&self) -> Map<LeafIdView, StoredLeafView> {
        entries_map(self.entries@)
    }

    closed spec fn version(&self) -> u64 {
        self.version
    }

    closed spec fn inv(&self) -> bool {
        &&& (forall|i: int| 0 <= i < self.entries@.len() ==> (#[trigger] self.entries@[i]).wf())
        &&& (forall|i: int, j: int|
            0 <= i < j < self.entries@.len() ==> (#[trigger] self.entries@[i]).id@ != (
            #[trigger] self.entries@[j]).id@)
    }

    fn current_version(&self) -> (r: u64) {
        self.version
    }

    fn open_leaf_storage(&self) -> (r: Result<MemoryLeafStorage, StorageError>)
        ensures
            r is Ok,
    {
        let n = self.entries.len();
        let mut base: Vec<StoredLeaf> = Vec::new();
        let mut i: usize = 0;
        while i < n
            invariant
                i <= n,
                self.inv(),
                n == self.entries@.len(),
                base@.len() == i,
                forall|j: int|
                    0 <= j < i ==> (#[trigger] base@[j]).id@ == self.entries@[j].id@
                        && base@[j].entry_view() == self.entries@[j].entry_view()
                        && base@[j].wf(),
            decreases n - i,
        {
            let e = &self.entries[i];
            base.push(
                StoredLeaf {
                    id: e.id.clone(),
                    leaf: e.leaf.clone(),
                    stored_at: e.stored_at,
                    spent_at: match e.spent_at {
                        Option::Some(v) => Option::Some(v),
                        Option::None => Option::None,
                    },
                },
            );
            i += 1;
        }
        proof {
            lemma_entries_map_congruent(base@, self.entries@);
        }
        Ok(
            MemoryLeafStorage {
                base,
                base_version: self.version,
                pending_stores: Vec::new(),
                pending_spends: Vec::new(),
            },
        )
    }

    fn revert_to_version(&mut self, version: u64) -> (r: Result<(), StorageError>)
        ensures
            r is Ok,
    {
        let ghost old_entries = self.entries@;
        let n = self.entries.len();
        let mut kept: Vec<StoredLeaf> = Vec::new();
        let mut i: usize = 0;
        proof {
            assert(old_entries.take(0) =~= Seq::<StoredLeaf>::empty());
            assert(entries_map(kept@) =~= revert_map(
                entries_map(old_entries.take(0)),
                version,
            ));
        }
        while i < n
            invariant
                i <= n,
                self.inv(),
                self == old(self),
                n == self.entries@.len(),
                old_entries == self.entries@,
                forall|j: int| 0 <= j < kept@.len() ==> (#[trigger] kept@[j]).wf(),
                forall|j1: int, j2: int|
                    0 <= j1 < j2 < kept@.len() ==> (#[trigger] kept@[j1]).id@ != (
                    #[trigger] kept@[j2]).id@,
                forall|j: int, k: int|
                    0 <= j < kept@.len() && 0 <= k < i ==> ((#[trigger] kept@[j]).id@ == (
                    #[trigger] old_entries[k]).id@ ==> true),
                forall|j: int|
                    0 <= j < kept@.len() ==> exists|k: int|
                        0 <= k < i && (#[trigger] kept@[j]).id@ == old_entries[k].id@,
                entries_map(kept@) == revert_map(entries_map(old_entries.take(i as int)), version),
            decreases n - i,
        {
            let e = &self.entries[i];
            proof {
                assert(old_entries.take(i as int + 1) =~= old_entries.take(i as int).push(
                    old_entries[i as int],
                ));
                lemma_entries_map_push(old_entries.take(i as int), old_entries[i as int]);
                lemma_entries_map_contains(old_entries.take(i as int), old_entries[i as int].id@);
            }
            if e.stored_at <= version {
                let kept_entry = StoredLeaf {
                    id: e.id.clone(),
                    leaf: e.leaf.clone(),
                    stored_at: e.stored_at,
                    spent_at: match e.spent_at {
                        Option::Some(s) => if s <= version {
                            Option::Some(s)
                        } else {
                            Option::None
                        },
                        Option::None => Option::None,
                    },
                };
                let ghost before = kept@;
                proof {
                    lemma_entries_map_contains(before, e.id@);
                }
                kept.push(kept_entry);
                proof {
                    lemma_entries_map_push(before, kept@.last());
                    assert(kept@.drop_last() =~= before);
                    assert(entries_map(kept@) =~= revert_map(
                        entries_map(old_entries.take(i as int + 1)),
                        version,
                    ));
                }
            } else {
                proof {
                    assert(entries_map(kept@) =~= revert_map(
                        entries_map(old_entries.take(i as int + 1)),
                        version,
                    ));
                }
            }
            i += 1;
        }
        proof {
            assert(old_entries.take(n as int) =~= old_entries);
        }
        self.entries = kept;
        if version < self.version {
            self.version = version;
        }
        Ok(())
    }
}

/// Two record vectors with the same ids and entry views denote the same map.
proof fn lemma_entries_map_congruent(a: Seq<StoredLeaf>, b: Seq<StoredLeaf>)
    requires
        a.len() == b.len(),
        forall|j: int|
            0 <= j < a.len() ==> (#[trigger] a[j]).id@ == b[j].id@ && a[j].entry_view()
                == b[j].entry_view(),
    ensures
        entries_map(a) == entries_map(b),
    decreases a.len(),
{
    if a.len() > 0 {
        assert(forall|j: int| 0 <= j < a.drop_last().len() ==> (#[trigger] a.drop_last()[j]).id@
            == b.drop_last()[j].id@ && a.drop_last()[j].entry_view()
            == b.drop_last()[j].entry_view());
        lemma_entries_map_congruent(a.drop_last(), b.drop_last());
        assert(a.last().id@ == b.last().id@ && a.last().entry_view() == b.last().entry_view());
    }
}

/// A batch's storage view: a snapshot of the committed records plus the
/// batch's buffered stores and spent-marks.
#[derive(Debug)]
pub struct MemoryLeafStorage {
    base: Vec<StoredLeaf>,
    base_version: u64,
    pending_stores: Vec<(LeafId, Leaf)>,
    pending_spends: Vec<LeafId>,
}

impl LeafStorage for MemoryLeafStorage {
    closed spec fn leaves(&self) -> Map<LeafIdView, LeafView> {
        merged_leaves(entries_map(self.base@), pairs_map(self.pending_stores@))
    }

    closed spec fn spent(&self) -> Set<LeafIdView> {
        spent_of(entries_map(self.base@)).union(ids_set(self.pending_spends@))
    }

    closed spec fn base(&self) -> Map<LeafIdView, StoredLeafView> {
        entries_map(self.base@)
    }

    closed spec fn base_version(&self) -> u64 {
        self.base_version
    }

    closed spec fn pending_stores(&self) -> Map<LeafIdView, LeafView> {
        pairs_map(self.pending_stores@)
    }

    closed spec fn pending_spends(&self) -> Set<LeafIdView> {
        ids_set(self.pending_spends@)
    }

    closed spec fn inv(&self) -> bool {
        &&& (forall|i: int| 0 <= i < self.base@.len() ==> (#[trigger] self.base@[i]).wf())
        &&& (forall|i: int, j: int|
            0 <= i < j < self.base@.len() ==> (#[trigger] self.base@[i]).id@ != (
            #[trigger] self.base@[j]).id@)
        &&& (forall|i: int|
            0 <= i < self.pending_stores@.len() ==> (#[trigger] self.pending_stores@[i]).0.wf()
                && self.pending_stores@[i].1.wf())
        &&& (forall|i: int|
            0 <= i < self.pending_spends@.len() ==> (#[trigger] self.pending_spends@[i]).wf())
    }

    proof fn view_coherent(&self) {
    }

    fn store_leaf(&mut self, leaf_id: &LeafId, leaf: Leaf) -> (r: Result<(), StorageError>)
        ensures
            r is Ok,
    {
        let ghost before = self.pending_stores@;
        self.pending_stores.push((leaf_id.clone(), leaf));
        proof {
            lemma_pairs_map_push(before, self.pending_stores@.last());
            assert(self.pending_stores@.drop_last() =~= before);
        }
        Ok(())
    }

    fn get_leaf(&self, leaf_id: &LeafId) -> (r: Result<Option<Leaf>, StorageError>)
        ensures
            r is Ok,
    {
        match pairs_lookup_last(&self.pending_stores, leaf_id) {
            Option::Some(l) => {
                proof {
                    assert(self.leaves().contains_key(leaf_id@));
                    assert(self.leaves()[leaf_id@] == l@);
                }
                return Ok(Option::Some(l));
            },
            Option::None => {
            },
        }
        let n = self.base.len();
        let mut i: usize = 0;
        while i < n
            invariant
                i <= n,
                self.inv(),
                leaf_id.wf(),
                n == self.base@.len(),
                !pairs_map(self.pending_stores@).contains_key(leaf_id@),
                forall|j: int| 0 <= j < i ==> (#[trigger] self.base@[j]).id@ != leaf_id@,
            decreases n - i,
        {
            if &self.base[i].id == leaf_id {
                proof {
                    assert(forall|j: int| i < j < self.base@.len() ==> (
                    #[trigger] self.base@[j]).id@ != self.base@[i as int].id@);
                    lemma_entries_map_value(self.base@, i as int);
                }
                return Ok(Option::Some(self.base[i].leaf.clone()));
            }
            i += 1;
        }
        proof {
            lemma_entries_map_contains(self.base@, leaf_id@);
        }
        Ok(Option::None)
    }

    fn is_leaf_spent(&self, leaf_id: &LeafId) -> (r: Result<bool, StorageError>)
        ensures
            r is Ok,
    {
        if ids_contains(&self.pending_spends, leaf_id) {
            return Ok(true);
        }
        let n = self.base.len();
        let mut i: usize = 0;
        while i < n
            invariant
                i <= n,
                self.inv(),
                leaf_id.wf(),
                n == self.base@.len(),
                !ids_set(self.pending_spends@).contains(leaf_id@),
                forall|j: int| 0 <= j < i ==> (#[trigger] self.base@[j]).id@ != leaf_id@,
            decreases n - i,
        {
            let e = &self.base[i];
            if &e.id == leaf_id {
                proof {
                    assert(forall|j: int| i < j < self.base@.len() ==> (
                    #[trigger] self.base@[j]).id@ != self.base@[i as int].id@);
                    lemma_entries_map_value(self.base@, i as int);
                }
                match e.spent_at {
                    Option::Some(_) => {
                        return Ok(true);
                    },
                    Option::None => {
                        return Ok(false);
                    },
                }
            }
            i += 1;
        }
        proof {
            lemma_entries_map_contains(self.base@, leaf_id@);
            assert(!entries_map(self.base@).contains_key(leaf_id@));
        }
        Ok(false)
    }

    fn get_leaf_by_index_key(&self, index_key: &IndexKey) -> (r: Result<
        Vec<LeafWithId>,
        StorageError,
    >)
        ensures
            r is Ok,
    {
        let dedup = dedup_pairs(&self.pending_stores);
        let mut found: Vec<LeafWithId> = Vec::new();
        let n = self.base.len();
        let mut i: usize = 0;
        while i < n
            invariant
                i <= n,
                self.inv(),
                index_key.wf(),
                n == self.base@.len(),
                pairs_map(dedup@) == pairs_map(self.pending_stores@),
                forall|j: int| 0 <= j < dedup@.len() ==> (#[trigger] dedup@[j]).0.wf()
                    && dedup@[j].1.wf(),
                forall|j1: int, j2: int|
                    0 <= j1 < j2 < dedup@.len() ==> (#[trigger] dedup@[j1]).0@ != (
                    #[trigger] dedup@[j2]).0@,
                forall|j: int|
                    0 <= j < found@.len() ==> {
                        let p = #[trigger] found@[j];
                        &&& p.leaf_id.wf()
                        &&& p.leaf.wf()
                        &&& self.leaves().contains_key(p.leaf_id@)
                        &&& p.leaf@ == self.leaves()[p.leaf_id@]
                        &&& p.leaf@.index_key == index_key@
                    },
                forall|j1: int, j2: int|
                    0 <= j1 < j2 < found@.len() ==> (#[trigger] found@[j1]).leaf_id@ != (
                    #[trigger] found@[j2]).leaf_id@,
                forall|j: int|
                    0 <= j < found@.len() ==> !pairs_map(self.pending_stores@).contains_key(
                        (#[trigger] found@[j]).leaf_id@,
                    ),
                forall|j: int|
                    0 <= j < found@.len() ==> exists|k: int|
                        0 <= k < i && (#[trigger] found@[j]).leaf_id@ == self.base@[k].id@,
                forall|k: int|
                    0 <= k < i ==> {
                        let e = #[trigger] self.base@[k];
                        (e.leaf@.index_key == index_key@ && !pairs_map(
                            self.pending_stores@,
                        ).contains_key(e.id@)) ==> exists|j: int|
                            0 <= j < found@.len() && (#[trigger] found@[j]).leaf_id@ == e.id@
                    },
            decreases n - i,
        {
            let e = &self.base[i];
            if !pairs_contains_key(&self.pending_stores, &e.id) && crate::types::bytes_eq(
                e.leaf.index_key.as_slice(),
                index_key.as_slice(),
            ) {
                proof {
                    assert(forall|j: int| i < j < self.base@.len() ==> (
                    #[trigger] self.base@[j]).id@ != self.base@[i as int].id@);
                    lemma_entries_map_value(self.base@, i as int);
                    lemma_entries_map_contains(self.base@, self.base@[i as int].id@);
                    assert forall|j: int| 0 <= j < found@.len() implies (
                    #[trigger] found@[j]).leaf_id@ != self.base@[i as int].id@ by {
                        let k = choose|k: int|
                            0 <= k < i && (#[trigger] found@[j]).leaf_id@ == self.base@[k].id@;
                        assert(self.base@[k].id@ != self.base@[i as int].id@);
                    }
                }
                let ghost fb = found@;
                found.push(LeafWithId { leaf_id: e.id.clone(), leaf: e.leaf.clone() });
                proof {
                    assert(forall|j: int| 0 <= j < fb.len() ==> found@[j] == fb[j]);
                    assert(found@[fb.len() as int].leaf_id@ == self.base@[i as int].id@);
                }
            }
            i += 1;
        }
        let m = dedup.len();
        let ghost base_done = found@;
        let mut i: usize = 0;
        while i < m
            invariant
                i <= m,
                self.inv(),
                index_key.wf(),
                m == dedup@.len(),
                pairs_map(dedup@) == pairs_map(self.pending_stores@),
                forall|j: int| 0 <= j < dedup@.len() ==> (#[trigger] dedup@[j]).0.wf()
                    && dedup@[j].1.wf(),
                forall|j1: int, j2: int|
                    0 <= j1 < j2 < dedup@.len() ==> (#[trigger] dedup@[j1]).0@ != (
                    #[trigger] dedup@[j2]).0@,
                base_done.len() <= found@.len(),
                forall|j: int| 0 <= j < base_done.len() ==> #[trigger] found@[j] == base_done[j],
                forall|j: int|
                    0 <= j < base_done.len() ==> !pairs_map(self.pending_stores@).contains_key(
                        (#[trigger] found@[j]).leaf_id@,
                    ),
                forall|j: int|
                    base_done.len() <= j < found@.len() ==> exists|k: int|
                        0 <= k < i && (#[trigger] found@[j]).leaf_id@ == dedup@[k].0@,
                forall|j: int|
                    0 <= j < found@.len() ==> {
                        let p = #[trigger] found@[j];
                        &&& p.leaf_id.wf()
                        &&& p.leaf.wf()
                        &&& self.leaves().contains_key(p.leaf_id@)
                        &&& p.leaf@ == self.leaves()[p.leaf_id@]
                        &&& p.leaf@.index_key == index_key@
                    },
                forall|j1: int, j2: int|
                    0 <= j1 < j2 < found@.len() ==> (#[trigger] found@[j1]).leaf_id@ != (
                    #[trigger] found@[j2]).leaf_id@,
                forall|k: int|
                    0 <= k < self.base@.len() ==> {
                        let e = #[trigger] self.base@[k];
                        (e.leaf@.index_key == index_key@ && !pairs_map(
                            self.pending_stores@,
                        ).contains_key(e.id@)) ==> exists|j: int|
                            0 <= j < found@.len() && (#[trigger] found@[j]).leaf_id@ == e.id@
                    },
                forall|k: int|
                    0 <= k < i ==> {
                        let p = #[trigger] dedup@[k];
                        p.1@.index_key == index_key@ ==> exists|j: int|
                            0 <= j < found@.len() && (#[trigger] found@[j]).leaf_id@ == p.0@
                    },
            decreases m - i,
        {
            let p = &dedup[i];
            if crate::types::bytes_eq(p.1.index_key.as_slice(), index_key.as_slice()) {
                proof {
                    assert(forall|j: int| i < j < dedup@.len() ==> (#[trigger] dedup@[j]).0@
                        != dedup@[i as int].0@);
                    crate::collect::lemma_pairs_map_value(dedup@, i as int);
                    assert(pairs_map(self.pending_stores@).contains_key(dedup@[i as int].0@));
                    assert(self.leaves().contains_key(dedup@[i as int].0@));
                    assert(self.leaves()[dedup@[i as int].0@] == dedup@[i as int].1@);
                    assert forall|j: int| 0 <= j < found@.len() implies (
                    #[trigger] found@[j]).leaf_id@ != dedup@[i as int].0@ by {
                        if j < base_done.len() {
                        } else {
                            let k = choose|k: int|
                                0 <= k < i && (#[trigger] found@[j]).leaf_id@ == dedup@[k].0@;
                            assert(dedup@[k].0@ != dedup@[i as int].0@);
                        }
                    }
                }
                let ghost fb = found@;
                found.push(LeafWithId { leaf_id: p.0.clone(), leaf: p.1.clone() });
                proof {
                    assert(forall|j: int| 0 <= j < fb.len() ==> found@[j] == fb[j]);
                    assert(found@[fb.len() as int].leaf_id@ == dedup@[i as int].0@);
                }
            }
            i += 1;
        }
        proof {
            assert forall|id: LeafIdView|
                self.leaves().contains_key(id) && (#[trigger] self.leaves()[id]).index_key
                    == index_key@ implies exists|j: int|
                0 <= j < found@.len() && (#[trigger] found@[j]).leaf_id@ == id by {
                if pairs_map(self.pending_stores@).contains_key(id) {
                    lemma_pairs_map_contains(dedup@, id);
                    let k = choose|k: int| 0 <= k < dedup@.len() && (#[trigger] dedup@[k]).0@ == id;
                    assert(forall|j: int| k < j < dedup@.len() ==> (#[trigger] dedup@[j]).0@
                        != dedup@[k].0@);
                    crate::collect::lemma_pairs_map_value(dedup@, k);
                    assert(dedup@[k].1@.index_key == index_key@);
                } else {
                    lemma_entries_map_contains(self.base@, id);
                    let k = choose|k: int|
                        0 <= k < self.base@.len() && (#[trigger] self.base@[k]).id@ == id;
                    assert(forall|j: int| k < j < self.base@.len() ==> (
                    #[trigger] self.base@[j]).id@ != self.base@[k].id@);
                    lemma_entries_map_value(self.base@, k);
                    assert(self.base@[k].leaf@.index_key == index_key@);
                }
            }
        }
        Ok(found)
    }

    fn mark_leaf_as_spent(&mut self, leaf_id: &LeafId) -> (r: Result<(), StorageError>)
        ensures
            r is Ok,
    {
        let ghost before = self.pending_spends@;
        self.pending_spends.push(leaf_id.clone());
        proof {
            lemma_ids_set_push(before, self.pending_spends@.last());
            assert(self.pending_spends@.drop_last() =~= before);
        }
        Ok(())
    }

    fn purge_spent_leaves(&mut self) -> (r: Result<(), StorageError>)
        ensures
            r is Ok,
    {
        let ghost old_base = self.base@;
        let n = self.base.len();
        let mut kept: Vec<StoredLeaf> = Vec::new();
        let mut i: usize = 0;
        proof {
            assert(old_base.take(0) =~= Seq::<StoredLeaf>::empty());
            assert(entries_map(kept@) =~= purge_map(entries_map(old_base.take(0))));
        }
        while i < n
            invariant
                i <= n,
                self.inv(),
                self == old(self),
                n == self.base@.len(),
                old_base == self.base@,
                forall|j: int| 0 <= j < kept@.len() ==> (#[trigger] kept@[j]).wf(),
                forall|j1: int, j2: int|
                    0 <= j1 < j2 < kept@.len() ==> (#[trigger] kept@[j1]).id@ != (
                    #[trigger] kept@[j2]).id@,
                forall|j: int|
                    0 <= j < kept@.len() ==> exists|k: int|
                        0 <= k < i && (#[trigger] kept@[j]).id@ == old_base[k].id@,
                entries_map(kept@) == purge_map(entries_map(old_base.take(i as int))),
            decreases n - i,
        {
            let e = &self.base[i];
            proof {
                assert(old_base.take(i as int + 1) =~= old_base.take(i as int).push(
                    old_base[i as int],
                ));
                lemma_entries_map_push(old_base.take(i as int), old_base[i as int]);
                lemma_entries_map_contains(old_base.take(i as int), old_base[i as int].id@);
            }
            match e.spent_at {
                Option::None => {
                    let ghost before = kept@;
                    proof {
                        lemma_entries_map_contains(before, e.id@);
                    }
                    kept.push(
                        StoredLeaf {
                            id: e.id.clone(),
                            leaf: e.leaf.clone(),
                            stored_at: e.stored_at,
                            spent_at: Option::None,
                        },
                    );
                    proof {
                        lemma_entries_map_push(before, kept@.last());
                        assert(kept@.drop_last() =~= before);
                        assert(entries_map(kept@) =~= purge_map(
                            entries_map(old_base.take(i as int + 1)),
                        ));
                    }
                },
                Option::Some(_) => {
                    proof {
                        assert(entries_map(kept@) =~= purge_map(
                            entries_map(old_base.take(i as int + 1)),
                        ));
                    }
                },
            }
            i += 1;
        }
        proof {
            assert(old_base.take(n as int) =~= old_base);
        }
        self.base = kept;
        Ok(())
    }
}

impl CommittableStorage for MemoryLeafStorage {
    type Committed = MemoryStorage;

    fn commit(self, version: u64) -> (r: Result<MemoryStorage, StorageError>)
        ensures
            r is Ok,
    {
        let ghost base_m = entries_map(self.base@);
        let ghost stores = pairs_map(self.pending_stores@);
        let ghost spends = ids_set(self.pending_spends@);

        let dedup = dedup_pairs(&self.pending_stores);
        let n = self.base.len();
        let mut entries: Vec<StoredLeaf> = Vec::new();
        let mut i: usize = 0;
        proof {
            assert(self.base@.take(0) =~= Seq::<StoredLeaf>::empty());
            assert(entries_map(entries@) =~= commit_kept(
                entries_map(self.base@.take(0)),
                stores,
                spends,
                version,
            ));
        }
        while i < n
            invariant
                i <= n,
                self.inv(),
                n == self.base@.len(),
                version > self.base_version(),
                base_m == entries_map(self.base@),
                stores == pairs_map(self.pending_stores@),
                spends == ids_set(self.pending_spends@),
                forall|j: int| 0 <= j < entries@.len() ==> (#[trigger] entries@[j]).wf(),
                forall|j1: int, j2: int|
                    0 <= j1 < j2 < entries@.len() ==> (#[trigger] entries@[j1]).id@ != (
                    #[trigger] entries@[j2]).id@,
                forall|j: int|
                    0 <= j < entries@.len() ==> exists|k: int|
                        0 <= k < i && (#[trigger] entries@[j]).id@ == self.base@[k].id@
                            && !stores.contains_key(entries@[j].id@),
                entries_map(entries@) == commit_kept(
                    entries_map(self.base@.take(i as int)),
                    stores,
                    spends,
                    version,
                ),
            decreases n - i,
        {
            let e = &self.base[i];
            proof {
                assert(self.base@.take(i as int + 1) =~= self.base@.take(i as int).push(
                    self.base@[i as int],
                ));
                lemma_entries_map_push(self.base@.take(i as int), self.base@[i as int]);
                lemma_entries_map_contains(self.base@.take(i as int), self.base@[i as int].id@);
            }
            if !pairs_contains_key(&self.pending_stores, &e.id) {
                let spent_now = match e.spent_at {
                    Option::Some(s) => Option::Some(s),
                    Option::None => if ids_contains(&self.pending_spends, &e.id) {
                        Option::Some(version)
                    } else {
                        Option::None
                    },
                };
                let ghost before = entries@;
                proof {
                    lemma_entries_map_contains(before, e.id@);
                }
                entries.push(
                    StoredLeaf {
                        id: e.id.clone(),
                        leaf: e.leaf.clone(),
                        stored_at: e.stored_at,
                        spent_at: spent_now,
                    },
                );
                proof {
                    lemma_entries_map_push(before, entries@.last());
                    assert(entries@.drop_last() =~= before);
                    assert(entries_map(entries@) =~= commit_kept(
                        entries_map(self.base@.take(i as int + 1)),
                        stores,
                        spends,
                        version,
                    ));
                }
            } else {
                proof {
                    assert(entries_map(entries@) =~= commit_kept(
                        entries_map(self.base@.take(i as int + 1)),
                        stores,
                        spends,
                        version,
                    ));
                }
            }
            i += 1;
        }
        proof {
            assert(self.base@.take(n as int) =~= self.base@);
        }

        let m = dedup.len();
        let mut i: usize = 0;
        proof {
            assert(dedup@.take(0) =~= Seq::<(LeafId, Leaf)>::empty());
            assert(commit_partial(base_m, stores, spends, version, pairs_map(dedup@.take(0)))
                =~= commit_kept(base_m, stores, spends, version));
        }
        while i < m
            invariant
                i <= m,
                self.inv(),
                m == dedup@.len(),
                version > self.base_version(),
                base_m == entries_map(self.base@),
                stores == pairs_map(self.pending_stores@),
                spends == ids_set(self.pending_spends@),
                pairs_map(dedup@) == stores,
                forall|j: int| 0 <= j < dedup@.len() ==> (#[trigger] dedup@[j]).0.wf()
                    && dedup@[j].1.wf(),
                forall|j1: int, j2: int|
                    0 <= j1 < j2 < dedup@.len() ==> (#[trigger] dedup@[j1]).0@ != (
                    #[trigger] dedup@[j2]).0@,
                forall|j: int| 0 <= j < entries@.len() ==> (#[trigger] entries@[j]).wf(),
                forall|j1: int, j2: int|
                    0 <= j1 < j2 < entries@.len() ==> (#[trigger] entries@[j1]).id@ != (
                    #[trigger] entries@[j2]).id@,
                forall|j: int|
                    0 <= j < entries@.len() ==> (exists|k: int|
                        0 <= k < self.base@.len() && (#[trigger] entries@[j]).id@
                            == self.base@[k].id@ && !stores.contains_key(entries@[j].id@)) || (
                    exists|k: int|
                        0 <= k < i && (#[trigger] entries@[j]).id@ == dedup@[k].0@),
                entries_map(entries@) == commit_partial(
                    base_m,
                    stores,
                    spends,
                    version,
                    pairs_map(dedup@.take(i as int)),
                ),
            decreases m - i,
        {
            let p = &dedup[i];
            proof {
                assert(dedup@.take(i as int + 1) =~= dedup@.take(i as int).push(
                    dedup@[i as int],
                ));
                crate::collect::lemma_pairs_map_push(dedup@.take(i as int), dedup@[i as int]);
                lemma_pairs_map_contains(dedup@.take(i as int), dedup@[i as int].0@);
                lemma_pairs_map_contains(dedup@, dedup@[i as int].0@);
                assert(stores.contains_key(dedup@[i as int].0@));
                assert forall|j: int| 0 <= j < entries@.len() implies (
                #[trigger] entries@[j]).id@ != dedup@[i as int].0@ by {
                    if exists|k: int|
                        0 <= k < i && (#[trigger] entries@[j]).id@ == dedup@[k].0@ {
                        let k = choose|k: int|
                            0 <= k < i && (#[trigger] entries@[j]).id@ == dedup@[k].0@;
                        assert(dedup@[k].0@ != dedup@[i as int].0@);
                    }
                }
            }
            let spent_now = if ids_contains(&self.pending_spends, &p.0) {
                Option::Some(version)
            } else {
                Option::None
            };
            let ghost before = entries@;
            entries.push(
                StoredLeaf {
                    id: p.0.clone(),
                    leaf: p.1.clone(),
                    stored_at: version,
                    spent_at: spent_now,
                },
            );
            proof {
                lemma_entries_map_push(before, entries@.last());
                assert(entries@.drop_last() =~= before);
                assert(entries_map(entries@) =~= commit_partial(
                    base_m,
                    stores,
                    spends,
                    version,
                    pairs_map(dedup@.take(i as int + 1)),
                ));
            }
            i += 1;
        }
        proof {
            assert(dedup@.take(m as int) =~= dedup@);
            assert(commit_partial(base_m, stores, spends, version, stores) =~= commit_map(
                base_m,
                stores,
                spends,
                version,
            ));
        }
        Ok(MemoryStorage { entries, version })
    }
}

/// The committed records a view's base contributes: everything not
/// overwritten by a pending store, with pending spent-marks applied.
pub open spec fn commit_kept(
    base: Map<LeafIdView, StoredLeafView>,
    stores: Map<LeafIdView, LeafView>,
    spends: Set<LeafIdView>,
    v: u64,
) -> Map<LeafIdView, StoredLeafView> {
    Map::new(
        |id: LeafIdView| base.contains_key(id) && !stores.contains_key(id),
        |id: LeafIdView|
            StoredLeafView {
                leaf: base[id].leaf,
                stored_at: base[id].stored_at,
                spent_at: if base[id].spent_at is Some {
                    base[id].spent_at
                } else if spends.contains(id) {
                    Option::Some(v)
                } else {
                    Option::None
                },
            },
    )
}

/// The committed records once the pending stores in `done` have landed over
/// the kept base.
pub open spec fn commit_partial(
    base: Map<LeafIdView, StoredLeafView>,
    stores: Map<LeafIdView, LeafView>,
    spends: Set<LeafIdView>,
    v: u64,
    done: Map<LeafIdView, LeafView>,
) -> Map<LeafIdView, StoredLeafView> {
    Map::new(
        |id: LeafIdView| (base.contains_key(id) && !stores.contains_key(id)) || done.contains_key(
            id,
        ),
        |id: LeafIdView|
            if done.contains_key(id) {
                StoredLeafView {
                    leaf: done[id],
                    stored_at: v,
                    spent_at: if spends.contains(id) {
                        Option::Some(v)
                    } else {
                        Option::None
                    },
                }
            } else {
                StoredLeafView {
                    leaf: base[id].leaf,
                    stored_at: base[id].stored_at,
                    spent_at: if base[id].spent_at is Some {
                        base[id].spent_at
                    } else if spends.contains(id) {
                        Option::Some(v)
                    } else {
                        Option::None
                    },
                }
            },
    )
}

} // verus!
