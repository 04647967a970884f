//! Finite maps and sets read off the vectors that back them.

use vstd::prelude::*;

use crate::leaf::{Leaf, LeafView};
use crate::types::{LeafId, LeafIdView};

verus! {

/// The map that a vector of id/leaf pairs denotes; a later pair overrides an
/// earlier one with the same id.
pub open spec fn pairs_map(s: Seq<(LeafId, Leaf)>) -> Map<LeafIdView, LeafView>
    decreases s.len(),
{
    if s.len() == 0 {
        Map::empty()
    } else {
        pairs_map(s.drop_last()).insert(s.last().0@, s.last().1@)
    }
}

/// An id is in the map exactly when some pair carries it.
pub proof fn lemma_pairs_map_contains(s: Seq<(LeafId, Leaf)>, k: LeafIdView)
    ensures
        pairs_map(s).contains_key(k) <==> exists|i: int| 0 <= i < s.len() && (#[trigger] s[i]).0@
            == k,
    decreases s.len(),
{
    if s.len() > 0 {
        lemma_pairs_map_contains(s.drop_last(), k);
        if s.last().0@ == k {
            assert((s[s.len() - 1]).0@ == k);
        } else if pairs_map(s).contains_key(k) {
            let i = choose|i: int| 0 <= i < s.drop_last().len() && (#[trigger] s.drop_last()[i]).0@
                == k;
            assert((s[i]).0@ == k);
        } else if exists|i: int| 0 <= i < s.len() && (#[trigger] s[i]).0@ == k {
            let i = choose|i: int| 0 <= i < s.len() && (#[trigger] s[i]).0@ == k;
            assert(i < s.len() - 1);
            assert((s.drop_last()[i]).0@ == k);
        }
    }
}

/// The leaf under an id is the leaf of the last pair that carries the id.
pub proof fn lemma_pairs_map_value(s: Seq<(LeafId, Leaf)>, i: int)
    requires
        0 <= i < s.len(),
        forall|j: int| i < j < s.len() ==> (#[trigger] s[j]).0@ != s[i].0@,
    ensures
        pairs_map(s).contains_key(s[i].0@),
        pairs_map(s)[s[i].0@] == s[i].1@,
    decreases s.len(),
{
    lemma_pairs_map_contains(s, s[i].0@);
    if i == s.len() - 1 {
    } else {
        assert(s.last().0@ != s[i].0@);
        assert(forall|j: int| i < j < s.drop_last().len() ==> (#[trigger] s.drop_last()[j]).0@
            != s.drop_last()[i].0@);
        lemma_pairs_map_value(s.drop_last(), i);
        assert(s.drop_last()[i] == s[i]);
    }
}

/// Appending one pair inserts its id.
pub proof fn lemma_pairs_map_push(s: Seq<(LeafId, Leaf)>, t: (LeafId, Leaf))
    ensures
        pairs_map(s.push(t)) == pairs_map(s).insert(t.0@, t.1@),
{
    assert(s.push(t).drop_last() =~= s);
    assert(s.push(t).last() == t);
}

/// Replacing the unique pair that carries an id is an insert under that id.
pub proof fn lemma_pairs_map_update(s: Seq<(LeafId, Leaf)>, i: int, t: (LeafId, Leaf))
    requires
        0 <= i < s.len(),
        t.0@ == s[i].0@,
        forall|j1: int, j2: int| 0 <= j1 < j2 < s.len() ==> (#[trigger] s[j1]).0@ != (
        #[trigger] s[j2]).0@,
    ensures
        pairs_map(s.update(i, t)) == pairs_map(s).insert(t.0@, t.1@),
{
    let s2 = s.update(i, t);
    assert forall|k: LeafIdView| #[trigger]
        pairs_map(s2).contains_key(k) <==> pairs_map(s).insert(t.0@, t.1@).contains_key(k) by {
        lemma_pairs_map_contains(s2, k);
        lemma_pairs_map_contains(s, k);
        if exists|j: int| 0 <= j < s2.len() && (#[trigger] s2[j]).0@ == k {
            let j = choose|j: int| 0 <= j < s2.len() && (#[trigger] s2[j]).0@ == k;
            assert(s[j].0@ == k || k == t.0@);
        }
        if exists|j: int| 0 <= j < s.len() && (#[trigger] s[j]).0@ == k {
            let j = choose|j: int| 0 <= j < s.len() && (#[trigger] s[j]).0@ == k;
            assert(s2[j].0@ == k || k == t.0@);
        }
        if k == t.0@ {
            assert(s2[i].0@ == k);
        }
    }
    assert forall|k: LeafIdView| pairs_map(s2).contains_key(k) implies #[trigger] pairs_map(s2)[k]
        == pairs_map(s).insert(t.0@, t.1@)[k] by {
        if k == t.0@ {
            assert(forall|j: int| i < j < s2.len() ==> (#[trigger] s2[j]).0@ != s2[i].0@);
            lemma_pairs_map_value(s2, i);
        } else {
            lemma_pairs_map_contains(s2, k);
            let j = choose|j: int| 0 <= j < s2.len() && (#[trigger] s2[j]).0@ == k;
            assert(j != i);
            assert(s2[j] == s[j]);
            assert(forall|j2: int| j < j2 < s2.len() ==> (#[trigger] s2[j2]).0@ != s2[j].0@);
            assert(forall|j2: int| j < j2 < s.len() ==> (#[trigger] s[j2]).0@ != s[j].0@);
            lemma_pairs_map_value(s2, j);
            lemma_pairs_map_value(s, j);
        }
    }
    assert(pairs_map(s2) =~= pairs_map(s).insert(t.0@, t.1@));
}

/// The set of ids a vector of ids denotes.
pub open spec fn ids_set(s: Seq<LeafId>) -> Set<LeafIdView>
    decreases s.len(),
{
    if s.len() == 0 {
        Set::empty()
    } else {
        ids_set(s.drop_last()).insert(s.last()@)
    }
}

/// An id is in the set exactly when the vector carries it.
pub proof fn lemma_ids_set_contains(s: Seq<LeafId>, k: LeafIdView)
    ensures
        ids_set(s).contains(k) <==> exists|i: int| 0 <= i < s.len() && (#[trigger] s[i])@ == k,
    decreases s.len(),
{
    if s.len() > 0 {
        lemma_ids_set_contains(s.drop_last(), k);
        if s.last()@ == k {
            assert((s[s.len() - 1])@ == k);
        } else if ids_set(s).contains(k) {
            let i = choose|i: int| 0 <= i < s.drop_last().len() && (#[trigger] s.drop_last()[i])@
                == k;
            assert((s[i])@ == k);
        } else if exists|i: int| 0 <= i < s.len() && (#[trigger] s[i])@ == k {
            let i = choose|i: int| 0 <= i < s.len() && (#[trigger] s[i])@ == k;
            assert(i < s.len() - 1);
            assert((s.drop_last()[i])@ == k);
        }
    }
}

/// Appending one id inserts it.
pub proof fn lemma_ids_set_push(s: Seq<LeafId>, t: LeafId)
    ensures
        ids_set(s.push(t)) == ids_set(s).insert(t@),
{
    assert(s.push(t).drop_last() =~= s);
    assert(s.push(t).last() == t);
}

/// Putting a pair in front changes nothing when a later pair carries the
/// same id, and otherwise inserts it under everything later.
pub proof fn lemma_pairs_map_cons(x: (LeafId, Leaf), t: Seq<(LeafId, Leaf)>)
    ensures
        pairs_map(seq![x] + t) == (if pairs_map(t).contains_key(x.0@) {
            pairs_map(t)
        } else {
            pairs_map(t).insert(x.0@, x.1@)
        }),
    decreases t.len(),
{
    let s = seq![x] + t;
    if t.len() == 0 {
        assert(s.drop_last() =~= t);
        assert(s.last() == x);
        assert(pairs_map(s) == pairs_map(t).insert(x.0@, x.1@));
    } else {
        lemma_pairs_map_cons(x, t.drop_last());
        assert(s.drop_last() =~= seq![x] + t.drop_last());
        assert(s.last() == t.last());
        lemma_pairs_map_contains(t, x.0@);
        lemma_pairs_map_contains(t.drop_last(), x.0@);
        assert(pairs_map(s) == pairs_map(seq![x] + t.drop_last()).insert(
            t.last().0@,
            t.last().1@,
        ));
        assert(pairs_map(t) == pairs_map(t.drop_last()).insert(t.last().0@, t.last().1@));
        if pairs_map(t).contains_key(x.0@) {
            if pairs_map(t.drop_last()).contains_key(x.0@) {
                assert(pairs_map(s) =~= pairs_map(t));
            } else {
                let i = choose|i: int| 0 <= i < t.len() && (#[trigger] t[i]).0@ == x.0@;
                if i < t.len() - 1 {
                    assert(t.drop_last()[i] == t[i]);
                    assert(false);
                }
                assert(t.last().0@ == x.0@);
                assert(pairs_map(s) =~= pairs_map(t));
            }
        } else {
            assert(t.last().0@ != x.0@);
            assert(!pairs_map(t.drop_last()).contains_key(x.0@));
            assert(pairs_map(s) =~= pairs_map(t).insert(x.0@, x.1@));
        }
    }
}

/// True exactly when some pair carries the id.
pub fn pairs_contains_key(v: &Vec<(LeafId, Leaf)>, id: &LeafId) -> (r: bool)
    requires
        id.wf(),
    ensures
        r == pairs_map(v@).contains_key(id@),
{
    let n = v.len();
    let mut i: usize = 0;
    while i < n
        invariant
            i <= n,
            id.wf(),
            n == v@.len(),
            forall|j: int| 0 <= j < i ==> (#[trigger] v@[j]).0@ != id@,
        decreases n - i,
    {
        if &v[i].0 == id {
            proof {
                lemma_pairs_map_contains(v@, id@);
            }
            return true;
        }
        i += 1;
    }
    proof {
        lemma_pairs_map_contains(v@, id@);
    }
    false
}

/// The leaf of the last pair that carries the id, if any pair does.
pub fn pairs_lookup_last(v: &Vec<(LeafId, Leaf)>, id: &LeafId) -> (r: Option<Leaf>)
    requires
        id.wf(),
        forall|j: int| 0 <= j < v@.len() ==> (#[trigger] v@[j]).1.wf(),
    ensures
        r matches Option::Some(l) ==> pairs_map(v@).contains_key(id@) && l.wf() && l@ == pairs_map(
            v@,
        )[id@],
        r is None ==> !pairs_map(v@).contains_key(id@),
{
    let n = v.len();
    let mut i: usize = n;
    while i > 0
        invariant
            i <= n,
            id.wf(),
            n == v@.len(),
            forall|j: int| 0 <= j < v@.len() ==> (#[trigger] v@[j]).1.wf(),
            forall|j: int| i <= j < n ==> (#[trigger] v@[j]).0@ != id@,
        decreases i,
    {
        i -= 1;
        if &v[i].0 == id {
            proof {
                lemma_pairs_map_value(v@, i as int);
            }
            return Option::Some(v[i].1.clone());
        }
    }
    proof {
        lemma_pairs_map_contains(v@, id@);
    }
    Option::None
}

/// True exactly when the vector carries the id.
pub fn ids_contains(v: &Vec<LeafId>, id: &LeafId) -> (r: bool)
    requires
        id.wf(),
    ensures
        r == ids_set(v@).contains(id@),
{
    let n = v.len();
    let mut i: usize = 0;
    while i < n
        invariant
            i <= n,
            id.wf(),
            n == v@.len(),
            forall|j: int| 0 <= j < i ==> (#[trigger] v@[j])@ != id@,
        decreases n - i,
    {
        if &v[i] == id {
            proof {
                lemma_ids_set_contains(v@, id@);
            }
            return true;
        }
        i += 1;
    }
    proof {
        lemma_ids_set_contains(v@, id@);
    }
    false
}

/// The same pairs with each id carried once: the last pair under each id.
pub fn dedup_pairs(v: &Vec<(LeafId, Leaf)>) -> (r: Vec<(LeafId, Leaf)>)
    requires
        forall|j: int| 0 <= j < v@.len() ==> (#[trigger] v@[j]).0.wf() && v@[j].1.wf(),
    ensures
        pairs_map(r@) == pairs_map(v@),
        forall|j: int| 0 <= j < r@.len() ==> (#[trigger] r@[j]).0.wf() && r@[j].1.wf(),
        forall|j1: int, j2: int|
            0 <= j1 < j2 < r@.len() ==> (#[trigger] r@[j1]).0@ != (#[trigger] r@[j2]).0@,
{
    let n = v.len();
    let mut r: Vec<(LeafId, Leaf)> = Vec::new();
    let mut i: usize = n;
    proof {
        assert(v@.skip(n as int) =~= Seq::<(LeafId, Leaf)>::empty());
        assert(pairs_map(r@) =~= pairs_map(v@.skip(n as int)));
    }
    while i > 0
        invariant
            i <= n,
            n == v@.len(),
            forall|j: int| 0 <= j < v@.len() ==> (#[trigger] v@[j]).0.wf() && v@[j].1.wf(),
            forall|j: int| 0 <= j < r@.len() ==> (#[trigger] r@[j]).0.wf() && r@[j].1.wf(),
            forall|j1: int, j2: int|
                0 <= j1 < j2 < r@.len() ==> (#[trigger] r@[j1]).0@ != (#[trigger] r@[j2]).0@,
            pairs_map(r@) == pairs_map(v@.skip(i as int)),
        decreases i,
    {
        i -= 1;
        proof {
            assert(v@.skip(i as int) =~= seq![v@[i as int]] + v@.skip(i as int + 1));
            lemma_pairs_map_cons(v@[i as int], v@.skip(i as int + 1));
        }
        if !pairs_contains_key(&r, &v[i].0) {
            let ghost before = r@;
            r.push((v[i].0.clone(), v[i].1.clone()));
            proof {
                lemma_pairs_map_push(before, r@.last());
                assert(r@.drop_last() =~= before);
                lemma_pairs_map_contains(before, v@[i as int].0@);
            }
        }
    }
    proof {
        assert(v@.skip(0) =~= v@);
    }
    r
}

} // verus!
