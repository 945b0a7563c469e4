//! An insertion-ordered association list keyed by `(table, slot)` pairs.
//!
//! The overlay and the per-record change buffers need small maps whose
//! iteration order follows insertion order, so that records are serialized
//! and enacted in the order the mutations arrived.  An association list
//! gives that order directly; its mathematical view is a [`Map`].

use vstd::prelude::*;

verus! {

/// A map key: a table id (always below 2^16) paired with a slot index.
pub type SlotKey = (u64, u64);

/// The map denoted by a sequence of key-value pairs; a later pair wins.
pub open spec fn assoc_map<V>(s: Seq<(SlotKey, V)>) -> Map<SlotKey, V>
    decreases s.len(),
{
    if s.len() == 0 {
        Map::empty()
    } else {
        assoc_map(s.drop_last()).insert(s.last().0, s.last().1)
    }
}

/// No key occurs twice in the sequence.
pub open spec fn unique_keys<V>(s: Seq<(SlotKey, V)>) -> bool {
    forall|i: int, j: int| 0 <= i < j < s.len() ==> (#[trigger] s[i]).0 != (#[trigger] s[j]).0
}

pub proof fn lemma_assoc_map_domain<V>(s: Seq<(SlotKey, V)>)
    ensures
        forall|k: SlotKey|
            assoc_map(s).contains_key(k) <==> exists|i: int|
                0 <= i < s.len() && (#[trigger] s[i]).0 == k,
    decreases s.len(),
{
    if s.len() > 0 {
        lemma_assoc_map_domain(s.drop_last());
        assert forall|k: SlotKey| assoc_map(s).contains_key(k) implies exists|i: int|
            0 <= i < s.len() && (#[trigger] s[i]).0 == k by {
            if k == s.last().0 {
                assert(s[s.len() - 1].0 == k);
            } else {
                assert(assoc_map(s.drop_last()).contains_key(k));
                assert(exists|i: int|
                    0 <= i < s.drop_last().len() && (#[trigger] s.drop_last()[i]).0 == k);
                let i = choose|i: int|
                    0 <= i < s.drop_last().len() && (#[trigger] s.drop_last()[i]).0 == k;
                assert(s.drop_last()[i] == s[i]);
                assert(s[i].0 == k);
            }
        }
        assert forall|k: SlotKey| (exists|i: int| 0 <= i < s.len() && (#[trigger] s[i]).0 == k)
            implies assoc_map(s).contains_key(k) by {
            let i = choose|i: int| 0 <= i < s.len() && (#[trigger] s[i]).0 == k;
            if i < s.len() - 1 {
                assert(s.drop_last()[i].0 == k);
                assert(exists|j: int|
                    0 <= j < s.drop_last().len() && (#[trigger] s.drop_last()[j]).0 == k);
                assert(assoc_map(s.drop_last()).contains_key(k));
            } else {
                assert(k == s.last().0);
            }
        }
    }
}

/// With unique keys, each pair's value is the value the map gives its key.
pub proof fn lemma_assoc_map_index<V>(s: Seq<(SlotKey, V)>, i: int)
    requires
        unique_keys(s),
        0 <= i < s.len(),
    ensures
        assoc_map(s).contains_key(s[i].0),
        assoc_map(s)[s[i].0] == s[i].1,
    decreases s.len(),
{
    lemma_assoc_map_domain(s);
    if i < s.len() - 1 {
        assert(s[i].0 != s.last().0);
        assert(s.drop_last()[i] == s[i]);
        lemma_assoc_map_index(s.drop_last(), i);
    }
}

/// Replacing the pair at `i` with one under the same key updates the map.
pub proof fn lemma_assoc_map_update<V>(s: Seq<(SlotKey, V)>, i: int, v: V)
    requires
        unique_keys(s),
        0 <= i < s.len(),
    ensures
        assoc_map(s.update(i, (s[i].0, v))) == assoc_map(s).insert(s[i].0, v),
        unique_keys(s.update(i, (s[i].0, v))),
    decreases s.len(),
{
    let k = s[i].0;
    let t = s.update(i, (k, v));
    assert forall|x: int, y: int| 0 <= x < y < t.len() implies (#[trigger] t[x]).0 != (
    #[trigger] t[y]).0 by {
        assert(s[x].0 != s[y].0);
    }
    if i == s.len() - 1 {
        assert(t.drop_last() =~= s.drop_last());
        assert(assoc_map(t) =~= assoc_map(s).insert(k, v));
    } else {
        assert(t.drop_last() =~= s.drop_last().update(i, (k, v)));
        assert(s.drop_last()[i] == s[i]);
        lemma_assoc_map_update(s.drop_last(), i, v);
        assert(t.last() == s.last());
        assert(assoc_map(t) =~= assoc_map(s).insert(k, v)) by {
            assert(assoc_map(t) == assoc_map(s.drop_last()).insert(k, v).insert(
                s.last().0,
                s.last().1,
            ));
            assert(k != s.last().0);
            assert(assoc_map(s.drop_last()).insert(k, v).insert(s.last().0, s.last().1)
                =~= assoc_map(s.drop_last()).insert(s.last().0, s.last().1).insert(k, v));
        }
    }
}

/// Removing the pair at `i` removes its key from the map.
pub proof fn lemma_assoc_map_remove<V>(s: Seq<(SlotKey, V)>, i: int)
    requires
        unique_keys(s),
        0 <= i < s.len(),
    ensures
        assoc_map(s.remove(i)) == assoc_map(s).remove(s[i].0),
        unique_keys(s.remove(i)),
    decreases s.len(),
{
    let k = s[i].0;
    let t = s.remove(i);
    assert forall|x: int, y: int| 0 <= x < y < t.len() implies (#[trigger] t[x]).0 != (
    #[trigger] t[y]).0 by {
        let sx = if x < i { x } else { x + 1 };
        let sy = if y < i { y } else { y + 1 };
        assert(t[x] == s[sx]);
        assert(t[y] == s[sy]);
        assert(s[sx].0 != s[sy].0);
    }
    if i == s.len() - 1 {
        assert(t =~= s.drop_last());
        lemma_assoc_map_domain(s.drop_last());
        assert(!assoc_map(s.drop_last()).contains_key(k));
        assert(assoc_map(t) =~= assoc_map(s).remove(k));
    } else {
        assert(t.drop_last() =~= s.drop_last().remove(i));
        assert(s.drop_last()[i] == s[i]);
        lemma_assoc_map_remove(s.drop_last(), i);
        assert(t.last() == s.last());
        assert(k != s.last().0);
        assert(assoc_map(t) =~= assoc_map(s).remove(k)) by {
            assert(assoc_map(t) == assoc_map(s.drop_last()).remove(k).insert(
                s.last().0,
                s.last().1,
            ));
            assert(assoc_map(s.drop_last()).remove(k).insert(s.last().0, s.last().1)
                =~= assoc_map(s.drop_last()).insert(s.last().0, s.last().1).remove(k));
        }
    }
}

/// Appending a pair under a fresh key inserts it into the map.
pub proof fn lemma_assoc_map_push<V>(s: Seq<(SlotKey, V)>, k: SlotKey, v: V)
    requires
        unique_keys(s),
        forall|i: int| 0 <= i < s.len() ==> (#[trigger] s[i]).0 != k,
    ensures
        assoc_map(s.push((k, v))) == assoc_map(s).insert(k, v),
        unique_keys(s.push((k, v))),
{
    let t = s.push((k, v));
    assert(t.drop_last() =~= s);
    assert forall|x: int, y: int| 0 <= x < y < t.len() implies (#[trigger] t[x]).0 != (
    #[trigger] t[y]).0 by {
        if y < t.len() - 1 {
            assert(s[x].0 != s[y].0);
        } else {
            assert(t[x] == s[x]);
        }
    }
}

/// The length of a unique-keyed sequence equals its map's domain size.
pub proof fn lemma_assoc_map_len<V>(s: Seq<(SlotKey, V)>)
    requires
        unique_keys(s),
    ensures
        assoc_map(s).dom().len() == s.len(),
        assoc_map(s).dom().finite(),
    decreases s.len(),
{
    if s.len() > 0 {
        lemma_assoc_map_len(s.drop_last());
        lemma_assoc_map_domain(s.drop_last());
        assert(!assoc_map(s.drop_last()).contains_key(s.last().0));
    }
}

/// An insertion-ordered map from `(table, slot)` keys to `V`, backed by a
/// vector of key-value pairs with no key repeated.
pub struct AList<V> {
    pub entries: Vec<(SlotKey, V)>,
}

impl<V> AList<V> {
    /// The map this list denotes.
    pub open spec fn to_map(&self) -> Map<SlotKey, V> {
        assoc_map(self.entries@)
    }

    /// Well-formed: no key occurs twice.
    pub open spec fn wf(&self) -> bool {
        unique_keys(self.entries@)
    }

    pub fn new() -> (r: AList<V>)
        ensures
            r.wf(),
            r.to_map() == Map::<SlotKey, V>::empty(),
            r.entries@.len() == 0,
    {
        AList { entries: Vec::new() }
    }

    pub fn len(&self) -> (r: usize)
        requires
            self.wf(),
        ensures
            r == self.entries@.len(),
            r == self.to_map().dom().len(),
    {
        proof {
            lemma_assoc_map_len(self.entries@);
        }
        self.entries.len()
    }

    /// Look a key up; the result matches the map view.
    pub fn get(&self, table: u64, slot: u64) -> (r: Option<&V>)
        requires
            self.wf(),
        ensures
            match r {
                Some(v) => self.to_map().contains_key((table, slot)) && *v == self.to_map()[
                    (table, slot)
                ],
                None => !self.to_map().contains_key((table, slot)),
            },
    {
        proof {
            lemma_assoc_map_domain(self.entries@);
        }
        let n = self.entries.len();
        let mut i: usize = 0;
        while i < n
            invariant
                n == self.entries@.len(),
                self.wf(),
                forall|j: int| 0 <= j < i ==> (#[trigger] self.entries@[j]).0 != (table, slot),
            decreases n - i,
        {
            if self.entries[i].0.0 == table && self.entries[i].0.1 == slot {
                proof {
                    assert(self.entries@[i as int].0 == (table, slot));
                    lemma_assoc_map_index(self.entries@, i as int);
                }
                return Some(&self.entries[i].1);
            }
            proof {
                assert(self.entries@[i as int].0 != (table, slot));
            }
            i += 1;
        }
        proof {
            lemma_assoc_map_domain(self.entries@);
        }
        None
    }

    /// Insert or replace; existing keys keep their position, new keys go
    /// to the back.
    pub fn insert(&mut self, table: u64, slot: u64, value: V)
        requires
            old(self).wf(),
        ensures
            final(self).wf(),
            final(self).to_map() == old(self).to_map().insert((table, slot), value),
            final(self).entries@.len() == if old(self).to_map().contains_key((table, slot)) {
                old(self).entries@.len() as int
            } else {
                old(self).entries@.len() + 1 as int
            },
            old(self).to_map().contains_key((table, slot)) ==> (forall|j: int|
                0 <= j < final(self).entries@.len() ==> (#[trigger] final(self).entries@[j]).0
                    == old(self).entries@[j].0),
            !old(self).to_map().contains_key((table, slot)) ==> final(self).entries@
                == old(self).entries@.push(((table, slot), value)),
    {
        proof {
            lemma_assoc_map_domain(self.entries@);
        }
        let n = self.entries.len();
        let mut i: usize = 0;
        while i < n
            invariant
                n == self.entries@.len(),
                self.wf(),
                self == old(self),
                forall|j: int| 0 <= j < i ==> (#[trigger] self.entries@[j]).0 != (table, slot),
            decreases n - i,
        {
            if self.entries[i].0.0 == table && self.entries[i].0.1 == slot {
                proof {
                    assert(self.entries@[i as int].0 == (table, slot));
                    lemma_assoc_map_update(self.entries@, i as int, value);
                    lemma_assoc_map_domain(self.entries@);
                    lemma_assoc_map_index(self.entries@, i as int);
                }
                self.entries[i] = ((table, slot), value);
                return;
            }
            proof {
                assert(self.entries@[i as int].0 != (table, slot));
            }
            i += 1;
        }
        proof {
            lemma_assoc_map_push(self.entries@, (table, slot), value);
            lemma_assoc_map_domain(self.entries@);
        }
        self.entries.push(((table, slot), value));
    }

    /// Remove a key if present, keeping the order of the rest.
    pub fn remove(&mut self, table: u64, slot: u64)
        requires
            old(self).wf(),
        ensures
            final(self).wf(),
            final(self).to_map() == old(self).to_map().remove((table, slot)),
    {
        proof {
            lemma_assoc_map_domain(self.entries@);
        }
        let n = self.entries.len();
        let mut i: usize = 0;
        while i < n
            invariant
                n == self.entries@.len(),
                self.wf(),
                self == old(self),
                forall|j: int| 0 <= j < i ==> (#[trigger] self.entries@[j]).0 != (table, slot),
            decreases n - i,
        {
            if self.entries[i].0.0 == table && self.entries[i].0.1 == slot {
                proof {
                    assert(self.entries@[i as int].0 == (table, slot));
                    lemma_assoc_map_remove(self.entries@, i as int);
                }
                self.entries.remove(i);
                return;
            }
            proof {
                assert(self.entries@[i as int].0 != (table, slot));
            }
            i += 1;
        }
        proof {
            lemma_assoc_map_domain(self.entries@);
            assert(self.to_map() =~= self.to_map().remove((table, slot)));
        }
    }
}

} // verus!
