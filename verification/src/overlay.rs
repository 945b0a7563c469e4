//! In-memory overlay of mutations whose durable reflection is in the log
//! but not yet in the main tables.
//!
//! Readers consult the overlay first; the enactor evicts an entry only
//! when the record it belongs to has been durably applied and no later
//! record has superseded it.

use crate::alist::AList;
use crate::alist::SlotKey;
use crate::codec::CHUNK_BYTES;
use vstd::prelude::*;

verus! {

/// A pending index mutation: the newest record that touched the slot,
/// the accumulated sub-entry mask, and the chunk bytes.
pub struct IndexOverlayEntry {
    pub record_id: u64,
    pub mask: u64,
    pub chunk: Vec<u8>,
}

impl IndexOverlayEntry {
    pub open spec fn wf(&self) -> bool {
        self.chunk@.len() == CHUNK_BYTES
    }

    /// The entry as a mathematical value: record id, mask, chunk bytes.
    pub open spec fn view_tuple(&self) -> (u64, u64, Seq<u8>) {
        (self.record_id, self.mask, self.chunk@)
    }
}

/// A pending value mutation: the newest record that touched the slot and
/// the payload.
pub struct ValueOverlayEntry {
    pub record_id: u64,
    pub value: Vec<u8>,
}

impl ValueOverlayEntry {
    /// The entry as a mathematical value: record id and payload bytes.
    pub open spec fn view_tuple(&self) -> (u64, Seq<u8>) {
        (self.record_id, self.value@)
    }
}

/// Pending index mutations, keyed by `(table, slot)`.
pub struct IndexLogOverlay {
    pub map: AList<IndexOverlayEntry>,
}

impl IndexLogOverlay {
    pub open spec fn to_map(&self) -> Map<SlotKey, IndexOverlayEntry> {
        self.map.to_map()
    }

    /// The overlay as a map to (record id, mask, chunk bytes).
    pub open spec fn view_map(&self) -> Map<SlotKey, (u64, u64, Seq<u8>)> {
        Map::new(
            |k: SlotKey| self.to_map().contains_key(k),
            |k: SlotKey| self.to_map()[k].view_tuple(),
        )
    }

    pub open spec fn wf(&self) -> bool {
        &&& self.map.wf()
        &&& forall|k: SlotKey|
            self.to_map().contains_key(k) ==> (#[trigger] self.to_map()[k]).wf() && k.0 <= u16::MAX
    }

    pub fn new() -> (r: IndexLogOverlay)
        ensures
            r.wf(),
            r.to_map() == Map::<SlotKey, IndexOverlayEntry>::empty(),
            r.view_map() == Map::<SlotKey, (u64, u64, Seq<u8>)>::empty(),
            r.map.entries@.len() == 0,
    {
        let r = IndexLogOverlay { map: AList::new() };
        proof {
            assert(r.view_map() =~= Map::<SlotKey, (u64, u64, Seq<u8>)>::empty());
        }
        r
    }
}

/// Pending value mutations, keyed by `(table, slot)`.  Entries iterate in
/// insertion order, so writes reach the value tables in arrival order.
pub struct ValueLogOverlay {
    pub map: AList<ValueOverlayEntry>,
}

impl ValueLogOverlay {
    pub open spec fn to_map(&self) -> Map<SlotKey, ValueOverlayEntry> {
        self.map.to_map()
    }

    /// The overlay as a map to (record id, payload bytes).
    pub open spec fn view_map(&self) -> Map<SlotKey, (u64, Seq<u8>)> {
        Map::new(
            |k: SlotKey| self.to_map().contains_key(k),
            |k: SlotKey| self.to_map()[k].view_tuple(),
        )
    }

    pub open spec fn wf(&self) -> bool {
        &&& self.map.wf()
        &&& forall|k: SlotKey| self.to_map().contains_key(k) ==> k.0 <= u16::MAX
    }

    pub fn new() -> (r: ValueLogOverlay)
        ensures
            r.wf(),
            r.to_map() == Map::<SlotKey, ValueOverlayEntry>::empty(),
            r.view_map() == Map::<SlotKey, (u64, Seq<u8>)>::empty(),
            r.map.entries@.len() == 0,
    {
        let r = ValueLogOverlay { map: AList::new() };
        proof {
            assert(r.view_map() =~= Map::<SlotKey, (u64, Seq<u8>)>::empty());
        }
        r
    }
}

/// The shared overlay container: one map of pending index mutations and
/// one of pending value mutations.
pub struct LogOverlays {
    pub index: IndexLogOverlay,
    pub value: ValueLogOverlay,
}

/// Point-in-time reads of pending mutations, offered by the shared
/// overlay and by a writer (which consults its own record first).
pub trait LogQuery {
    /// Pending index mutations visible to this query source.
    spec fn query_index_view(&self) -> Map<SlotKey, (u64, u64, Seq<u8>)>;

    /// Pending value mutations visible to this query source.
    spec fn query_value_view(&self) -> Map<SlotKey, (u64, Seq<u8>)>;

    spec fn query_wf(&self) -> bool;

    /// The pending chunk for an index slot, if any.
    fn with_index(&self, table: u16, index: u64) -> (r: Option<&Vec<u8>>)
        requires
            self.query_wf(),
        ensures
            match r {
                Some(c) => self.query_index_view().contains_key((table as u64, index)) && c@
                    == self.query_index_view()[(table as u64, index)].2,
                None => !self.query_index_view().contains_key((table as u64, index)),
            },
    ;

    /// Copy up to `dest.len()` bytes of the pending payload for a value
    /// slot into `dest`; report whether an entry existed.
    fn value(&self, table: u16, index: u64, dest: &mut Vec<u8>) -> (r: bool)
        requires
            self.query_wf(),
        ensures
            final(dest)@.len() == old(dest)@.len(),
            r == self.query_value_view().contains_key((table as u64, index)),
            r ==> prefix_copied(
                self.query_value_view()[(table as u64, index)].1,
                old(dest)@,
                final(dest)@,
            ),
            !r ==> final(dest)@ == old(dest)@,
    ;
}

/// `after` is `before` with the first `min(src.len(), before.len())` bytes
/// replaced by the corresponding bytes of `src`.
pub open spec fn prefix_copied(src: Seq<u8>, before: Seq<u8>, after: Seq<u8>) -> bool {
    let m = if src.len() <= before.len() {
        src.len() as int
    } else {
        before.len() as int
    };
    &&& after.len() == before.len()
    &&& forall|j: int| 0 <= j < m ==> after[j] == src[j]
    &&& forall|j: int| m <= j < before.len() ==> after[j] == before[j]
}

/// Copy `min(src.len(), dest.len())` bytes of `src` over the front of
/// `dest`, leaving the rest of `dest` as it was.
pub fn copy_prefix(src: &Vec<u8>, dest: &mut Vec<u8>)
    ensures
        final(dest)@.len() == old(dest)@.len(),
        prefix_copied(src@, old(dest)@, final(dest)@),
{
    let ghost orig = dest@;
    let m = if src.len() <= dest.len() {
        src.len()
    } else {
        dest.len()
    };
    let mut j: usize = 0;
    while j < m
        invariant
            j <= m,
            m <= src@.len(),
            m <= orig.len(),
            m == if src@.len() <= orig.len() {
                src@.len() as int
            } else {
                orig.len() as int
            },
            dest@.len() == orig.len(),
            forall|i: int| 0 <= i < j ==> dest@[i] == src@[i],
            forall|i: int| j <= i < dest@.len() ==> dest@[i] == orig[i],
        decreases m - j,
    {
        let b = src[j];
        dest[j] = b;
        j += 1;
    }
}

/// Copy a byte vector.
pub fn clone_bytes(src: &Vec<u8>) -> (r: Vec<u8>)
    ensures
        r@ == src@,
{
    let n = src.len();
    let mut out: Vec<u8> = Vec::new();
    let mut i: usize = 0;
    while i < n
        invariant
            n == src@.len(),
            out@ == src@.take(i as int),
            i <= n,
        decreases n - i,
    {
        out.push(src[i]);
        proof {
            assert(out@ =~= src@.take(i + 1 as int));
        }
        i += 1;
    }
    proof {
        assert(src@.take(n as int) =~= src@);
    }
    out
}

impl LogOverlays {
    pub open spec fn wf(&self) -> bool {
        self.index.wf() && self.value.wf()
    }

    /// Pending index mutations as a map to (record id, mask, chunk).
    pub open spec fn index_view(&self) -> Map<SlotKey, (u64, u64, Seq<u8>)> {
        self.index.view_map()
    }

    /// Pending value mutations as a map to (record id, payload).
    pub open spec fn value_view(&self) -> Map<SlotKey, (u64, Seq<u8>)> {
        self.value.view_map()
    }

    pub fn new() -> (r: LogOverlays)
        ensures
            r.wf(),
            r.index_view() == Map::<SlotKey, (u64, u64, Seq<u8>)>::empty(),
            r.value_view() == Map::<SlotKey, (u64, Seq<u8>)>::empty(),
    {
        let r = LogOverlays { index: IndexLogOverlay::new(), value: ValueLogOverlay::new() };
        proof {
            assert(r.index_view() =~= Map::<SlotKey, (u64, u64, Seq<u8>)>::empty());
            assert(r.value_view() =~= Map::<SlotKey, (u64, Seq<u8>)>::empty());
        }
        r
    }

    /// Drop every pending mutation.
    pub fn clear(&mut self)
        ensures
            final(self).wf(),
            final(self).index_view() == Map::<SlotKey, (u64, u64, Seq<u8>)>::empty(),
            final(self).value_view() == Map::<SlotKey, (u64, Seq<u8>)>::empty(),
    {
        let fresh = LogOverlays::new();
        self.index = fresh.index;
        self.value = fresh.value;
    }
}

/// Copy an index overlay entry.
pub fn dup_index_entry(e: &IndexOverlayEntry) -> (r: IndexOverlayEntry)
    ensures
        r.record_id == e.record_id,
        r.mask == e.mask,
        r.chunk@ == e.chunk@,
        r.view_tuple() == e.view_tuple(),
{
    IndexOverlayEntry { record_id: e.record_id, mask: e.mask, chunk: clone_bytes(&e.chunk) }
}

/// Copy a value overlay entry.
pub fn dup_value_entry(e: &ValueOverlayEntry) -> (r: ValueOverlayEntry)
    ensures
        r.record_id == e.record_id,
        r.value@ == e.value@,
        r.view_tuple() == e.view_tuple(),
{
    ValueOverlayEntry { record_id: e.record_id, value: clone_bytes(&e.value) }
}

/// The view of the first `i` entries of an index overlay's list.
pub open spec fn index_prefix_view(src: &IndexLogOverlay, i: int) -> Map<SlotKey, (u64, u64, Seq<u8>)> {
    Map::new(
        |k: SlotKey| crate::alist::assoc_map(src.map.entries@.take(i)).contains_key(k),
        |k: SlotKey| crate::alist::assoc_map(src.map.entries@.take(i))[k].view_tuple(),
    )
}

/// The view of the first `i` entries of a value overlay's list.
pub open spec fn value_prefix_view(src: &ValueLogOverlay, i: int) -> Map<SlotKey, (u64, Seq<u8>)> {
    Map::new(
        |k: SlotKey| crate::alist::assoc_map(src.map.entries@.take(i)).contains_key(k),
        |k: SlotKey| crate::alist::assoc_map(src.map.entries@.take(i))[k].view_tuple(),
    )
}

impl LogOverlays {
    /// Merge a record's local index mutations into the shared overlay;
    /// later entries replace earlier ones at the same slot.
    pub fn merge_index(&mut self, src: &IndexLogOverlay)
        requires
            old(self).wf(),
            src.wf(),
        ensures
            final(self).wf(),
            final(self).index_view() == old(self).index_view().union_prefer_right(src.view_map()),
            final(self).value == old(self).value,
    {
        let n = src.map.entries.len();
        let mut i: usize = 0;
        proof {
            assert(src.map.entries@.take(0) =~= Seq::<(SlotKey, IndexOverlayEntry)>::empty());
            assert(index_prefix_view(src, 0) =~= Map::<SlotKey, (u64, u64, Seq<u8>)>::empty());
            assert(self.index_view().union_prefer_right(index_prefix_view(src, 0))
                =~= self.index_view());
        }
        while i < n
            invariant
                n == src.map.entries@.len(),
                i <= n,
                src.wf(),
                self.wf(),
                self.value == old(self).value,
                self.index_view() == old(self).index_view().union_prefer_right(
                    index_prefix_view(src, i as int),
                ),
            decreases n - i,
        {
            let key = src.map.entries[i].0;
            let entry = dup_index_entry(&src.map.entries[i].1);
            proof {
                crate::alist::lemma_assoc_map_index(src.map.entries@, i as int);
                assert(src.to_map().contains_key(key));
                assert(src.to_map()[key].wf() && key.0 <= u16::MAX);
                assert(entry.wf());
            }
            let ghost pre = *self;
            self.index.map.insert(key.0, key.1, entry);
            proof {
                assert((key.0, key.1) == key);
                assert(self.index.view_map() =~= pre.index.view_map().insert(
                    key,
                    entry.view_tuple(),
                ));
                let t = src.map.entries@.take(i as int);
                let t1 = src.map.entries@.take(i + 1 as int);
                assert(t1 =~= t.push(src.map.entries@[i as int]));
                assert(forall|j: int| 0 <= j < t.len() ==> #[trigger] t[j]
                    == src.map.entries@[j]);
                assert(crate::alist::unique_keys(t));
                assert(forall|j: int| 0 <= j < t.len() ==> (#[trigger] t[j]).0 != key);
                crate::alist::lemma_assoc_map_push(t, key, src.map.entries@[i as int].1);
                assert(index_prefix_view(src, i + 1 as int) =~= index_prefix_view(
                    src,
                    i as int,
                ).insert(key, entry.view_tuple()));
                assert(self.index_view() =~= old(self).index_view().union_prefer_right(
                    index_prefix_view(src, i + 1 as int),
                ));
            }
            i += 1;
        }
        proof {
            assert(src.map.entries@.take(n as int) =~= src.map.entries@);
            assert(index_prefix_view(src, n as int) =~= src.view_map());
            assert(final(self).index_view() =~= old(self).index_view().union_prefer_right(
                src.view_map(),
            ));
        }
    }

    /// Merge a record's local value mutations into the shared overlay;
    /// later entries replace earlier ones at the same slot.
    pub fn merge_value(&mut self, src: &ValueLogOverlay)
        requires
            old(self).wf(),
            src.wf(),
        ensures
            final(self).wf(),
            final(self).value_view() == old(self).value_view().union_prefer_right(src.view_map()),
            final(self).index == old(self).index,
    {
        let n = src.map.entries.len();
        let mut i: usize = 0;
        proof {
            assert(src.map.entries@.take(0) =~= Seq::<(SlotKey, ValueOverlayEntry)>::empty());
            assert(value_prefix_view(src, 0) =~= Map::<SlotKey, (u64, Seq<u8>)>::empty());
            assert(self.value_view().union_prefer_right(value_prefix_view(src, 0))
                =~= self.value_view());
        }
        while i < n
            invariant
                n == src.map.entries@.len(),
                i <= n,
                src.wf(),
                self.wf(),
                self.index == old(self).index,
                self.value_view() == old(self).value_view().union_prefer_right(
                    value_prefix_view(src, i as int),
                ),
            decreases n - i,
        {
            let key = src.map.entries[i].0;
            let entry = dup_value_entry(&src.map.entries[i].1);
            proof {
                crate::alist::lemma_assoc_map_index(src.map.entries@, i as int);
                assert(src.to_map().contains_key(key));
                assert(key.0 <= u16::MAX);
            }
            let ghost pre = *self;
            self.value.map.insert(key.0, key.1, entry);
            proof {
                assert((key.0, key.1) == key);
                assert(self.value.view_map() =~= pre.value.view_map().insert(
                    key,
                    entry.view_tuple(),
                ));
                let t = src.map.entries@.take(i as int);
                let t1 = src.map.entries@.take(i + 1 as int);
                assert(t1 =~= t.push(src.map.entries@[i as int]));
                assert(forall|j: int| 0 <= j < t.len() ==> #[trigger] t[j]
                    == src.map.entries@[j]);
                assert(crate::alist::unique_keys(t));
                assert(forall|j: int| 0 <= j < t.len() ==> (#[trigger] t[j]).0 != key);
                crate::alist::lemma_assoc_map_push(t, key, src.map.entries@[i as int].1);
                assert(value_prefix_view(src, i + 1 as int) =~= value_prefix_view(
                    src,
                    i as int,
                ).insert(key, entry.view_tuple()));
                assert(self.value_view() =~= old(self).value_view().union_prefer_right(
                    value_prefix_view(src, i + 1 as int),
                ));
            }
            i += 1;
        }
        proof {
            assert(src.map.entries@.take(n as int) =~= src.map.entries@);
            assert(value_prefix_view(src, n as int) =~= src.view_map());
            assert(final(self).value_view() =~= old(self).value_view().union_prefer_right(
                src.view_map(),
            ));
        }
    }
}

impl LogQuery for LogOverlays {
    open spec fn query_index_view(&self) -> Map<SlotKey, (u64, u64, Seq<u8>)> {
        self.index_view()
    }

    open spec fn query_value_view(&self) -> Map<SlotKey, (u64, Seq<u8>)> {
        self.value_view()
    }

    open spec fn query_wf(&self) -> bool {
        self.wf()
    }

    fn with_index(&self, table: u16, index: u64) -> (r: Option<&Vec<u8>>) {
        match self.index.map.get(table as u64, index) {
            Some(entry) => Some(&entry.chunk),
            None => None,
        }
    }

    fn value(&self, table: u16, index: u64, dest: &mut Vec<u8>) -> (r: bool) {
        match self.value.map.get(table as u64, index) {
            Some(entry) => {
                copy_prefix(&entry.value, dest);
                true
            },
            None => false,
        }
    }
}

} // verus!
