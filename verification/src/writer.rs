//! A transaction's mutation buffer and the writer handle that fills it.
//!
//! A writer accumulates index, value and drop-table mutations for one
//! record, merging duplicates: repeated index writes to one slot OR their
//! masks together and keep the newest chunk; repeated value writes
//! replace outright.  `drain` hands the accumulated change to the log for
//! serialization and overlay publication.

use crate::alist::SlotKey;
use crate::codec::CHUNK_BYTES;
use crate::codec::ChangeSpec;
use crate::codec::IndexEntrySpec;
use crate::codec::ValueEntrySpec;
use crate::overlay::IndexLogOverlay;
use crate::overlay::IndexOverlayEntry;
use crate::overlay::LogOverlays;
use crate::overlay::LogQuery;
use crate::overlay::ValueLogOverlay;
use crate::overlay::ValueOverlayEntry;
use crate::overlay::clone_bytes;
use crate::overlay::copy_prefix;
use crate::overlay::prefix_copied;
use vstd::prelude::*;

verus! {

/// The serialization-order model of one stored index pair.
pub open spec fn index_entry_model(p: (SlotKey, IndexOverlayEntry)) -> IndexEntrySpec {
    IndexEntrySpec { table: p.0.0 as u16, slot: p.0.1, mask: p.1.mask, chunk: p.1.chunk@ }
}

/// The serialization-order model of one stored value pair.
pub open spec fn value_entry_model(p: (SlotKey, ValueOverlayEntry)) -> ValueEntrySpec {
    ValueEntrySpec { table: p.0.0 as u16, slot: p.0.1, value: p.1.value@ }
}

/// The accumulated mutations of one record.
pub struct LogChange {
    pub local_index: IndexLogOverlay,
    pub local_values: ValueLogOverlay,
    pub record_id: u64,
    pub dropped_tables: Vec<u16>,
}

impl LogChange {
    pub open spec fn wf(&self) -> bool {
        self.local_index.wf() && self.local_values.wf()
    }

    /// The record this change serializes to, entries in insertion order.
    pub open spec fn model(&self) -> ChangeSpec {
        ChangeSpec {
            record_id: self.record_id,
            index: self.local_index.map.entries@.map_values(
                |p: (SlotKey, IndexOverlayEntry)| index_entry_model(p),
            ),
            values: self.local_values.map.entries@.map_values(
                |p: (SlotKey, ValueOverlayEntry)| value_entry_model(p),
            ),
            dropped: self.dropped_tables@,
        }
    }

    pub fn new(record_id: u64) -> (r: LogChange)
        ensures
            r.wf(),
            r.record_id == record_id,
            r.local_index.view_map() == Map::<SlotKey, (u64, u64, Seq<u8>)>::empty(),
            r.local_values.view_map() == Map::<SlotKey, (u64, Seq<u8>)>::empty(),
            r.dropped_tables@ == Seq::<u16>::empty(),
            r.model().index == Seq::<IndexEntrySpec>::empty(),
            r.model().values == Seq::<ValueEntrySpec>::empty(),
    {
        let r = LogChange {
            local_index: IndexLogOverlay::new(),
            local_values: ValueLogOverlay::new(),
            record_id,
            dropped_tables: Vec::new(),
        };
        proof {
            assert(r.model().index =~= Seq::<IndexEntrySpec>::empty());
            assert(r.model().values =~= Seq::<ValueEntrySpec>::empty());
        }
        r
    }
}

impl LogChange {
    /// Serialize this change as one record: begin marker and record id,
    /// the index, value and drop entries in insertion order, then the end
    /// marker and the CRC32 of everything before it.
    pub fn to_bytes(&self) -> (r: Vec<u8>)
        requires
            self.wf(),
        ensures
            r@ == crate::codec::encode_record(self.model()),
    {
        let ghost m = self.model();
        let mut out: Vec<u8> = Vec::new();
        out.push(crate::codec::TAG_BEGIN);
        let rid = vstd::bytes::u64_to_le_bytes(self.record_id);
        crate::codec::append_bytes(&mut out, &rid);
        let ghost head = seq![crate::codec::TAG_BEGIN] + vstd::bytes::spec_u64_to_le_bytes(
            m.record_id,
        );
        proof {
            assert(out@ =~= head);
        }
        // index entries
        let n = self.local_index.map.entries.len();
        let mut i: usize = 0;
        proof {
            assert(out@ + crate::codec::encode_index_from(m.index, 0) =~= head
                + crate::codec::encode_index_seq(m.index));
        }
        while i < n
            invariant
                self.wf(),
                m == self.model(),
                head == seq![crate::codec::TAG_BEGIN] + vstd::bytes::spec_u64_to_le_bytes(
                    m.record_id,
                ),
                n == self.local_index.map.entries@.len(),
                m.index.len() == n,
                i <= n,
                out@ + crate::codec::encode_index_from(m.index, i as int) == head
                    + crate::codec::encode_index_seq(m.index),
            decreases n - i,
        {
            proof {
                crate::alist::lemma_assoc_map_index(self.local_index.map.entries@, i as int);
                assert(self.local_index.to_map().contains_key(
                    self.local_index.map.entries@[i as int].0,
                ));
            }
            let ghost e = m.index[i as int];
            let ghost before = out@;
            let key = self.local_index.map.entries[i].0;
            out.push(crate::codec::TAG_INSERT_INDEX);
            let t = vstd::bytes::u16_to_le_bytes(key.0 as u16);
            crate::codec::append_bytes(&mut out, &t);
            let s = vstd::bytes::u64_to_le_bytes(key.1);
            crate::codec::append_bytes(&mut out, &s);
            let mask = self.local_index.map.entries[i].1.mask;
            let mk = vstd::bytes::u64_to_le_bytes(mask);
            crate::codec::append_bytes(&mut out, &mk);
            crate::codec::push_sub_entries(&mut out, mask, &self.local_index.map.entries[i].1.chunk);
            proof {
                assert(out@ =~= before + crate::codec::encode_index_entry(e));
                assert(out@ + crate::codec::encode_index_from(m.index, i + 1 as int) =~= head
                    + crate::codec::encode_index_seq(m.index));
            }
            i += 1;
        }
        let ghost head2 = head + crate::codec::encode_index_seq(m.index);
        proof {
            assert(out@ =~= head2);
        }
        // value entries
        let nv = self.local_values.map.entries.len();
        let mut i: usize = 0;
        proof {
            assert(out@ + crate::codec::encode_value_from(m.values, 0) =~= head2
                + crate::codec::encode_value_seq(m.values));
        }
        while i < nv
            invariant
                self.wf(),
                m == self.model(),
                nv == self.local_values.map.entries@.len(),
                m.values.len() == nv,
                i <= nv,
                out@ + crate::codec::encode_value_from(m.values, i as int) == head2
                    + crate::codec::encode_value_seq(m.values),
            decreases nv - i,
        {
            proof {
                crate::alist::lemma_assoc_map_index(self.local_values.map.entries@, i as int);
                assert(self.local_values.to_map().contains_key(
                    self.local_values.map.entries@[i as int].0,
                ));
            }
            let ghost e = m.values[i as int];
            let ghost before = out@;
            let key = self.local_values.map.entries[i].0;
            out.push(crate::codec::TAG_INSERT_VALUE);
            let t = vstd::bytes::u16_to_le_bytes(key.0 as u16);
            crate::codec::append_bytes(&mut out, &t);
            let s = vstd::bytes::u64_to_le_bytes(key.1);
            crate::codec::append_bytes(&mut out, &s);
            crate::codec::append_bytes(&mut out, &self.local_values.map.entries[i].1.value);
            proof {
                assert(out@ =~= before + crate::codec::encode_value_entry(e));
                assert(out@ + crate::codec::encode_value_from(m.values, i + 1 as int) =~= head2
                    + crate::codec::encode_value_seq(m.values));
            }
            i += 1;
        }
        let ghost head3 = head2 + crate::codec::encode_value_seq(m.values);
        proof {
            assert(out@ =~= head3);
        }
        // dropped tables
        let nd = self.dropped_tables.len();
        let mut i: usize = 0;
        proof {
            assert(out@ + crate::codec::encode_drop_from(m.dropped, 0) =~= head3
                + crate::codec::encode_drop_seq(m.dropped));
        }
        while i < nd
            invariant
                m.dropped == self.dropped_tables@,
                nd == self.dropped_tables@.len(),
                i <= nd,
                out@ + crate::codec::encode_drop_from(m.dropped, i as int) == head3
                    + crate::codec::encode_drop_seq(m.dropped),
            decreases nd - i,
        {
            let ghost before = out@;
            out.push(crate::codec::TAG_DROP_TABLE);
            let t = vstd::bytes::u16_to_le_bytes(self.dropped_tables[i]);
            crate::codec::append_bytes(&mut out, &t);
            proof {
                assert(out@ =~= before + crate::codec::encode_drop_entry(m.dropped[i as int]));
                assert(out@ + crate::codec::encode_drop_from(m.dropped, i + 1 as int) =~= head3
                    + crate::codec::encode_drop_seq(m.dropped));
            }
            i += 1;
        }
        out.push(crate::codec::TAG_END);
        proof {
            assert(out@ =~= crate::codec::record_body(m));
        }
        let crc = crate::codec::crc32(&out);
        let cb = vstd::bytes::u32_to_le_bytes(crc);
        crate::codec::append_bytes(&mut out, &cb);
        proof {
            assert(out@ =~= crate::codec::encode_record(m));
        }
        out
    }
}

/// The mask an index write leaves at a slot: the old mask, if the slot
/// was already touched by this record, with the new sub-entry bit set.
pub open spec fn merged_mask(prior: Map<SlotKey, (u64, u64, Seq<u8>)>, k: SlotKey, sub: u8) -> u64 {
    if prior.contains_key(k) {
        prior[k].1 | (1u64 << sub)
    } else {
        1u64 << sub
    }
}

/// A handle for filling one record, obtained from `begin_record`.  It
/// reads through to the shared overlay for slots it has not touched.
pub struct LogWriter<'a> {
    overlays: &'a LogOverlays,
    log: LogChange,
}

impl<'a> LogWriter<'a> {
    /// The change accumulated so far.
    pub closed spec fn change(&self) -> LogChange {
        self.log
    }

    /// The shared overlay this writer reads through to.
    pub closed spec fn shared(&self) -> LogOverlays {
        *self.overlays
    }

    pub open spec fn wf(&self) -> bool {
        self.change().wf() && self.shared().wf()
    }

    pub(crate) fn new(overlays: &'a LogOverlays, record_id: u64) -> (r: LogWriter<'a>)
        requires
            overlays.wf(),
        ensures
            r.wf(),
            r.shared() == *overlays,
            r.change().record_id == record_id,
            r.change().local_index.view_map() == Map::<SlotKey, (u64, u64, Seq<u8>)>::empty(),
            r.change().local_values.view_map() == Map::<SlotKey, (u64, Seq<u8>)>::empty(),
            r.change().dropped_tables@ == Seq::<u16>::empty(),
            r.change().model().index == Seq::<IndexEntrySpec>::empty(),
            r.change().model().values == Seq::<ValueEntrySpec>::empty(),
    {
        LogWriter { overlays, log: LogChange::new(record_id) }
    }

    pub fn record_id(&self) -> (r: u64)
        ensures
            r == self.change().record_id,
    {
        self.log.record_id
    }

    /// Record an index mutation: OR the sub-entry bit into the slot's
    /// mask, keep the newest chunk, stamp this record's id.
    pub fn insert_index(&mut self, table: u16, index: u64, sub: u8, data: &Vec<u8>)
        requires
            old(self).wf(),
            sub < 64,
            data@.len() == CHUNK_BYTES,
        ensures
            final(self).wf(),
            final(self).shared() == old(self).shared(),
            final(self).change().record_id == old(self).change().record_id,
            final(self).change().local_values == old(self).change().local_values,
            final(self).change().dropped_tables == old(self).change().dropped_tables,
            final(self).change().local_index.view_map() == old(self).change().local_index.view_map().insert(
                (table as u64, index),
                (
                    old(self).change().record_id,
                    merged_mask(
                        old(self).change().local_index.view_map(),
                        (table as u64, index),
                        sub,
                    ),
                    data@,
                ),
            ),
    {
        let bit: u64 = 1u64 << (sub as u64);
        let mask: u64 = match self.log.local_index.map.get(table as u64, index) {
            Some(e) => e.mask | bit,
            None => bit,
        };
        let entry = IndexOverlayEntry {
            record_id: self.log.record_id,
            mask,
            chunk: clone_bytes(data),
        };
        let ghost pre = self.log.local_index;
        self.log.local_index.map.insert(table as u64, index, entry);
        proof {
            assert(self.log.local_index.view_map() =~= pre.view_map().insert(
                (table as u64, index),
                (self.log.record_id, mask, data@),
            ));
        }
    }

    /// Record a value mutation: replace the slot's pending payload.
    pub fn insert_value(&mut self, table: u16, index: u64, data: Vec<u8>)
        requires
            old(self).wf(),
        ensures
            final(self).wf(),
            final(self).shared() == old(self).shared(),
            final(self).change().record_id == old(self).change().record_id,
            final(self).change().local_index == old(self).change().local_index,
            final(self).change().dropped_tables == old(self).change().dropped_tables,
            final(self).change().local_values.view_map() == old(self).change().local_values.view_map().insert(
                (table as u64, index),
                (old(self).change().record_id, data@),
            ),
    {
        let entry = ValueOverlayEntry { record_id: self.log.record_id, value: data };
        let ghost d = entry.value@;
        let ghost pre = self.log.local_values;
        self.log.local_values.map.insert(table as u64, index, entry);
        proof {
            assert(self.log.local_values.view_map() =~= pre.view_map().insert(
                (table as u64, index),
                (self.log.record_id, d),
            ));
        }
    }

    /// Record that an index table was dropped.
    pub fn drop_table(&mut self, id: u16)
        requires
            old(self).wf(),
        ensures
            final(self).wf(),
            final(self).shared() == old(self).shared(),
            final(self).change().record_id == old(self).change().record_id,
            final(self).change().local_index == old(self).change().local_index,
            final(self).change().local_values == old(self).change().local_values,
            final(self).change().dropped_tables@ == old(self).change().dropped_tables@.push(id),
    {
        self.log.dropped_tables.push(id);
    }

    /// Hand the accumulated change over for serialization.
    pub fn drain(self) -> (r: LogChange)
        ensures
            r == self.change(),
    {
        self.log
    }
}

impl<'a> LogQuery for LogWriter<'a> {
    /// The writer sees its own pending index mutations over the shared ones.
    open spec fn query_index_view(&self) -> Map<SlotKey, (u64, u64, Seq<u8>)> {
        self.shared().index_view().union_prefer_right(self.change().local_index.view_map())
    }

    /// The writer sees its own pending value mutations over the shared ones.
    open spec fn query_value_view(&self) -> Map<SlotKey, (u64, Seq<u8>)> {
        self.shared().value_view().union_prefer_right(self.change().local_values.view_map())
    }

    open spec fn query_wf(&self) -> bool {
        self.wf()
    }

    fn with_index(&self, table: u16, index: u64) -> (r: Option<&Vec<u8>>) {
        match self.log.local_index.map.get(table as u64, index) {
            Some(entry) => Some(&entry.chunk),
            None => self.overlays.with_index(table, index),
        }
    }

    fn value(&self, table: u16, index: u64, dest: &mut Vec<u8>) -> (r: bool) {
        match self.log.local_values.map.get(table as u64, index) {
            Some(entry) => {
                copy_prefix(&entry.value, dest);
                true
            },
            None => self.overlays.value(table, index, dest),
        }
    }
}

} // verus!
