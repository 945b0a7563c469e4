//! The log container: record id assignment, the append/flush/read/cleanup
//! file state machine, recovery scanning and overlay eviction.
//!
//! A log file's contents live in a byte buffer; the surrounding
//! application mirrors the buffers to the file system and performs the
//! durability syncs.  Each file occupies exactly one slot at a time:
//! pool, appending, flushing, reading, or the cleanup queue.

use crate::alist::SlotKey;
use crate::codec::TAG_BEGIN;
use crate::error::Error;
use crate::error::IoErrorKind;
use crate::overlay::LogOverlays;
use crate::writer::LogChange;
use crate::writer::LogWriter;
use vstd::bytes::spec_u64_from_le_bytes;
use vstd::bytes::u64_from_le_bytes;
use vstd::prelude::*;
use vstd::multiset::Multiset;
use vstd::seq_lib::group_to_multiset_ensures;
use vstd::slice::slice_subrange;

verus! {

/// Most files the pool parks for reuse; beyond this, cleaned files are
/// deleted instead.
pub const MAX_LOG_POOL_SIZE: usize = 16;

/// Configuration the log consumes: whether a flush must sync to disk.
pub struct Options {
    pub sync_wal: bool,
}

/// An index mutation header returned by the reading cursor.
#[derive(Debug)]
pub struct InsertIndexAction {
    pub table: u16,
    pub index: u64,
}

/// A value mutation header returned by the reading cursor.
#[derive(Debug)]
pub struct InsertValueAction {
    pub table: u16,
    pub index: u64,
}

/// One action streamed back from a record during replay or enactment.
#[derive(Debug)]
pub enum LogAction {
    BeginRecord,
    InsertIndex(InsertIndexAction),
    InsertValue(InsertValueAction),
    DropTable(u16),
    EndRecord,
}

/// The `(table, slot)` pairs a record touched, collected while reading it
/// and consumed by `end_read` to evict overlay entries.
pub struct Cleared {
    pub index: Vec<(u16, u64)>,
    pub values: Vec<(u16, u64)>,
}

impl Cleared {
    pub fn new() -> (r: Cleared)
        ensures
            r.index@ == Seq::<(u16, u64)>::empty(),
            r.values@ == Seq::<(u16, u64)>::empty(),
    {
        Cleared { index: Vec::new(), values: Vec::new() }
    }
}

/// The file currently accepting new records.
pub struct Appending {
    pub id: u32,
    pub file: Vec<u8>,
    pub size: u64,
}

/// The file written out and waiting to be handed to the reader.
pub struct Flushing {
    pub id: u32,
    pub file: Vec<u8>,
}

/// The file the enactor is streaming records from; `pos` is the cursor.
pub struct Reading {
    pub id: u32,
    pub file: Vec<u8>,
    pub pos: usize,
}

/// Whether a reader is still consuming the reading slot.
pub enum ReadingState {
    Reading,
    Idle,
}

/// A file waiting in the replay queue: log id, first record id, contents.
pub type ReplayEntry = (u32, u64, Vec<u8>);

/// Non-decreasing by first record id.
pub open spec fn sorted_by_rid(s: Seq<ReplayEntry>) -> bool {
    forall|p: int, q: int| 0 <= p <= q < s.len() ==> (#[trigger] s[p]).1 <= (#[trigger] s[q]).1
}

/// A log file's first record id, read from bytes 1..9 of its header.
pub open spec fn first_record_id_of(bytes: Seq<u8>) -> u64 {
    spec_u64_from_le_bytes(bytes.subrange(1, 9))
}

/// A non-empty log file whose header the recovery scan accepts.
pub open spec fn scan_ok(bytes: Seq<u8>) -> bool {
    bytes.len() >= 9 && bytes[0] == TAG_BEGIN
}

/// The replay entries of the files from position `i` on: one entry per
/// non-empty file, in input order.
pub open spec fn scanned_from(files: Seq<(u32, Vec<u8>)>, i: int) -> Seq<ReplayEntry>
    decreases files.len() - i,
{
    if i < 0 || i >= files.len() {
        Seq::empty()
    } else {
        (if files[i].1@.len() > 0 {
            seq![(files[i].0, first_record_id_of(files[i].1@), files[i].1)]
        } else {
            Seq::empty()
        }) + scanned_from(files, i + 1)
    }
}

pub open spec fn scanned_logs(files: Seq<(u32, Vec<u8>)>) -> Seq<ReplayEntry> {
    scanned_from(files, 0)
}

/// The ids of the empty files from position `i` on, in input order.
pub open spec fn discard_from(files: Seq<(u32, Vec<u8>)>, i: int) -> Seq<u32>
    decreases files.len() - i,
{
    if i < 0 || i >= files.len() {
        Seq::empty()
    } else {
        (if files[i].1@.len() == 0 {
            seq![files[i].0]
        } else {
            Seq::empty()
        }) + discard_from(files, i + 1)
    }
}

pub open spec fn discard_ids(files: Seq<(u32, Vec<u8>)>) -> Seq<u32> {
    discard_from(files, 0)
}

/// The largest log id among positions `lo..hi`.
pub open spec fn max_from(s: Seq<ReplayEntry>, lo: int, hi: int) -> u32
    decreases hi - lo,
{
    if lo < 0 || lo >= hi || hi > s.len() {
        0
    } else {
        let rest = max_from(s, lo + 1, hi);
        if s[lo].0 >= rest {
            s[lo].0
        } else {
            rest
        }
    }
}

/// The largest log id among the entries.
pub open spec fn max_log_id(s: Seq<ReplayEntry>) -> u32 {
    max_from(s, 0, s.len() as int)
}

/// `max_from` over `lo..hi+1` folds in `s[hi]`.
pub proof fn lemma_max_from_extend(s: Seq<ReplayEntry>, lo: int, hi: int)
    requires
        0 <= lo <= hi < s.len(),
    ensures
        max_from(s, lo, hi + 1) == if s[hi].0 >= max_from(s, lo, hi) {
            s[hi].0
        } else {
            max_from(s, lo, hi)
        },
    decreases hi - lo,
{
    if lo < hi {
        lemma_max_from_extend(s, lo + 1, hi);
    } else {
        assert(max_from(s, lo + 1, hi + 1) == 0);
        assert(max_from(s, lo, hi) == 0);
    }
}

/// The write-ahead log: shared overlay, the file slots, the id counters
/// and the recovery queue.
pub struct Log {
    pub overlays: LogOverlays,
    pub appending: Option<Appending>,
    pub reading: Option<Reading>,
    pub reading_state: ReadingState,
    pub flushing: Option<Flushing>,
    pub next_record_id: u64,
    pub dirty: bool,
    pub log_pool: Vec<(u32, Vec<u8>)>,
    pub cleanup_queue: Vec<(u32, Vec<u8>)>,
    pub replay_queue: Vec<ReplayEntry>,
    pub next_log_id: u32,
    pub sync: bool,
}

impl Log {
    pub open spec fn wf(&self) -> bool {
        &&& self.overlays.wf()
        &&& self.next_record_id >= 1
        &&& match self.appending {
            Some(a) => a.size == a.file@.len(),
            None => true,
        }
        &&& match self.reading {
            Some(r) => r.pos <= r.file@.len(),
            None => true,
        }
        &&& forall|i: int|
            0 <= i < self.log_pool@.len() ==> (#[trigger] self.log_pool@[i]).1@.len() == 0
        &&& forall|i: int, j: int|
            0 <= i <= j < self.log_pool@.len() ==> (#[trigger] self.log_pool@[i]).0 <= (
            #[trigger] self.log_pool@[j]).0
    }

    /// Scan one log file's contents: `None` for an empty file (to be
    /// discarded), else its first record id.  A non-empty file shorter
    /// than a record header is an unexpected end of file; one that does
    /// not begin with the `BEGIN` tag is corrupt.
    pub fn open_log_file(bytes: &Vec<u8>) -> (r: Result<Option<u64>, Error>)
        ensures
            match r {
                Ok(None) => bytes@.len() == 0,
                Ok(Some(rid)) => scan_ok(bytes@) && rid == first_record_id_of(bytes@),
                Err(e) => bytes@.len() > 0 && !scan_ok(bytes@) && (if bytes@.len() < 9 {
                    e is Io && e->Io_0 is UnexpectedEof
                } else {
                    e is Corruption
                }),
            },
    {
        if bytes.len() == 0 {
            return Ok(None);
        }
        if bytes.len() < 9 {
            return Err(Error::Io(IoErrorKind::UnexpectedEof));
        }
        if bytes[0] != TAG_BEGIN {
            return Err(Error::Corruption("Bad log file header".to_string()));
        }
        let header = slice_subrange(bytes.as_slice(), 1, 9);
        let rid = u64_from_le_bytes(header);
        Ok(Some(rid))
    }

    /// Open the log over the contents of the directory's `log<N>` files.
    /// Empty files are reported back for deletion; the rest form the
    /// replay queue, ordered by first record id.  The next log id starts
    /// past the largest id seen; the record id counter starts at 1 and
    /// advances as records are enacted.
    pub fn open(options: &Options, files: Vec<(u32, Vec<u8>)>) -> (r: Result<
        (Log, Vec<u32>),
        Error,
    >)
        requires
            forall|i: int| 0 <= i < files@.len() ==> (#[trigger] files@[i]).0 < u32::MAX,
        ensures
            match r {
                Ok((log, discard)) => {
                    &&& forall|i: int|
                        0 <= i < files@.len() ==> ((#[trigger] files@[i]).1@.len() > 0 ==> scan_ok(
                            files@[i].1@,
                        ))
                    &&& log.wf()
                    &&& log.replay_queue@.to_multiset() == scanned_logs(files@).to_multiset()
                    &&& log.replay_queue@.len() == scanned_logs(files@).len()
                    &&& sorted_by_rid(log.replay_queue@)
                    &&& discard@ == discard_ids(files@)
                    &&& log.next_log_id == (if scanned_logs(files@).len() == 0 {
                        0u32
                    } else {
                        (max_log_id(scanned_logs(files@)) + 1) as u32
                    })
                    &&& log.next_record_id == 1
                    &&& log.dirty == true
                    &&& log.sync == options.sync_wal
                    &&& log.appending is None
                    &&& log.reading is None
                    &&& log.flushing is None
                    &&& log.reading_state is Idle
                    &&& log.log_pool@.len() == 0
                    &&& log.cleanup_queue@.len() == 0
                    &&& log.overlays.index_view() == Map::<SlotKey, (u64, u64, Seq<u8>)>::empty()
                    &&& log.overlays.value_view() == Map::<SlotKey, (u64, Seq<u8>)>::empty()
                },
                Err(_) => exists|i: int|
                    0 <= i < files@.len() && (#[trigger] files@[i]).1@.len() > 0 && !scan_ok(
                        files@[i].1@,
                    ),
            },
    {
        let ghost all = files@;
        let mut rest = files;
        let n = rest.len();
        let mut scanned: Vec<ReplayEntry> = Vec::new();
        let mut discard: Vec<u32> = Vec::new();
        while rest.len() > 0
            invariant
                all == files@,
                rest@.len() <= all.len(),
                rest@ == all.subrange(all.len() - rest@.len(), all.len() as int),
                forall|j: int| 0 <= j < all.len() ==> (#[trigger] all[j]).0 < u32::MAX,
                forall|j: int| 0 <= j < scanned@.len() ==> (#[trigger] scanned@[j]).0 < u32::MAX,
                scanned@ + scanned_from(all, all.len() - rest@.len()) == scanned_logs(all),
                discard@ + discard_from(all, all.len() - rest@.len()) == discard_ids(all),
                forall|j: int|
                    0 <= j < all.len() - rest@.len() ==> ((#[trigger] all[j]).1@.len() > 0
                        ==> scan_ok(all[j].1@)),
            decreases rest@.len(),
        {
            let ghost i = all.len() - rest@.len();
            let ghost pre_rest = rest@;
            let f = rest.remove(0);
            proof {
                assert(pre_rest[0] == all[i]);
                assert(f == all[i]);
                assert(rest@ =~= all.subrange(all.len() - rest@.len(), all.len() as int));
            }
            match Log::open_log_file(&f.1) {
                Ok(Some(rid)) => {
                    let ghost pre_scanned = scanned@;
                    scanned.push((f.0, rid, f.1));
                    proof {
                        assert(scanned@ + scanned_from(all, i + 1) =~= scanned_logs(all)) by {
                            assert(scanned_from(all, i) == seq![
                                (all[i].0, first_record_id_of(all[i].1@), all[i].1)
                            ] + scanned_from(all, i + 1));
                            assert(scanned@ == pre_scanned.push(
                                (all[i].0, first_record_id_of(all[i].1@), all[i].1),
                            ));
                        }
                        assert(discard@ + discard_from(all, i + 1) =~= discard_ids(all)) by {
                            assert(discard_from(all, i) == discard_from(all, i + 1));
                        }
                    }
                },
                Ok(None) => {
                    discard.push(f.0);
                    proof {
                        assert(discard@ + discard_from(all, i + 1) =~= discard_ids(all)) by {
                            assert(discard_from(all, i) == seq![all[i].0] + discard_from(
                                all,
                                i + 1,
                            ));
                            assert(discard@.drop_last() + discard_from(all, i) == discard_ids(
                                all,
                            ));
                        }
                        assert(scanned@ + scanned_from(all, i + 1) =~= scanned_logs(all)) by {
                            assert(scanned_from(all, i) == scanned_from(all, i + 1));
                        }
                    }
                },
                Err(e) => {
                    proof {
                        assert(all == files@);
                        assert(files@[i].1@.len() > 0 && !scan_ok(files@[i].1@));
                        assert(exists|j: int|
                            0 <= j < files@.len() && (#[trigger] files@[j]).1@.len() > 0
                                && !scan_ok(files@[j].1@));
                    }
                    return Err(e);
                },
            }
        }
        proof {
            assert(scanned_from(all, all.len() as int) == Seq::<ReplayEntry>::empty());
            assert(discard_from(all, all.len() as int) == Seq::<u32>::empty());
            assert(scanned@ =~= scanned_logs(all));
            assert(discard@ =~= discard_ids(all));
        }
        // the next log id starts past the largest id of the kept files
        let next_log_id = Log::compute_next_log_id(&scanned);
        let queue = Log::sort_by_record_id(scanned);
        let log = Log {
            overlays: LogOverlays::new(),
            appending: None,
            reading: None,
            reading_state: ReadingState::Idle,
            flushing: None,
            next_record_id: 1,
            dirty: true,
            log_pool: Vec::new(),
            cleanup_queue: Vec::new(),
            replay_queue: queue,
            next_log_id,
            sync: options.sync_wal,
        };
        Ok((log, discard))
    }

    /// The id to give the next freshly created log file.
    fn compute_next_log_id(scanned: &Vec<ReplayEntry>) -> (r: u32)
        requires
            forall|i: int| 0 <= i < scanned@.len() ==> (#[trigger] scanned@[i]).0 < u32::MAX,
        ensures
            r == (if scanned@.len() == 0 {
                0u32
            } else {
                (max_log_id(scanned@) + 1) as u32
            }),
    {
        if scanned.len() == 0 {
            return 0;
        }
        let n = scanned.len();
        let mut best: u32 = 0;
        let mut i: usize = 0;
        while i < n
            invariant
                n == scanned@.len(),
                i <= n,
                forall|j: int| 0 <= j < n ==> (#[trigger] scanned@[j]).0 < u32::MAX,
                best == max_from(scanned@, 0, i as int),
                best < u32::MAX,
            decreases n - i,
        {
            let id = scanned[i].0;
            proof {
                lemma_max_from_extend(scanned@, 0, i as int);
            }
            if id > best {
                best = id;
            }
            i += 1;
        }
        best + 1
    }

    /// Sort replay entries ascending by first record id.
    fn sort_by_record_id(input: Vec<ReplayEntry>) -> (r: Vec<ReplayEntry>)
        ensures
            r@.to_multiset() == input@.to_multiset(),
            sorted_by_rid(r@),
            r@.len() == input@.len(),
    {
        broadcast use group_to_multiset_ensures;
        broadcast use vstd::multiset::group_multiset_axioms;

        let mut src = input;
        let ghost orig = src@;
        let mut out: Vec<ReplayEntry> = Vec::new();
        proof {
            assert(out@.to_multiset().add(src@.to_multiset()) =~= orig.to_multiset());
        }
        while src.len() > 0
            invariant
                out@.to_multiset().add(src@.to_multiset()) == orig.to_multiset(),
                out@.len() + src@.len() == orig.len(),
                sorted_by_rid(out@),
                forall|p: int, q: int|
                    0 <= p < out@.len() && 0 <= q < src@.len() ==> (#[trigger] out@[p]).1 <= (
                    #[trigger] src@[q]).1,
            decreases src@.len(),
        {
            // find the minimum remaining record id
            let m = src.len();
            let mut mi: usize = 0;
            let mut j: usize = 1;
            while j < m
                invariant
                    m == src@.len(),
                    mi < j <= m,
                    forall|q: int| 0 <= q < j ==> src@[mi as int].1 <= (#[trigger] src@[q]).1,
                decreases m - j,
            {
                if src[j].1 < src[mi].1 {
                    mi = j;
                }
                j += 1;
            }
            let ghost pre_src = src@;
            let ghost pre_out = out@;
            let e = src.remove(mi);
            out.push(e);
            proof {
                broadcast use group_to_multiset_ensures;
                broadcast use vstd::multiset::group_multiset_axioms;

                assert(pre_src[mi as int] == e);
                assert(src@ == pre_src.remove(mi as int));
                assert(out@ == pre_out.push(e));
                assert(pre_src.remove(mi as int).to_multiset() =~= pre_src.to_multiset().remove(
                    e,
                ));
                assert(pre_out.push(e).to_multiset() =~= pre_out.to_multiset().insert(e));
                assert(pre_src.to_multiset().count(e) > 0) by {
                    assert(pre_src.contains(e));
                }
                assert(out@.to_multiset().add(src@.to_multiset()) =~= pre_out.to_multiset().add(
                    pre_src.to_multiset(),
                ));
                assert forall|p: int, q: int|
                    0 <= p < out@.len() && 0 <= q < src@.len() implies (#[trigger] out@[p]).1 <= (
                #[trigger] src@[q]).1 by {
                    let sq = if q < mi { q } else { q + 1 };
                    assert(src@[q] == pre_src[sq]);
                    if p < out@.len() - 1 {
                        assert(out@[p] == pre_out[p]);
                    } else {
                        assert(out@[p] == e);
                    }
                }
                assert(sorted_by_rid(out@)) by {
                    assert forall|p: int, q: int| 0 <= p <= q < out@.len() implies (
                    #[trigger] out@[p]).1 <= (#[trigger] out@[q]).1 by {
                        if q < out@.len() - 1 {
                            assert(pre_out[p].1 <= pre_out[q].1);
                        } else if p < q {
                            assert(out@[p] == pre_out[p]);
                            assert(out@[q] == e);
                            assert(pre_src[mi as int] == e);
                        }
                    }
                }
            }
        }
        proof {
            assert(src@.to_multiset() =~= Multiset::<ReplayEntry>::empty()) by {
                assert(src@.len() == 0);
                assert(src@ =~= Seq::<ReplayEntry>::empty());
            }
            assert(out@.to_multiset() =~= orig.to_multiset());
        }
        out
    }

    /// The first record id waiting in the replay queue, if any.
    pub fn replay_record_id(&self) -> (r: Option<u64>)
        ensures
            match r {
                Some(rid) => self.replay_queue@.len() > 0 && rid == self.replay_queue@[0].1,
                None => self.replay_queue@.len() == 0,
            },
    {
        if self.replay_queue.len() > 0 {
            Some(self.replay_queue[0].1)
        } else {
            None
        }
    }

    /// The shared overlay, for readers.
    pub fn overlays(&self) -> (r: &LogOverlays)
        ensures
            r == &self.overlays,
    {
        &self.overlays
    }

    /// How many fully enacted files await cleanup.
    pub fn num_dirty_logs(&self) -> (r: usize)
        ensures
            r == self.cleanup_queue@.len(),
    {
        self.cleanup_queue.len()
    }

    /// Start a record: assign the next record id and hand out a writer.
    pub fn begin_record(&mut self) -> (w: LogWriter<'_>)
        requires
            old(self).wf(),
            old(self).next_record_id < u64::MAX,
        ensures
            final(self).wf(),
            final(self).next_record_id == old(self).next_record_id + 1,
            final(self).overlays == old(self).overlays,
            final(self).appending == old(self).appending,
            final(self).reading == old(self).reading,
            final(self).reading_state == old(self).reading_state,
            final(self).flushing == old(self).flushing,
            final(self).dirty == old(self).dirty,
            final(self).log_pool == old(self).log_pool,
            final(self).cleanup_queue == old(self).cleanup_queue,
            final(self).replay_queue == old(self).replay_queue,
            final(self).next_log_id == old(self).next_log_id,
            final(self).sync == old(self).sync,
            w.wf(),
            w.shared() == final(self).overlays,
            w.change().record_id == old(self).next_record_id,
            w.change().local_index.view_map() == Map::<SlotKey, (u64, u64, Seq<u8>)>::empty(),
            w.change().local_values.view_map() == Map::<SlotKey, (u64, Seq<u8>)>::empty(),
            w.change().dropped_tables@ == Seq::<u16>::empty(),
            w.change().model().index == Seq::<crate::codec::IndexEntrySpec>::empty(),
            w.change().model().values == Seq::<crate::codec::ValueEntrySpec>::empty(),
    {
        let id = self.next_record_id;
        self.next_record_id = id + 1;
        LogWriter::new(&self.overlays, id)
    }

    /// Serialize a drained change into the active append file, acquiring
    /// one from the pool (lowest id first) or creating a fresh one if none
    /// is active, then publish the change's mutations in the overlay.
    /// Returns the number of bytes appended.  Writers hand their changes
    /// in the order their record ids were assigned.
    pub fn end_record(&mut self, log: LogChange) -> (r: Result<u64, Error>)
        requires
            old(self).wf(),
            log.wf(),
            log.record_id + 1 == old(self).next_record_id,
            (match old(self).appending {
                Some(a) => a.file@.len() as int,
                None => 0,
            }) + crate::codec::record_body(log.model()).len() + 4 <= usize::MAX as int,
            old(self).appending is None && old(self).log_pool@.len() == 0 ==> old(self).next_log_id
                < u32::MAX,
        ensures
            final(self).wf(),
            r matches Ok(b) && b == crate::codec::encode_record(log.model()).len() as u64,
            // the record's bytes stand at the end of the append file
            final(self).appending matches Some(a) && a.file@ == (match old(self).appending {
                Some(p) => p.file@,
                None => Seq::<u8>::empty(),
            }) + crate::codec::encode_record(log.model()),
            // which file accepted the record
            match old(self).appending {
                Some(p) => final(self).appending->Some_0.id == p.id && final(self).log_pool == old(self).log_pool && final(self).next_log_id == old(self).next_log_id,
                None => if old(self).log_pool@.len() > 0 {
                    final(self).appending->Some_0.id == old(self).log_pool@[0].0 && final(self).log_pool@ == old(self).log_pool@.drop_first() && final(self).next_log_id
                        == old(self).next_log_id
                } else {
                    final(self).appending->Some_0.id == old(self).next_log_id && final(self).next_log_id == old(self).next_log_id + 1 && final(self).log_pool@ == old(self).log_pool@
                },
            },
            // the overlay now holds the change's mutations, newest wins
            final(self).overlays.index_view() == old(self).overlays.index_view(
            ).union_prefer_right(log.local_index.view_map()),
            final(self).overlays.value_view() == old(self).overlays.value_view(
            ).union_prefer_right(log.local_values.view_map()),
            // every mutation of this record is visible in the overlay
            forall|k: SlotKey| #[trigger]
                log.local_index.view_map().contains_key(k) ==> final(self).overlays.index_view().contains_key(k) && final(self).overlays.index_view()[k]
                    == log.local_index.view_map()[k],
            forall|k: SlotKey| #[trigger]
                log.local_values.view_map().contains_key(k) ==> final(self).overlays.value_view().contains_key(k) && final(self).overlays.value_view()[k]
                    == log.local_values.view_map()[k],
            final(self).dirty == true,
            final(self).reading == old(self).reading,
            final(self).reading_state == old(self).reading_state,
            final(self).flushing == old(self).flushing,
            final(self).replay_queue == old(self).replay_queue,
            final(self).cleanup_queue == old(self).cleanup_queue,
            final(self).next_record_id == old(self).next_record_id,
            final(self).sync == old(self).sync,
    {
        let bytes = log.to_bytes();
        let blen = bytes.len();
        let mut app: Appending = match self.appending.take() {
            Some(a) => a,
            None => {
                if self.log_pool.len() > 0 {
                    let ghost pre_pool = self.log_pool@;
                    let (id, file) = self.log_pool.remove(0);
                    proof {
                        assert(self.log_pool@ =~= pre_pool.drop_first());
                        assert(file@.len() == 0);
                    }
                    Appending { id, file, size: 0 }
                } else {
                    let id = self.next_log_id;
                    self.next_log_id = id + 1;
                    Appending { id, file: Vec::new(), size: 0 }
                }
            },
        };
        crate::codec::append_bytes(&mut app.file, &bytes);
        let size = app.file.len() as u64;
        app.size = size;
        self.appending = Some(app);
        self.overlays.merge_index(&log.local_index);
        self.overlays.merge_value(&log.local_values);
        self.dirty = true;
        Ok(blen as u64)
    }

    /// Hand out a cursor over the file in the reading slot, positioned
    /// after the record's begin marker.  Returns `None` when no reader is
    /// installed or the file is exhausted (which resets the reading state
    /// to idle); a record that does not start with a begin marker is
    /// corrupt.
    pub fn read_next(&mut self, validate: bool) -> (r: Result<Option<LogReader>, Error>)
        requires
            old(self).wf(),
        ensures
            final(self).wf(),
            final(self).overlays == old(self).overlays,
            final(self).appending == old(self).appending,
            final(self).flushing == old(self).flushing,
            final(self).log_pool == old(self).log_pool,
            final(self).cleanup_queue == old(self).cleanup_queue,
            final(self).replay_queue == old(self).replay_queue,
            final(self).next_record_id == old(self).next_record_id,
            final(self).next_log_id == old(self).next_log_id,
            final(self).dirty == old(self).dirty,
            final(self).sync == old(self).sync,
            old(self).reading_state is Idle ==> (r matches Ok(None) && *final(self) == *old(self)),
            old(self).reading_state is Reading && old(self).reading is None ==> (r matches Ok(None)
                && *final(self) == *old(self)),
            old(self).reading_state is Reading && old(self).reading is Some ==> {
                let file = old(self).reading->Some_0.file@;
                let pos = old(self).reading->Some_0.pos as int;
                match crate::codec::parse_action(file, pos) {
                    crate::codec::ParseOutcome::Parsed(a, p2) => {
                        &&& final(self).reading matches Some(rd2) && rd2.id == old(self).reading->Some_0.id && rd2.file@ == file && rd2.pos == p2
                        &&& match a {
                            crate::codec::SpecAction::Begin(rid) => {
                                &&& r matches Ok(Some(reader))
                                &&& reader.record_id == rid
                                &&& reader.validate == validate
                                &&& reader.read_bytes == 9
                                &&& reader.crc_buf@ == (if validate {
                                    file.subrange(pos, pos + 9)
                                } else {
                                    Seq::<u8>::empty()
                                })
                                &&& reader.cleared.index@.len() == 0
                                &&& reader.cleared.values@.len() == 0
                                &&& final(self).reading_state is Reading
                            },
                            _ => r matches Err(e) && e is Corruption,
                        }
                    },
                    crate::codec::ParseOutcome::Eof => r matches Ok(None) && final(self).reading_state is Idle && final(self).reading == old(self).reading,
                    crate::codec::ParseOutcome::BadType => r matches Err(e) && e is Corruption,
                }
            },
    {
        match self.reading_state {
            ReadingState::Idle => {
                return Ok(None);
            },
            ReadingState::Reading => {},
        }
        if self.reading.is_none() {
            return Ok(None);
        }
        let mut reader = LogReader {
            record_id: 0,
            read_bytes: 0,
            crc_buf: Vec::new(),
            validate,
            cleared: Cleared::new(),
        };
        match reader.next(self) {
            Ok(LogAction::BeginRecord) => Ok(Some(reader)),
            Ok(_) => Err(Error::Corruption("Bad log record structure".to_string())),
            Err(e) => {
                if e.is_unexpected_eof() {
                    self.reading_state = ReadingState::Idle;
                    Ok(None)
                } else {
                    Err(e)
                }
            },
        }
    }

    /// Called after a record's entries were durably applied: advance the
    /// record id counter past the enacted record, and evict each touched
    /// overlay entry, but only if it still carries the enacted record's
    /// id -- a later record's entry at the same slot stays.
    pub fn end_read(&mut self, cleared: Cleared, record_id: u64)
        requires
            old(self).wf(),
            record_id < u64::MAX,
        ensures
            final(self).wf(),
            // the counter never decreases and moves past the enacted record
            final(self).next_record_id >= old(self).next_record_id,
            final(self).next_record_id > record_id,
            final(self).next_record_id == (if record_id >= old(self).next_record_id {
                record_id + 1
            } else {
                old(self).next_record_id as int
            }),
            final(self).overlays.index_view() == evict_index(
                old(self).overlays.index_view(),
                cleared.index@,
                record_id,
            ),
            final(self).overlays.value_view() == evict_value(
                old(self).overlays.value_view(),
                cleared.values@,
                record_id,
            ),
            // a slot whose entry belongs to a different record keeps it
            forall|k: SlotKey|
                old(self).overlays.index_view().contains_key(k) && (#[trigger] old(self).overlays.index_view()[k]).0 != record_id ==> final(self).overlays.index_view().contains_key(k) && final(self).overlays.index_view()[k]
                    == old(self).overlays.index_view()[k],
            forall|k: SlotKey|
                old(self).overlays.value_view().contains_key(k) && (#[trigger] old(self).overlays.value_view()[k]).0 != record_id ==> final(self).overlays.value_view().contains_key(k) && final(self).overlays.value_view()[k]
                    == old(self).overlays.value_view()[k],
            final(self).appending == old(self).appending,
            final(self).reading == old(self).reading,
            final(self).reading_state == old(self).reading_state,
            final(self).flushing == old(self).flushing,
            final(self).log_pool == old(self).log_pool,
            final(self).cleanup_queue == old(self).cleanup_queue,
            final(self).replay_queue == old(self).replay_queue,
            final(self).next_log_id == old(self).next_log_id,
            final(self).dirty == old(self).dirty,
            final(self).sync == old(self).sync,
    {
        if record_id >= self.next_record_id {
            self.next_record_id = record_id + 1;
        }
        let ghost mid = *self;
        let n = cleared.index.len();
        let mut i: usize = 0;
        let ghost orig_iv = self.overlays.index_view();
        let ghost orig_value = self.overlays.value;
        while i < n
            invariant
                n == cleared.index@.len(),
                i <= n,
                self.wf(),
                log_same_but_overlays(&mid, self),
                self.overlays.value == orig_value,
                self.overlays.index_view() == evict_index(orig_iv, cleared.index@.take(i as int), record_id),
            decreases n - i,
        {
            let (t, s) = cleared.index[i];
            let matches_rid = match self.overlays.index.map.get(t as u64, s) {
                Some(e) => e.record_id == record_id,
                None => false,
            };
            let ghost pre = self.overlays.index.view_map();
            if matches_rid {
                self.overlays.index.map.remove(t as u64, s);
                proof {
                    assert(self.overlays.index.view_map() =~= pre.remove((t as u64, s)));
                }
            }
            proof {
                assert(cleared.index@.take(i + 1 as int) =~= cleared.index@.take(i as int).push(
                    cleared.index@[i as int],
                ));
                lemma_evict_step(orig_iv, cleared.index@.take(i as int), cleared.index@[i as int], record_id);
                assert(self.overlays.index.view_map() =~= evict_index(
                    orig_iv,
                    cleared.index@.take(i + 1 as int),
                    record_id,
                ));
            }
            i += 1;
        }
        proof {
            assert(cleared.index@.take(n as int) =~= cleared.index@);
        }
        let nv = cleared.values.len();
        let mut i: usize = 0;
        let ghost orig_vv = self.overlays.value_view();
        let ghost orig_index = self.overlays.index;
        while i < nv
            invariant
                nv == cleared.values@.len(),
                i <= nv,
                self.wf(),
                log_same_but_overlays(&mid, self),
                self.overlays.index == orig_index,
                self.overlays.value_view() == evict_value(orig_vv, cleared.values@.take(i as int), record_id),
            decreases nv - i,
        {
            let (t, s) = cleared.values[i];
            let matches_rid = match self.overlays.value.map.get(t as u64, s) {
                Some(e) => e.record_id == record_id,
                None => false,
            };
            let ghost pre = self.overlays.value.view_map();
            if matches_rid {
                self.overlays.value.map.remove(t as u64, s);
                proof {
                    assert(self.overlays.value.view_map() =~= pre.remove((t as u64, s)));
                }
            }
            proof {
                assert(cleared.values@.take(i + 1 as int) =~= cleared.values@.take(i as int).push(
                    cleared.values@[i as int],
                ));
                lemma_evict_step_value(orig_vv, cleared.values@.take(i as int), cleared.values@[i as int], record_id);
                assert(self.overlays.value.view_map() =~= evict_value(
                    orig_vv,
                    cleared.values@.take(i + 1 as int),
                    record_id,
                ));
            }
            i += 1;
        }
        proof {
            assert(cleared.values@.take(nv as int) =~= cleared.values@);
        }
    }
}

impl Log {
    /// Drive the file pipeline one step: a finished reader's file moves
    /// to the cleanup queue, a flushed file is installed for reading, and
    /// an append file larger than `min_size` moves to the flushing slot.
    /// While the enactor is still reading, a pending flush is left in
    /// place and reported, so the scheduler calls again later; the
    /// durability sync of the flushing file is the caller's step.
    /// Returns (has-pending-flush, started-a-new-reader, produced-cleanup).
    pub fn flush_one(&mut self, min_size: u64) -> (r: Result<(bool, bool, bool), Error>)
        requires
            old(self).wf(),
        ensures
            final(self).wf(),
            final(self).overlays == old(self).overlays,
            final(self).next_record_id == old(self).next_record_id,
            final(self).next_log_id == old(self).next_log_id,
            final(self).dirty == old(self).dirty,
            final(self).sync == old(self).sync,
            final(self).log_pool == old(self).log_pool,
            final(self).replay_queue == old(self).replay_queue,
            ({
                if old(self).flushing is Some && old(self).reading_state is Reading {
                    &&& r == Ok::<(bool, bool, bool), Error>((true, false, false))
                    &&& *final(self) == *old(self)
                } else {
                    let stepped = old(self).flushing is Some;
                    let cleaned = stepped && old(self).reading is Some;
                    let app_size = match old(self).appending {
                        Some(a) => a.size as int,
                        None => 0,
                    };
                    let moved = app_size > 0 && app_size > min_size;
                    &&& r == Ok::<(bool, bool, bool), Error>((moved, stepped, cleaned))
                    &&& final(self).cleanup_queue@ == (if cleaned {
                        old(self).cleanup_queue@.push(
                            (old(self).reading->Some_0.id, old(self).reading->Some_0.file),
                        )
                    } else {
                        old(self).cleanup_queue@
                    })
                    &&& final(self).reading == (if stepped {
                        Some(
                            Reading {
                                id: old(self).flushing->Some_0.id,
                                file: old(self).flushing->Some_0.file,
                                pos: 0,
                            },
                        )
                    } else {
                        old(self).reading
                    })
                    &&& final(self).reading_state == (if stepped {
                        ReadingState::Reading
                    } else {
                        old(self).reading_state
                    })
                    &&& final(self).flushing == (if moved {
                        Some(
                            Flushing {
                                id: old(self).appending->Some_0.id,
                                file: old(self).appending->Some_0.file,
                            },
                        )
                    } else if stepped {
                        None::<Flushing>
                    } else {
                        old(self).flushing
                    })
                    &&& final(self).appending == (if moved {
                        None::<Appending>
                    } else {
                        old(self).appending
                    })
                }
            }),
    {
        let mut started_reader = false;
        let mut cleaned = false;
        if self.flushing.is_some() {
            match self.reading_state {
                ReadingState::Reading => {
                    return Ok((true, false, false));
                },
                ReadingState::Idle => {},
            }
            match self.reading.take() {
                Some(rd) => {
                    self.cleanup_queue.push((rd.id, rd.file));
                    cleaned = true;
                },
                None => {},
            }
            let fl = self.flushing.take().unwrap();
            self.reading = Some(Reading { id: fl.id, file: fl.file, pos: 0 });
            self.reading_state = ReadingState::Reading;
            started_reader = true;
        }
        let cur_size = match &self.appending {
            Some(a) => a.size,
            None => 0,
        };
        let mut moved = false;
        if cur_size > 0 && cur_size > min_size {
            let app = self.appending.take().unwrap();
            self.flushing = Some(Flushing { id: app.id, file: app.file });
            moved = true;
        }
        Ok((moved, started_reader, cleaned))
    }

    /// Rotate the replay queue: a file still in the reading slot moves to
    /// cleanup, then the queue's head (the file with the lowest first
    /// record id) is installed for reading.  Returns the activated log id,
    /// or `None` when the queue is empty.
    pub fn replay_next(&mut self) -> (r: Result<Option<u32>, Error>)
        requires
            old(self).wf(),
        ensures
            final(self).wf(),
            final(self).overlays == old(self).overlays,
            final(self).appending == old(self).appending,
            final(self).flushing == old(self).flushing,
            final(self).log_pool == old(self).log_pool,
            final(self).next_record_id == old(self).next_record_id,
            final(self).next_log_id == old(self).next_log_id,
            final(self).dirty == old(self).dirty,
            final(self).sync == old(self).sync,
            final(self).cleanup_queue@ == (if old(self).reading is Some {
                old(self).cleanup_queue@.push(
                    (old(self).reading->Some_0.id, old(self).reading->Some_0.file),
                )
            } else {
                old(self).cleanup_queue@
            }),
            ({
                if old(self).replay_queue@.len() > 0 {
                    &&& r == Ok::<Option<u32>, Error>(Some(old(self).replay_queue@[0].0))
                    &&& final(self).reading == Some(
                        Reading {
                            id: old(self).replay_queue@[0].0,
                            file: old(self).replay_queue@[0].2,
                            pos: 0,
                        },
                    )
                    &&& final(self).reading_state is Reading
                    &&& final(self).replay_queue@ == old(self).replay_queue@.drop_first()
                } else {
                    &&& r == Ok::<Option<u32>, Error>(None)
                    &&& final(self).reading is None
                    &&& final(self).reading_state is Idle
                    &&& final(self).replay_queue@ == old(self).replay_queue@
                }
            }),
    {
        match self.reading.take() {
            Some(rd) => {
                self.cleanup_queue.push((rd.id, rd.file));
            },
            None => {},
        }
        if self.replay_queue.len() > 0 {
            let (id, rid, file) = self.replay_queue.remove(0);
            self.reading = Some(Reading { id, file, pos: 0 });
            self.reading_state = ReadingState::Reading;
            Ok(Some(id))
        } else {
            self.reading_state = ReadingState::Idle;
            Ok(None)
        }
    }

    /// Take up to `count` fully enacted files off the cleanup queue,
    /// truncate them and park them in the pool, lowest ids first.  When
    /// the pool would exceed its cap the files with the highest ids are
    /// dropped instead; their ids are returned so the caller can unlink
    /// them.  Reports whether cleanup work remains.
    pub fn clean_logs(&mut self, count: usize) -> (r: Result<(bool, Vec<u32>), Error>)
        requires
            old(self).wf(),
        ensures
            final(self).wf(),
            final(self).overlays == old(self).overlays,
            final(self).appending == old(self).appending,
            final(self).reading == old(self).reading,
            final(self).reading_state == old(self).reading_state,
            final(self).flushing == old(self).flushing,
            final(self).replay_queue == old(self).replay_queue,
            final(self).next_record_id == old(self).next_record_id,
            final(self).next_log_id == old(self).next_log_id,
            final(self).dirty == old(self).dirty,
            final(self).sync == old(self).sync,
            // the pool never exceeds its cap
            final(self).log_pool@.len() <= MAX_LOG_POOL_SIZE,
            ({
                let k = if count <= old(self).cleanup_queue@.len() {
                    count as int
                } else {
                    old(self).cleanup_queue@.len() as int
                };
                &&& final(self).cleanup_queue@ == old(self).cleanup_queue@.skip(k)
                &&& r matches Ok((more, deleted)) && more == (final(self).cleanup_queue@.len() > 0)
                    && final(self).log_pool@.len() + deleted@.len() == old(self).log_pool@.len() + k
                    // only the files in excess of the pool's cap are deleted
                    && deleted@.len() == (if old(self).log_pool@.len() + k > MAX_LOG_POOL_SIZE {
                    old(self).log_pool@.len() + k - MAX_LOG_POOL_SIZE
                } else {
                    0int
                })
                    // every parked or deleted file came from the pool or the cleaned prefix
                    && (forall|p: int|
                    0 <= p < final(self).log_pool@.len() ==> came_from(
                        (#[trigger] final(self).log_pool@[p]).0,
                        old(self).log_pool@,
                        old(self).cleanup_queue@.take(k),
                    )) && (forall|d: int|
                    0 <= d < deleted@.len() ==> came_from(
                        #[trigger] deleted@[d],
                        old(self).log_pool@,
                        old(self).cleanup_queue@.take(k),
                    ))
                    // the pool keeps the lowest ids; deleted ids are no smaller
                    && (forall|p: int, d: int|
                    0 <= p < final(self).log_pool@.len() && 0 <= d < deleted@.len() ==> (
                    #[trigger] final(self).log_pool@[p]).0 <= #[trigger] deleted@[d])
            }),
    {
        let k = if count <= self.cleanup_queue.len() {
            count
        } else {
            self.cleanup_queue.len()
        };
        let ghost old_queue = self.cleanup_queue@;
        let ghost old_pool = self.log_pool@;
        // move the pool and the cleaned prefix into one working vector
        let mut work: Vec<(u32, Vec<u8>)> = Vec::new();
        let mut i: usize = 0;
        while i < k
            invariant
                i <= k,
                k <= old_queue.len(),
                self.cleanup_queue@ == old_queue.skip(i as int),
                work@.len() == i,
                forall|p: int|
                    0 <= p < work@.len() ==> (#[trigger] work@[p]).0 == old_queue[p].0
                        && work@[p].1@.len() == 0,
                self.log_pool@ == old_pool,
                log_same_but_pool_cleanup(old(self), self),
            decreases k - i,
        {
            let (id, mut file) = self.cleanup_queue.remove(0);
            file.truncate(0);
            work.push((id, file));
            proof {
                assert(self.cleanup_queue@ =~= old_queue.skip(i + 1 as int));
            }
            i += 1;
        }
        proof {
            assert forall|p: int| 0 <= p < work@.len() implies came_from(
                (#[trigger] work@[p]).0,
                old_pool,
                old_queue.take(k as int),
            ) by {
                assert(old_queue.take(k as int)[p] == old_queue[p]);
                assert(old_queue.take(k as int)[p].0 == work@[p].0);
            }
        }
        let mut j: usize = 0;
        let n = self.log_pool.len();
        while j < n
            invariant
                j <= n,
                n == old_pool.len(),
                self.log_pool@ == old_pool.skip(j as int),
                work@.len() == k + j,
                k <= old_queue.len(),
                forall|p: int|
                    0 <= p < work@.len() ==> came_from(
                        (#[trigger] work@[p]).0,
                        old_pool,
                        old_queue.take(k as int),
                    ) && work@[p].1@.len() == 0,
                forall|p: int| 0 <= p < old_pool.len() ==> (#[trigger] old_pool[p]).1@.len() == 0,
                self.cleanup_queue@ == old_queue.skip(k as int),
                log_same_but_pool_cleanup(old(self), self),
            decreases n - j,
        {
            proof {
                assert(old_pool[j as int].1@.len() == 0);
            }
            let (id, file) = self.log_pool.remove(0);
            work.push((id, file));
            proof {
                assert(self.log_pool@ =~= old_pool.skip(j + 1 as int));
                assert(work@.last().0 == old_pool[j as int].0);
            }
            j += 1;
        }
        let ghost wv = work@;
        let mut sorted = Log::sort_pool_by_id(work);
        let ghost combined = sorted@;
        proof {
            assert forall|p: int| 0 <= p < sorted@.len() implies (came_from(
                (#[trigger] sorted@[p]).0,
                old_pool,
                old_queue.take(k as int),
            ) && sorted@[p].1@.len() == 0) by {
                assert(came_from_pairs(sorted@[p], wv));
                let q = choose|q: int|
                    0 <= q < wv.len() && (#[trigger] wv[q]).0 == sorted@[p].0 && wv[q].1@
                        == sorted@[p].1@;
                assert(came_from(wv[q].0, old_pool, old_queue.take(k as int)));
                assert(wv[q].1@.len() == 0);
            }
        }
        // park the lowest ids, drop the rest
        let mut deleted: Vec<u32> = Vec::new();
        while sorted.len() > MAX_LOG_POOL_SIZE
            invariant
                forall|p: int|
                    0 <= p < sorted@.len() ==> came_from(
                        (#[trigger] sorted@[p]).0,
                        old_pool,
                        old_queue.take(k as int),
                    ) && sorted@[p].1@.len() == 0,
                forall|p: int, q: int|
                    0 <= p <= q < sorted@.len() ==> (#[trigger] sorted@[p]).0 <= (
                    #[trigger] sorted@[q]).0,
                forall|d: int|
                    0 <= d < deleted@.len() ==> came_from(
                        #[trigger] deleted@[d],
                        old_pool,
                        old_queue.take(k as int),
                    ),
                forall|p: int, d: int|
                    0 <= p < sorted@.len() && 0 <= d < deleted@.len() ==> (
                    #[trigger] sorted@[p]).0 <= #[trigger] deleted@[d],
                sorted@.len() + deleted@.len() == combined.len(),
                combined.len() == old_pool.len() + k,
                deleted@.len() > 0 ==> sorted@.len() >= MAX_LOG_POOL_SIZE,
                self.cleanup_queue@ == old_queue.skip(k as int),
                self.log_pool@.len() == 0,
                log_same_but_pool_cleanup(old(self), self),
            decreases sorted@.len(),
        {
            let ghost pre = sorted@;
            let e = sorted.pop().unwrap();
            proof {
                assert(pre.drop_last() =~= sorted@);
            }
            deleted.push(e.0);
        }
        self.log_pool = sorted;
        let more = self.cleanup_queue.len() > 0;
        Ok((more, deleted))
    }

    /// Drop the reading slot's file and every file still waiting for
    /// replay, clear the overlay, and mark the log clean.  Returns the
    /// ids of the dropped files so the caller can unlink them.  Used when
    /// the caller decides replaying is unsafe to proceed.
    pub fn clear_replay_logs(&mut self) -> (r: Vec<u32>)
        requires
            old(self).wf(),
        ensures
            final(self).wf(),
            r@ == (if old(self).reading is Some {
                seq![old(self).reading->Some_0.id]
            } else {
                Seq::<u32>::empty()
            }) + old(self).replay_queue@.map_values(|e: ReplayEntry| e.0),
            final(self).reading is None,
            final(self).replay_queue@.len() == 0,
            final(self).reading_state is Idle,
            final(self).dirty == false,
            final(self).overlays.index_view() == Map::<SlotKey, (u64, u64, Seq<u8>)>::empty(),
            final(self).overlays.value_view() == Map::<SlotKey, (u64, Seq<u8>)>::empty(),
            final(self).appending == old(self).appending,
            final(self).flushing == old(self).flushing,
            final(self).log_pool == old(self).log_pool,
            final(self).cleanup_queue == old(self).cleanup_queue,
            final(self).next_record_id == old(self).next_record_id,
            final(self).next_log_id == old(self).next_log_id,
            final(self).sync == old(self).sync,
    {
        let mut ids: Vec<u32> = Vec::new();
        match self.reading.take() {
            Some(rd) => {
                ids.push(rd.id);
            },
            None => {},
        }
        let ghost head = ids@;
        let ghost queue = self.replay_queue@;
        let mut i: usize = 0;
        let n = self.replay_queue.len();
        while i < n
            invariant
                i <= n,
                n == self.replay_queue@.len(),
                self.replay_queue@ == queue,
                ids@ == head + queue.take(i as int).map_values(|e: ReplayEntry| e.0),
            decreases n - i,
        {
            ids.push(self.replay_queue[i].0);
            proof {
                assert(queue.take(i + 1 as int) =~= queue.take(i as int).push(queue[i as int]));
                assert(queue.take(i + 1 as int).map_values(|e: ReplayEntry| e.0) =~= queue.take(
                    i as int,
                ).map_values(|e: ReplayEntry| e.0).push(queue[i as int].0));
                assert(ids@ =~= head + queue.take(i + 1 as int).map_values(
                    |e: ReplayEntry| e.0,
                ));
            }
            i += 1;
        }
        proof {
            assert(queue.take(n as int) =~= queue);
        }
        self.replay_queue = Vec::new();
        self.overlays.clear();
        self.reading_state = ReadingState::Idle;
        self.dirty = false;
        ids
    }

    /// Drop every pooled file and the reading slot's file; returns their
    /// ids so the caller can unlink them.  Used on shutdown.
    pub fn kill_logs(&mut self) -> (r: Vec<u32>)
        requires
            old(self).wf(),
        ensures
            final(self).wf(),
            r@ == old(self).log_pool@.map_values(|e: (u32, Vec<u8>)| e.0) + (if old(
                self,
            ).reading is Some {
                seq![old(self).reading->Some_0.id]
            } else {
                Seq::<u32>::empty()
            }),
            final(self).log_pool@.len() == 0,
            final(self).reading is None,
            final(self).overlays == old(self).overlays,
            final(self).appending == old(self).appending,
            final(self).reading_state == old(self).reading_state,
            final(self).flushing == old(self).flushing,
            final(self).cleanup_queue == old(self).cleanup_queue,
            final(self).replay_queue == old(self).replay_queue,
            final(self).next_record_id == old(self).next_record_id,
            final(self).next_log_id == old(self).next_log_id,
            final(self).dirty == old(self).dirty,
            final(self).sync == old(self).sync,
    {
        let mut ids: Vec<u32> = Vec::new();
        let ghost pool = self.log_pool@;
        let mut i: usize = 0;
        let n = self.log_pool.len();
        while i < n
            invariant
                i <= n,
                n == self.log_pool@.len(),
                self.log_pool@ == pool,
                ids@ == pool.take(i as int).map_values(|e: (u32, Vec<u8>)| e.0),
            decreases n - i,
        {
            ids.push(self.log_pool[i].0);
            proof {
                assert(pool.take(i + 1 as int) =~= pool.take(i as int).push(pool[i as int]));
                assert(pool.take(i + 1 as int).map_values(|e: (u32, Vec<u8>)| e.0) =~= pool.take(
                    i as int,
                ).map_values(|e: (u32, Vec<u8>)| e.0).push(pool[i as int].0));
                assert(ids@ =~= pool.take(i + 1 as int).map_values(|e: (u32, Vec<u8>)| e.0));
            }
            i += 1;
        }
        proof {
            assert(pool.take(n as int) =~= pool);
        }
        self.log_pool = Vec::new();
        match self.reading.take() {
            Some(rd) => {
                ids.push(rd.id);
                proof {
                    assert(ids@ =~= pool.map_values(|e: (u32, Vec<u8>)| e.0) + seq![rd.id]);
                }
            },
            None => {
                proof {
                    assert(ids@ =~= pool.map_values(|e: (u32, Vec<u8>)| e.0)
                        + Seq::<u32>::empty());
                }
            },
        }
        ids
    }

    /// Sort pool files ascending by log id, so the lowest ids are reused
    /// first and id numbers stay small.
    fn sort_pool_by_id(input: Vec<(u32, Vec<u8>)>) -> (r: Vec<(u32, Vec<u8>)>)
        ensures
            r@.len() == input@.len(),
            forall|p: int, q: int|
                0 <= p <= q < r@.len() ==> (#[trigger] r@[p]).0 <= (#[trigger] r@[q]).0,
            forall|p: int| 0 <= p < r@.len() ==> came_from_pairs(#[trigger] r@[p], input@),
    {
        let mut src = input;
        let ghost orig = src@;
        let mut out: Vec<(u32, Vec<u8>)> = Vec::new();
        proof {
            assert forall|p: int| 0 <= p < src@.len() implies came_from_pairs(
                #[trigger] src@[p],
                orig,
            ) by {
                assert((orig[p]).0 == src@[p].0 && orig[p].1@ == src@[p].1@);
            }
        }
        while src.len() > 0
            invariant
                out@.len() + src@.len() == orig.len(),
                forall|p: int, q: int|
                    0 <= p <= q < out@.len() ==> (#[trigger] out@[p]).0 <= (#[trigger] out@[q]).0,
                forall|p: int, q: int|
                    0 <= p < out@.len() && 0 <= q < src@.len() ==> (#[trigger] out@[p]).0 <= (
                    #[trigger] src@[q]).0,
                forall|p: int| 0 <= p < out@.len() ==> came_from_pairs(#[trigger] out@[p], orig),
                forall|p: int| 0 <= p < src@.len() ==> came_from_pairs(#[trigger] src@[p], orig),
            decreases src@.len(),
        {
            let m = src.len();
            let mut mi: usize = 0;
            let mut j: usize = 1;
            while j < m
                invariant
                    m == src@.len(),
                    mi < j <= m,
                    forall|q: int| 0 <= q < j ==> (#[trigger] src@[q]).0 >= src@[mi as int].0,
                decreases m - j,
            {
                if src[j].0 < src[mi].0 {
                    mi = j;
                }
                j += 1;
            }
            let ghost pre_src = src@;
            let ghost pre_out = out@;
            let e = src.remove(mi);
            out.push(e);
            proof {
                assert(pre_src[mi as int] == e);
                assert forall|p: int| 0 <= p < src@.len() implies came_from_pairs(
                    #[trigger] src@[p],
                    orig,
                ) by {
                    let sp = if p < mi { p } else { p + 1 };
                    assert(src@[p] == pre_src[sp]);
                    assert(came_from_pairs(pre_src[sp], orig));
                }
                assert forall|p: int| 0 <= p < out@.len() implies came_from_pairs(
                    #[trigger] out@[p],
                    orig,
                ) by {
                    if p < out@.len() - 1 {
                        assert(out@[p] == pre_out[p]);
                    } else {
                        assert(out@[p] == e);
                        assert(came_from_pairs(pre_src[mi as int], orig));
                    }
                }
                assert forall|p: int, q: int|
                    0 <= p < out@.len() && 0 <= q < src@.len() implies (#[trigger] out@[p]).0 <= (
                #[trigger] src@[q]).0 by {
                    let sq = if q < mi { q } else { q + 1 };
                    assert(src@[q] == pre_src[sq]);
                    if p < out@.len() - 1 {
                        assert(out@[p] == pre_out[p]);
                    } else {
                        assert(out@[p] == e);
                    }
                }
                assert forall|p: int, q: int| 0 <= p <= q < out@.len() implies (
                #[trigger] out@[p]).0 <= (#[trigger] out@[q]).0 by {
                    if q < out@.len() - 1 {
                        assert(pre_out[p].0 <= pre_out[q].0);
                    } else if p < q {
                        assert(out@[p] == pre_out[p]);
                        assert(out@[q] == e);
                        assert(pre_src[mi as int] == e);
                    }
                }
            }
        }
        out
    }
}

/// Whether an element's id and contents occur in the sequence.
pub open spec fn came_from_pairs(e: (u32, Vec<u8>), s: Seq<(u32, Vec<u8>)>) -> bool {
    exists|q: int| 0 <= q < s.len() && (#[trigger] s[q]).0 == e.0 && s[q].1@ == e.1@
}

/// Whether a log id is the id of one of the given pool or cleaned files.
pub open spec fn came_from(
    id: u32,
    pool: Seq<(u32, Vec<u8>)>,
    cleaned: Seq<(u32, Vec<u8>)>,
) -> bool {
    (exists|q: int| 0 <= q < pool.len() && (#[trigger] pool[q]).0 == id) || (exists|q: int|
        0 <= q < cleaned.len() && (#[trigger] cleaned[q]).0 == id)
}

/// All of the log unchanged except the pool and the cleanup queue.
pub open spec fn log_same_but_pool_cleanup(a: &Log, b: &Log) -> bool {
    &&& b.overlays == a.overlays
    &&& b.appending == a.appending
    &&& b.reading == a.reading
    &&& b.reading_state == a.reading_state
    &&& b.flushing == a.flushing
    &&& b.next_record_id == a.next_record_id
    &&& b.dirty == a.dirty
    &&& b.replay_queue == a.replay_queue
    &&& b.next_log_id == a.next_log_id
    &&& b.sync == a.sync
}

/// A shadowed slot survives eviction: when the overlay's entry at a slot
/// belongs to a record other than the one being enacted, the entry -- a
/// later writer's -- stays, whatever the enacted record's clear list
/// names.
pub proof fn lemma_shadowed_slot_value(
    view: Map<SlotKey, (u64, Seq<u8>)>,
    cleared: Seq<(u16, u64)>,
    k: SlotKey,
    record_id: u64,
)
    requires
        view.contains_key(k),
        view[k].0 != record_id,
    ensures
        evict_value(view, cleared, record_id).contains_key(k),
        evict_value(view, cleared, record_id)[k] == view[k],
{
}

/// The same for a shadowed index slot.
pub proof fn lemma_shadowed_slot_index(
    view: Map<SlotKey, (u64, u64, Seq<u8>)>,
    cleared: Seq<(u16, u64)>,
    k: SlotKey,
    record_id: u64,
)
    requires
        view.contains_key(k),
        view[k].0 != record_id,
    ensures
        evict_index(view, cleared, record_id).contains_key(k),
        evict_index(view, cleared, record_id)[k] == view[k],
{
}

/// Recovery determinism: the replay queue holds exactly the scanned
/// files, and when no two scanned files share a first record id -- as is
/// the case for files written by one log, whose record ids are unique --
/// the queue is ordered strictly by first record id.
pub proof fn lemma_replay_order_strict(queue: Seq<ReplayEntry>, scanned: Seq<ReplayEntry>)
    requires
        sorted_by_rid(queue),
        queue.to_multiset() == scanned.to_multiset(),
        forall|i: int, j: int|
            0 <= i < j < scanned.len() ==> (#[trigger] scanned[i]).1 != (#[trigger] scanned[j]).1,
    ensures
        forall|p: int, q: int|
            0 <= p < q < queue.len() ==> (#[trigger] queue[p]).1 < (#[trigger] queue[q]).1,
{
    broadcast use group_to_multiset_ensures;
    broadcast use vstd::multiset::group_multiset_axioms;

    assert(scanned.no_duplicates()) by {
        assert forall|i: int, j: int|
            0 <= i < scanned.len() && 0 <= j < scanned.len() && i != j implies scanned[i]
            != scanned[j] by {
            if i < j {
                assert(scanned[i].1 != scanned[j].1);
            } else {
                assert(scanned[j].1 != scanned[i].1);
            }
        }
    }
    scanned.lemma_multiset_has_no_duplicates();
    assert forall|p: int, q: int| 0 <= p < q < queue.len() implies (#[trigger] queue[p]).1 < (
    #[trigger] queue[q]).1 by {
        assert(queue[p].1 <= queue[q].1);
        if queue[p].1 == queue[q].1 {
            if queue[p] == queue[q] {
                let s0 = queue.subrange(0, q);
                let s1 = queue.subrange(q, queue.len() as int);
                assert(queue =~= s0 + s1);
                vstd::seq_lib::lemma_multiset_commutative(s0, s1);
                assert(s0[p] == queue[p]);
                assert(s0.contains(queue[p]));
                assert(s0.to_multiset().count(queue[p]) > 0);
                assert(s1[0] == queue[q]);
                assert(s1.contains(queue[q]));
                assert(s1.to_multiset().count(queue[q]) > 0);
                assert(queue.to_multiset().count(queue[p]) >= 2);
                assert(scanned.to_multiset().count(queue[p]) >= 2);
                assert(scanned.to_multiset().contains(queue[p]));
                assert(false);
            } else {
                assert(queue.contains(queue[p]));
                assert(queue.to_multiset().count(queue[p]) > 0);
                assert(scanned.to_multiset().count(queue[p]) > 0);
                assert(scanned.contains(queue[p]));
                assert(queue.contains(queue[q]));
                assert(queue.to_multiset().count(queue[q]) > 0);
                assert(scanned.to_multiset().count(queue[q]) > 0);
                assert(scanned.contains(queue[q]));
                let i = choose|i: int| 0 <= i < scanned.len() && scanned[i] == queue[p];
                let j = choose|j: int| 0 <= j < scanned.len() && scanned[j] == queue[q];
                assert(i != j);
                if i < j {
                    assert(scanned[i].1 != scanned[j].1);
                } else {
                    assert(scanned[j].1 != scanned[i].1);
                }
                assert(false);
            }
        }
    }
}

/// A streaming cursor over the record at the reading slot's position.
/// It tracks how many bytes it consumed (so it can be rewound), the bytes
/// covered by the checksum when validation is on, and the clear list of
/// slots the record touched.
pub struct LogReader {
    pub record_id: u64,
    pub read_bytes: u64,
    pub crc_buf: Vec<u8>,
    pub validate: bool,
    pub cleared: Cleared,
}

/// All of the log unchanged except the overlay.
pub open spec fn log_same_but_overlays(a: &Log, b: &Log) -> bool {
    &&& b.appending == a.appending
    &&& b.reading == a.reading
    &&& b.reading_state == a.reading_state
    &&& b.flushing == a.flushing
    &&& b.next_record_id == a.next_record_id
    &&& b.dirty == a.dirty
    &&& b.log_pool == a.log_pool
    &&& b.cleanup_queue == a.cleanup_queue
    &&& b.replay_queue == a.replay_queue
    &&& b.next_log_id == a.next_log_id
    &&& b.sync == a.sync
}

/// All of the log unchanged except the reading slot's position.
pub open spec fn log_same_but_pos(a: &Log, b: &Log) -> bool {
    &&& b.overlays == a.overlays
    &&& b.appending == a.appending
    &&& b.flushing == a.flushing
    &&& b.reading_state == a.reading_state
    &&& b.log_pool == a.log_pool
    &&& b.cleanup_queue == a.cleanup_queue
    &&& b.replay_queue == a.replay_queue
    &&& b.next_record_id == a.next_record_id
    &&& b.next_log_id == a.next_log_id
    &&& b.dirty == a.dirty
    &&& b.sync == a.sync
    &&& b.reading is Some
    &&& a.reading is Some
    &&& b.reading->Some_0.id == a.reading->Some_0.id
    &&& b.reading->Some_0.file == a.reading->Some_0.file
}

impl LogReader {
    pub fn record_id(&self) -> (r: u64)
        ensures
            r == self.record_id,
    {
        self.record_id
    }

    pub fn read_bytes(&self) -> (r: u64)
        ensures
            r == self.read_bytes,
    {
        self.read_bytes
    }

    /// Hand the clear list over for overlay eviction.
    pub fn drain(self) -> (r: Cleared)
        ensures
            r == self.cleared,
    {
        self.cleared
    }

    /// Count `len` consumed bytes and, when validating, feed them to the
    /// running checksum.
    fn consume(&mut self, file: &Vec<u8>, pos: usize, len: usize)
        requires
            pos + len <= file@.len(),
            old(self).read_bytes <= pos as u64,
        ensures
            final(self).read_bytes == old(self).read_bytes + len,
            final(self).crc_buf@ == old(self).crc_buf@ + (if old(self).validate {
                file@.subrange(pos as int, pos + len as int)
            } else {
                Seq::<u8>::empty()
            }),
            final(self).record_id == old(self).record_id,
            final(self).validate == old(self).validate,
            final(self).cleared == old(self).cleared,
    {
        let flen = file.len();
        proof {
            assert(pos + len <= flen);
        }
        self.read_bytes = self.read_bytes + (len as u64);
        if self.validate {
            let part = vstd::slice::slice_to_vec(slice_subrange(file.as_slice(), pos, pos + len));
            crate::codec::append_bytes(&mut self.crc_buf, &part);
        } else {
            proof {
                assert(self.crc_buf@ =~= old(self).crc_buf@ + Seq::<u8>::empty());
            }
        }
    }

    /// Parse the next action header at the reading slot's cursor.  The
    /// payload of an index or value entry is not consumed here: the
    /// caller knows its length and pulls it with `read`.  With validation
    /// on, the end marker's checksum is compared against the checksum of
    /// every byte consumed since the cursor was (re)started; a mismatch
    /// is a corruption error.  An unknown type byte is a corruption
    /// error; running out of bytes is an unexpected end of file.
    pub fn next(&mut self, log: &mut Log) -> (r: Result<LogAction, Error>)
        requires
            old(log).wf(),
            old(log).reading is Some,
            old(self).read_bytes <= old(log).reading->Some_0.pos as u64,
        ensures
            final(log).wf(),
            log_same_but_pos(old(log), final(log)),
            final(self).validate == old(self).validate,
            final(self).read_bytes <= final(log).reading->Some_0.pos as u64,
            ({
                let file = old(log).reading->Some_0.file@;
                let pos = old(log).reading->Some_0.pos as int;
                let npos = final(log).reading->Some_0.pos as int;
                match crate::codec::parse_action(file, pos) {
                    crate::codec::ParseOutcome::Eof => r matches Err(e) && e is Io
                        && e->Io_0 is UnexpectedEof && *final(self) == *old(self) && npos == pos,
                    crate::codec::ParseOutcome::BadType => r matches Err(e) && e is Corruption
                        && npos == pos + 1 && final(self).read_bytes == old(self).read_bytes + 1
                        && final(self).crc_buf@ == old(self).crc_buf@ + (if old(self).validate {
                        file.subrange(pos, pos + 1)
                    } else {
                        Seq::<u8>::empty()
                    }) && final(self).record_id == old(self).record_id && final(self).cleared
                        == old(self).cleared,
                    crate::codec::ParseOutcome::Parsed(a, p2) => {
                        &&& npos == p2
                        &&& match a {
                            crate::codec::SpecAction::Begin(rid) => r matches Ok(la)
                                && la is BeginRecord && final(self).record_id == rid && final(self).read_bytes == old(self).read_bytes + 9 && final(self).crc_buf@ == old(self).crc_buf@ + (if old(self).validate {
                                file.subrange(pos, p2)
                            } else {
                                Seq::<u8>::empty()
                            }) && final(self).cleared == old(self).cleared,
                            crate::codec::SpecAction::Index(t, s) => r matches Ok(la) && la matches
                                LogAction::InsertIndex(ia) && ia.table == t && ia.index == s
                                && final(self).read_bytes == old(self).read_bytes + 11 && final(self).crc_buf@ == old(self).crc_buf@ + (if old(self).validate {
                                file.subrange(pos, p2)
                            } else {
                                Seq::<u8>::empty()
                            }) && final(self).cleared.index@ == old(self).cleared.index@.push(
                                (t, s),
                            ) && final(self).cleared.values == old(self).cleared.values && final(self).record_id == old(self).record_id,
                            crate::codec::SpecAction::Value(t, s) => r matches Ok(la) && la matches
                                LogAction::InsertValue(va) && va.table == t && va.index == s
                                && final(self).read_bytes == old(self).read_bytes + 11 && final(self).crc_buf@ == old(self).crc_buf@ + (if old(self).validate {
                                file.subrange(pos, p2)
                            } else {
                                Seq::<u8>::empty()
                            }) && final(self).cleared.values@ == old(self).cleared.values@.push(
                                (t, s),
                            ) && final(self).cleared.index == old(self).cleared.index && final(self).record_id == old(self).record_id,
                            crate::codec::SpecAction::DropTable(t) => r matches Ok(la) && la
                                matches LogAction::DropTable(dt) && dt == t && final(self).read_bytes == old(self).read_bytes + 3 && final(self).crc_buf@ == old(self).crc_buf@ + (if old(self).validate {
                                file.subrange(pos, p2)
                            } else {
                                Seq::<u8>::empty()
                            }) && final(self).cleared == old(self).cleared && final(self).record_id
                                == old(self).record_id,
                            crate::codec::SpecAction::End(stored) => {
                                &&& final(self).read_bytes == old(self).read_bytes + 5
                                &&& final(self).crc_buf@ == old(self).crc_buf@ + (if old(self).validate {
                                    seq![crate::codec::TAG_END]
                                } else {
                                    Seq::<u8>::empty()
                                })
                                &&& final(self).cleared == old(self).cleared
                                &&& final(self).record_id == old(self).record_id
                                &&& if old(self).validate && stored != crate::codec::crc32_of(
                                    old(self).crc_buf@ + seq![crate::codec::TAG_END],
                                ) {
                                    r matches Err(e) && e is Corruption
                                } else {
                                    r matches Ok(la) && la is EndRecord
                                }
                            },
                        }
                    },
                }
            }),
    {
        let mut rd = log.reading.take().unwrap();
        let flen = rd.file.len();
        let pos = rd.pos;
        if pos >= flen {
            log.reading = Some(rd);
            return Err(Error::Io(IoErrorKind::UnexpectedEof));
        }
        let tag = rd.file[pos];
        if tag == TAG_BEGIN {
            if flen - pos < 9 {
                log.reading = Some(rd);
                return Err(Error::Io(IoErrorKind::UnexpectedEof));
            }
            let rid = u64_from_le_bytes(slice_subrange(rd.file.as_slice(), pos + 1, pos + 9));
            self.record_id = rid;
            self.consume(&rd.file, pos, 9);
            rd.pos = pos + 9;
            log.reading = Some(rd);
            Ok(LogAction::BeginRecord)
        } else if tag == crate::codec::TAG_INSERT_INDEX {
            if flen - pos < 11 {
                log.reading = Some(rd);
                return Err(Error::Io(IoErrorKind::UnexpectedEof));
            }
            let table = vstd::bytes::u16_from_le_bytes(
                slice_subrange(rd.file.as_slice(), pos + 1, pos + 3),
            );
            let index = u64_from_le_bytes(slice_subrange(rd.file.as_slice(), pos + 3, pos + 11));
            self.cleared.index.push((table, index));
            self.consume(&rd.file, pos, 11);
            rd.pos = pos + 11;
            log.reading = Some(rd);
            Ok(LogAction::InsertIndex(InsertIndexAction { table, index }))
        } else if tag == crate::codec::TAG_INSERT_VALUE {
            if flen - pos < 11 {
                log.reading = Some(rd);
                return Err(Error::Io(IoErrorKind::UnexpectedEof));
            }
            let table = vstd::bytes::u16_from_le_bytes(
                slice_subrange(rd.file.as_slice(), pos + 1, pos + 3),
            );
            let index = u64_from_le_bytes(slice_subrange(rd.file.as_slice(), pos + 3, pos + 11));
            self.cleared.values.push((table, index));
            self.consume(&rd.file, pos, 11);
            rd.pos = pos + 11;
            log.reading = Some(rd);
            Ok(LogAction::InsertValue(InsertValueAction { table, index }))
        } else if tag == crate::codec::TAG_END {
            if flen - pos < 5 {
                log.reading = Some(rd);
                return Err(Error::Io(IoErrorKind::UnexpectedEof));
            }
            let stored = vstd::bytes::u32_from_le_bytes(
                slice_subrange(rd.file.as_slice(), pos + 1, pos + 5),
            );
            self.read_bytes = self.read_bytes + 5;
            rd.pos = pos + 5;
            log.reading = Some(rd);
            if self.validate {
                self.crc_buf.push(crate::codec::TAG_END);
                proof {
                    assert(self.crc_buf@ =~= old(self).crc_buf@ + seq![crate::codec::TAG_END]);
                }
                let expected = crate::codec::crc32(&self.crc_buf);
                if stored != expected {
                    return Err(Error::Corruption("Log record CRC-32 mismatch".to_string()));
                }
            } else {
                proof {
                    assert(self.crc_buf@ =~= old(self).crc_buf@ + Seq::<u8>::empty());
                }
            }
            Ok(LogAction::EndRecord)
        } else if tag == crate::codec::TAG_DROP_TABLE {
            if flen - pos < 3 {
                log.reading = Some(rd);
                return Err(Error::Io(IoErrorKind::UnexpectedEof));
            }
            let table = vstd::bytes::u16_from_le_bytes(
                slice_subrange(rd.file.as_slice(), pos + 1, pos + 3),
            );
            self.consume(&rd.file, pos, 3);
            rd.pos = pos + 3;
            log.reading = Some(rd);
            Ok(LogAction::DropTable(table))
        } else {
            self.consume(&rd.file, pos, 1);
            rd.pos = pos + 1;
            log.reading = Some(rd);
            Err(Error::Corruption("Bad log entry type".to_string()))
        }
    }

    /// Pull `len` payload bytes at the cursor; the caller knows the
    /// length from the table the entry addresses.
    pub fn read(&mut self, log: &mut Log, len: usize) -> (r: Result<Vec<u8>, Error>)
        requires
            old(log).wf(),
            old(log).reading is Some,
            old(self).read_bytes <= old(log).reading->Some_0.pos as u64,
        ensures
            final(log).wf(),
            log_same_but_pos(old(log), final(log)),
            final(self).validate == old(self).validate,
            final(self).record_id == old(self).record_id,
            final(self).cleared == old(self).cleared,
            final(self).read_bytes <= final(log).reading->Some_0.pos as u64,
            ({
                let file = old(log).reading->Some_0.file@;
                let pos = old(log).reading->Some_0.pos as int;
                let npos = final(log).reading->Some_0.pos as int;
                if pos + len <= file.len() {
                    &&& r matches Ok(v) && v@ == file.subrange(pos, pos + len)
                    &&& npos == pos + len
                    &&& final(self).read_bytes == old(self).read_bytes + len
                    &&& final(self).crc_buf@ == old(self).crc_buf@ + (if old(self).validate {
                        file.subrange(pos, pos + len)
                    } else {
                        Seq::<u8>::empty()
                    })
                } else {
                    &&& r matches Err(e) && e is Io && e->Io_0 is UnexpectedEof
                    &&& *final(self) == *old(self)
                    &&& npos == pos
                }
            }),
    {
        let mut rd = log.reading.take().unwrap();
        let flen = rd.file.len();
        let pos = rd.pos;
        if len > flen - pos {
            log.reading = Some(rd);
            return Err(Error::Io(IoErrorKind::UnexpectedEof));
        }
        let out = vstd::slice::slice_to_vec(slice_subrange(rd.file.as_slice(), pos, pos + len));
        self.consume(&rd.file, pos, len);
        rd.pos = pos + len;
        log.reading = Some(rd);
        Ok(out)
    }

    /// Rewind the cursor to where this reader started and clear its
    /// state, so the record can be streamed again (typically without
    /// validation after a first validating pass).
    pub fn reset(&mut self, log: &mut Log)
        requires
            old(log).wf(),
            old(log).reading is Some,
            old(self).read_bytes <= old(log).reading->Some_0.pos as u64,
        ensures
            final(log).wf(),
            log_same_but_pos(old(log), final(log)),
            final(log).reading->Some_0.pos == old(log).reading->Some_0.pos - old(self).read_bytes,
            final(self).read_bytes == 0,
            final(self).record_id == 0,
            final(self).crc_buf@ == Seq::<u8>::empty(),
            final(self).cleared.index@.len() == 0,
            final(self).cleared.values@.len() == 0,
            final(self).validate == old(self).validate,
    {
        let mut rd = log.reading.take().unwrap();
        rd.pos = rd.pos - (self.read_bytes as usize);
        log.reading = Some(rd);
        self.read_bytes = 0;
        self.record_id = 0;
        self.crc_buf = Vec::new();
        self.cleared = Cleared::new();
    }
}

/// A slot named in a clear list, as an overlay key.
pub open spec fn cleared_key(c: (u16, u64)) -> SlotKey {
    (c.0 as u64, c.1)
}

/// The clear list as overlay keys.
pub open spec fn cleared_keys(cl: Seq<(u16, u64)>) -> Seq<SlotKey> {
    cl.map_values(|c: (u16, u64)| cleared_key(c))
}

/// The index overlay after evicting the cleared slots whose stored record
/// id is the enacted one; entries of other records stay.
pub open spec fn evict_index(
    view: Map<SlotKey, (u64, u64, Seq<u8>)>,
    cleared: Seq<(u16, u64)>,
    record_id: u64,
) -> Map<SlotKey, (u64, u64, Seq<u8>)> {
    Map::new(
        |k: SlotKey|
            view.contains_key(k) && !(cleared_keys(cleared).contains(k) && view[k].0 == record_id),
        |k: SlotKey| view[k],
    )
}

/// The value overlay after evicting the cleared slots whose stored record
/// id is the enacted one; entries of other records stay.
pub open spec fn evict_value(
    view: Map<SlotKey, (u64, Seq<u8>)>,
    cleared: Seq<(u16, u64)>,
    record_id: u64,
) -> Map<SlotKey, (u64, Seq<u8>)> {
    Map::new(
        |k: SlotKey|
            view.contains_key(k) && !(cleared_keys(cleared).contains(k) && view[k].0 == record_id),
        |k: SlotKey| view[k],
    )
}

/// Mapping a pushed sequence pushes the mapped element; membership in the
/// mapped clear list extends accordingly.
pub proof fn lemma_cleared_push(cl: Seq<(u16, u64)>, c: (u16, u64))
    ensures
        forall|k: SlotKey| #[trigger]
            cleared_keys(cl.push(c)).contains(k) <==> (cleared_keys(cl).contains(k) || k
                == cleared_key(c)),
{
    let mc0 = cleared_keys(cl);
    let mc1 = cleared_keys(cl.push(c));
    assert(mc1 =~= mc0.push(cleared_key(c)));
    assert forall|k: SlotKey| mc1.contains(k) implies (mc0.contains(k) || k == cleared_key(c)) by {
        let i = choose|i: int| 0 <= i < mc1.len() && mc1[i] == k;
        if i < mc0.len() {
            assert(mc0[i] == k);
        }
    }
    assert forall|k: SlotKey| mc0.contains(k) implies mc1.contains(k) by {
        let i = choose|i: int| 0 <= i < mc0.len() && mc0[i] == k;
        assert(mc1[i] == k);
    }
    assert forall|k: SlotKey| k == cleared_key(c) implies mc1.contains(k) by {
        assert(mc1[mc1.len() - 1] == k);
    }
}

/// One eviction step: handling one more clear-list entry removes its slot
/// exactly when the slot is still present under the enacted record's id.
pub proof fn lemma_evict_step(
    view: Map<SlotKey, (u64, u64, Seq<u8>)>,
    cl: Seq<(u16, u64)>,
    c: (u16, u64),
    record_id: u64,
)
    ensures
        evict_index(view, cl.push(c), record_id) == (if evict_index(
            view,
            cl,
            record_id,
        ).contains_key(cleared_key(c)) && evict_index(view, cl, record_id)[cleared_key(c)].0
            == record_id {
            evict_index(view, cl, record_id).remove(cleared_key(c))
        } else {
            evict_index(view, cl, record_id)
        }),
{
    lemma_cleared_push(cl, c);
    let m0 = evict_index(view, cl, record_id);
    let m1 = evict_index(view, cl.push(c), record_id);
    let ck = cleared_key(c);
    if m0.contains_key(ck) && m0[ck].0 == record_id {
        assert(m1 =~= m0.remove(ck));
    } else {
        assert(m1 =~= m0);
    }
}

/// One eviction step for the value overlay.
pub proof fn lemma_evict_step_value(
    view: Map<SlotKey, (u64, Seq<u8>)>,
    cl: Seq<(u16, u64)>,
    c: (u16, u64),
    record_id: u64,
)
    ensures
        evict_value(view, cl.push(c), record_id) == (if evict_value(
            view,
            cl,
            record_id,
        ).contains_key(cleared_key(c)) && evict_value(view, cl, record_id)[cleared_key(c)].0
            == record_id {
            evict_value(view, cl, record_id).remove(cleared_key(c))
        } else {
            evict_value(view, cl, record_id)
        }),
{
    lemma_cleared_push(cl, c);
    let m0 = evict_value(view, cl, record_id);
    let m1 = evict_value(view, cl.push(c), record_id);
    let ck = cleared_key(c);
    if m0.contains_key(ck) && m0[ck].0 == record_id {
        assert(m1 =~= m0.remove(ck));
    } else {
        assert(m1 =~= m0);
    }
}

} // verus!
