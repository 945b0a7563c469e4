use wal::error::Error;
use wal::log::{Log, LogAction, Options};
use wal::overlay::LogQuery;

fn opts() -> Options {
    Options { sync_wal: false }
}

fn open_empty() -> Log {
    let (log, discard) = Log::open(&opts(), Vec::new()).unwrap();
    assert!(discard.is_empty());
    log
}

/// Commit one record holding a single value mutation; returns its record id.
fn commit_value(log: &mut Log, table: u16, slot: u64, data: &[u8]) -> u64 {
    let mut w = log.begin_record();
    let rid = w.record_id();
    w.insert_value(table, slot, data.to_vec());
    let change = w.drain();
    log.end_record(change).unwrap();
    rid
}

/// Rotate the current append file into the reading slot.
fn rotate(log: &mut Log) {
    let (pending, _, _) = log.flush_one(0).unwrap();
    assert!(pending);
    log.flush_one(0).unwrap();
}

/// Pull one whole single-value record from the reader and enact it.
fn enact_one_value(log: &mut Log, payload_len: usize) -> u64 {
    let mut reader = log.read_next(true).unwrap().expect("a record to read");
    let rid = reader.record_id();
    match reader.next(log).unwrap() {
        LogAction::InsertValue(_) => {}
        _ => panic!("expected a value entry"),
    }
    reader.read(log, payload_len).unwrap();
    match reader.next(log).unwrap() {
        LogAction::EndRecord => {}
        _ => panic!("expected the end of the record"),
    }
    log.end_read(reader.drain(), rid);
    rid
}

#[test]
fn empty_start() {
    let mut log = open_empty();
    assert!(log.replay_next().unwrap().is_none());
    assert!(log.replay_record_id().is_none());

    let rid = commit_value(&mut log, 0, 0, b"hello");
    assert_eq!(rid, 1);
    let mut buf = vec![0u8; 5];
    assert!(log.overlays().value(0, 0, &mut buf));
    assert_eq!(&buf, b"hello");

    rotate(&mut log);
    let enacted = enact_one_value(&mut log, 5);
    assert_eq!(enacted, 1);

    let mut buf2 = vec![9u8; 5];
    assert!(!log.overlays().value(0, 0, &mut buf2));
    assert_eq!(buf2, vec![9u8; 5]);
}

#[test]
fn shadowed_slot() {
    let mut log = open_empty();
    let r1 = commit_value(&mut log, 0, 7, b"v1");
    let r2 = commit_value(&mut log, 0, 7, b"v2");
    assert_eq!((r1, r2), (1, 2));

    rotate(&mut log);
    // enact record 1 only
    let enacted = enact_one_value(&mut log, 2);
    assert_eq!(enacted, 1);

    // record 2's entry must survive: it shadows the enacted one
    let mut buf = vec![0u8; 2];
    assert!(log.overlays().value(0, 7, &mut buf));
    assert_eq!(&buf, b"v2");
}

#[test]
fn crash_recovery_replays_whole_records() {
    let mut log = open_empty();
    for i in 1..=10u64 {
        let mut w = log.begin_record();
        assert_eq!(w.record_id(), i);
        w.insert_value(0, i, vec![i as u8; 5]);
        let change = w.drain();
        log.end_record(change).unwrap();
    }
    let mut bytes = log.appending.as_ref().unwrap().file.clone();
    // simulate a crash that loses the tail of the last record
    bytes.truncate(bytes.len() - 3);

    let (mut log2, discard) = Log::open(&opts(), vec![(0, bytes)]).unwrap();
    assert!(discard.is_empty());
    assert_eq!(log2.replay_record_id(), Some(1));
    assert_eq!(log2.replay_next().unwrap(), Some(0));

    for i in 1..=9u64 {
        let enacted = enact_one_value(&mut log2, 5);
        assert_eq!(enacted, i);
    }
    // the truncated record fails before its end marker checks out
    let mut reader = log2.read_next(true).unwrap().expect("the torn record");
    assert_eq!(reader.record_id(), 10);
    match reader.next(&mut log2).unwrap() {
        LogAction::InsertValue(_) => {}
        _ => panic!("expected a value entry"),
    }
    reader.read(&mut log2, 5).unwrap();
    let err = reader.next(&mut log2).unwrap_err();
    assert!(err.is_unexpected_eof());
    // replay advanced the counter past every enacted record
    assert_eq!(log2.next_record_id, 10);
}

#[test]
fn pool_reuse_keeps_lowest_ids() {
    let mut log = open_empty();
    for i in 0..20u64 {
        let mut w = log.begin_record();
        w.insert_value(0, i, vec![1u8; 4]);
        let change = w.drain();
        log.end_record(change).unwrap();
        assert_eq!(log.appending.as_ref().unwrap().id, i as u32);
        rotate(&mut log);
        let _ = enact_one_value(&mut log, 4);
        assert!(log.read_next(true).unwrap().is_none()); // end of file: reader idle
    }
    // park the file still sitting in the reading slot
    assert!(log.replay_next().unwrap().is_none());
    assert_eq!(log.num_dirty_logs(), 20);

    let (more, deleted) = log.clean_logs(20).unwrap();
    assert!(!more);
    assert_eq!(log.num_dirty_logs(), 0);
    assert_eq!(log.log_pool.len(), 16);
    let pool_ids: Vec<u32> = log.log_pool.iter().map(|e| e.0).collect();
    assert_eq!(pool_ids, (0..16).collect::<Vec<u32>>());
    let mut deleted_sorted = deleted.clone();
    deleted_sorted.sort();
    assert_eq!(deleted_sorted, vec![16, 17, 18, 19]);

    // the next record reuses the lowest pooled id
    commit_value(&mut log, 0, 99, b"x");
    assert_eq!(log.appending.as_ref().unwrap().id, 0);
    assert_eq!(log.log_pool.len(), 15);
}

#[test]
fn validation_disabled_accepts_bad_checksum() {
    // build the record through a writer so the change carries the entry
    let mut log = open_empty();
    let mut w = log.begin_record();
    w.insert_value(2, 5, b"abcd".to_vec());
    let change = w.drain();
    let mut bytes = change.to_bytes();
    let last = bytes.len() - 1;
    bytes[last] ^= 0xff; // corrupt the stored checksum

    // without validation the record streams through
    let (mut log_a, _) = Log::open(&opts(), vec![(3, bytes.clone())]).unwrap();
    assert_eq!(log_a.replay_next().unwrap(), Some(3));
    let mut reader = log_a.read_next(false).unwrap().expect("a record");
    assert_eq!(reader.record_id(), 1);
    assert!(matches!(reader.next(&mut log_a).unwrap(), LogAction::InsertValue(_)));
    assert_eq!(reader.read(&mut log_a, 4).unwrap(), b"abcd".to_vec());
    assert!(matches!(reader.next(&mut log_a).unwrap(), LogAction::EndRecord));

    // with validation the end marker reports corruption
    let (mut log_b, _) = Log::open(&opts(), vec![(3, bytes)]).unwrap();
    assert_eq!(log_b.replay_next().unwrap(), Some(3));
    let mut reader = log_b.read_next(true).unwrap().expect("a record");
    assert!(matches!(reader.next(&mut log_b).unwrap(), LogAction::InsertValue(_)));
    reader.read(&mut log_b, 4).unwrap();
    let err = reader.next(&mut log_b).unwrap_err();
    assert!(matches!(err, Error::Corruption(_)));
}

#[test]
fn replay_queue_ordered_by_first_record_id() {
    // three files whose first record ids arrive out of order
    let mut files = Vec::new();
    for (log_id, rid) in [(0u32, 5u64), (1, 2), (2, 9)] {
        let mut log = open_empty();
        log.next_record_id = rid;
        let got = commit_value(&mut log, 0, 1, b"zz");
        assert_eq!(got, rid);
        files.push((log_id, log.appending.as_ref().unwrap().file.clone()));
    }
    let (mut log, discard) = Log::open(&opts(), files).unwrap();
    assert!(discard.is_empty());
    assert_eq!(log.next_log_id, 3);
    assert_eq!(log.replay_record_id(), Some(2));
    assert_eq!(log.replay_next().unwrap(), Some(1));
    assert_eq!(log.replay_next().unwrap(), Some(0));
    assert_eq!(log.replay_next().unwrap(), Some(2));
    assert_eq!(log.replay_next().unwrap(), None);
}

#[test]
fn open_discards_empty_and_rejects_torn_headers() {
    // an empty file is reported for deletion
    let (log, discard) = Log::open(&opts(), vec![(4, Vec::new())]).unwrap();
    assert_eq!(discard, vec![4]);
    assert!(log.replay_record_id().is_none());
    assert_eq!(log.next_log_id, 0);

    // a non-empty file shorter than a record header is an unexpected EOF
    match Log::open(&opts(), vec![(0, vec![1, 2, 3])]) {
        Err(err) => assert!(err.is_unexpected_eof()),
        Ok(_) => panic!("a torn header must be rejected"),
    }

    // a file that does not start with the begin marker is corrupt
    match Log::open(&opts(), vec![(0, vec![7u8; 16])]) {
        Err(err) => assert!(matches!(err, Error::Corruption(_))),
        Ok(_) => panic!("a bad header must be rejected"),
    }
}

#[test]
fn clear_replay_logs_drops_queue_and_overlay() {
    let mut log = open_empty();
    commit_value(&mut log, 1, 2, b"aa");
    let bytes = log.appending.as_ref().unwrap().file.clone();
    let (mut log2, _) = Log::open(&opts(), vec![(0, bytes.clone()), (1, bytes)]).unwrap();
    assert_eq!(log2.replay_next().unwrap(), Some(0));
    let ids = log2.clear_replay_logs();
    assert_eq!(ids, vec![0, 1]);
    assert!(!log2.dirty);
    assert!(log2.replay_record_id().is_none());
    let mut buf = vec![0u8; 2];
    assert!(!log2.overlays().value(1, 2, &mut buf));
}

#[test]
fn kill_logs_reports_pool_and_reader_ids() {
    let mut log = open_empty();
    for i in 0..3u64 {
        commit_value(&mut log, 0, i, b"k");
        rotate(&mut log);
        let _ = enact_one_value(&mut log, 1);
        assert!(log.read_next(true).unwrap().is_none());
    }
    assert!(log.replay_next().unwrap().is_none()); // reading slot -> cleanup
    log.clean_logs(3).unwrap();
    assert_eq!(log.log_pool.len(), 3);
    let ids = log.kill_logs();
    assert_eq!(ids, vec![0, 1, 2]);
    assert!(log.log_pool.is_empty());
}

#[test]
fn writer_reads_its_own_pending_state_first() {
    let mut log = open_empty();
    commit_value(&mut log, 0, 1, b"old");
    // the shared overlay now holds "old" at (0, 1)
    let mut w = log.begin_record();
    let mut buf = vec![0u8; 3];
    assert!(w.value(0, 1, &mut buf));
    assert_eq!(&buf, b"old");
    w.insert_value(0, 1, b"new".to_vec());
    let mut buf2 = vec![0u8; 3];
    assert!(w.value(0, 1, &mut buf2));
    assert_eq!(&buf2, b"new");
    assert!(!w.value(0, 2, &mut buf2));
    let chunk = vec![7u8; wal::codec::CHUNK_BYTES];
    w.insert_index(3, 4, 1, &chunk);
    assert_eq!(w.with_index(3, 4).unwrap(), &chunk);
    assert!(w.with_index(3, 5).is_none());
    let change = w.drain();
    log.end_record(change).unwrap();
    assert_eq!(log.overlays().with_index(3, 4).unwrap(), &chunk);
}

#[test]
fn flush_waits_while_reader_is_active() {
    let mut log = open_empty();
    commit_value(&mut log, 0, 1, b"aa");
    rotate(&mut log);
    // a reader is active (state Reading); queue a second record
    commit_value(&mut log, 0, 2, b"bb");
    let (pending, _, _) = log.flush_one(0).unwrap();
    assert!(pending); // moved to flushing
    // the reading slot is still consuming its file: flushing must wait
    let (pending, started, cleaned) = log.flush_one(0).unwrap();
    assert!(pending && !started && !cleaned);
    // drain the reader; then the flush goes through
    let _ = enact_one_value(&mut log, 2);
    assert!(log.read_next(true).unwrap().is_none());
    let (_, started, cleaned) = log.flush_one(0).unwrap();
    assert!(started && cleaned);
}
