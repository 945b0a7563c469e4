use wal::bench::{check_plan, restart_commit, writer, CommitOp, SizePool, Stress};
use wal::codec::{CHUNK_BYTES, ENTRY_BYTES};
use wal::ident::IdentityHash;
use wal::log::{Log, LogAction, Options};

fn opts() -> Options {
    Options { sync_wal: false }
}

#[test]
fn mask_merge_serializes_selected_sub_entries() {
    let chunk_a: Vec<u8> = (0..CHUNK_BYTES).map(|i| (i % 251) as u8).collect();
    let chunk_b: Vec<u8> = (0..CHUNK_BYTES).map(|i| ((i * 7 + 3) % 251) as u8).collect();

    let (mut log, _) = Log::open(&opts(), Vec::new()).unwrap();
    let mut w = log.begin_record();
    w.insert_index(3, 42, 0, &chunk_a);
    w.insert_index(3, 42, 5, &chunk_b);
    let change = w.drain();
    let bytes = change.to_bytes();

    // BEGIN, record id 1
    let mut expected: Vec<u8> = vec![1];
    expected.extend_from_slice(&1u64.to_le_bytes());
    // one index entry: both writes merged, the newer chunk kept
    expected.push(2);
    expected.extend_from_slice(&3u16.to_le_bytes());
    expected.extend_from_slice(&42u64.to_le_bytes());
    expected.extend_from_slice(&0b100001u64.to_le_bytes());
    expected.extend_from_slice(&chunk_b[0..ENTRY_BYTES]);
    expected.extend_from_slice(&chunk_b[5 * ENTRY_BYTES..6 * ENTRY_BYTES]);
    // END and the checksum of everything before it
    expected.push(4);
    let crc = crc32fast::hash(&expected);
    expected.extend_from_slice(&crc.to_le_bytes());

    assert_eq!(bytes, expected);
}

#[test]
fn record_checksum_matches_reference_crc32() {
    // the trailing four bytes are the IEEE CRC32 of the body
    let (mut log, _) = Log::open(&opts(), Vec::new()).unwrap();
    let mut w = log.begin_record();
    w.insert_value(1, 2, b"123456789".to_vec());
    let change = w.drain();
    let bytes = change.to_bytes();
    let body = &bytes[..bytes.len() - 4];
    let stored = u32::from_le_bytes(bytes[bytes.len() - 4..].try_into().unwrap());
    assert_eq!(stored, crc32fast::hash(body));
    // the well-known check value of the IEEE polynomial
    assert_eq!(crc32fast::hash(b"123456789"), 0xCBF43926);
}

#[test]
fn record_round_trip_with_validation() {
    let chunk: Vec<u8> = (0..CHUNK_BYTES).map(|i| (i % 13) as u8).collect();
    let (mut log, _) = Log::open(&opts(), Vec::new()).unwrap();
    let mut w = log.begin_record();
    w.insert_index(7, 11, 2, &chunk);
    w.insert_value(1, 5, b"payload".to_vec());
    w.drop_table(9);
    let change = w.drain();
    log.end_record(change).unwrap();
    log.flush_one(0).unwrap();
    log.flush_one(0).unwrap();

    let mut reader = log.read_next(true).unwrap().expect("a record");
    assert_eq!(reader.record_id(), 1);
    match reader.next(&mut log).unwrap() {
        LogAction::InsertIndex(a) => {
            assert_eq!((a.table, a.index), (7, 11));
        }
        _ => panic!("expected an index entry"),
    }
    // the payload: the mask, then one sub-entry per set bit
    let mask_bytes = reader.read(&mut log, 8).unwrap();
    let mask = u64::from_le_bytes(mask_bytes.try_into().unwrap());
    assert_eq!(mask, 1 << 2);
    let sub = reader.read(&mut log, ENTRY_BYTES).unwrap();
    assert_eq!(&sub[..], &chunk[2 * ENTRY_BYTES..3 * ENTRY_BYTES]);
    match reader.next(&mut log).unwrap() {
        LogAction::InsertValue(a) => {
            assert_eq!((a.table, a.index), (1, 5));
        }
        _ => panic!("expected a value entry"),
    }
    assert_eq!(reader.read(&mut log, 7).unwrap(), b"payload".to_vec());
    match reader.next(&mut log).unwrap() {
        LogAction::DropTable(t) => assert_eq!(t, 9),
        _ => panic!("expected a drop entry"),
    }
    assert!(matches!(reader.next(&mut log).unwrap(), LogAction::EndRecord));
}

#[test]
fn reader_reset_rewinds_to_the_record_start() {
    let (mut log, _) = Log::open(&opts(), Vec::new()).unwrap();
    let mut w = log.begin_record();
    w.insert_value(0, 1, b"xy".to_vec());
    let change = w.drain();
    log.end_record(change).unwrap();
    log.flush_one(0).unwrap();
    log.flush_one(0).unwrap();

    let mut reader = log.read_next(true).unwrap().expect("a record");
    assert!(matches!(reader.next(&mut log).unwrap(), LogAction::InsertValue(_)));
    assert!(reader.read_bytes() > 0);
    reader.reset(&mut log);
    assert_eq!(reader.read_bytes(), 0);
    assert_eq!(reader.record_id(), 0);
    // the record streams again from its begin marker, without validation
    let mut reader2 = log.read_next(false).unwrap().expect("the same record");
    assert_eq!(reader2.record_id(), 1);
    assert!(matches!(reader2.next(&mut log).unwrap(), LogAction::InsertValue(_)));
    reader2.read(&mut log, 2).unwrap();
    assert!(matches!(reader2.next(&mut log).unwrap(), LogAction::EndRecord));
}

#[test]
fn bad_entry_type_is_corruption() {
    // BEGIN header followed by an unknown tag
    let mut bytes = vec![1u8];
    bytes.extend_from_slice(&1u64.to_le_bytes());
    bytes.push(0xEE);
    let (mut log, _) = Log::open(&opts(), vec![(0, bytes)]).unwrap();
    assert_eq!(log.replay_next().unwrap(), Some(0));
    let mut reader = log.read_next(true).unwrap().expect("a record");
    let err = reader.next(&mut log).unwrap_err();
    assert!(matches!(err, wal::error::Error::Corruption(_)));
}

#[test]
fn error_rendering() {
    let e = wal::error::Error::Corruption("Bad log entry type".to_string());
    assert_eq!(e.display_string(), "Corruption: Bad log entry type");
    let e = wal::error::Error::Io(wal::error::IoErrorKind::UnexpectedEof);
    assert!(e.is_unexpected_eof());
    assert_eq!(e.display_string(), "IO Error: unexpected end of file");
    let e = wal::error::Error::Locked("held".to_string());
    assert_eq!(e.display_string(), "Database file is in use. (held)");
}

#[test]
fn identity_hash_returns_the_key() {
    let mut h = IdentityHash::default();
    assert_eq!(h.finish(), 0);
    h.write_u64(0xDEAD_BEEF_1234_5678);
    assert_eq!(h.finish(), 0xDEAD_BEEF_1234_5678);
}

#[test]
fn stress_arguments_fall_back_to_defaults() {
    let s = Stress {
        readers: None,
        writers: None,
        commits: None,
        seed: Some(42),
        append: true,
        archive: false,
        no_check: false,
    };
    let a = s.get_args();
    assert_eq!((a.readers, a.writers, a.commits), (4, 1, 100000));
    assert_eq!(a.seed, Some(42));
    assert!(a.append && !a.archive && !a.no_check);

    let s2 = Stress {
        readers: Some(2),
        writers: Some(3),
        commits: Some(10),
        seed: None,
        append: false,
        archive: true,
        no_check: true,
    };
    let a2 = s2.get_args();
    assert_eq!((a2.readers, a2.writers, a2.commits), (2, 3, 10));
}

#[test]
fn size_pool_draws_sizes_from_the_histogram() {
    let h = vec![(100u32, 2u32), (200, 3)];
    let pool = SizePool::from_histogram(&h);
    assert_eq!(pool.total, 5);
    assert_eq!(pool.distribution, vec![(2, 100), (5, 200)]);
    for seed in 0..20u64 {
        let v = pool.value(seed);
        assert!(v.len() == 100 || v.len() == 200);
        // the same seed draws the same value
        assert_eq!(pool.value(seed), v);
        let k = pool.key(seed);
        assert_eq!(k.len(), 32);
        assert_eq!(pool.key(seed), k);
    }
}

#[test]
fn size_pool_replaces_zero_count_entries() {
    let h = vec![(100u32, 2u32), (300, 0), (200, 3)];
    let pool = SizePool::from_histogram(&h);
    // a zero count lands on the same cumulative total and replaces it
    assert_eq!(pool.distribution, vec![(2, 300), (5, 200)]);
}

#[test]
fn writer_plans_inserts_prunes_and_restart_marker() {
    let args = wal::bench::Args {
        readers: 1,
        commits: 10,
        writers: 1,
        seed: None,
        archive: false,
        append: false,
        no_check: false,
    };
    // early commits do not prune
    let plan = writer(&args, 5);
    assert_eq!(plan.len(), 101);
    assert!(matches!(plan[0], CommitOp::Insert(500)));
    assert!(matches!(plan[99], CommitOp::Insert(599)));
    assert!(matches!(plan[100], CommitOp::Restart(5)));

    // a commit past the window prunes the one a window behind it
    let plan = writer(&args, 2500);
    assert_eq!(plan.len(), 191);
    assert!(matches!(plan[0], CommitOp::Insert(250000)));
    assert!(matches!(plan[100], CommitOp::Prune(50000)));
    assert!(matches!(plan[189], CommitOp::Prune(50089)));
    assert!(matches!(plan[190], CommitOp::Restart(2500)));

    // archiving disables pruning
    let archive_args = wal::bench::Args { archive: true, ..args };
    let plan = writer(&archive_args, 2500);
    assert_eq!(plan.len(), 101);
}

#[test]
fn restart_marker_resumes_after_recorded_commit() {
    assert_eq!(restart_commit(None), 0);
    let marker = 7u64.to_be_bytes().to_vec();
    assert_eq!(restart_commit(Some(&marker)), 8);
}

#[test]
fn check_plan_splits_pruned_and_live_ranges() {
    // inside the prune window: the first 90 keys of the commit are gone
    let (a, b, c) = check_plan(10, 5000, false);
    assert_eq!((a, b, c), (1000, 1090, 1100));
    // near the end of the run nothing was pruned yet
    let (a, b, c) = check_plan(4999, 5000, false);
    assert_eq!((a, b, c), (499900, 499900, 500000));
    // archive runs never prune
    let (a, b, c) = check_plan(10, 5000, true);
    assert_eq!((a, b, c), (1000, 1000, 1100));
}

#[test]
fn drop_table_entries_keep_order() {
    let (mut log, _) = Log::open(&opts(), Vec::new()).unwrap();
    let mut w = log.begin_record();
    w.drop_table(3);
    w.drop_table(1);
    w.drop_table(3);
    let change = w.drain();
    let bytes = change.to_bytes();
    let mut expected: Vec<u8> = vec![1];
    expected.extend_from_slice(&1u64.to_le_bytes());
    for t in [3u16, 1, 3] {
        expected.push(5);
        expected.extend_from_slice(&t.to_le_bytes());
    }
    expected.push(4);
    let crc = crc32fast::hash(&expected);
    expected.extend_from_slice(&crc.to_le_bytes());
    assert_eq!(bytes, expected);
}
