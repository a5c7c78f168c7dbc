use distill_fs::backend::access::{update_access, AccessKey, AccessTime, TableOp};
use distill_fs::backend::batch_ranges;
use distill_fs::backend::chunkdb::{
    chunk_db_stats, chunk_range, delete_keys, ChunkIndexControl, ChunkListing, ExpiredGc,
    GcAction, GcDeleteResult, GcEvent, GcRun, KeyScan, ListStep, WholeListing, GC_BATCH, LIST_BATCH,
};
use distill_fs::backend::writer::{
    to_stored, AccessPass, AccessStep, AddAction, AddBatch, AddEvent, AddRequest, DeleteRequest,
    WriteQueue, WriteTask, ACCESS_BATCH_SIZE, ADD_CHUNKS_BATCH_SIZE,
};
use distill_fs::checksum::{CheckSum, CheckSumMethod, CheckSumOnDisk};
use distill_fs::error::ErrorKind;
use std::cell::RefCell;
use std::collections::{BTreeMap, BTreeSet};
use std::rc::Rc;

#[derive(Default)]
struct RecordingChunkIndex {
    registered: RefCell<Vec<CheckSum>>,
    unregistered: RefCell<Vec<CheckSum>>,
}

impl ChunkIndexControl for RecordingChunkIndex {
    fn register_chunk(&self, checksum: &CheckSum) -> bool {
        self.registered.borrow_mut().push(*checksum);
        true
    }

    fn unregister_chunk(&self, checksum: &CheckSum) -> bool {
        self.unregistered.borrow_mut().push(*checksum);
        true
    }
}

/// A chunk database in memory. Its tables hold the bytes by which a store has them.
#[derive(Default)]
struct ChunkDb {
    data: BTreeMap<Vec<u8>, Vec<u8>>,
    access: BTreeMap<Vec<u8>, Vec<u8>>,
    index: BTreeSet<Vec<u8>>,
    room: Option<usize>,
    control: Option<Rc<RecordingChunkIndex>>,
    touched: Vec<CheckSumOnDisk>,
}

impl ChunkDb {
    fn with_control(control: Rc<RecordingChunkIndex>) -> Self {
        Self {
            control: Some(control),
            ..Default::default()
        }
    }

    fn put(&mut self, cs: &CheckSumOnDisk, data: &[u8]) {
        self.data.insert(cs.to_bytes(), data.to_vec());
    }

    fn apply(&mut self, ops: Vec<TableOp>) {
        for op in ops {
            match op {
                TableOp::PutAccess(cs, t) => {
                    self.access.insert(cs.to_bytes(), t.to_bytes().to_vec());
                }
                TableOp::PutIndex(key) => {
                    self.index.insert(key.to_bytes());
                }
                TableOp::DeleteData(cs) => {
                    self.data.remove(&cs.to_bytes());
                }
                TableOp::DeleteAccess(cs) => {
                    self.access.remove(&cs.to_bytes());
                }
                TableOp::DeleteIndex(key) => {
                    self.index.remove(&key.to_bytes());
                }
            }
        }
    }

    fn access_time(&self, cs: &CheckSumOnDisk) -> Option<AccessTime> {
        self.access
            .get(&cs.to_bytes())
            .map(|bytes| AccessTime::from_bytes(bytes).unwrap())
    }

    fn update_access(&mut self, cs: &CheckSumOnDisk, now: u64) {
        let ops = update_access(self.access_time(cs), *cs, now);
        self.apply(ops);
    }

    fn scan(&self, mut scan: KeyScan) -> Vec<AccessKey> {
        for key in &self.index {
            if !scan.offer(AccessKey::from_bytes(key).unwrap()) {
                break;
            }
        }
        scan.into_keys()
    }

    fn delete(&mut self, keys: &[AccessKey]) -> GcDeleteResult {
        let (ops, result) = delete_keys(keys);
        self.apply(ops);
        result
    }

    fn gc_expired(&mut self, now: u64, timeout: u64) -> GcDeleteResult {
        let mut gc = ExpiredGc::new(self.scan(KeyScan::expired(now, timeout)));
        while let Some(batch) = gc.next_batch() {
            assert!(batch.len() <= GC_BATCH);
            let result = self.delete(&batch);
            gc.deleted(result);
        }
        gc.finish()
    }

    fn gc_lru(&mut self, max: usize) -> GcDeleteResult {
        let keys = self.scan(KeyScan::oldest(max));
        self.delete(&keys)
    }

    fn has_chunk(&self, cs: &CheckSum) -> bool {
        self.data.contains_key(&CheckSumOnDisk::from(*cs).to_bytes())
    }

    fn get_chunk(&self, cs: &CheckSum) -> Option<Vec<u8>> {
        self.data.get(&CheckSumOnDisk::from(*cs).to_bytes()).cloned()
    }

    fn add_chunks(&mut self, chunks: Vec<(CheckSum, Vec<u8>)>) -> Result<(), &'static str> {
        for (from, to) in batch_ranges(chunks.len(), ADD_CHUNKS_BATCH_SIZE) {
            self.add_batch(&chunks[from..to])?;
        }
        Ok(())
    }

    fn add_batch(&mut self, chunks: &[(CheckSum, Vec<u8>)]) -> Result<(), &'static str> {
        let mut batch = AddBatch::new(chunks.iter().map(|c| c.0).collect());
        let mut txn = self.data.clone();
        let mut action = batch.on_event(AddEvent::Opened);
        loop {
            let event = match action {
                AddAction::Open => {
                    txn = self.data.clone();
                    AddEvent::Opened
                }
                AddAction::Store(i) => {
                    let key = CheckSumOnDisk::from(chunks[i].0).to_bytes();
                    if !txn.contains_key(&key) && self.room.is_some_and(|n| txn.len() >= n) {
                        AddEvent::MapFull
                    } else {
                        txn.entry(key).or_insert_with(|| chunks[i].1.clone());
                        AddEvent::Stored
                    }
                }
                AddAction::Commit => {
                    self.data = txn.clone();
                    AddEvent::Committed
                }
                AddAction::Evict(n) => AddEvent::Evicted(self.gc_lru(n).removed),
                AddAction::Publish { checksums, touched } => {
                    if let Some(control) = &self.control {
                        control.register_chunks(&checksums);
                    }
                    self.touched.extend(touched);
                    return Ok(());
                }
                AddAction::OutOfSpace => return Err("out of space"),
                AddAction::Abort => return Err("aborted"),
            };
            action = batch.on_event(event);
        }
    }

    fn write_access(&mut self, now: u64) {
        let mut pass = AccessPass::new(std::mem::take(&mut self.touched));
        while let AccessStep::Commit(list) = pass.next(false) {
            for cs in &list {
                self.update_access(cs, now);
            }
        }
    }

    fn next_chunk_batch(&self, cursor: Option<CheckSum>, size: usize) -> Vec<CheckSum> {
        let after = cursor.map(|cs| CheckSumOnDisk::from(cs).to_bytes());
        let mut listing = ChunkListing::new(size);
        for key in self.data.keys() {
            if after.as_ref().is_some_and(|a| key <= a) {
                continue;
            }
            if !listing.offer(CheckSumOnDisk::from_bytes(key, 0)) {
                break;
            }
        }
        listing.finish()
    }

    fn list_all_chunks(&self) -> Vec<CheckSum> {
        let mut listing = WholeListing::new();
        let mut step = listing.start();
        loop {
            step = match step {
                ListStep::Read(cursor, size) => listing.take(self.next_chunk_batch(cursor, size)),
                ListStep::Done(all) => return all,
            };
        }
    }
}

fn chunk(text: &str, method: CheckSumMethod) -> (CheckSum, Vec<u8>) {
    let data = text.as_bytes().to_vec();
    (CheckSum::from_data(&data, method), data)
}

#[test]
fn test_add_chunk_triggers_async_access_update() {
    let mut db = ChunkDb::default();
    let (cs, data) = chunk("hello world", CheckSumMethod::Blake3);

    db.add_chunks(vec![(cs, data)]).unwrap();
    db.write_access(1000);

    let access = db.access_time(&CheckSumOnDisk::from(cs));
    assert!(access.is_some());
}

#[test]
fn test_add_chunk_registers_chunk_index_control() {
    let control = Rc::new(RecordingChunkIndex::default());
    let mut db = ChunkDb::with_control(control.clone());
    let (cs, data) = chunk("register-one", CheckSumMethod::Blake3);

    db.add_chunks(vec![(cs, data)]).unwrap();

    assert_eq!(*control.registered.borrow(), vec![cs]);
}

#[test]
fn test_add_chunks_registers_chunk_index_control() {
    let control = Rc::new(RecordingChunkIndex::default());
    let mut db = ChunkDb::with_control(control.clone());
    let one = chunk("register-batch-1", CheckSumMethod::Blake3);
    let two = chunk("register-batch-2", CheckSumMethod::Sha256);
    let (cs1, cs2) = (one.0, two.0);

    db.add_chunks(vec![one, two]).unwrap();

    assert_eq!(*control.registered.borrow(), vec![cs1, cs2]);
}

#[test]
fn test_next_chunk_batch_advances_cursor() {
    let mut db = ChunkDb::default();
    let one = chunk("cursor-1", CheckSumMethod::Blake3);
    let two = chunk("cursor-2", CheckSumMethod::Blake3);
    let three = chunk("cursor-3", CheckSumMethod::Sha256);
    let mut expected = vec![one.0, two.0, three.0];
    db.add_chunks(vec![one, two, three]).unwrap();

    let first = db.next_chunk_batch(None, 2);
    assert_eq!(first.len(), 2);

    let second = db.next_chunk_batch(first.last().copied(), 2);
    assert_eq!(second.len(), 1);

    let mut all = first;
    all.extend(second);
    all.sort();
    expected.sort();
    assert_eq!(all, expected);
}

#[test]
fn test_next_chunk_batch_zero_batch_size_reads_one() {
    let mut db = ChunkDb::default();
    let (cs, data) = chunk("cursor-zero", CheckSumMethod::Blake3);
    db.add_chunks(vec![(cs, data)]).unwrap();

    let batch = db.next_chunk_batch(None, 0);
    assert_eq!(batch, vec![cs]);
}

#[test]
fn test_update_access_respects_min_interval() {
    let mut db = ChunkDb::default();
    let cs = CheckSumOnDisk::from(CheckSum::from_data(b"interval", CheckSumMethod::Blake3));

    db.update_access(&cs, 100);
    db.update_access(&cs, 120);

    assert_eq!(db.access_time(&cs).unwrap().secs, 100);
    assert!(db.index.contains(&AccessKey::new(100, cs).to_bytes()));
    assert!(!db.index.contains(&AccessKey::new(120, cs).to_bytes()));

    db.update_access(&cs, 170);

    assert_eq!(db.access_time(&cs).unwrap().secs, 170);
    assert!(db.index.contains(&AccessKey::new(170, cs).to_bytes()));
    assert_eq!(db.index.len(), 1);
}

#[test]
fn test_gc_expired_removes_old_chunks() {
    let mut db = ChunkDb::default();
    let now = 1_000_000;

    let cs_old = CheckSum::from_data(b"old", CheckSumMethod::Blake3);
    let cs_new = CheckSum::from_data(b"new", CheckSumMethod::Blake3);
    let cs_old_disk = CheckSumOnDisk::from(cs_old);
    let cs_new_disk = CheckSumOnDisk::from(cs_new);

    db.put(&cs_old_disk, b"old");
    db.put(&cs_new_disk, b"new");
    db.update_access(&cs_old_disk, now - 100);
    db.update_access(&cs_new_disk, now - 1);

    let removed = db.gc_expired(now, 10);
    assert_eq!(removed.removed, 1);
    assert_eq!(removed.checksums, vec![cs_old]);
    assert!(!db.has_chunk(&cs_old));
    assert!(db.has_chunk(&cs_new));
}

#[test]
fn test_with_chunk_borrows_full_chunk() {
    let mut db = ChunkDb::default();
    let (cs, data) = chunk("with-chunk", CheckSumMethod::Blake3);

    db.add_chunks(vec![(cs, data.clone())]).unwrap();

    let stored = db.get_chunk(&cs).unwrap();
    let got = chunk_range(Some(&stored), 0, stored.len())
        .unwrap()
        .map(|chunk| chunk.iter().rev().copied().collect::<Vec<_>>());
    let expected = data.iter().rev().copied().collect::<Vec<_>>();
    assert_eq!(got, Some(expected));
}

#[test]
fn test_gc_lru_removes_oldest_chunks() {
    let mut db = ChunkDb::default();

    let cs1 = CheckSum::from_data(b"chunk1", CheckSumMethod::Blake3);
    let cs2 = CheckSum::from_data(b"chunk2", CheckSumMethod::Blake3);
    let cs3 = CheckSum::from_data(b"chunk3", CheckSumMethod::Blake3);
    for (i, (cs, data)) in [(cs1, b"chunk1"), (cs2, b"chunk2"), (cs3, b"chunk3")]
        .into_iter()
        .enumerate()
    {
        let disk = CheckSumOnDisk::from(cs);
        db.put(&disk, data);
        db.update_access(&disk, i as u64 + 1);
    }

    let removed = db.gc_lru(2);
    assert_eq!(removed.removed, 2);
    assert_eq!(removed.checksums, vec![cs1, cs2]);
    assert!(!db.has_chunk(&cs1));
    assert!(!db.has_chunk(&cs2));
    assert!(db.has_chunk(&cs3));
}

#[test]
fn test_get_stats() {
    let mut db = ChunkDb::default();

    db.add_chunks(vec![
        chunk("blake3 chunk 1", CheckSumMethod::Blake3),
        chunk("blake3 chunk 2 with more data", CheckSumMethod::Blake3),
        chunk("sha256 chunk", CheckSumMethod::Sha256),
    ])
    .unwrap();
    db.write_access(1000);

    let first = db.index.first().map(|k| AccessKey::from_bytes(k).unwrap());
    let last = db.index.last().map(|k| AccessKey::from_bytes(k).unwrap());
    let stats = chunk_db_stats(8192, 4096, db.data.len() as u64, first, last);

    assert!(stats.total_size_bytes > 0);
    assert!(stats.used_size_bytes > 0);
    assert_eq!(stats.free_size_bytes, 4096);
    assert_eq!(stats.total_count, 3);
    assert_eq!(stats.oldest_epoch_secs, Some(1000));
    assert_eq!(stats.newest_epoch_secs, Some(1000));
}

#[test]
fn test_list_all_chunks() {
    let mut db = ChunkDb::default();

    let one = chunk("list-1", CheckSumMethod::Blake3);
    let two = chunk("list-2", CheckSumMethod::Sha256);
    let mut expected = vec![one.0, two.0];
    db.add_chunks(vec![one]).unwrap();
    db.add_chunks(vec![two]).unwrap();

    let mut checksums = db.list_all_chunks();
    checksums.sort();
    expected.sort();
    assert_eq!(checksums, expected);
}

#[test]
fn a_whole_listing_gives_each_chunk_once_and_in_order() {
    let mut db = ChunkDb::default();
    for i in 0..2500 {
        let (cs, data) = chunk(&format!("chunk {i}"), CheckSumMethod::Blake3);
        db.data.insert(CheckSumOnDisk::from(cs).to_bytes(), data);
    }
    let unknown = CheckSum {
        raw: [7; 32],
        method: CheckSumMethod::Unknown,
    };
    db.data
        .insert(CheckSumOnDisk::from(unknown).to_bytes(), Vec::new());
    let expected: Vec<CheckSum> = db
        .data
        .keys()
        .map(|key| CheckSum::from(CheckSumOnDisk::from_bytes(key, 0)))
        .filter(|cs| cs.method != CheckSumMethod::Unknown)
        .collect();
    assert_eq!(expected.len(), 2500);
    assert_eq!(db.list_all_chunks(), expected);
    assert_eq!(LIST_BATCH, 1024);
}

#[test]
fn test_writer_thread_prioritizes_add_chunk_over_access_updates() {
    let mut queue = WriteQueue::new();
    let (cs, data) = chunk("priority-test", CheckSumMethod::Blake3);
    queue.enqueue_access(CheckSumOnDisk::from(cs));
    queue.submit_high(AddRequest {
        chunks: vec![(cs, data)],
        ticket: 1,
    });

    let mut db = ChunkDb::default();
    match queue.next_task() {
        Some(WriteTask::Add(req)) => db.add_chunks(req.chunks).unwrap(),
        _ => panic!("adding comes first"),
    }
    assert_eq!(db.get_chunk(&cs), Some(b"priority-test".to_vec()));
    match queue.next_task() {
        Some(WriteTask::Touch(list)) => db.touched = list,
        _ => panic!("access times come next"),
    }
    db.write_access(5);
    assert!(db.access_time(&CheckSumOnDisk::from(cs)).is_some());
    assert!(queue.is_idle());
}

#[test]
fn test_add_chunks_large_batch_sub_batching() {
    let mut db = ChunkDb::default();

    let chunks: Vec<(CheckSum, Vec<u8>)> = (0..100)
        .map(|i| chunk(&format!("sub-batch-{i:04}"), CheckSumMethod::Blake3))
        .collect();
    let checksums: Vec<CheckSum> = chunks.iter().map(|(cs, _)| *cs).collect();

    db.add_chunks(chunks).unwrap();

    for cs in &checksums {
        assert!(db.has_chunk(cs), "missing chunk after large batch add");
    }
}

#[test]
fn test_add_chunks_registers_per_sub_batch() {
    let control = Rc::new(RecordingChunkIndex::default());
    let mut db = ChunkDb::with_control(control.clone());

    // 40 chunks make 3 batches (16+16+8).
    let chunks: Vec<(CheckSum, Vec<u8>)> = (0..40)
        .map(|i| chunk(&format!("reg-sub-{i:04}"), CheckSumMethod::Blake3))
        .collect();
    let mut expected: Vec<CheckSum> = chunks.iter().map(|(cs, _)| *cs).collect();

    db.add_chunks(chunks).unwrap();

    let mut registered = control.registered.borrow().clone();
    registered.sort();
    expected.sort();
    assert_eq!(registered, expected);
}

#[test]
fn test_gc_expired_large_batch_batched_deletion() {
    let mut db = ChunkDb::default();
    let now = 1_000_000;

    let mut checksums = Vec::new();
    for i in 0..300u32 {
        let (cs, data) = chunk(&format!("gc-batch-{i:04}"), CheckSumMethod::Blake3);
        let csd = CheckSumOnDisk::from(cs);
        db.put(&csd, &data);
        db.update_access(&csd, now - 1000);
        checksums.push(cs);
    }

    let result = db.gc_expired(now, 100);
    assert_eq!(result.removed, 300);
    for cs in &checksums {
        assert!(!db.has_chunk(cs));
    }
    assert!(db.index.is_empty());
}

#[test]
fn test_gc_lru_through_writer_channel() {
    let mut db = ChunkDb::default();
    let one = chunk("gc-writer-1", CheckSumMethod::Blake3);
    let two = chunk("gc-writer-2", CheckSumMethod::Blake3);
    let (cs1, cs2) = (one.0, two.0);
    db.add_chunks(vec![one]).unwrap();
    db.add_chunks(vec![two]).unwrap();
    db.write_access(9);
    assert!(db.access_time(&CheckSumOnDisk::from(cs1)).is_some());
    assert!(db.access_time(&CheckSumOnDisk::from(cs2)).is_some());

    let mut queue = WriteQueue::new();
    queue.submit_medium(DeleteRequest {
        keys: db.scan(KeyScan::oldest(2)),
        ticket: 7,
    });
    let result = match queue.next_task() {
        Some(WriteTask::Delete(req)) => {
            assert_eq!(req.ticket, 7);
            db.delete(&req.keys)
        }
        _ => panic!("nothing to delete"),
    };
    assert_eq!(result.removed, 2);
    assert!(!db.has_chunk(&cs1));
    assert!(!db.has_chunk(&cs2));
}

#[test]
fn test_access_update_yields_to_high_priority_and_no_checksums_lost() {
    let mut db = ChunkDb::default();
    let count = ACCESS_BATCH_SIZE * 3;
    let checksums: Vec<CheckSumOnDisk> = (0..count)
        .map(|i| {
            let data = format!("yield-test-{i:05}").into_bytes();
            let cs = CheckSumOnDisk::from(CheckSum::from_data(&data, CheckSumMethod::Blake3));
            db.put(&cs, &data);
            cs
        })
        .collect();
    let mut queue = WriteQueue::new();
    assert!(queue.enqueue_access_many(&checksums));
    assert!(!queue.enqueue_access_many(&checksums));

    let (new_cs, new_data) = chunk("high-prio", CheckSumMethod::Blake3);
    let mut waiting = Some(AddRequest {
        chunks: vec![(new_cs, new_data)],
        ticket: 1,
    });
    let mut written = 0;
    while let Some(task) = queue.next_task() {
        match task {
            WriteTask::Touch(list) => {
                let mut pass = AccessPass::new(list);
                loop {
                    match pass.next(queue.higher_pending()) {
                        AccessStep::Commit(batch) => {
                            for cs in &batch {
                                db.update_access(cs, 1000);
                            }
                            written += batch.len();
                            if let Some(request) = waiting.take() {
                                queue.submit_high(request);
                            }
                        }
                        AccessStep::Requeue(rest) => {
                            assert_eq!(written, ACCESS_BATCH_SIZE);
                            queue.enqueue_access_many(&rest);
                        }
                        AccessStep::Done => break,
                    }
                }
            }
            WriteTask::Add(request) => {
                assert_eq!(written, ACCESS_BATCH_SIZE);
                db.add_chunks(request.chunks).unwrap();
            }
            WriteTask::Delete(_) => panic!("nothing to delete"),
        }
    }
    assert_eq!(db.get_chunk(&new_cs), Some(b"high-prio".to_vec()));
    assert_eq!(written, count);
    assert!(checksums.iter().all(|cs| db.access_time(cs).is_some()));
}

#[test]
fn test_touch_chunk_updates_access_time() {
    let mut db = ChunkDb::default();
    let (cs, data) = chunk("touch me", CheckSumMethod::Blake3);
    let cs_on_disk = CheckSumOnDisk::from(cs);

    db.add_chunks(vec![(cs, data)]).unwrap();
    db.write_access(1000);
    let first = db.access_time(&cs_on_disk).unwrap().secs;

    db.touched.push(cs_on_disk);
    db.write_access(1001);
    let second = db.access_time(&cs_on_disk).unwrap().secs;
    assert_eq!(second, first);
}

#[test]
fn test_gc_worker_unregisters_deleted_checksums() {
    let mut db = ChunkDb::default();
    let index = RecordingChunkIndex::default();
    let checksum = CheckSum::from_data(b"gc-worker", CheckSumMethod::Blake3);
    let checksum_disk = CheckSumOnDisk::from(checksum);
    let now = 1_000_000;
    db.put(&checksum_disk, b"gc-worker");
    db.update_access(&checksum_disk, now - 100);

    let mut run = GcRun::new();
    let mut action = run.on_event(GcEvent::Start { dry_run: false });
    loop {
        let event = match action {
            GcAction::Expire => GcEvent::Deleted(db.gc_expired(now, 10)),
            GcAction::Report(gone) => {
                assert!(index.unregister_chunks(&gone));
                GcEvent::Reported
            }
            GcAction::Measure => GcEvent::Usage {
                above_high: false,
                above_low: false,
            },
            GcAction::Evict(n) => GcEvent::Deleted(db.gc_lru(n)),
            GcAction::Done => break,
        };
        action = run.on_event(event);
    }
    assert!(!db.has_chunk(&checksum));
    assert_eq!(*index.unregistered.borrow(), vec![checksum]);
}

#[test]
fn stored_values_are_ordered() {
    let stored = |method: u8, first: u8, reserved: u8| {
        let mut raw = [0; 32];
        raw[0] = first;
        CheckSumOnDisk {
            raw,
            method,
            reserved: [reserved; 7],
        }
    };
    assert!(stored(0, 9, 0) < stored(1, 1, 0));
    assert!(stored(1, 1, 0) < stored(1, 2, 0));
    assert!(stored(1, 3, 0) > stored(1, 2, 9));
    let equal = stored(1, 2, 0).partial_cmp(&stored(1, 2, 9));
    assert_eq!(equal, Some(std::cmp::Ordering::Equal));
    assert!(AccessKey::new(1, stored(1, 9, 0)) < AccessKey::new(2, stored(0, 0, 0)));
    assert!(AccessKey::new(2, stored(0, 9, 0)) < AccessKey::new(2, stored(1, 0, 0)));
}

#[test]
fn a_full_store_makes_room() {
    let mut db = ChunkDb {
        room: Some(3),
        ..Default::default()
    };
    for i in 0..3 {
        let (cs, data) = chunk(&format!("old-{i}"), CheckSumMethod::Blake3);
        db.add_chunks(vec![(cs, data)]).unwrap();
        db.write_access(i + 1);
    }
    let (cs, data) = chunk("new", CheckSumMethod::Blake3);
    db.add_chunks(vec![(cs, data)]).unwrap();
    assert!(db.has_chunk(&cs));
    let many = (0..4)
        .map(|i| chunk(&format!("more-{i}"), CheckSumMethod::Blake3))
        .collect();
    assert_eq!(db.add_chunks(many), Err("out of space"));
}

#[test]
fn garbage_is_collected_down_to_the_low_watermark() {
    let cs = CheckSum::from_data(b"gc-worker", CheckSumMethod::Blake3);
    let deleted = |n: usize| {
        GcEvent::Deleted(GcDeleteResult {
            removed: n,
            checksums: vec![cs; n],
        })
    };
    let mut run = GcRun::new();
    assert!(matches!(
        run.on_event(GcEvent::Start { dry_run: false }),
        GcAction::Expire
    ));
    assert!(matches!(run.on_event(deleted(1)), GcAction::Report(gone) if gone == vec![cs]));
    assert!(matches!(run.on_event(GcEvent::Reported), GcAction::Measure));
    let above = GcEvent::Usage {
        above_high: true,
        above_low: true,
    };
    assert!(matches!(run.on_event(above), GcAction::Evict(GC_BATCH)));
    assert!(matches!(run.on_event(deleted(2)), GcAction::Report(gone) if gone.len() == 2));
    assert!(matches!(run.on_event(GcEvent::Reported), GcAction::Measure));
    let between = GcEvent::Usage {
        above_high: false,
        above_low: true,
    };
    assert!(matches!(run.on_event(between), GcAction::Evict(GC_BATCH)));
    assert!(matches!(run.on_event(deleted(1)), GcAction::Report(_)));
    assert!(matches!(run.on_event(GcEvent::Reported), GcAction::Measure));
    let below = GcEvent::Usage {
        above_high: false,
        above_low: false,
    };
    assert!(matches!(run.on_event(below), GcAction::Done));
    let mut dry = GcRun::new();
    assert!(matches!(
        dry.on_event(GcEvent::Start { dry_run: true }),
        GcAction::Done
    ));
}

#[test]
fn ranges_of_chunks_are_checked() {
    assert_eq!(chunk_range(None, 0, 1).unwrap(), None);
    assert_eq!(
        chunk_range(Some(&[1, 2, 3]), 1, 2).unwrap(),
        Some(&[2u8, 3][..])
    );
    let e = chunk_range(Some(&[1, 2, 3]), 2, 2).unwrap_err();
    assert_eq!(e.kind, ErrorKind::InvalidData);
    assert_eq!(e.message, "Chunk range invalid");
    assert!(chunk_range(Some(&[1]), usize::MAX, usize::MAX).is_err());
}

#[test]
fn keys_are_ordered_by_time() {
    let cs = CheckSumOnDisk::from(CheckSum::from_data(b"k", CheckSumMethod::Blake3));
    let early = AccessKey::new(255, cs);
    let late = AccessKey::new(256, cs);
    assert!(early.to_bytes() < late.to_bytes());
    assert!(AccessKey::from_bytes(&early.to_bytes()).unwrap().same(&early));
    assert!(!early.same(&late));
    assert!(AccessKey::from_bytes(&[0; 3]).is_err());
    assert!(AccessTime::from_bytes(&[0; 7]).is_err());
    let t = AccessTime { secs: 77 };
    assert_eq!(AccessTime::from_bytes(&t.to_bytes()).unwrap().secs, 77);
}

#[test]
fn many_chunks_are_reported_one_by_one() {
    struct Stubborn(RefCell<usize>);
    impl ChunkIndexControl for Stubborn {
        fn register_chunk(&self, _checksum: &CheckSum) -> bool {
            *self.0.borrow_mut() += 1;
            *self.0.borrow() < 2
        }
        fn unregister_chunk(&self, _checksum: &CheckSum) -> bool {
            true
        }
    }
    let all = [CheckSum::empty(); 4];
    let control = Stubborn(RefCell::new(0));
    assert!(!control.register_chunks(&all));
    assert_eq!(*control.0.borrow(), 2);
    assert!(control.unregister_chunks(&all));
    assert_eq!(to_stored(&all).len(), 4);
}

#[test]
fn a_writer_that_stops_is_not_idle() {
    let mut queue = WriteQueue::new();
    assert!(queue.is_idle());
    assert!(!queue.is_stopping());
    queue.request_stop();
    assert!(!queue.is_idle());
    assert!(queue.is_stopping());
    queue.submit_high(AddRequest {
        chunks: vec![],
        ticket: 3,
    });
    let mut drained = queue.drain();
    assert!(queue.next_task().is_none());
    assert!(matches!(drained.next_task(), Some(WriteTask::Add(r)) if r.ticket == 3));
}
