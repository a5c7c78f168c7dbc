use distill_fs::backend::dedup::{
    all_parts_known, clamp_read, gc_chunk_range, image_id, single_part_known, sync_chunk,
    sync_wanted, touched_chunks, DedupAction, DedupEvent, DedupJob, DedupMarks, DedupRequest,
    DedupTask, RangeWalk, ReadAction, ReadEvent, ReadTask, Segment,
};
use distill_fs::backend::indexdb::{DedupInfo, DedupRange};
use distill_fs::backend::{Backend, BackendEx, CHUNK_SIZE};
use distill_fs::checksum::{CheckSum, CheckSumMethod, CheckSumOnDisk};
use distill_fs::error::{Error, ErrorKind};
use distill_fs::image::raw::RawDedupImage;
use std::cell::{Cell, RefCell};
use std::collections::BTreeMap;
use std::rc::Rc;

struct MockBackend {
    data: RefCell<Vec<u8>>,
    fetch_calls: Cell<u64>,
    invalidate_calls: RefCell<Vec<usize>>,
}

impl MockBackend {
    fn new(size: usize) -> Self {
        let mut state: u32 = 12345;
        let data = (0..size)
            .map(|_| {
                state = state.wrapping_mul(1103515245).wrapping_add(12345);
                (state >> 16) as u8
            })
            .collect();
        Self::with_data(data)
    }

    fn with_data(data: Vec<u8>) -> Self {
        Self {
            data: RefCell::new(data),
            fetch_calls: Cell::new(0),
            invalidate_calls: RefCell::new(Vec::new()),
        }
    }
}

impl Backend for MockBackend {
    fn size(&self) -> u64 {
        self.data.borrow().len() as u64
    }

    fn fetch(&self, off: usize, data: &mut [u8]) -> Result<usize, Error> {
        self.fetch_calls.set(self.fetch_calls.get() + 1);
        let source = self.data.borrow();
        if off >= source.len() {
            return Ok(0);
        }
        let len = data.len().min(source.len() - off);
        data[..len].copy_from_slice(&source[off..off + len]);
        Ok(len)
    }
}

impl BackendEx for MockBackend {
    fn invalidate_chunk(&self, chunk_id: usize) -> Result<(), Error> {
        self.invalidate_calls.borrow_mut().push(chunk_id);
        Ok(())
    }
}

type Table = Rc<RefCell<BTreeMap<Vec<u8>, Vec<u8>>>>;

fn table() -> Table {
    Rc::new(RefCell::new(BTreeMap::new()))
}

/// Keeps chunks and index entries in memory, under the bytes by which a store has them.
struct DedupReader {
    backend: Rc<MockBackend>,
    chunks: Table,
    index: Table,
    id: [u8; 32],
}

impl DedupReader {
    fn new(backend: Rc<MockBackend>, chunks: Table, index: Table, name: &str) -> Self {
        Self {
            backend,
            chunks,
            index,
            id: image_id(name),
        }
    }

    fn has_chunk(&self, cs: &CheckSum) -> bool {
        let key = CheckSumOnDisk::from(*cs).to_bytes();
        self.chunks.borrow().contains_key(&key)
    }

    fn add_data(&self, cs: &CheckSum, data: Vec<u8>) {
        let key = CheckSumOnDisk::from(*cs).to_bytes();
        self.chunks.borrow_mut().entry(key).or_insert(data);
    }

    fn add_local_dedup_info(&self, range: &DedupRange, cs: &CheckSum) {
        let info = DedupInfo::new(range.start, range.size() as u32, *cs);
        self.index
            .borrow_mut()
            .insert(range.to_bytes(), info.to_bytes());
    }

    fn dedup_range(&self, off: u64, len: usize) -> Vec<Segment> {
        let mut walk = RangeWalk::new(self.id, off, len);
        if let Some(first) = walk.first_key() {
            for (key, value) in self.index.borrow().range(first.to_bytes()..) {
                let key = DedupRange::from_bytes(key).unwrap();
                let info = DedupInfo::from_bytes(value);
                if !walk.offer(&key, &info) {
                    break;
                }
            }
        }
        walk.finish()
    }

    fn dedup_check_range(&self, range: &DedupRange) -> Result<bool, Error> {
        single_part_known(&self.dedup_range(range.start, range.size()))
    }

    fn dedup(
        &self,
        off: u64,
        len: u32,
        check_sum: Option<CheckSum>,
        method: CheckSumMethod,
    ) -> Result<(), Error> {
        let mut task = DedupTask::new(DedupJob {
            id: self.id,
            off,
            len,
            check_sum,
            method,
            backend_size: self.backend.size(),
        });
        let mut action = task.on_event(DedupEvent::Start);
        loop {
            let event = match action {
                DedupAction::LookUp(range) => {
                    DedupEvent::Parts(self.dedup_range(range.start, range.size()))
                }
                DedupAction::Check(cs) => DedupEvent::Present(self.has_chunk(&cs)),
                DedupAction::Touch(_) => DedupEvent::Done,
                DedupAction::Fetch { off, len } => {
                    let mut buf = vec![0; len as usize];
                    let n = self.backend.fetch(off as usize, &mut buf)?;
                    DedupEvent::Fetched { buf, n }
                }
                DedupAction::Store { cs, data } => {
                    self.add_data(&cs, data);
                    DedupEvent::Done
                }
                DedupAction::Record { range, info } => {
                    self.index
                        .borrow_mut()
                        .insert(range.to_bytes(), info.to_bytes());
                    DedupEvent::Done
                }
                DedupAction::Finish => return Ok(()),
                DedupAction::Fail(e) => return Err(e),
            };
            action = task.on_event(event);
        }
    }

    fn gc_chunk(&self, chunk_id: usize) -> Result<(), Error> {
        if let Some((start, len)) = gc_chunk_range(chunk_id, self.backend.size()) {
            if all_parts_known(&self.dedup_range(start, len)) {
                self.backend.invalidate_chunk(chunk_id)?;
            }
        }
        Ok(())
    }
}

impl Backend for DedupReader {
    fn size(&self) -> u64 {
        self.backend.size()
    }

    fn fetch(&self, off: usize, data: &mut [u8]) -> Result<usize, Error> {
        let len = clamp_read(off, data.len(), self.size());
        let parts = self.dedup_range(off as u64, len);
        let mut task = ReadTask::new(off, len, Some(parts), false);
        let mut action = task.on_event(ReadEvent::Start);
        loop {
            let event = match action {
                ReadAction::Chunk {
                    cs,
                    start,
                    len,
                    pos,
                } => {
                    let key = CheckSumOnDisk::from(cs).to_bytes();
                    match self.chunks.borrow().get(&key) {
                        None => ReadEvent::Miss,
                        Some(chunk) if start + len <= chunk.len() => {
                            data[pos..pos + len].copy_from_slice(&chunk[start..start + len]);
                            ReadEvent::Hit(len)
                        }
                        Some(_) => ReadEvent::ChunkError,
                    }
                }
                ReadAction::Prefetch(_) => ReadEvent::Prefetched,
                ReadAction::Backend { off, len, pos, .. } => {
                    let n = self.backend.fetch(off, &mut data[pos..pos + len])?;
                    ReadEvent::BackendRead(n)
                }
                ReadAction::Finish(n) => return Ok(n),
            };
            action = task.on_event(event);
        }
    }
}

fn setup_test() -> (DedupReader, Rc<MockBackend>) {
    let backend = Rc::new(MockBackend::new(2 * CHUNK_SIZE));
    let dedup = DedupReader::new(backend.clone(), table(), table(), "test-dedup");
    (dedup, backend)
}

#[test]
fn test_dedup_and_fetch_simple() {
    let (dedup, backend) = setup_test();
    let off = 0;
    let len = CHUNK_SIZE;

    dedup
        .dedup(off as u64, len as u32, None, CheckSumMethod::Blake3)
        .unwrap();

    assert_eq!(backend.fetch_calls.get(), 1);

    let mut buf = vec![0; len];
    dedup.fetch(off, &mut buf).unwrap();
    assert_eq!(backend.fetch_calls.get(), 1);

    let mut original_data = vec![0; len];
    backend.fetch_calls.set(0);
    backend.fetch(off, &mut original_data).unwrap();
    assert_eq!(buf, original_data);
}

#[test]
fn test_sync_worker_rebuilds_missing_chunk() {
    let (dedup, backend) = setup_test();
    let off = 0;
    let len = CHUNK_SIZE;

    let mut original = vec![0_u8; len];
    backend.fetch(off, &mut original).unwrap();
    let cs = CheckSum::from_data(&original, CheckSumMethod::Blake3);
    let range = DedupRange::new_with_id(dedup.id, off as u64, len as u32);
    dedup.add_local_dedup_info(&range, &cs);

    assert!(!dedup.has_chunk(&cs));

    let info = DedupInfo::new(off as u64, len as u32, cs);
    assert!(sync_wanted(&info));
    let mut buf = vec![0_u8; len];
    let n = backend.fetch(info.off as usize, &mut buf).unwrap();
    let stored = sync_chunk(&info, &buf, n).unwrap();
    dedup.add_data(&stored, buf);

    assert!(dedup.has_chunk(&cs));
}

#[test]
fn test_deduplication_prevents_refetch() {
    let (dedup, backend) = setup_test();
    let len = CHUNK_SIZE;
    let off1 = 0_u64;
    let off2 = CHUNK_SIZE as u64;

    let data_to_write = (0..len).map(|i| (i % 26) as u8 + b'a').collect::<Vec<_>>();
    {
        let mut data = backend.data.borrow_mut();
        data[..len].copy_from_slice(&data_to_write);
        data[len..].copy_from_slice(&data_to_write);
    }

    dedup
        .dedup(off1, len as u32, None, CheckSumMethod::Sha256)
        .unwrap();
    assert_eq!(backend.fetch_calls.get(), 1);

    dedup
        .dedup(off2, len as u32, None, CheckSumMethod::Sha256)
        .unwrap();
    assert_eq!(backend.fetch_calls.get(), 2);

    let mut buf1 = vec![0; len];
    let mut buf2 = vec![0; len];

    dedup.fetch(off1 as usize, &mut buf1).unwrap();
    dedup.fetch(off2 as usize, &mut buf2).unwrap();

    assert_eq!(buf1, data_to_write);
    assert_eq!(buf2, data_to_write);
    assert_eq!(backend.fetch_calls.get(), 2);
    assert_eq!(dedup.chunks.borrow().len(), 1);
}

#[test]
fn test_fetch_mixed_data() {
    let (dedup, backend) = setup_test();

    dedup
        .dedup(0, CHUNK_SIZE as u32, None, CheckSumMethod::Blake3)
        .unwrap();
    assert_eq!(backend.fetch_calls.get(), 1);

    backend.fetch_calls.set(0);

    let fetch_off = CHUNK_SIZE / 2;
    let fetch_len = CHUNK_SIZE;
    let mut buf = vec![0; fetch_len];
    dedup.fetch(fetch_off, &mut buf).unwrap();

    assert_eq!(
        backend.fetch_calls.get(),
        1,
        "Only chunk 1 should fall back to the backend"
    );

    let mut original_data = vec![0; fetch_len];
    backend.fetch(fetch_off, &mut original_data).unwrap();
    assert_eq!(buf, original_data);
}

#[test]
fn test_dedup_alignment_check() {
    let (dedup, _backend) = setup_test();

    let result = dedup.dedup(100, CHUNK_SIZE as u32, None, CheckSumMethod::Blake3);
    assert!(result.is_err());
    assert!(result.unwrap_err().message.contains("not aligned"));

    let result = dedup.dedup(0, 100, None, CheckSumMethod::Blake3);
    assert!(result.is_err());
    assert!(result.unwrap_err().message.contains("not aligned"));

    let result = dedup.dedup(100, 100, None, CheckSumMethod::Blake3);
    assert!(result.is_err());
}

#[test]
fn test_dedup_short_read_errors() {
    let (dedup, _backend) = setup_test();
    let size = 2 * CHUNK_SIZE as u64;
    let off = size;
    let len = CHUNK_SIZE as u32;

    let result = dedup.dedup(off, len, None, CheckSumMethod::Blake3);
    assert!(result.is_err());
    assert!(result.unwrap_err().message.contains("out of range"));
}

#[test]
fn test_send_dedup_request_failure_does_not_mark_chunk() {
    let mut marks = DedupMarks::new(2 * CHUNK_SIZE);
    let chunk_idx = 0;
    assert!(!marks.chunk_is_dedup(chunk_idx));
    let send = |_request: DedupRequest| false;
    for idx in marks.unmarked_chunks(0, CHUNK_SIZE) {
        if send(DedupMarks::request_for(idx, CheckSumMethod::Blake3)) {
            marks.mark_chunk_dedup(idx);
        }
    }
    assert!(!marks.chunk_is_dedup(chunk_idx));
}

#[test]
fn test_fetch_truncates_to_backend_size() {
    let (dedup, backend) = setup_test();
    let size = backend.size() as usize;
    let off = size - 10;
    let mut buf = vec![0u8; 100];

    let n = dedup.fetch(off, &mut buf).unwrap();
    assert_eq!(n, 10);

    let mut expected = vec![0u8; 10];
    backend.fetch(off, &mut expected).unwrap();
    assert_eq!(&buf[..10], expected.as_slice());
}

#[test]
fn test_gc_chunk() {
    let (dedup, backend) = setup_test();

    dedup
        .dedup(0, CHUNK_SIZE as u32, None, CheckSumMethod::Blake3)
        .unwrap();

    dedup.gc_chunk(0).unwrap();
    assert!(backend.invalidate_calls.borrow().contains(&0));

    dedup.gc_chunk(1).unwrap();
    assert!(!backend.invalidate_calls.borrow().contains(&1));
}

#[test]
fn test_datarange_ordering() {
    let r1 = DedupRange::new(100, 50);
    let r2 = DedupRange::new(200, 50);
    assert!(r1 < r2);

    let r3 = DedupRange::new(100, 50);
    let r4 = DedupRange::new(100, 100);
    assert!(r3 < r4);

    let r5 = DedupRange::new(100, 50);
    assert_eq!(r1, r5);
}

#[test]
fn test_fetch_partial_deduped_block() {
    let (dedup, backend) = setup_test();
    let off = 0;
    let len = CHUNK_SIZE;

    dedup
        .dedup(off as u64, len as u32, None, CheckSumMethod::Blake3)
        .unwrap();
    assert_eq!(backend.fetch_calls.get(), 1);

    let fetch_off = CHUNK_SIZE / 4;
    let fetch_len = CHUNK_SIZE / 2;
    let mut buf = vec![0; fetch_len];
    dedup.fetch(fetch_off, &mut buf).unwrap();

    assert_eq!(backend.fetch_calls.get(), 1);

    let mut original_data = vec![0; fetch_len];
    backend.fetch(fetch_off, &mut original_data).unwrap();
    assert_eq!(buf, original_data);
}

#[test]
fn test_dedup_with_precomputed_checksum() {
    let (dedup, backend) = setup_test();
    let off1 = 0;
    let off2 = CHUNK_SIZE;
    let len = CHUNK_SIZE as u32;

    let mut data = vec![0; len as usize];
    backend.fetch(off1, &mut data).unwrap();
    let cs = CheckSum::from_data(&data, CheckSumMethod::Sha256);

    dedup
        .dedup(off1 as u64, len, None, CheckSumMethod::Sha256)
        .unwrap();
    assert_eq!(backend.fetch_calls.get(), 2);

    dedup
        .dedup(off2 as u64, len, Some(cs), CheckSumMethod::Sha256)
        .unwrap();
    assert_eq!(backend.fetch_calls.get(), 2);

    let mut buf = vec![0; len as usize];
    dedup.fetch(off2, &mut buf).unwrap();
    assert_eq!(buf, data);
    assert_eq!(backend.fetch_calls.get(), 2);
}

#[test]
fn test_dedup_instances_isolate_by_data_id() {
    let backend = Rc::new(MockBackend::new(2 * CHUNK_SIZE));
    let chunks = table();
    let index = table();

    let dedup_a = DedupReader::new(backend.clone(), chunks.clone(), index.clone(), "img-a");
    let dedup_b = DedupReader::new(backend.clone(), chunks, index, "img-b");

    let off = 0;
    let len = CHUNK_SIZE as u32;

    dedup_a
        .dedup(off as u64, len, None, CheckSumMethod::Blake3)
        .unwrap();
    assert_eq!(backend.fetch_calls.get(), 1);

    let mut buf = vec![0_u8; len as usize];
    dedup_b.fetch(off, &mut buf).unwrap();
    assert_eq!(backend.fetch_calls.get(), 2);
}

#[test]
fn test_fetch_fallback_on_missing_global_data() {
    let (dedup, backend) = setup_test();
    let off = 0;
    let len = CHUNK_SIZE;

    let data_cs = CheckSum::from_data(b"some fake data", CheckSumMethod::Blake3);
    let range = DedupRange::new_with_id(dedup.id, off as u64, len as u32);
    dedup.add_local_dedup_info(&range, &data_cs);
    assert!(dedup.dedup_check_range(&range).unwrap());
    assert!(!dedup.has_chunk(&data_cs));

    assert_eq!(backend.fetch_calls.get(), 0);

    let mut buf = vec![0; len];
    dedup.fetch(off, &mut buf).unwrap();

    assert_eq!(backend.fetch_calls.get(), 1);

    let mut original_data = vec![0; len];
    backend.fetch(off, &mut original_data).unwrap();
    assert_eq!(buf, original_data);
}

fn setup_test_env(image_size: usize) -> (RawDedupImage<DedupReader>, Rc<MockBackend>) {
    let data = (0..image_size).map(|i| (i % 256) as u8).collect();
    let backend = Rc::new(MockBackend::with_data(data));
    let dedup = DedupReader::new(backend.clone(), table(), table(), "test-image");
    (RawDedupImage::new(dedup), backend)
}

#[test]
fn test_validate_range() {
    let image_size = 5 * CHUNK_SIZE;
    let (raw_image, _) = setup_test_env(image_size);

    let (off, size) = raw_image.validate_range(CHUNK_SIZE, CHUNK_SIZE).unwrap();
    assert_eq!(off, CHUNK_SIZE);
    assert_eq!(size, CHUNK_SIZE);

    let (off, size) = raw_image
        .validate_range(4 * CHUNK_SIZE, 2 * CHUNK_SIZE)
        .unwrap();
    assert_eq!(off, 4 * CHUNK_SIZE);
    assert_eq!(size, CHUNK_SIZE);

    let res = raw_image.validate_range(image_size + 1, CHUNK_SIZE);
    assert!(res.is_err());
    assert_eq!(res.err().unwrap().kind, ErrorKind::InvalidInput);

    let (off, size) = raw_image.validate_range(image_size, 0).unwrap();
    assert_eq!(off, image_size);
    assert_eq!(size, 0);
}

#[test]
fn test_fetch_correctness() {
    let image_size = 10 * CHUNK_SIZE;
    let (raw_image, backend) = setup_test_env(image_size);

    let off = 2 * CHUNK_SIZE + 100;
    let len = 2 * CHUNK_SIZE;
    let mut buffer = vec![0u8; len];

    let bytes_read = raw_image.fetch(off, &mut buffer).unwrap();
    assert_eq!(bytes_read, len);

    let mut expected_data = vec![0u8; len];
    backend.fetch(off, &mut expected_data).unwrap();
    assert_eq!(buffer, expected_data);
}

#[test]
fn test_fetch_on_same_region_twice() {
    let image_size = 5 * CHUNK_SIZE;
    let (raw_image, backend) = setup_test_env(image_size);

    let off = CHUNK_SIZE;
    let mut buffer = vec![0u8; CHUNK_SIZE];

    raw_image.fetch(off, &mut buffer).unwrap();
    let mut expected = vec![0u8; CHUNK_SIZE];
    backend.fetch(off, &mut expected).unwrap();
    assert_eq!(buffer, expected);

    let mut buffer2 = vec![0u8; CHUNK_SIZE];
    raw_image.fetch(off, &mut buffer2).unwrap();
    assert_eq!(buffer2, expected);
}

#[test]
fn test_fetch_empty_buffer() {
    let image_size = 2 * CHUNK_SIZE;
    let (raw_image, _backend) = setup_test_env(image_size);

    let mut buffer = vec![];
    let bytes_read = raw_image.fetch(0, &mut buffer).unwrap();
    assert_eq!(bytes_read, 0);
}

#[test]
fn reads_behind_the_end_are_refused() {
    let (raw_image, _backend) = setup_test_env(100);
    let mut buffer = vec![7u8; 4];
    let e = raw_image.fetch(101, &mut buffer).unwrap_err();
    assert_eq!(e.kind, ErrorKind::InvalidInput);
    assert_eq!(e.message, "Invalid offset");
    assert_eq!(raw_image.fetch(100, &mut buffer).unwrap(), 0);
    assert_eq!(raw_image.fetch(98, &mut buffer).unwrap(), 2);
    assert_eq!(buffer, vec![98, 99, 7, 7]);
    assert_eq!(raw_image.size(), 100);
}

#[test]
fn dedup_of_a_known_range_reads_nothing() {
    let (dedup, backend) = setup_test();
    for _ in 0..2 {
        dedup
            .dedup(0, CHUNK_SIZE as u32, None, CheckSumMethod::Blake3)
            .unwrap();
    }
    assert_eq!(backend.fetch_calls.get(), 1);
    dedup.dedup(0, 0, None, CheckSumMethod::Blake3).unwrap();
    assert_eq!(backend.fetch_calls.get(), 1);
}

#[test]
fn a_short_tail_becomes_a_chunk() {
    let backend = Rc::new(MockBackend::new(CHUNK_SIZE + 10));
    let dedup = DedupReader::new(backend.clone(), table(), table(), "tail");
    dedup
        .dedup(CHUNK_SIZE as u64, CHUNK_SIZE as u32, None, CheckSumMethod::Blake3)
        .unwrap();
    backend.fetch_calls.set(0);
    let mut buf = [0u8; 10];
    assert_eq!(dedup.fetch(CHUNK_SIZE, &mut buf).unwrap(), 10);
    assert_eq!(backend.fetch_calls.get(), 0);
    assert_eq!(&buf, &backend.data.borrow()[CHUNK_SIZE..]);
    let e = dedup
        .dedup(0, 100, None, CheckSumMethod::Blake3)
        .unwrap_err();
    assert_eq!(e.kind, ErrorKind::InvalidInput);
    assert_eq!(
        e.message,
        "Length 100 is not aligned to CHUNK_SIZE (4194304)"
    );
}

#[test]
fn a_short_read_is_an_error() {
    let mut task = DedupTask::new(DedupJob {
        id: [0; 32],
        off: 0,
        len: CHUNK_SIZE as u32,
        check_sum: None,
        method: CheckSumMethod::Blake3,
        backend_size: 2 * CHUNK_SIZE as u64,
    });
    task.on_event(DedupEvent::Start);
    let hole = RangeWalk::new([0; 32], 0, CHUNK_SIZE).finish();
    assert!(matches!(
        task.on_event(DedupEvent::Parts(hole)),
        DedupAction::Fetch { off: 0, .. }
    ));
    let buf = vec![0; CHUNK_SIZE];
    match task.on_event(DedupEvent::Fetched { buf, n: 5 }) {
        DedupAction::Fail(e) => {
            assert_eq!(e.kind, ErrorKind::UnexpectedEof);
            assert_eq!(
                e.message,
                "Short read: expected 4194304 bytes, got 5 bytes at offset 0, backend size 8388608"
            );
        }
        _ => panic!("not refused"),
    }
}

#[test]
fn an_event_out_of_turn_ends_the_job() {
    let mut task = DedupTask::new(DedupJob {
        id: [0; 32],
        off: 0,
        len: 1,
        check_sum: None,
        method: CheckSumMethod::Blake3,
        backend_size: 1,
    });
    match task.on_event(DedupEvent::Done) {
        DedupAction::Fail(e) => assert_eq!(e.kind, ErrorKind::Other),
        _ => panic!("went on"),
    }
}

#[test]
fn parts_follow_each_other() {
    let (dedup, _backend) = setup_test();
    dedup
        .dedup(CHUNK_SIZE as u64, CHUNK_SIZE as u32, None, CheckSumMethod::Blake3)
        .unwrap();
    let parts = dedup.dedup_range(10, CHUNK_SIZE);
    let total: u64 = parts.iter().map(|p| p.1).sum();
    assert_eq!(total, CHUNK_SIZE as u64);
    assert_eq!(parts.len(), 2);
    assert_eq!(parts[0].1, CHUNK_SIZE as u64 - 10);
    assert!(!parts[0].0.cs.is_valid());
    assert!(parts[1].0.cs.is_valid());
    assert!(single_part_known(&parts).is_err());
    assert!(!all_parts_known(&parts));
}

#[test]
fn covered_bytes_come_from_chunks_wherever_a_read_starts() {
    let (dedup, backend) = setup_test();
    dedup
        .dedup(CHUNK_SIZE as u64, CHUNK_SIZE as u32, None, CheckSumMethod::Blake3)
        .unwrap();
    for (off, len, from_image) in [
        (2 * CHUNK_SIZE - 1, 1, 0),
        (CHUNK_SIZE, 1, 0),
        (CHUNK_SIZE - 5, 10, 1),
        (0, CHUNK_SIZE, 1),
    ] {
        backend.fetch_calls.set(0);
        let mut buf = vec![0u8; len];
        assert_eq!(dedup.fetch(off, &mut buf).unwrap(), len);
        assert_eq!(backend.fetch_calls.get(), from_image, "{off}");
        assert_eq!(buf, backend.data.borrow()[off..off + len].to_vec());
    }
}

#[test]
fn a_missing_chunk_is_asked_for_once() {
    let cs = CheckSum::from_data(b"x", CheckSumMethod::Blake3);
    let info = DedupInfo::new(0, 100, cs);
    let mut task = ReadTask::new(10, 20, Some(vec![(info, 20)]), true);
    match task.on_event(ReadEvent::Start) {
        ReadAction::Chunk { start, len, pos, .. } => assert_eq!((start, len, pos), (10, 20, 0)),
        _ => panic!("no chunk"),
    }
    assert!(matches!(
        task.on_event(ReadEvent::Miss),
        ReadAction::Prefetch(c) if c == cs
    ));
    assert!(matches!(
        task.on_event(ReadEvent::Prefetched),
        ReadAction::Chunk { .. }
    ));
    match task.on_event(ReadEvent::Miss) {
        ReadAction::Backend { off, len, resync, .. } => {
            assert_eq!((off, len), (10, 20));
            assert!(resync.unwrap() == info);
        }
        _ => panic!("not read from the image"),
    }
    assert!(matches!(
        task.on_event(ReadEvent::BackendRead(20)),
        ReadAction::Finish(20)
    ));
}

#[test]
fn a_chunk_that_is_not_what_the_index_says_is_not_stored() {
    let cs = CheckSum::from_data(b"abc", CheckSumMethod::Sha256);
    let info = DedupInfo::new(0, 3, cs);
    assert_eq!(sync_chunk(&info, b"abc", 3), Some(cs));
    assert_eq!(sync_chunk(&info, b"abd", 3), None);
    assert_eq!(sync_chunk(&info, b"abc", 2), None);
    assert!(!sync_wanted(&DedupInfo::new(0, 3, CheckSum::empty())));
    assert!(!sync_wanted(&DedupInfo::new(0, 0, cs)));
}

#[test]
fn marks_are_kept_per_chunk() {
    let mut marks = DedupMarks::new(70 * CHUNK_SIZE);
    marks.mark_chunk_dedup(65);
    assert!(marks.chunk_is_dedup(65));
    assert!(!marks.chunk_is_dedup(64));
    assert_eq!(marks.unmarked_chunks(64 * CHUNK_SIZE, 3 * CHUNK_SIZE), vec![64, 66]);
    assert_eq!(marks.unmarked_chunks(0, 0), Vec::<usize>::new());
    let request = DedupMarks::request_for(65, CheckSumMethod::Blake3);
    assert_eq!(request.offset(), 65 * CHUNK_SIZE as u64);
    assert_eq!(request.size(), CHUNK_SIZE);
    let request = DedupRequest::new(7, 9, CheckSumMethod::Sha256);
    let job = request.job([1; 32], 50);
    assert_eq!((job.off, job.len, job.backend_size), (7, 9, 50));
    assert_eq!(job.check_sum, None);
    assert_eq!(touched_chunks(CHUNK_SIZE - 1, 2), (0, 1));
}

#[test]
fn the_end_of_the_image_limits_chunks() {
    assert_eq!(gc_chunk_range(0, 10), Some((0, 10)));
    assert_eq!(
        gc_chunk_range(1, 3 * CHUNK_SIZE as u64),
        Some((CHUNK_SIZE as u64, CHUNK_SIZE))
    );
    assert_eq!(gc_chunk_range(1, 10), None);
    assert_eq!(clamp_read(5, 10, 8), 3);
    assert_eq!(clamp_read(8, 10, 8), 0);
}

#[test]
fn ranges_and_entries_keep_their_bytes() {
    let range = DedupRange::new_with_id(image_id("x"), 5, 7);
    assert_eq!(range.to_bytes().len(), 48);
    assert!(DedupRange::from_bytes(&range.to_bytes()).unwrap() == range);
    assert!(DedupRange::from_bytes(&[0; 47]).is_err());
    let cs = CheckSum::from_data(b"q", CheckSumMethod::Blake3);
    let info = DedupInfo::new(5, 7, cs);
    assert_eq!(info.end(), 12);
    assert!(DedupInfo::from_bytes(&info.to_bytes()) == info);
    assert_eq!(&info.to_bytes()[..8], &5u64.to_le_bytes());
}

#[test]
fn a_read_gives_image_data_whatever_serves_its_parts() {
    let image: Vec<u8> = (0..100).collect();
    let cs = CheckSum::from_data(&image[20..32], CheckSumMethod::Blake3);
    let parts = || {
        let mut walk = RangeWalk::new([7; 32], 10, 30);
        let key = DedupRange::new_with_id([7; 32], 20, 12);
        walk.offer(&key, &DedupInfo::new(20, 12, cs));
        walk.finish()
    };
    for (served, expected) in [(30, 30), (6, 18)] {
        let mut buf = vec![0_u8; 30];
        let mut task = ReadTask::new(10, 30, Some(parts()), false);
        let mut action = task.on_event(ReadEvent::Start);
        let total = loop {
            action = match action {
                ReadAction::Chunk {
                    cs: asked,
                    start,
                    len,
                    pos,
                } => {
                    assert!(asked.same(&cs));
                    let n = len.min(served);
                    let chunk = &image[20..32];
                    buf[pos..pos + n].copy_from_slice(&chunk[start..start + n]);
                    task.on_event(ReadEvent::Hit(n))
                }
                ReadAction::Backend { off, len, pos, .. } => {
                    let n = len.min(served);
                    buf[pos..pos + n].copy_from_slice(&image[off..off + n]);
                    task.on_event(ReadEvent::BackendRead(n))
                }
                ReadAction::Prefetch(_) => panic!("nobody to ask"),
                ReadAction::Finish(n) => break n,
            };
        };
        assert_eq!(total, expected);
        assert_eq!(buf[..total], image[10..10 + total]);
    }
}

#[test]
fn entries_are_ordered_as_their_ranges() {
    let info = |off: u64, len: u32| DedupInfo::new(off, len, CheckSum::empty());
    assert!(info(0, 4) < info(2, 3));
    assert!(info(3, 2) < info(1, 4));
    assert!(info(u64::MAX, 1) > info(u64::MAX, 0));
    assert_eq!(
        info(1, 4).partial_cmp(&info(1, 4)),
        Some(std::cmp::Ordering::Equal)
    );
    assert!(DedupRange::new(0, 4) < DedupRange::new(2, 3));
    assert!(DedupRange::new(3, 2) < DedupRange::new(1, 4));
}
