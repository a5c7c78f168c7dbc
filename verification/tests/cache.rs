use distill_fs::backend::cache::{
    bitmap_file_size, clear_bit, copy_cached, fetch_data, fix_range, invalidate_chunk, is_cached,
    mark_cached, read_at, set_bit, unmark_cached, CacheError, EmptyBackend, FetchAction,
    FetchCursor, InFlight,
};
use distill_fs::backend::{batch_ranges, Backend, CHUNK_SIZE};
use distill_fs::error::{Error, ErrorKind};
use std::cell::{Cell, RefCell};
use std::sync::Arc;

struct MockBackend {
    source_data: Vec<u8>,
    fetch_count: Cell<usize>,
    fetched_chunks: RefCell<Vec<usize>>,
}

impl MockBackend {
    fn new(size: usize) -> Self {
        let mut source_data = Vec::with_capacity(size);
        for i in 0..size {
            source_data.push((i % 256) as u8);
        }
        Self {
            source_data,
            fetch_count: Cell::new(0),
            fetched_chunks: RefCell::new(Vec::new()),
        }
    }
}

impl Backend for MockBackend {
    fn size(&self) -> u64 {
        self.source_data.len() as u64
    }

    fn fetch(&self, off: usize, data: &mut [u8]) -> Result<usize, Error> {
        self.fetch_count.set(self.fetch_count.get() + 1);
        self.fetched_chunks.borrow_mut().push(off / CHUNK_SIZE);
        let end = off + data.len();
        if off >= self.source_data.len() || end > self.source_data.len() {
            return Err(Error::new(ErrorKind::Other, "invalid input parameter"));
        }
        data.copy_from_slice(&self.source_data[off..end]);
        Ok(data.len())
    }
}

struct FlakyBackend {
    data: Vec<u8>,
    fail_once: Cell<bool>,
}

impl FlakyBackend {
    fn new(size: usize) -> Self {
        Self {
            data: (0..size).map(|i| (i % 256) as u8).collect(),
            fail_once: Cell::new(true),
        }
    }
}

impl Backend for FlakyBackend {
    fn size(&self) -> u64 {
        self.data.len() as u64
    }

    fn fetch(&self, off: usize, data: &mut [u8]) -> Result<usize, Error> {
        if self.fail_once.replace(false) {
            return Err(Error::new(ErrorKind::Other, "other error"));
        }
        let end = off + data.len();
        if off >= self.data.len() || end > self.data.len() {
            return Err(Error::new(ErrorKind::Other, "invalid input parameter"));
        }
        data.copy_from_slice(&self.data[off..end]);
        Ok(data.len())
    }
}

struct Cache<B: Backend> {
    b: B,
    raw: Vec<u8>,
    bitmap: Vec<u8>,
}

impl<B: Backend> Cache<B> {
    fn new(b: B) -> Self {
        let size = b.size();
        Self {
            b,
            raw: vec![0; size as usize],
            bitmap: vec![0; bitmap_file_size(size, 4096) as usize],
        }
    }

    fn read_at(&mut self, off: usize, buf: &mut [u8]) -> Result<usize, CacheError> {
        read_at(&self.b, &mut self.raw, &mut self.bitmap, off, buf)
    }

    fn fetch_data(&mut self, off: usize, len: usize) -> Result<(), CacheError> {
        fetch_data(&self.b, &mut self.raw, &mut self.bitmap, off, len)
    }

    fn invalidate_chunk(&mut self, chunk_id: usize) {
        let size = self.b.size();
        if let Some((start, len)) = invalidate_chunk(&mut self.bitmap, chunk_id, size) {
            let end = (start + len).min(self.raw.len());
            self.raw[start..end].fill(0);
        }
    }
}

#[test]
fn test_read_at_cold_cache() {
    let mut cache = Cache::new(MockBackend::new(CHUNK_SIZE * 2));

    let mut buffer = vec![0u8; 128];
    let offset = 10;

    let n = cache.read_at(offset, &mut buffer).unwrap();
    assert_eq!(n, 128);

    assert_eq!(buffer, &cache.b.source_data[offset..offset + 128]);
    assert_eq!(cache.b.fetch_count.get(), 1);
    assert_eq!(*cache.b.fetched_chunks.borrow(), vec![0]);
}

#[test]
fn test_read_at_hot_cache() {
    let mut cache = Cache::new(MockBackend::new(CHUNK_SIZE * 2));

    let mut buffer = vec![0u8; 128];
    let offset = 10;

    cache.read_at(offset, &mut buffer).unwrap();
    assert_eq!(cache.b.fetch_count.get(), 1);

    cache.b.fetch_count.set(0);

    let n = cache.read_at(offset, &mut buffer).unwrap();
    assert_eq!(n, 128);
    assert_eq!(buffer, &cache.b.source_data[offset..offset + 128]);
    assert_eq!(cache.b.fetch_count.get(), 0);
}

#[test]
fn test_read_spanning_multiple_chunks() {
    let mut cache = Cache::new(MockBackend::new(CHUNK_SIZE * 3));

    let offset = CHUNK_SIZE - 64;
    let len = 128;
    let mut buffer = vec![0u8; len];

    let n = cache.read_at(offset, &mut buffer).unwrap();
    assert_eq!(n, len);

    assert_eq!(buffer, &cache.b.source_data[offset..offset + len]);
    assert_eq!(cache.b.fetch_count.get(), 2);
    let mut fetched = cache.b.fetched_chunks.borrow_mut();
    fetched.sort();
    assert_eq!(*fetched, vec![0, 1]);
}

#[test]
fn test_read_at_boundary_conditions() {
    let size = 1024;
    let mut cache = Cache::new(MockBackend::new(size));

    let offset = size - 64;
    let len = 64;
    let mut buffer1 = vec![0u8; len];
    let n1 = cache.read_at(offset, &mut buffer1).unwrap();
    assert_eq!(n1, len);
    assert_eq!(buffer1, &cache.b.source_data[offset..]);

    let offset_over = size - 32;
    let len_over = 128;
    let mut buffer2 = vec![0u8; len_over];
    let n2 = cache.read_at(offset_over, &mut buffer2).unwrap();

    assert_eq!(n2, 32);
    assert_eq!(&buffer2[..32], &cache.b.source_data[offset_over..]);
}

#[test]
fn test_read_at_invalid_range() {
    let size = 1024;
    let mut cache = Cache::new(MockBackend::new(size));

    let mut buffer = vec![0u8; 64];
    let result = cache.read_at(size + 1, &mut buffer);
    assert!(matches!(result, Err(CacheError::InvalidRange)));
}

#[test]
fn test_read_at_zero_len_is_noop() {
    let mut cache = Cache::new(MockBackend::new(CHUNK_SIZE));

    let mut buffer = vec![];
    let n = cache.read_at(0, &mut buffer).unwrap();
    assert_eq!(n, 0);
    assert_eq!(cache.b.fetch_count.get(), 0);
}

#[test]
fn test_fetch_error_clears_inflight() {
    let mut cache = Cache::new(FlakyBackend::new(CHUNK_SIZE));

    let mut buffer = vec![0u8; 64];
    let first = cache.read_at(0, &mut buffer);
    assert!(matches!(first, Err(CacheError::IoError(_))));

    let second = cache.read_at(0, &mut buffer).unwrap();
    assert_eq!(second, 64);
}

#[test]
fn test_invalidate_and_refetch() {
    let mut cache = Cache::new(MockBackend::new(CHUNK_SIZE * 3));

    let mut buffer = vec![0u8; 128];
    let offset = CHUNK_SIZE + 50;

    cache.read_at(offset, &mut buffer).unwrap();
    assert_eq!(cache.b.fetch_count.get(), 1);
    assert_eq!(*cache.b.fetched_chunks.borrow(), vec![1]);

    cache.invalidate_chunk(1);

    let hole_buffer = &cache.raw[offset..offset + 128];
    assert!(hole_buffer.iter().all(|&x| x == 0));

    let n = cache.read_at(offset, &mut buffer).unwrap();
    assert_eq!(n, 128);
    assert_eq!(buffer, &cache.b.source_data[offset..offset + 128]);
    assert_eq!(cache.b.fetch_count.get(), 2);

    let mut fetched_chunks = cache.b.fetched_chunks.borrow_mut();
    fetched_chunks.sort();
    assert_eq!(*fetched_chunks, vec![1, 1]);
}

#[test]
fn test_invalidate_clears_bitmap() {
    let mut cache = Cache::new(MockBackend::new(CHUNK_SIZE * 8));

    cache.fetch_data(0, CHUNK_SIZE * 8).unwrap();

    assert_eq!(cache.bitmap[0], 0b11111111);

    cache.invalidate_chunk(2);
    cache.invalidate_chunk(3);
    cache.invalidate_chunk(4);

    let expected_bitmap = 0b1110_0011;
    assert_eq!(cache.bitmap[0], expected_bitmap);
}

#[test]
fn shared_backend_reads_like_the_backend() {
    let backend = Arc::new(MockBackend::new(1000));
    let mut cache = Cache::new(Arc::clone(&backend));
    let mut buffer = vec![0u8; 10];
    assert_eq!(cache.read_at(990, &mut buffer).unwrap(), 10);
    assert_eq!(buffer, &backend.source_data[990..]);
    assert_eq!(cache.b.size(), 1000);
}

#[test]
fn bitmap_has_at_least_a_page_and_a_bit_per_chunk() {
    let chunk = CHUNK_SIZE as u64;
    assert_eq!(bitmap_file_size(chunk * 5, 4096), 4096);
    assert_eq!(bitmap_file_size(1, 4096), 4096);
    assert_eq!(bitmap_file_size(chunk * 8 * 4096, 4096), 4096);
    assert!(bitmap_file_size(chunk * 8 * 4096 + 1, 4096) >= 4097);
}

#[test]
fn bits_are_set_and_cleared_alone() {
    assert_eq!(set_bit(0b0000_0001, 3), 0b0000_1001);
    assert_eq!(set_bit(0b0000_1001, 3), 0b0000_1001);
    assert_eq!(clear_bit(0b1111_1111, 0), 0b1111_1110);
    assert_eq!(clear_bit(0b0000_0001, 7), 0b0000_0001);
    let mut bitmap = [0u8; 2];
    mark_cached(&mut bitmap, 9);
    assert_eq!(bitmap, [0, 0b10]);
    assert!(is_cached(&bitmap, 9));
    assert!(!is_cached(&bitmap, 1));
    unmark_cached(&mut bitmap, 9);
    assert_eq!(bitmap, [0, 0]);
}

#[test]
fn test_read_at_concurrent_fetches() {
    let mut cache = Cache::new(MockBackend::new(CHUNK_SIZE * 3));
    let size = cache.raw.len();
    let offset = CHUNK_SIZE + 100;
    let mut in_flight = InFlight::new();
    let mut first = FetchCursor::new(offset, 256, size);
    let mut others: Vec<FetchCursor> = (0..9)
        .map(|_| FetchCursor::new(offset, 256, size))
        .collect();
    match first.next_action(&cache.bitmap, &mut in_flight) {
        FetchAction::Fetch { idx, start, end } => {
            assert_eq!((idx, start, end), (1, CHUNK_SIZE, CHUNK_SIZE * 2));
            cache.b.fetch(start, &mut cache.raw[start..end]).unwrap();
        }
        _ => panic!("nothing to fetch"),
    }
    for other in others.iter_mut() {
        assert!(matches!(
            other.next_action(&cache.bitmap, &mut in_flight),
            FetchAction::Wait(1)
        ));
    }
    first.fetched(&mut cache.bitmap, &mut in_flight);
    assert!(is_cached(&cache.bitmap, 1));
    others.push(first);
    for reader in others.iter_mut() {
        assert!(matches!(
            reader.next_action(&cache.bitmap, &mut in_flight),
            FetchAction::Done
        ));
        let mut buffer = vec![0u8; 256];
        let (start, end) = fix_range(offset, buffer.len(), size).unwrap();
        copy_cached(&cache.raw, start, end, &mut buffer);
        assert_eq!(end - start, 256);
        assert_eq!(buffer, &cache.b.source_data[offset..offset + 256]);
    }
    assert_eq!(others.len(), 10);
    assert_eq!(cache.b.fetch_count.get(), 1);
    assert_eq!(*cache.b.fetched_chunks.borrow(), vec![1]);
}

#[test]
fn a_failed_fetch_lets_the_next_reader_try() {
    let bitmap = vec![0u8; 1];
    let mut in_flight = InFlight::new();
    let mut first = FetchCursor::new(0, 10, 100);
    let mut second = FetchCursor::new(0, 10, 100);
    assert!(matches!(
        first.next_action(&bitmap, &mut in_flight),
        FetchAction::Fetch { idx: 0, start: 0, end: 100 }
    ));
    first.failed(&mut in_flight);
    assert!(matches!(
        second.next_action(&bitmap, &mut in_flight),
        FetchAction::Fetch { idx: 0, .. }
    ));
}

#[test]
fn ranges_are_cut_at_the_end() {
    assert_eq!(fix_range(10, 5, 100).unwrap(), (10, 15));
    assert_eq!(fix_range(90, 20, 100).unwrap(), (90, 100));
    assert_eq!(fix_range(90, usize::MAX, 100).unwrap(), (90, 100));
    assert!(matches!(fix_range(100, 1, 100), Err(CacheError::InvalidRange)));
}

#[test]
fn cached_data_is_copied_to_the_front() {
    let mut buf = [9u8; 4];
    copy_cached(&[1, 2, 3, 4, 5], 1, 3, &mut buf);
    assert_eq!(buf, [2, 3, 9, 9]);
}

#[test]
fn cache_errors_have_texts() {
    assert_eq!(CacheError::InvalidRange.to_text(), "invalid range");
    assert_eq!(CacheError::Timeout.to_text(), "timeout");
    let e = CacheError::from(Error::new(ErrorKind::Other, "gone"));
    assert_eq!(e.to_text(), "io_error: gone");
}

#[test]
fn an_empty_backend_leaves_the_data_in_place() {
    let b = EmptyBackend::new(7);
    assert_eq!(b.size(), 7);
    let mut data = [1u8, 2, 3];
    assert_eq!(b.fetch(0, &mut data).unwrap(), 3);
    assert_eq!(data, [1, 2, 3]);
}

#[test]
fn batches_cover_all_items() {
    assert_eq!(batch_ranges(0, 16), vec![]);
    assert_eq!(batch_ranges(40, 16), vec![(0, 16), (16, 32), (32, 40)]);
    assert_eq!(batch_ranges(32, 16), vec![(0, 16), (16, 32)]);
}

/// Gives chunks filled with their number, except for one that fails as often as is said.
struct GapBackend {
    size: usize,
    gap: usize,
    failures: Cell<usize>,
    calls: RefCell<Vec<(usize, usize)>>,
}

impl Backend for GapBackend {
    fn size(&self) -> u64 {
        self.size as u64
    }

    fn fetch(&self, off: usize, data: &mut [u8]) -> Result<usize, Error> {
        self.calls.borrow_mut().push((off, data.len()));
        let idx = off / CHUNK_SIZE;
        if idx == self.gap && self.failures.get() > 0 {
            self.failures.set(self.failures.get() - 1);
            return Err(Error::new(ErrorKind::TimedOut, "gone"));
        }
        data.fill(idx as u8);
        Ok(data.len())
    }
}

#[test]
fn each_missing_chunk_is_fetched_once() {
    let size = 4 * CHUNK_SIZE + 10;
    let mut cache = Cache::new(GapBackend {
        size,
        gap: 3,
        failures: Cell::new(1),
        calls: RefCell::new(Vec::new()),
    });
    mark_cached(&mut cache.bitmap, 1);
    let mut buf = vec![9u8; size];
    match cache.read_at(0, &mut buf) {
        Err(CacheError::IoError(e)) => {
            assert_eq!(e.kind, ErrorKind::TimedOut);
            assert_eq!(e.message, "gone");
        }
        _ => panic!("not refused"),
    }
    assert!(buf.iter().all(|b| *b == 9));
    let c = CHUNK_SIZE;
    assert_eq!(
        *cache.b.calls.borrow(),
        vec![(0, c), (2 * c, c), (3 * c, c)]
    );
    let held: Vec<bool> = (0..6).map(|i| is_cached(&cache.bitmap, i)).collect();
    assert_eq!(held, vec![true, true, true, false, false, false]);

    cache.b.calls.borrow_mut().clear();
    assert_eq!(cache.read_at(0, &mut buf).unwrap(), size);
    assert_eq!(*cache.b.calls.borrow(), vec![(3 * c, c), (4 * c, 10)]);
    assert_eq!(buf[4 * c..], [4; 10]);
}
