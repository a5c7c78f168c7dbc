//! The local cache of an image: a sparse copy of it, and a bitmap of the chunks that the copy
//! holds.

use crate::backend::{gives_image, Backend, CHUNK_SIZE};
use crate::error::Error;
use crate::utils::{align_up, lemma_align_up_is_least_multiple, spec_align_up};
use vstd::prelude::*;

verus! {

/// A reader waits at most this many seconds for a chunk that another one is fetching.
pub const IO_WAIT_TIMEOUT: u64 = 120;

/// Why a read of the cache failed.
#[derive(Debug)]
pub enum CacheError {
    IoError(Error),
    InvalidRange,
    Timeout,
}

impl From<Error> for CacheError {
    fn from(e: Error) -> (r: CacheError) {
        CacheError::IoError(e)
    }
}

impl vstd::std_specs::convert::FromSpecImpl<Error> for CacheError {
    open spec fn obeys_from_spec() -> bool {
        true
    }

    open spec fn from_spec(e: Error) -> CacheError {
        CacheError::IoError(e)
    }
}

impl CacheError {
    /// The error in words.
    pub fn to_text(&self) -> (r: String)
        ensures
            r@ == match *self {
                CacheError::IoError(e) => "io_error: "@ + e.message@,
                CacheError::InvalidRange => "invalid range"@,
                CacheError::Timeout => "timeout"@,
            },
    {
        match self {
            CacheError::IoError(e) => {
                let mut s: String = "io_error: ".to_owned();
                s.append(e.message.as_str());
                s
            },
            CacheError::InvalidRange => "invalid range".to_owned(),
            CacheError::Timeout => "timeout".to_owned(),
        }
    }
}

/// The size of the bitmap file for an image of `size` bytes: a bit for each chunk, in whole
/// bytes, and at least a page.
pub fn bitmap_file_size(size: u64, page_size: u64) -> (r: u64)
    requires
        size + CHUNK_SIZE - 1 <= u64::MAX,
    ensures
        ({
            let chunks = spec_align_up(size as int, CHUNK_SIZE as int) / CHUNK_SIZE as int;
            let bytes = spec_align_up(chunks, 8) / 8;
            r == if bytes >= page_size {
                bytes
            } else {
                page_size as int
            }
        }),
{
    let chunks: u64 = align_up(size, CHUNK_SIZE as u64) / CHUNK_SIZE as u64;
    let bytes: u64 = align_up(chunks, 8u64) / 8;
    if bytes >= page_size {
        bytes
    } else {
        page_size
    }
}

/// The bitmap file has a bit for each chunk that a range within the image touches.
pub proof fn law_bitmap_holds_every_chunk(size: int, p: int)
    requires
        0 <= p < size,
    ensures
        ({
            let chunks = spec_align_up(size, CHUNK_SIZE as int) / CHUNK_SIZE as int;
            p / (CHUNK_SIZE as int) < spec_align_up(chunks, 8) / 8 * 8
        }),
{
    let up = spec_align_up(size, CHUNK_SIZE as int);
    lemma_align_up_is_least_multiple(size, CHUNK_SIZE as int);
    lemma_align_up_is_least_multiple(up / CHUNK_SIZE as int, 8);
    assert(up == up / CHUNK_SIZE as int * CHUNK_SIZE);
}

/// Whether a bit of a byte is set.
pub open spec fn byte_bit(b: u8, i: u8) -> bool {
    b & (1u8 << i) != 0
}

/// Whether the cache holds a chunk.
pub open spec fn cached(bitmap: Seq<u8>, idx: int) -> bool {
    byte_bit(bitmap[idx / 8], (idx % 8) as u8)
}

proof fn lemma_set_byte_bit(b: u8, i: u8, j: u8)
    by (bit_vector)
    requires
        i < 8,
        j < 8,
    ensures
        ((b | (1u8 << i)) & (1u8 << j) != 0) == (b & (1u8 << j) != 0 || i == j),
{
}

proof fn lemma_clear_byte_bit(b: u8, i: u8, j: u8)
    by (bit_vector)
    requires
        i < 8,
        j < 8,
    ensures
        ((b & !(1u8 << i)) & (1u8 << j) != 0) == (b & (1u8 << j) != 0 && i != j),
{
}

/// Sets a bit of a byte.
pub fn set_bit(target: u8, bit_shift: u8) -> (r: u8)
    requires
        bit_shift < 8,
    ensures
        forall|j: u8| j < 8 ==> #[trigger] byte_bit(r, j) == (byte_bit(target, j) || j == bit_shift),
{
    proof {
        assert forall|j: u8| j < 8 implies #[trigger] byte_bit(target | (1u8 << bit_shift), j) == (
        byte_bit(target, j) || j == bit_shift) by {
            lemma_set_byte_bit(target, bit_shift, j);
        }
    }
    target | (1u8 << bit_shift)
}

/// Clears a bit of a byte.
pub fn clear_bit(target: u8, bit_shift: u8) -> (r: u8)
    requires
        bit_shift < 8,
    ensures
        forall|j: u8| j < 8 ==> #[trigger] byte_bit(r, j) == (byte_bit(target, j) && j != bit_shift),
{
    proof {
        assert forall|j: u8| j < 8 implies #[trigger] byte_bit(target & !(1u8 << bit_shift), j)
            == (byte_bit(target, j) && j != bit_shift) by {
            lemma_clear_byte_bit(target, bit_shift, j);
        }
    }
    target & !(1u8 << bit_shift)
}

/// Whether the cache holds a chunk.
pub fn is_cached(bitmap: &[u8], idx: usize) -> (r: bool)
    requires
        idx < bitmap@.len() * 8,
    ensures
        r == cached(bitmap@, idx as int),
{
    bitmap[idx / 8] & (1u8 << (idx % 8) as u8) != 0
}

/// Notes that the cache holds a chunk.
pub fn mark_cached(bitmap: &mut [u8], idx: usize)
    requires
        idx < old(bitmap)@.len() * 8,
    ensures
        final(bitmap)@.len() == old(bitmap)@.len(),
        forall|j: int|
            0 <= j < old(bitmap)@.len() * 8 ==> #[trigger] cached(final(bitmap)@, j) == (cached(
                old(bitmap)@,
                j,
            ) || j == idx),
{
    let at: usize = idx / 8;
    let new: u8 = set_bit(bitmap[at], (idx % 8) as u8);
    bitmap[at] = new;
}

/// Notes that the cache does not hold a chunk.
pub fn unmark_cached(bitmap: &mut [u8], idx: usize)
    requires
        idx < old(bitmap)@.len() * 8,
    ensures
        final(bitmap)@.len() == old(bitmap)@.len(),
        forall|j: int|
            0 <= j < old(bitmap)@.len() * 8 ==> #[trigger] cached(final(bitmap)@, j) == (cached(
                old(bitmap)@,
                j,
            ) && j != idx),
{
    let at: usize = idx / 8;
    let new: u8 = clear_bit(bitmap[at], (idx % 8) as u8);
    bitmap[at] = new;
}

/// A source whose data is in place already: reading it changes nothing.
#[derive(Debug)]
pub struct EmptyBackend(u64);

impl EmptyBackend {
    /// A source of `size` bytes.
    pub fn new(size: u64) -> (r: EmptyBackend)
        ensures
            r.spec_size() == size,
            forall|off: usize, before: Seq<u8>, after: Seq<u8>, n: usize| #[trigger]
                r.can_read(off, before, after, n) <==> (after == before && n == before.len()),
            forall|off: usize, before: Seq<u8>, after: Seq<u8>, e: Error|
                !(#[trigger] r.can_fail(off, before, after, e)),
    {
        EmptyBackend(size)
    }
}

impl Backend for EmptyBackend {
    closed spec fn spec_size(&self) -> u64 {
        self.0
    }

    closed spec fn can_read(&self, off: usize, before: Seq<u8>, after: Seq<u8>, n: usize) -> bool {
        after == before && n == before.len()
    }

    closed spec fn can_fail(&self, off: usize, before: Seq<u8>, after: Seq<u8>, e: Error) -> bool {
        false
    }

    fn size(&self) -> (r: u64) {
        self.0
    }

    fn fetch(&self, off: usize, data: &mut [u8]) -> (r: Result<usize, Error>)
        ensures
            r == Ok::<usize, Error>(old(data)@.len() as usize),
            final(data)@ == old(data)@,
    {
        Ok(data.len())
    }
}

/// The chunks that are being fetched.
#[derive(Debug)]
pub struct InFlight {
    chunks: Vec<usize>,
}

impl InFlight {
    /// The chunks that are being fetched.
    pub closed spec fn chunks(self) -> Set<usize> {
        self.chunks@.to_set()
    }

    /// No chunk is being fetched.
    pub fn new() -> (r: InFlight)
        ensures
            r.chunks() == Set::<usize>::empty(),
    {
        let r: InFlight = InFlight { chunks: Vec::new() };
        assert(r.chunks() =~= Set::<usize>::empty());
        r
    }

    /// Notes that a chunk is being fetched, and returns whether it was so already: the caller
    /// then has to wait for whoever fetches it.
    pub fn register_or_wait(&mut self, idx: usize) -> (r: bool)
        ensures
            r == old(self).chunks().contains(idx),
            final(self).chunks() == old(self).chunks().insert(idx),
    {
        let mut i: usize = 0;
        while i < self.chunks.len()
            invariant
                *self == *old(self),
                i <= self.chunks@.len(),
                forall|j: int| 0 <= j < i ==> self.chunks@[j] != idx,
            decreases self.chunks@.len() - i,
        {
            if self.chunks[i] == idx {
                assert(self.chunks@.contains(idx));
                assert(self.chunks() =~= self.chunks().insert(idx));
                return true;
            }
            i = i + 1;
        }
        self.chunks.push(idx);
        proof {
            let a = old(self).chunks@;
            assert(self.chunks@ == a.push(idx));
            assert forall|x: usize| self.chunks().contains(x) == old(self).chunks().insert(
                idx,
            ).contains(x) by {
                if a.contains(x) {
                    let k = a.index_of(x);
                    assert(a.push(idx)[k] == x);
                }
                if a.push(idx).contains(x) && x != idx {
                    let k = a.push(idx).index_of(x);
                    assert(a[k] == x);
                }
                if x == idx {
                    assert(a.push(idx)[a.len() as int] == x);
                }
            }
            assert(self.chunks() =~= old(self).chunks().insert(idx));
        }
        false
    }

    /// Notes that a chunk is no longer being fetched.
    pub fn remove(&mut self, idx: usize)
        ensures
            final(self).chunks() == old(self).chunks().remove(idx),
    {
        let mut kept: Vec<usize> = Vec::new();
        let mut i: usize = 0;
        while i < self.chunks.len()
            invariant
                *self == *old(self),
                i <= self.chunks@.len(),
                forall|x: usize|
                    kept@.contains(x) <==> x != idx && self.chunks@.take(i as int).contains(x),
            decreases self.chunks@.len() - i,
        {
            let c: usize = self.chunks[i];
            let ghost before = kept@;
            if c != idx {
                kept.push(c);
            }
            i = i + 1;
            proof {
                let t = self.chunks@.take(i - 1);
                assert(self.chunks@.take(i as int) =~= t.push(c));
                assert forall|x: usize| kept@.contains(x) <==> x != idx && t.push(c).contains(
                    x,
                ) by {
                    lemma_push_contains(t, c, x);
                    if c != idx {
                        lemma_push_contains(before, c, x);
                    }
                }
            }
        }
        proof {
            assert(self.chunks@.take(i as int) =~= self.chunks@);
            assert(kept@.to_set() =~= old(self).chunks().remove(idx));
        }
        self.chunks = kept;
    }
}

/// What a sequence contains after an element is appended.
proof fn lemma_push_contains<A>(s: Seq<A>, a: A, x: A)
    ensures
        s.push(a).contains(x) <==> s.contains(x) || x == a,
{
    let t = s.push(a);
    if s.contains(x) {
        let i = s.index_of(x);
        assert(t[i] == x);
    }
    if x == a {
        assert(t[s.len() as int] == x);
    }
    if t.contains(x) && x != a {
        let i = t.index_of(x);
        assert(s[i] == x);
    }
}

/// What a reader has to do next to have its range in the cache.
#[derive(Debug, Copy, Clone, PartialEq, Eq, Structural)]
pub enum FetchAction {
    /// Wait until another reader is done with this chunk, and ask again.
    Wait(usize),
    /// Fetch the bytes of the image from `start` to `end`, which are those of chunk `idx`.
    Fetch { idx: usize, start: usize, end: usize },
    /// Nothing: the cache holds the range.
    Done,
}

/// Whether `idx` is the first of the chunks from `from` on that the cache does not hold.
pub open spec fn first_missing(bitmap: Seq<u8>, from: int, idx: int) -> bool {
    &&& from <= idx
    &&& !cached(bitmap, idx)
    &&& forall|j: int| from <= j < idx ==> cached(bitmap, j)
}

/// Where the bytes of a chunk of an image of `size` bytes end.
pub open spec fn chunk_end(idx: int, size: int) -> int {
    if (idx + 1) * CHUNK_SIZE <= size {
        (idx + 1) * CHUNK_SIZE
    } else {
        size
    }
}

/// A reader's way through the chunks of a range, of which the cache is to hold each.
#[derive(Debug)]
pub struct FetchCursor {
    next: usize,
    stop: usize,
    size: usize,
    fetching: bool,
}

impl FetchCursor {
    /// The first chunk that was not seen to be in the cache.
    pub closed spec fn next(self) -> int {
        self.next as int
    }

    /// The chunk behind the last one of the range.
    pub closed spec fn stop(self) -> int {
        self.stop as int
    }

    /// The number of bytes in the image.
    pub closed spec fn size(self) -> int {
        self.size as int
    }

    /// Whether the reader is fetching the chunk `next`.
    pub closed spec fn fetching(self) -> bool {
        self.fetching
    }

    /// The range lies within the image.
    pub open spec fn wf(self) -> bool {
        &&& 0 <= self.next() <= self.stop()
        &&& self.next() < self.stop() ==> (self.stop() - 1) * CHUNK_SIZE < self.size()
        &&& self.fetching() ==> self.next() < self.stop()
    }

    /// The way through the chunks of the `len` bytes from `off` on.
    pub fn new(off: usize, len: usize, size: usize) -> (r: FetchCursor)
        requires
            off + len <= size,
        ensures
            r.wf(),
            r.size() == size,
            !r.fetching(),
            len == 0 ==> r.next() == 0 && r.stop() == 0,
            len > 0 ==> r.next() == off as int / CHUNK_SIZE as int && r.stop() == (off + len - 1)
                / CHUNK_SIZE as int + 1,
    {
        if len == 0 {
            return FetchCursor { next: 0, stop: 0, size, fetching: false };
        }
        FetchCursor {
            next: off / CHUNK_SIZE,
            stop: (off + len - 1) / CHUNK_SIZE + 1,
            size,
            fetching: false,
        }
    }

    /// Looks for the next chunk that the cache does not hold. One that nobody is fetching is
    /// for the caller to fetch, and is noted so.
    pub fn next_action(&mut self, bitmap: &[u8], in_flight: &mut InFlight) -> (r: FetchAction)
        requires
            old(self).wf(),
            !old(self).fetching(),
            old(self).stop() <= bitmap@.len() * 8,
        ensures
            final(self).wf(),
            final(self).size() == old(self).size(),
            final(self).stop() == old(self).stop(),
            old(self).next() <= final(self).next(),
            forall|j: int|
                old(self).next() <= j < final(self).next() ==> #[trigger] cached(bitmap@, j),
            match r {
                FetchAction::Done => {
                    &&& final(self).next() == final(self).stop()
                    &&& !final(self).fetching()
                    &&& final(in_flight).chunks() == old(in_flight).chunks()
                },
                FetchAction::Wait(idx) => {
                    &&& final(self).next() == idx < final(self).stop()
                    &&& first_missing(bitmap@, old(self).next(), idx as int)
                    &&& old(in_flight).chunks().contains(idx)
                    &&& !final(self).fetching()
                    &&& final(in_flight).chunks() == old(in_flight).chunks()
                },
                FetchAction::Fetch { idx, start, end } => {
                    &&& final(self).next() == idx < final(self).stop()
                    &&& first_missing(bitmap@, old(self).next(), idx as int)
                    &&& !old(in_flight).chunks().contains(idx)
                    &&& final(self).fetching()
                    &&& final(in_flight).chunks() == old(in_flight).chunks().insert(idx)
                    &&& start == idx * CHUNK_SIZE
                    &&& end == chunk_end(idx as int, old(self).size())
                    &&& start < end
                },
            },
    {
        while self.next < self.stop && is_cached(bitmap, self.next)
            invariant
                self.wf(),
                !self.fetching(),
                self.size() == old(self).size(),
                self.stop() == old(self).stop(),
                self.stop() <= bitmap@.len() * 8,
                old(self).next() <= self.next(),
                forall|j: int| old(self).next() <= j < self.next() ==> cached(bitmap@, j),
                *in_flight == *old(in_flight),
            decreases self.stop - self.next,
        {
            self.next = self.next + 1;
        }
        if self.next == self.stop {
            return FetchAction::Done;
        }
        let idx: usize = self.next;
        if in_flight.register_or_wait(idx) {
            assert(in_flight.chunks() =~= old(in_flight).chunks());
            return FetchAction::Wait(idx);
        }
        self.fetching = true;
        let start: usize = idx * CHUNK_SIZE;
        let end: usize = if self.size - start >= CHUNK_SIZE {
            start + CHUNK_SIZE
        } else {
            self.size
        };
        FetchAction::Fetch { idx, start, end }
    }

    /// Notes that the chunk was fetched: the cache holds it, and nobody is fetching it.
    pub fn fetched(&mut self, bitmap: &mut [u8], in_flight: &mut InFlight)
        requires
            old(self).wf(),
            old(self).fetching(),
            old(self).stop() <= old(bitmap)@.len() * 8,
        ensures
            final(self).wf(),
            !final(self).fetching(),
            final(self).size() == old(self).size(),
            final(self).stop() == old(self).stop(),
            final(self).next() == old(self).next() + 1,
            final(bitmap)@.len() == old(bitmap)@.len(),
            forall|j: int|
                0 <= j < old(bitmap)@.len() * 8 ==> #[trigger] cached(final(bitmap)@, j) == (cached(
                    old(bitmap)@,
                    j,
                ) || j == old(self).next()),
            final(in_flight).chunks() == old(in_flight).chunks().remove(old(self).next() as usize),
    {
        mark_cached(bitmap, self.next);
        in_flight.remove(self.next);
        self.next = self.next + 1;
        self.fetching = false;
    }

    /// Notes that the chunk could not be fetched: nobody is fetching it.
    pub fn failed(&mut self, in_flight: &mut InFlight)
        requires
            old(self).wf(),
            old(self).fetching(),
        ensures
            final(self).wf(),
            !final(self).fetching(),
            final(self).size() == old(self).size(),
            final(self).stop() == old(self).stop(),
            final(self).next() == old(self).next(),
            final(in_flight).chunks() == old(in_flight).chunks().remove(old(self).next() as usize),
    {
        in_flight.remove(self.next);
        self.fetching = false;
    }
}

/// The bounds of a read of `want` bytes from `off` on, of which only what lies within the
/// image is read.
pub fn fix_range(off: usize, want: usize, size: usize) -> (r: Result<(usize, usize), CacheError>)
    ensures
        match r {
            Ok((start, end)) => {
                &&& off < size
                &&& start == off
                &&& end == if off + want > size {
                    size as int
                } else {
                    off + want
                }
            },
            Err(e) => off >= size && e is InvalidRange,
        },
{
    if off >= size {
        return Err(CacheError::InvalidRange);
    }
    let end: usize = if want > size - off {
        size
    } else {
        off + want
    };
    Ok((off, end))
}

/// Copies a part of the cached data to the front of a buffer.
pub fn copy_cached(raw: &[u8], start: usize, end: usize, buf: &mut [u8])
    requires
        start <= end <= raw@.len(),
        end - start <= old(buf)@.len(),
    ensures
        final(buf)@.len() == old(buf)@.len(),
        final(buf)@.take(end - start) == raw@.subrange(start as int, end as int),
        final(buf)@.skip(end - start) == old(buf)@.skip(end - start),
{
    let n: usize = end - start;
    let mut i: usize = 0;
    while i < n
        invariant
            i <= n,
            n == end - start,
            start <= end <= raw@.len(),
            n <= old(buf)@.len(),
            buf@.len() == old(buf)@.len(),
            forall|j: int| 0 <= j < i ==> buf@[j] == raw@[start + j],
            forall|j: int| i <= j < buf@.len() ==> buf@[j] == old(buf)@[j],
        decreases n - i,
    {
        buf[i] = raw[start + i];
        i = i + 1;
    }
    assert(buf@.take(end - start) =~= raw@.subrange(start as int, end as int));
    assert(buf@.skip(end - start) =~= old(buf)@.skip(end - start));
}

/// The cache holds each chunk that the range from `start` to `end` touches.
pub open spec fn range_cached(bitmap: Seq<u8>, start: int, end: int) -> bool {
    start < end ==> forall|j: int|
        start / CHUNK_SIZE as int <= j <= (end - 1) / CHUNK_SIZE as int ==> cached(bitmap, j)
}

/// Each chunk that the cache holds has the image's bytes.
pub open spec fn cache_agrees(raw: Seq<u8>, bitmap: Seq<u8>, image: Seq<u8>) -> bool {
    &&& raw.len() == image.len()
    &&& forall|p: int|
        0 <= p < image.len() && cached(bitmap, p / CHUNK_SIZE as int) ==> raw[p] == image[p]
}

/// A read out of the cache gives what the image has, where the cache holds the range and what
/// it holds is the image's.
pub proof fn law_cached_read_is_image_data(
    raw: Seq<u8>,
    bitmap: Seq<u8>,
    image: Seq<u8>,
    start: int,
    end: int,
)
    requires
        0 <= start <= end <= image.len(),
        cache_agrees(raw, bitmap, image),
        range_cached(bitmap, start, end),
    ensures
        raw.subrange(start, end) == image.subrange(start, end),
{
    assert forall|p: int| start <= p < end implies raw[p] == image[p] by {
        let c = CHUNK_SIZE as int;
        assert(start / c <= p / c <= (end - 1) / c);
        assert(cached(bitmap, p / c));
    }
    assert(raw.subrange(start, end) =~= image.subrange(start, end));
}

/// Fetching a chunk with the image's bytes keeps what the cache holds the image's.
pub proof fn law_fetched_chunk_keeps_agreement(
    raw: Seq<u8>,
    bitmap: Seq<u8>,
    image: Seq<u8>,
    idx: int,
    new_raw: Seq<u8>,
    new_bitmap: Seq<u8>,
)
    requires
        cache_agrees(raw, bitmap, image),
        0 <= idx,
        new_raw.len() == raw.len(),
        forall|p: int|
            0 <= p < image.len() ==> #[trigger] new_raw[p] == if p / CHUNK_SIZE as int == idx {
                image[p]
            } else {
                raw[p]
            },
        image.len() <= bitmap.len() * 8 * CHUNK_SIZE,
        forall|j: int|
            0 <= j < bitmap.len() * 8 ==> #[trigger] cached(new_bitmap, j) == (cached(bitmap, j)
                || j == idx),
    ensures
        cache_agrees(new_raw, new_bitmap, image),
{
    assert forall|p: int|
        0 <= p < image.len() && cached(new_bitmap, p / CHUNK_SIZE as int) implies new_raw[p]
        == image[p] by {
        assert(p / (CHUNK_SIZE as int) < bitmap.len() * 8);
    }
}

/// Dropping a chunk keeps what the cache holds the image's, whatever becomes of its bytes.
pub proof fn law_dropped_chunk_keeps_agreement(
    raw: Seq<u8>,
    bitmap: Seq<u8>,
    image: Seq<u8>,
    idx: int,
    new_raw: Seq<u8>,
    new_bitmap: Seq<u8>,
)
    requires
        cache_agrees(raw, bitmap, image),
        0 <= idx,
        new_raw.len() == raw.len(),
        forall|p: int|
            0 <= p < image.len() && p / CHUNK_SIZE as int != idx ==> #[trigger] new_raw[p]
                == raw[p],
        image.len() <= bitmap.len() * 8 * CHUNK_SIZE,
        forall|j: int|
            0 <= j < bitmap.len() * 8 ==> #[trigger] cached(new_bitmap, j) == (cached(bitmap, j)
                && j != idx),
    ensures
        cache_agrees(new_raw, new_bitmap, image),
{
    assert forall|p: int|
        0 <= p < image.len() && cached(new_bitmap, p / CHUNK_SIZE as int) implies new_raw[p]
        == image[p] by {
        assert(p / (CHUNK_SIZE as int) < bitmap.len() * 8);
    }
}

/// Whether the bytes of a chunk are what a read of the source left in their place.
pub open spec fn chunk_was_read<B: Backend>(b: B, before: Seq<u8>, after: Seq<u8>, idx: int) -> bool {
    let start = idx * CHUNK_SIZE;
    let end = chunk_end(idx, before.len() as int);
    exists|n: usize|
        #[trigger] b.can_read(
            start as usize,
            before.subrange(start, end),
            after.subrange(start, end),
            n,
        )
}

/// Whether fetching the chunks that the `len` bytes from `off` on touch stops at the chunk
/// numbered `j`, which the cache does not hold: those before it are there, and the source fails
/// with `e` for it.
pub open spec fn fetch_stops<B: Backend>(
    b: B,
    off: int,
    len: int,
    raw: Seq<u8>,
    bitmap: Seq<u8>,
    new_raw: Seq<u8>,
    new_bitmap: Seq<u8>,
    j: int,
    e: Error,
) -> bool {
    let c = CHUNK_SIZE as int;
    let start = j * c;
    let end = chunk_end(j, raw.len() as int);
    &&& len > 0
    &&& off / c <= j <= (off + len - 1) / c
    &&& !cached(bitmap, j)
    &&& !cached(new_bitmap, j)
    &&& forall|k: int| off / c <= k < j ==> #[trigger] cached(new_bitmap, k)
    &&& forall|k: int|
        j < k < bitmap.len() * 8 ==> #[trigger] cached(new_bitmap, k) == cached(bitmap, k)
    &&& b.can_fail(start as usize, raw.subrange(start, end), new_raw.subrange(start, end), e)
}

/// Whether fetching the chunks that the `len` bytes from `off` on touch ends with the source's
/// error `e` for one of them.
pub open spec fn fetch_fails<B: Backend>(
    b: B,
    off: int,
    len: int,
    raw: Seq<u8>,
    bitmap: Seq<u8>,
    new_raw: Seq<u8>,
    new_bitmap: Seq<u8>,
    e: Error,
) -> bool {
    exists|j: int| #[trigger]
        fetch_stops(b, off, len, raw, bitmap, new_raw, new_bitmap, j, e)
}

/// Whether the cache went from one state to another by reading chunks of a source: what it held
/// it holds still, and the bytes of each further chunk come from the source.
pub open spec fn cache_step<B: Backend>(
    b: B,
    raw: Seq<u8>,
    bitmap: Seq<u8>,
    new_raw: Seq<u8>,
    new_bitmap: Seq<u8>,
) -> bool {
    &&& new_raw.len() == raw.len()
    &&& new_bitmap.len() == bitmap.len()
    &&& forall|j: int|
        0 <= j < bitmap.len() * 8 && cached(bitmap, j) ==> #[trigger] cached(new_bitmap, j)
    &&& forall|p: int|
        0 <= p < raw.len() && cached(bitmap, p / CHUNK_SIZE as int) ==> #[trigger] new_raw[p]
            == raw[p]
    &&& forall|j: int|
        0 <= j < bitmap.len() * 8 && !cached(bitmap, j) && #[trigger] cached(new_bitmap, j)
            ==> chunk_was_read(b, raw, new_raw, j)
}

/// Reading chunks of a source that gives the image's bytes keeps what the cache holds the
/// image's.
pub proof fn law_reading_keeps_agreement<B: Backend>(
    b: B,
    image: Seq<u8>,
    raw: Seq<u8>,
    bitmap: Seq<u8>,
    new_raw: Seq<u8>,
    new_bitmap: Seq<u8>,
)
    requires
        gives_image(b, image),
        cache_agrees(raw, bitmap, image),
        cache_step(b, raw, bitmap, new_raw, new_bitmap),
        image.len() <= bitmap.len() * 8 * CHUNK_SIZE,
        image.len() <= usize::MAX,
    ensures
        cache_agrees(new_raw, new_bitmap, image),
{
    assert forall|p: int|
        0 <= p < image.len() && cached(new_bitmap, p / CHUNK_SIZE as int) implies new_raw[p]
        == image[p] by {
        let c = CHUNK_SIZE as int;
        let j = p / c;
        assert(j < bitmap.len() * 8);
        if !cached(bitmap, j) {
            let start = j * c;
            let end = chunk_end(j, raw.len() as int);
            assert(chunk_was_read(b, raw, new_raw, j));
            let n = choose|n: usize|
                #[trigger] b.can_read(
                    start as usize,
                    raw.subrange(start, end),
                    new_raw.subrange(start, end),
                    n,
                );
            assert(start <= p < end);
            assert(new_raw.subrange(start, end)[p - start] == image.subrange(start, end)[p - start]);
        }
    }
}

/// The chunks from `from` to before `to` that the cache does not hold, in ascending order.
pub open spec fn missing_chunks(bitmap: Seq<u8>, from: int, to: int) -> Seq<int>
    decreases to - from,
{
    if from >= to {
        Seq::empty()
    } else {
        let rest = missing_chunks(bitmap, from, to - 1);
        if cached(bitmap, to - 1) {
            rest
        } else {
            rest.push(to - 1)
        }
    }
}

/// The chunks that the `len` bytes from `off` on touch and that the cache does not hold, in
/// ascending order.
pub open spec fn touched_missing(bitmap: Seq<u8>, off: int, len: int) -> Seq<int> {
    if len <= 0 {
        Seq::empty()
    } else {
        missing_chunks(bitmap, off / CHUNK_SIZE as int, (off + len - 1) / CHUNK_SIZE as int + 1)
    }
}

/// A call of the source for a chunk, and how it ended.
pub ghost struct FetchCall {
    pub idx: int,
    pub outcome: Result<usize, Error>,
}

/// Whether a call can have ended so: it asked for all bytes of its chunk, from where the chunk
/// starts on, and `raw` became `new_raw` there.
pub open spec fn call_fits<B: Backend>(
    b: B,
    raw: Seq<u8>,
    new_raw: Seq<u8>,
    call: FetchCall,
) -> bool {
    let start = call.idx * CHUNK_SIZE;
    let end = chunk_end(call.idx, raw.len() as int);
    let before = raw.subrange(start, end);
    let after = new_raw.subrange(start, end);
    match call.outcome {
        Ok(n) => n <= before.len() && b.can_read(start as usize, before, after, n),
        Err(e) => b.can_fail(start as usize, before, after, e),
    }
}

/// Whether one of the calls was for the chunk numbered `j`.
pub open spec fn asked(calls: Seq<FetchCall>, j: int) -> bool {
    exists|k: int| 0 <= k < calls.len() && (#[trigger] calls[k]).idx == j
}

/// Whether one of the calls was for the chunk numbered `j`, and did not fail.
pub open spec fn got(calls: Seq<FetchCall>, j: int) -> bool {
    exists|k: int|
        0 <= k < calls.len() && (#[trigger] calls[k]).idx == j && calls[k].outcome is Ok
}

/// Whether `calls` are those that bring the `len` bytes from `off` on into the cache: one for
/// each chunk that is missing, in ascending order, up to the first that fails. The chunks that
/// they give are noted, and no other ones; no bytes but those of the chunks that were asked for
/// change.
pub open spec fn fetch_run<B: Backend>(
    b: B,
    off: int,
    len: int,
    raw: Seq<u8>,
    bitmap: Seq<u8>,
    new_raw: Seq<u8>,
    new_bitmap: Seq<u8>,
    calls: Seq<FetchCall>,
) -> bool {
    let missing = touched_missing(bitmap, off, len);
    &&& new_raw.len() == raw.len()
    &&& new_bitmap.len() == bitmap.len()
    &&& calls.len() <= missing.len()
    &&& forall|k: int|
        0 <= k < calls.len() ==> (#[trigger] calls[k]).idx == missing[k] && call_fits(
            b,
            raw,
            new_raw,
            calls[k],
        )
    &&& forall|k: int| 0 <= k < calls.len() - 1 ==> (#[trigger] calls[k]).outcome is Ok
    &&& calls.len() < missing.len() ==> calls.len() > 0 && calls.last().outcome is Err
    &&& forall|j: int|
        0 <= j < bitmap.len() * 8 ==> #[trigger] cached(new_bitmap, j) == (cached(bitmap, j)
            || got(calls, j))
    &&& forall|p: int|
        0 <= p < raw.len() && !asked(calls, p / CHUNK_SIZE as int) ==> #[trigger] new_raw[p]
            == raw[p]
}

/// What comes of calls of the source: the error of the last one, where it failed.
pub open spec fn run_result(calls: Seq<FetchCall>) -> Result<(), CacheError> {
    if calls.len() > 0 {
        match calls.last().outcome {
            Ok(_) => Ok(()),
            Err(e) => Err(CacheError::IoError(e)),
        }
    } else {
        Ok(())
    }
}

/// Whether there are calls that bring the `len` bytes from `off` on into the cache and of which
/// `r` comes.
pub open spec fn fetch_was_run<B: Backend>(
    b: B,
    off: int,
    len: int,
    raw: Seq<u8>,
    bitmap: Seq<u8>,
    new_raw: Seq<u8>,
    new_bitmap: Seq<u8>,
    r: Result<(), CacheError>,
) -> bool {
    exists|calls: Seq<FetchCall>|
        #[trigger] fetch_run(b, off, len, raw, bitmap, new_raw, new_bitmap, calls) && r
            == run_result(calls)
}

/// The missing chunks are those of the range that the cache does not hold, each once and in
/// ascending order.
proof fn lemma_missing_chunks(bitmap: Seq<u8>, from: int, to: int)
    ensures
        forall|k: int|
            #![trigger missing_chunks(bitmap, from, to)[k]]
            0 <= k < missing_chunks(bitmap, from, to).len() ==> from <= missing_chunks(
                bitmap,
                from,
                to,
            )[k] < to && !cached(bitmap, missing_chunks(bitmap, from, to)[k]),
        forall|k: int, l: int|
            0 <= k < l < missing_chunks(bitmap, from, to).len() ==> missing_chunks(
                bitmap,
                from,
                to,
            )[k] < missing_chunks(bitmap, from, to)[l],
        forall|j: int|
            from <= j < to && !(#[trigger] cached(bitmap, j)) ==> missing_chunks(
                bitmap,
                from,
                to,
            ).contains(j),
    decreases to - from,
{
    if from < to {
        lemma_missing_chunks(bitmap, from, to - 1);
        let rest = missing_chunks(bitmap, from, to - 1);
        let all = missing_chunks(bitmap, from, to);
        assert forall|j: int| from <= j < to && !(#[trigger] cached(bitmap, j)) implies all.contains(
            j,
        ) by {
            if j == to - 1 {
                assert(all[rest.len() as int] == j);
            } else {
                let k = rest.index_of(j);
                assert(all[k] == j);
            }
        }
    }
}

/// The missing chunks of a shorter range come first, and are all where no later one is missing.
proof fn lemma_missing_prefix(bitmap: Seq<u8>, from: int, mid: int, to: int)
    requires
        from <= mid <= to,
    ensures
        missing_chunks(bitmap, from, mid).len() <= missing_chunks(bitmap, from, to).len(),
        missing_chunks(bitmap, from, to).take(missing_chunks(bitmap, from, mid).len() as int)
            == missing_chunks(bitmap, from, mid),
        (forall|j: int| mid <= j < to ==> cached(bitmap, j)) ==> missing_chunks(bitmap, from, to)
            == missing_chunks(bitmap, from, mid),
    decreases to - mid,
{
    let short = missing_chunks(bitmap, from, mid);
    if mid < to {
        lemma_missing_prefix(bitmap, from, mid, to - 1);
        let rest = missing_chunks(bitmap, from, to - 1);
        assert(missing_chunks(bitmap, from, to).take(short.len() as int) =~= rest.take(
            short.len() as int,
        ));
    } else {
        assert(short.take(short.len() as int) =~= short);
    }
}

/// Bringing a range into the cache calls the source once for each chunk of it that is missing,
/// in ascending order, each time for all bytes of the chunk. It succeeds exactly where no call
/// fails. The first call that fails is the last one; its chunk stays out of the cache, so that
/// it is the first one that is asked for when the range is wanted again. Nothing else is noted.
pub proof fn law_each_missing_chunk_is_fetched_once<B: Backend>(
    b: B,
    off: int,
    len: int,
    raw: Seq<u8>,
    bitmap: Seq<u8>,
    new_raw: Seq<u8>,
    new_bitmap: Seq<u8>,
    calls: Seq<FetchCall>,
)
    requires
        0 <= off,
        0 < len,
        off + len <= raw.len() <= bitmap.len() * 8 * CHUNK_SIZE,
        fetch_run(b, off, len, raw, bitmap, new_raw, new_bitmap, calls),
    ensures
        forall|k: int, l: int| 0 <= k < l < calls.len() ==> calls[k].idx < calls[l].idx,
        forall|k: int|
            0 <= k < calls.len() ==> {
                let j = (#[trigger] calls[k]).idx;
                &&& off / CHUNK_SIZE as int <= j <= (off + len - 1) / CHUNK_SIZE as int
                &&& !cached(bitmap, j)
                &&& chunk_end(j, raw.len() as int) - j * CHUNK_SIZE == if raw.len() - j * CHUNK_SIZE
                    < CHUNK_SIZE {
                    raw.len() - j * CHUNK_SIZE
                } else {
                    CHUNK_SIZE as int
                }
            },
        run_result(calls) is Ok <==> forall|k: int|
            0 <= k < calls.len() ==> (#[trigger] calls[k]).outcome is Ok,
        run_result(calls) is Ok ==> forall|j: int|
            off / CHUNK_SIZE as int <= j <= (off + len - 1) / CHUNK_SIZE as int && !(
            #[trigger] cached(bitmap, j)) ==> got(calls, j),
        run_result(calls) is Err ==> {
            let j = calls.last().idx;
            &&& calls.last().outcome == Err::<usize, Error>(run_result(calls)->Err_0->IoError_0)
            &&& !cached(new_bitmap, j)
            &&& touched_missing(new_bitmap, off, len).len() > 0
            &&& touched_missing(new_bitmap, off, len)[0] == j
        },
        forall|j: int|
            0 <= j < bitmap.len() * 8 && !asked(calls, j) ==> #[trigger] cached(new_bitmap, j)
                == cached(bitmap, j),
{
    let c = CHUNK_SIZE as int;
    let first = off / c;
    let stop = (off + len - 1) / c + 1;
    let missing = touched_missing(bitmap, off, len);
    lemma_missing_chunks(bitmap, first, stop);
    assert((stop - 1) * c <= off + len - 1);
    assert(stop <= bitmap.len() * 8);
    assert forall|k: int, l: int| 0 <= k < l < calls.len() implies calls[k].idx < calls[l].idx by {
        assert(calls[k].idx == missing[k] && calls[l].idx == missing[l]);
    }
    if run_result(calls) is Ok {
        assert(calls.len() == missing.len());
        assert forall|j: int| first <= j < stop && !(#[trigger] cached(bitmap, j)) implies got(
            calls,
            j,
        ) by {
            let k = missing.index_of(j);
            assert(calls[k].idx == j);
        }
    } else {
        let last = calls.len() - 1;
        let j = calls[last].idx;
        assert(missing[last] == j);
        assert(!got(calls, j)) by {
            if got(calls, j) {
                let k = choose|k: int|
                    0 <= k < calls.len() && (#[trigger] calls[k]).idx == j && calls[k].outcome is Ok;
                assert(k < last);
                assert(calls[k].idx < calls[last].idx);
            }
        }
        assert(!cached(new_bitmap, j));
        assert forall|i: int| first <= i < j implies cached(new_bitmap, i) by {
            if !cached(bitmap, i) {
                let k = missing.index_of(i);
                if k > last {
                    assert(missing[last] < missing[k]);
                }
                assert(k != last);
                assert(calls[k].idx == i);
                assert(got(calls, i));
            }
        }
        lemma_missing_prefix(new_bitmap, first, first, j);
        lemma_missing_prefix(new_bitmap, first, j + 1, stop);
        let head = missing_chunks(new_bitmap, first, j + 1);
        assert(missing_chunks(new_bitmap, first, j) =~= Seq::<int>::empty());
        assert(head =~= seq![j]);
        assert(touched_missing(new_bitmap, off, len).take(1)[0] == j);
    }
    assert forall|j: int| 0 <= j < bitmap.len() * 8 && !asked(calls, j) implies #[trigger] cached(
        new_bitmap,
        j,
    ) == cached(bitmap, j) by {
        if got(calls, j) {
            let k = choose|k: int|
                0 <= k < calls.len() && (#[trigger] calls[k]).idx == j && calls[k].outcome is Ok;
            assert(asked(calls, j));
        }
    }
}

/// Has the cache hold each chunk that a range touches, for a caller that shares the cache with
/// nobody: each chunk that is missing is fetched from the source, the first one first. A chunk
/// that the cache held keeps its bytes.
pub fn fetch_data<B: Backend>(
    b: &B,
    raw: &mut [u8],
    bitmap: &mut [u8],
    off: usize,
    len: usize,
) -> (r: Result<(), CacheError>)
    requires
        b.spec_size() == old(raw)@.len(),
        off + len <= old(raw)@.len(),
        old(raw)@.len() <= old(bitmap)@.len() * 8 * CHUNK_SIZE,
    ensures
        cache_step(*b, old(raw)@, old(bitmap)@, final(raw)@, final(bitmap)@),
        match r {
            Ok(_) => range_cached(final(bitmap)@, off as int, off + len),
            Err(e) => {
                &&& e is IoError
                &&& !range_cached(old(bitmap)@, off as int, off + len)
                &&& fetch_fails(
                    *b,
                    off as int,
                    len as int,
                    old(raw)@,
                    old(bitmap)@,
                    final(raw)@,
                    final(bitmap)@,
                    e->IoError_0,
                )
            },
        },
        fetch_was_run(
            *b,
            off as int,
            len as int,
            old(raw)@,
            old(bitmap)@,
            final(raw)@,
            final(bitmap)@,
            r,
        ),
        range_cached(old(bitmap)@, off as int, off + len) ==> final(raw)@ == old(raw)@
            && final(bitmap)@ == old(bitmap)@,
        forall|j: int|
            0 <= j < old(bitmap)@.len() * 8 && !(len > 0 && off as int / CHUNK_SIZE as int <= j <= (
            off + len - 1) / CHUNK_SIZE as int) ==> #[trigger] cached(final(bitmap)@, j) == cached(
                old(bitmap)@,
                j,
            ),
{
    let size: usize = raw.len();
    let mut in_flight: InFlight = InFlight::new();
    let mut cursor: FetchCursor = FetchCursor::new(off, len, size);
    let ghost first = cursor.next();
    let ghost mut calls: Seq<FetchCall> = Seq::empty();
    proof {
        let bits = bitmap@.len() * 8;
        if len > 0 {
            let q = (off + len - 1) / CHUNK_SIZE as int;
            assert(q * CHUNK_SIZE <= off + len - 1 < bits * CHUNK_SIZE);
            assert(q < bits);
        }
    }
    loop
        invariant
            cursor.wf(),
            !cursor.fetching(),
            cursor.size() == size == raw@.len() == old(raw)@.len(),
            len > 0 ==> cursor.stop() == (off + len - 1) / CHUNK_SIZE as int + 1,
            len > 0 ==> first == off as int / CHUNK_SIZE as int,
            len == 0 ==> cursor.next() == cursor.stop() && first == cursor.next(),
            0 <= first <= cursor.next(),
            cursor.stop() <= bitmap@.len() * 8,
            bitmap@.len() == old(bitmap)@.len(),
            in_flight.chunks() == Set::<usize>::empty(),
            forall|j: int| first <= j < cursor.next() ==> cached(bitmap@, j),
            forall|j: int|
                0 <= j < old(bitmap)@.len() * 8 && (j < first || j >= cursor.next())
                    ==> #[trigger] cached(bitmap@, j) == cached(old(bitmap)@, j),
            forall|p: int|
                0 <= p < old(raw)@.len() && cached(old(bitmap)@, p / CHUNK_SIZE as int)
                    ==> #[trigger] raw@[p] == old(raw)@[p],
            forall|p: int|
                0 <= p < old(raw)@.len() && p / CHUNK_SIZE as int >= cursor.next()
                    ==> #[trigger] raw@[p] == old(raw)@[p],
            forall|j: int|
                first <= j < cursor.next() && !cached(old(bitmap)@, j) ==> #[trigger] chunk_was_read(
                    *b,
                    old(raw)@,
                    raw@,
                    j,
                ),
            forall|p: int|
                0 <= p < old(raw)@.len() && p / (CHUNK_SIZE as int) < first ==> #[trigger] raw@[p]
                    == old(raw)@[p],
            range_cached(old(bitmap)@, off as int, off + len) ==> raw@ == old(raw)@ && bitmap@
                == old(bitmap)@,
            calls.len() == missing_chunks(old(bitmap)@, first, cursor.next()).len(),
            forall|k: int|
                0 <= k < calls.len() ==> {
                    &&& (#[trigger] calls[k]).idx == missing_chunks(
                        old(bitmap)@,
                        first,
                        cursor.next(),
                    )[k]
                    &&& calls[k].outcome is Ok
                    &&& call_fits(*b, old(raw)@, raw@, calls[k])
                },
        decreases cursor.stop() - cursor.next(),
    {
        let ghost from = cursor.next();
        match cursor.next_action(bitmap, &mut in_flight) {
            FetchAction::Done => {
                proof {
                    assert forall|j: int|
                        first <= j < cursor.next() && !cached(
                            old(bitmap)@,
                            j,
                        ) implies #[trigger] chunk_was_read(*b, old(raw)@, raw@, j) by {
                        assert(from <= j ==> cached(bitmap@, j));
                    }
                    lemma_cache_step(*b, old(raw)@, old(bitmap)@, raw@, bitmap@, first, cursor.next());
                    assert forall|j: int| from <= j < cursor.next() implies cached(
                        old(bitmap)@,
                        j,
                    ) by {
                        assert(cached(bitmap@, j));
                    }
                    lemma_missing_prefix(old(bitmap)@, first, from, cursor.next());
                    lemma_calls_make_run(
                        *b,
                        off as int,
                        len as int,
                        old(raw)@,
                        old(bitmap)@,
                        raw@,
                        bitmap@,
                        first,
                        cursor.next(),
                        calls,
                    );
                }
                return Ok(());
            },
            FetchAction::Wait(_) => {
                assert(false);
                return Ok(());
            },
            FetchAction::Fetch { idx, start, end } => {
                let ghost before = raw@;
                assert(!cached(old(bitmap)@, idx as int));
                assert(!range_cached(old(bitmap)@, off as int, off + len));
                let fetched: Result<usize, Error> = fetch_chunk(b, raw, start, end);
                proof {
                    lemma_other_chunks_kept(before, raw@, idx as int, start as int, end as int);
                    assert forall|j: int|
                        first <= j < idx && !cached(old(bitmap)@, j) implies #[trigger] chunk_was_read(
                        *b,
                        old(raw)@,
                        raw@,
                        j,
                    ) by {
                        assert(from <= j ==> cached(bitmap@, j));
                        assert(chunk_was_read(*b, old(raw)@, before, j));
                        let s = j * CHUNK_SIZE;
                        let e = chunk_end(j, size as int);
                        assert(e <= (j + 1) * CHUNK_SIZE);
                        assert(s < e <= start);
                        assert(before.subrange(s, e) =~= raw@.subrange(s, e));
                    }
                    assert(before.subrange(start as int, end as int) =~= old(raw)@.subrange(
                        start as int,
                        end as int,
                    ));
                    assert forall|j: int| from <= j < idx implies cached(old(bitmap)@, j) by {
                        assert(cached(bitmap@, j));
                    }
                    lemma_missing_prefix(old(bitmap)@, first, from, idx as int);
                    lemma_missing_chunks(old(bitmap)@, first, idx as int);
                    assert forall|k: int| 0 <= k < calls.len() implies call_fits(
                        *b,
                        old(raw)@,
                        raw@,
                        #[trigger] calls[k],
                    ) by {
                        let j = calls[k].idx;
                        assert(j == missing_chunks(old(bitmap)@, first, idx as int)[k]);
                        let s = j * CHUNK_SIZE;
                        let e = chunk_end(j, size as int);
                        assert(e <= (j + 1) * CHUNK_SIZE);
                        assert(s < e <= start);
                        assert(before.subrange(s, e) =~= raw@.subrange(s, e));
                    }
                    calls = calls.push(FetchCall { idx: idx as int, outcome: fetched });
                }
                match fetched {
                    Err(e) => {
                        cursor.failed(&mut in_flight);
                        proof {
                            lemma_cache_step(
                                *b,
                                old(raw)@,
                                old(bitmap)@,
                                raw@,
                                bitmap@,
                                first,
                                idx as int,
                            );
                            lemma_calls_make_run(
                                *b,
                                off as int,
                                len as int,
                                old(raw)@,
                                old(bitmap)@,
                                raw@,
                                bitmap@,
                                first,
                                idx as int,
                                calls,
                            );
                            assert(fetch_stops(
                                *b,
                                off as int,
                                len as int,
                                old(raw)@,
                                old(bitmap)@,
                                raw@,
                                bitmap@,
                                idx as int,
                                e,
                            ));
                        }
                        return Err(CacheError::from(e));
                    },
                    Ok(n) => {
                        assert(chunk_was_read(*b, old(raw)@, raw@, idx as int)) by {
                            assert(b.can_read(
                                (idx * CHUNK_SIZE) as usize,
                                old(raw)@.subrange(start as int, end as int),
                                raw@.subrange(start as int, end as int),
                                n,
                            ));
                        }
                        cursor.fetched(bitmap, &mut in_flight);
                        assert(in_flight.chunks() =~= Set::<usize>::empty());
                    },
                }
            },
        }
    }
}

/// The calls that a reader has made up to a chunk, and the one for that chunk where it failed, are
/// those that bring the range into the cache, when there is nothing left to do.
proof fn lemma_calls_make_run<B: Backend>(
    b: B,
    off: int,
    len: int,
    raw: Seq<u8>,
    bitmap: Seq<u8>,
    new_raw: Seq<u8>,
    new_bitmap: Seq<u8>,
    first: int,
    next: int,
    calls: Seq<FetchCall>,
)
    requires
        0 <= off,
        0 <= len,
        new_raw.len() == raw.len(),
        new_bitmap.len() == bitmap.len(),
        len > 0 ==> first == off / CHUNK_SIZE as int && first <= next <= (off + len - 1)
            / CHUNK_SIZE as int + 1,
        len == 0 ==> first == next,
        ({
            let done = missing_chunks(bitmap, first, next).len();
            let stop = (off + len - 1) / CHUNK_SIZE as int + 1;
            ||| calls.len() == done && (len > 0 ==> next == stop)
            ||| {
                &&& calls.len() == done + 1
                &&& len > 0
                &&& next < stop
                &&& !cached(bitmap, next)
                &&& calls.last().idx == next
                &&& calls.last().outcome is Err
            }
        }),
        forall|k: int|
            0 <= k < missing_chunks(bitmap, first, next).len() ==> (#[trigger] calls[k]).idx
                == missing_chunks(bitmap, first, next)[k] && calls[k].outcome is Ok,
        forall|k: int| 0 <= k < calls.len() ==> call_fits(b, raw, new_raw, #[trigger] calls[k]),
        forall|j: int| first <= j < next ==> cached(new_bitmap, j),
        forall|j: int|
            0 <= j < bitmap.len() * 8 && (j < first || j >= next) ==> #[trigger] cached(
                new_bitmap,
                j,
            ) == cached(bitmap, j),
        forall|p: int|
            0 <= p < raw.len() && cached(bitmap, p / CHUNK_SIZE as int) ==> #[trigger] new_raw[p]
                == raw[p],
        forall|p: int|
            0 <= p < raw.len() && p / (CHUNK_SIZE as int) < first ==> #[trigger] new_raw[p]
                == raw[p],
        forall|p: int|
            0 <= p < raw.len() && p / CHUNK_SIZE as int > next ==> #[trigger] new_raw[p] == raw[p],
        calls.len() == missing_chunks(bitmap, first, next).len() ==> forall|p: int|
            0 <= p < raw.len() && p / CHUNK_SIZE as int == next ==> #[trigger] new_raw[p]
                == raw[p],
    ensures
        fetch_run(b, off, len, raw, bitmap, new_raw, new_bitmap, calls),
        calls.len() == missing_chunks(bitmap, first, next).len() ==> run_result(calls) is Ok,
{
    let c = CHUNK_SIZE as int;
    let done = missing_chunks(bitmap, first, next);
    let missing = touched_missing(bitmap, off, len);
    let failed = calls.len() > done.len();
    lemma_missing_chunks(bitmap, first, next);
    if len > 0 {
        let stop = (off + len - 1) / c + 1;
        lemma_missing_prefix(bitmap, first, next, stop);
        assert(missing.take(done.len() as int) == done);
        assert forall|k: int| 0 <= k < done.len() implies missing[k] == done[k] by {
            assert(missing.take(done.len() as int)[k] == missing[k]);
        }
        if failed {
            lemma_missing_prefix(bitmap, first, next + 1, stop);
            let head = missing_chunks(bitmap, first, next + 1);
            assert(head == done.push(next));
            assert(missing.take(head.len() as int)[done.len() as int] == next);
        }
    }
    assert forall|j: int| 0 <= j < bitmap.len() * 8 implies #[trigger] cached(new_bitmap, j) == (
    cached(bitmap, j) || got(calls, j)) by {
        if got(calls, j) {
            let k = choose|k: int|
                0 <= k < calls.len() && (#[trigger] calls[k]).idx == j && calls[k].outcome is Ok;
            assert(k < done.len());
            assert(done[k] == j);
        }
        if first <= j < next && !cached(bitmap, j) {
            let k = done.index_of(j);
            assert(calls[k].idx == j);
        }
    }
    assert forall|p: int|
        0 <= p < raw.len() && !asked(calls, p / c) implies #[trigger] new_raw[p] == raw[p] by {
        let j = p / c;
        if first <= j < next && !cached(bitmap, j) {
            let k = done.index_of(j);
            assert(calls[k].idx == j);
        }
        if failed && j == next {
            assert(calls[calls.len() - 1].idx == j);
        }
    }
}

/// What a reader has done up to a chunk is a step of the cache.
proof fn lemma_cache_step<B: Backend>(
    b: B,
    raw: Seq<u8>,
    bitmap: Seq<u8>,
    new_raw: Seq<u8>,
    new_bitmap: Seq<u8>,
    first: int,
    next: int,
)
    requires
        new_raw.len() == raw.len(),
        new_bitmap.len() == bitmap.len(),
        forall|j: int| first <= j < next ==> cached(new_bitmap, j),
        forall|j: int|
            0 <= j < bitmap.len() * 8 && (j < first || j >= next) ==> #[trigger] cached(
                new_bitmap,
                j,
            ) == cached(bitmap, j),
        forall|p: int|
            0 <= p < raw.len() && cached(bitmap, p / CHUNK_SIZE as int) ==> #[trigger] new_raw[p]
                == raw[p],
        forall|j: int|
            first <= j < next && !cached(bitmap, j) ==> #[trigger] chunk_was_read(
                b,
                raw,
                new_raw,
                j,
            ),
    ensures
        cache_step(b, raw, bitmap, new_raw, new_bitmap),
{
}

/// Reads the bytes from `start` to `end` from the source into their place in the cache.
fn fetch_chunk<B: Backend>(b: &B, raw: &mut [u8], start: usize, end: usize) -> (r: Result<
    usize,
    Error,
>)
    requires
        start <= end <= old(raw)@.len(),
    ensures
        final(raw)@.len() == old(raw)@.len(),
        forall|p: int|
            0 <= p < old(raw)@.len() && !(start <= p < end) ==> #[trigger] final(raw)@[p]
                == old(raw)@[p],
        ({
            let before = old(raw)@.subrange(start as int, end as int);
            let after = final(raw)@.subrange(start as int, end as int);
            match r {
                Ok(n) => n <= before.len() && b.can_read(start, before, after, n),
                Err(e) => b.can_fail(start, before, after, e),
            }
        }),
{
    let (_head, tail) = raw.split_at_mut(start);
    let (chunk, _rest) = tail.split_at_mut(end - start);
    assert(chunk@ =~= old(raw)@.subrange(start as int, end as int));
    let r: Result<usize, Error> = b.fetch(start, chunk);
    let ghost after = chunk@;
    assert(raw@.subrange(start as int, end as int) =~= after);
    r
}

/// Changing the bytes of one chunk leaves those of all others.
proof fn lemma_other_chunks_kept(before: Seq<u8>, after: Seq<u8>, idx: int, start: int, end: int)
    requires
        before.len() == after.len(),
        start == idx * CHUNK_SIZE,
        end <= (idx + 1) * CHUNK_SIZE,
        forall|p: int|
            0 <= p < before.len() && !(start <= p < end) ==> #[trigger] after[p] == before[p],
    ensures
        forall|p: int|
            0 <= p < before.len() && p / CHUNK_SIZE as int != idx ==> #[trigger] after[p]
                == before[p],
{
}

/// Reads the cache, for a caller that shares it with nobody: what lies within the image is
/// copied to the front of `buf`, after the chunks that are missing were fetched.
pub fn read_at<B: Backend>(
    b: &B,
    raw: &mut [u8],
    bitmap: &mut [u8],
    off: usize,
    buf: &mut [u8],
) -> (r: Result<usize, CacheError>)
    requires
        b.spec_size() == old(raw)@.len(),
        old(raw)@.len() <= old(bitmap)@.len() * 8 * CHUNK_SIZE,
    ensures
        final(buf)@.len() == old(buf)@.len(),
        cache_step(*b, old(raw)@, old(bitmap)@, final(raw)@, final(bitmap)@),
        ({
            let size = old(raw)@.len();
            let end = if off + old(buf)@.len() > size {
                size as int
            } else {
                off + old(buf)@.len()
            };
            match r {
                Ok(n) => {
                    &&& old(buf)@.len() == 0 || off < size
                    &&& n == if old(buf)@.len() == 0 {
                        0
                    } else {
                        end - off
                    }
                    &&& if n > 0 {
                        fetch_was_run(
                            *b,
                            off as int,
                            end - off,
                            old(raw)@,
                            old(bitmap)@,
                            final(raw)@,
                            final(bitmap)@,
                            Ok(()),
                        )
                    } else {
                        final(raw)@ == old(raw)@ && final(bitmap)@ == old(bitmap)@
                    }
                    &&& n > 0 ==> range_cached(final(bitmap)@, off as int, end)
                    &&& n > 0 ==> final(buf)@.take(n as int) == final(raw)@.subrange(
                        off as int,
                        end,
                    )
                    &&& final(buf)@.skip(n as int) == old(buf)@.skip(n as int)
                },
                Err(CacheError::InvalidRange) => {
                    &&& old(buf)@.len() > 0
                    &&& off >= size
                    &&& final(buf)@ == old(buf)@
                    &&& final(raw)@ == old(raw)@
                    &&& final(bitmap)@ == old(bitmap)@
                },
                Err(CacheError::IoError(e)) => {
                    &&& old(buf)@.len() > 0
                    &&& off < size
                    &&& final(buf)@ == old(buf)@
                    &&& fetch_was_run(
                        *b,
                        off as int,
                        end - off,
                        old(raw)@,
                        old(bitmap)@,
                        final(raw)@,
                        final(bitmap)@,
                        Err(CacheError::IoError(e)),
                    )
                    &&& !range_cached(old(bitmap)@, off as int, end)
                    &&& fetch_fails(
                        *b,
                        off as int,
                        end - off,
                        old(raw)@,
                        old(bitmap)@,
                        final(raw)@,
                        final(bitmap)@,
                        e,
                    )
                },
                Err(CacheError::Timeout) => false,
            }
        }),
{
    if buf.len() == 0 {
        return Ok(0);
    }
    let (start, end) = match fix_range(off, buf.len(), raw.len()) {
        Ok(bounds) => bounds,
        Err(e) => {
            return Err(e);
        },
    };
    match fetch_data(b, raw, bitmap, start, end - start) {
        Ok(_) => {},
        Err(e) => {
            return Err(e);
        },
    }
    copy_cached(raw, start, end, buf);
    Ok(end - start)
}

/// Drops a chunk from the cache, and returns the bytes of the local copy that can be given
/// back: where they start, and how many they are. There is nothing to drop where the chunk
/// lies behind the end of the image or the cache does not hold it.
pub fn invalidate_chunk(bitmap: &mut [u8], chunk_id: usize, size: u64) -> (r: Option<(usize, usize)>)
    requires
        chunk_id * CHUNK_SIZE <= usize::MAX,
        size <= usize::MAX,
        size <= old(bitmap)@.len() * 8 * CHUNK_SIZE,
    ensures
        final(bitmap)@.len() == old(bitmap)@.len(),
        match r {
            None => {
                &&& chunk_id * CHUNK_SIZE >= size || !cached(old(bitmap)@, chunk_id as int)
                &&& final(bitmap)@ == old(bitmap)@
            },
            Some((start, len)) => {
                &&& chunk_id * CHUNK_SIZE < size
                &&& cached(old(bitmap)@, chunk_id as int)
                &&& start == chunk_id * CHUNK_SIZE
                &&& len == CHUNK_SIZE
                &&& forall|j: int|
                    0 <= j < old(bitmap)@.len() * 8 ==> #[trigger] cached(final(bitmap)@, j) == (
                    cached(old(bitmap)@, j) && j != chunk_id)
            },
        },
{
    let start: usize = chunk_id * CHUNK_SIZE;
    if start >= size as usize {
        return None;
    }
    if !is_cached(bitmap, chunk_id) {
        return None;
    }
    unmark_cached(bitmap, chunk_id);
    Some((start, CHUNK_SIZE))
}

/// A chunk that is noted is held from then on, one that is taken back is not, and neither changes
/// what is noted of another chunk.
pub proof fn law_notes_are_kept_apart(
    b0: &mut [u8],
    idx: usize,
    noted: &[u8],
    j: usize,
    was: bool,
    after_mark: bool,
    b1: &mut [u8],
    cleared: &[u8],
    after_clear: bool,
)
    requires
        idx < old(b0)@.len() * 8,
        j < old(b0)@.len() * 8,
        was == cached(old(b0)@, j as int),
        call_ensures(mark_cached, (b0, idx), ()),
        noted@ == final(b0)@,
        call_ensures(is_cached, (noted, j), after_mark),
        old(b1)@ == final(b0)@,
        call_ensures(unmark_cached, (b1, idx), ()),
        cleared@ == final(b1)@,
        call_ensures(is_cached, (cleared, j), after_clear),
    ensures
        after_mark <==> was || j == idx,
        after_clear <==> was && j != idx,
        final(b1)@.len() == old(b0)@.len(),
{
    assert(call_requires(mark_cached, (b0, idx)));
    assert(call_requires(unmark_cached, (b1, idx)));
    assert(call_requires(is_cached, (noted, j)));
    assert(call_requires(is_cached, (cleared, j)));
    assert(cached(final(b0)@, j as int) == (cached(old(b0)@, j as int) || j == idx));
    assert(cached(final(b1)@, j as int) == (cached(old(b1)@, j as int) && j != idx));
}

/// A read through the cache gives the image's bytes, from where it starts, as many as the image has
/// and the buffer takes, whatever was in the cache; and what is in the cache afterwards is the
/// image's. What lies behind them in the buffer stays as it was.
pub proof fn law_read_through_the_cache_is_image_data<B: Backend>(
    b: &B,
    image: Seq<u8>,
    raw: &mut [u8],
    bitmap: &mut [u8],
    off: usize,
    buf: &mut [u8],
    n: usize,
)
    requires
        gives_image(*b, image),
        b.spec_size() == old(raw)@.len(),
        old(raw)@.len() <= old(bitmap)@.len() * 8 * CHUNK_SIZE,
        image.len() <= usize::MAX,
        old(raw)@.len() <= usize::MAX,
        cache_agrees(old(raw)@, old(bitmap)@, image),
        call_ensures(read_at::<B>, (b, raw, bitmap, off, buf), Ok(n)),
    ensures
        n <= old(buf)@.len(),
        n < old(buf)@.len() ==> off + n == image.len(),
        n > 0 ==> off + n <= image.len(),
        n > 0 ==> final(buf)@.take(n as int) == image.subrange(off as int, off + n),
        final(buf)@.skip(n as int) == old(buf)@.skip(n as int),
        cache_agrees(final(raw)@, final(bitmap)@, image),
{
    law_reading_keeps_agreement(
        *b,
        image,
        old(raw)@,
        old(bitmap)@,
        final(raw)@,
        final(bitmap)@,
    );
    if n > 0 {
        law_cached_read_is_image_data(
            final(raw)@,
            final(bitmap)@,
            image,
            off as int,
            off + n,
        );
    }
}

/// A range is cut off at the end of the image and nowhere else, and is refused where it has none of
/// its bytes to start with.
pub proof fn law_range_is_cut_at_the_end(
    off: usize,
    want: usize,
    size: usize,
    r: Result<(usize, usize), CacheError>,
    p: int,
)
    requires
        call_ensures(fix_range, (off, want, size), r),
    ensures
        r is Err <==> off >= size,
        r matches Ok((start, end)) ==> (start <= p < end <==> off <= p < off + want && p < size),
{
}

proof fn lemma_passed_chunk_is_cached(
    c: &mut FetchCursor,
    bitmap: &[u8],
    f: &mut InFlight,
    action: FetchAction,
    j: int,
)
    requires
        old(c).wf(),
        !old(c).fetching(),
        old(c).stop() <= bitmap@.len() * 8,
        call_ensures(FetchCursor::next_action, (c, bitmap, f), action),
        old(c).next() <= j < final(c).next(),
    ensures
        cached(bitmap@, j),
{
    assert(call_requires(FetchCursor::next_action, (c, bitmap, f)));
}

/// Readers that share a cache fetch each chunk once at a time: a chunk that one of them is to fetch
/// is one of the range that the cache does not hold and nobody is fetching, it is asked for with
/// all bytes that the image has of it, and until it came or failed another reader waits for it.
/// Once it is there, nobody asks for it again.
pub proof fn law_chunk_is_fetched_by_one_reader(
    c0: &mut FetchCursor,
    bitmap: &[u8],
    f0: &mut InFlight,
    idx: usize,
    start: usize,
    end: usize,
    c1: &mut FetchCursor,
    f1: &mut InFlight,
    other: FetchAction,
    p: int,
    j: int,
)
    requires
        old(c0).wf(),
        !old(c0).fetching(),
        old(c0).stop() <= bitmap@.len() * 8,
        old(c0).size() <= usize::MAX,
        call_ensures(
            FetchCursor::next_action,
            (c0, bitmap, f0),
            FetchAction::Fetch { idx, start, end },
        ),
        old(c1).wf(),
        !old(c1).fetching(),
        old(c1).stop() <= bitmap@.len() * 8,
        *old(f1) == *final(f0),
        call_ensures(FetchCursor::next_action, (c1, bitmap, f1), other),
        0 <= p,
    ensures
        old(c0).next() <= idx < old(c0).stop(),
        !cached(bitmap@, idx as int),
        !old(f0).chunks().contains(idx),
        start <= p < end <==> p < old(c0).size() && p / (CHUNK_SIZE as int) == idx,
        other != (FetchAction::Fetch { idx, start, end }),
        other matches FetchAction::Fetch { idx: x, .. } ==> x != idx,
        other matches FetchAction::Wait(x) ==> !cached(bitmap@, x as int) && (x == idx || old(
            f0,
        ).chunks().contains(x)),
        other is Done && old(c1).next() <= j < old(c1).stop() ==> cached(bitmap@, j),
{
    assert(call_requires(FetchCursor::next_action, (c0, bitmap, f0)));
    assert(call_requires(FetchCursor::next_action, (c1, bitmap, f1)));
    if other is Done && old(c1).next() <= j < old(c1).stop() {
        lemma_passed_chunk_is_cached(c1, bitmap, f1, other, j);
    }
}

/// A reader goes through the chunks that its range touches, and no other.
pub proof fn law_reader_goes_through_its_range(
    off: usize,
    len: usize,
    size: usize,
    c: FetchCursor,
    j: int,
)
    requires
        off + len <= size,
        call_ensures(FetchCursor::new, (off, len, size), c),
        0 <= j,
    ensures
        c.next() <= j < c.stop() <==> exists|p: int|
            off <= p < off + len && #[trigger] (p / (CHUNK_SIZE as int)) == j,
        !c.fetching(),
        c.size() == size,
{
    let unit = CHUNK_SIZE as int;
    if c.next() <= j < c.stop() {
        let p = if j * unit < off {
            off as int
        } else {
            j * unit
        };
        assert(p / unit == j);
        assert(off <= p < off + len);
    }
    if exists|p: int| off <= p < off + len && #[trigger] (p / unit) == j {
        let p = choose|p: int| off <= p < off + len && #[trigger] (p / unit) == j;
        assert(off as int / unit <= p / unit <= (off + len - 1) / unit);
    }
}

/// Once a chunk was fetched it is in the cache and nobody fetches it; where it failed, nobody
/// fetches it either, and it is the next one to be asked for.
pub proof fn law_fetched_chunk_is_there(
    c0: &mut FetchCursor,
    before: &[u8],
    f0: &mut InFlight,
    idx: usize,
    start: usize,
    end: usize,
    c1: &mut FetchCursor,
    bitmap: &mut [u8],
    f1: &mut InFlight,
    c2: &mut FetchCursor,
    f2: &mut InFlight,
    c3: &mut FetchCursor,
    f3: &mut InFlight,
    again: FetchAction,
)
    requires
        old(c0).wf(),
        !old(c0).fetching(),
        old(c0).stop() <= before@.len() * 8,
        call_ensures(
            FetchCursor::next_action,
            (c0, before, f0),
            FetchAction::Fetch { idx, start, end },
        ),
        *old(c1) == *final(c0),
        old(bitmap)@ == before@,
        *old(f1) == *final(f0),
        call_ensures(FetchCursor::fetched, (c1, bitmap, f1), ()),
        *old(c2) == *final(c0),
        *old(f2) == *final(f0),
        call_ensures(FetchCursor::failed, (c2, f2), ()),
        *old(c3) == *final(c2),
        *old(f3) == *final(f2),
        call_ensures(FetchCursor::next_action, (c3, before, f3), again),
    ensures
        cached(final(bitmap)@, idx as int),
        !final(f1).chunks().contains(idx),
        final(f1).chunks() == old(f0).chunks(),
        final(c1).next() == idx + 1,
        final(f2).chunks() == old(f0).chunks(),
        again == (FetchAction::Fetch { idx, start, end }),
{
    assert(call_requires(FetchCursor::next_action, (c0, before, f0)));
    assert(call_requires(FetchCursor::fetched, (c1, bitmap, f1)));
    assert(call_requires(FetchCursor::failed, (c2, f2)));
    assert(call_requires(FetchCursor::next_action, (c3, before, f3)));
    assert(old(f0).chunks().insert(idx).remove(idx) =~= old(f0).chunks());
    assert(cached(final(bitmap)@, idx as int));
    if final(c3).next() > idx {
        lemma_passed_chunk_is_cached(c3, before, f3, again, idx as int);
    }
}

/// A chunk that is dropped is not in the cache any more and is fetched anew when it is wanted, and
/// what is given back are its bytes. Every other chunk stays. Nothing happens where the cache does
/// not hold it.
pub proof fn law_dropped_chunk_is_gone(
    bitmap: &mut [u8],
    chunk_id: usize,
    size: u64,
    r: Option<(usize, usize)>,
    j: int,
)
    requires
        chunk_id * CHUNK_SIZE <= usize::MAX,
        size <= usize::MAX,
        size <= old(bitmap)@.len() * 8 * CHUNK_SIZE,
        call_ensures(invalidate_chunk, (bitmap, chunk_id, size), r),
        0 <= j < old(bitmap)@.len() * 8,
    ensures
        chunk_id * CHUNK_SIZE < size ==> !cached(final(bitmap)@, chunk_id as int),
        j != chunk_id ==> cached(final(bitmap)@, j) == cached(old(bitmap)@, j),
        r is Some <==> chunk_id * CHUNK_SIZE < size && cached(old(bitmap)@, chunk_id as int),
        r matches Some((start, len)) ==> start == chunk_id * CHUNK_SIZE && len == CHUNK_SIZE,
{
    assert(call_requires(invalidate_chunk, (bitmap, chunk_id, size)));
    if r is Some {
        assert(cached(final(bitmap)@, chunk_id as int) == (cached(
            old(bitmap)@,
            chunk_id as int,
        ) && chunk_id != chunk_id));
        assert(cached(final(bitmap)@, j) == (cached(old(bitmap)@, j) && j != chunk_id));
    }
}

/// The bitmap file has a bit for every chunk of the image, and beyond a page no byte more than that
/// takes.
pub proof fn law_bitmap_file_fits_the_image(size: u64, page_size: u64, r: u64, p: int)
    requires
        size + CHUNK_SIZE - 1 <= u64::MAX,
        call_ensures(bitmap_file_size, (size, page_size), r),
        0 <= p < size,
    ensures
        p / (CHUNK_SIZE as int) < r * 8,
        r >= page_size,
        r > page_size ==> (r - 1) * 8 * CHUNK_SIZE < size,
{
    assert(call_requires(bitmap_file_size, (size, page_size)));
    law_bitmap_holds_every_chunk(size as int, p);
    let chunks = spec_align_up(size as int, CHUNK_SIZE as int) / CHUNK_SIZE as int;
    assert(spec_align_up(size as int, CHUNK_SIZE as int) == (size + CHUNK_SIZE - 1)
        / CHUNK_SIZE as int * CHUNK_SIZE);
    assert(spec_align_up(chunks, 8) == (chunks + 7) / 8 * 8);
}

/// Who asks first for a chunk that is being fetched by nobody fetches it; until it is removed
/// everybody else who asks for it waits, and after that the next one fetches it.
pub proof fn law_one_fetches_the_others_wait(
    f0: &mut InFlight,
    idx: usize,
    first: bool,
    f1: &mut InFlight,
    second: bool,
    f2: &mut InFlight,
    f3: &mut InFlight,
    third: bool,
)
    requires
        !old(f0).chunks().contains(idx),
        call_ensures(InFlight::register_or_wait, (f0, idx), first),
        *old(f1) == *final(f0),
        call_ensures(InFlight::register_or_wait, (f1, idx), second),
        *old(f2) == *final(f1),
        call_ensures(InFlight::remove, (f2, idx), ()),
        *old(f3) == *final(f2),
        call_ensures(InFlight::register_or_wait, (f3, idx), third),
    ensures
        !first,
        second,
        !third,
        final(f2).chunks() == old(f0).chunks(),
{
    assert(final(f2).chunks() =~= old(f0).chunks());
}

/// Bringing a range into the cache that succeeds has each of its bytes there as the image has them,
/// and changes none that was there.
pub proof fn law_fetched_range_is_image_data<B: Backend>(
    b: &B,
    image: Seq<u8>,
    raw: &mut [u8],
    bitmap: &mut [u8],
    off: usize,
    len: usize,
    p: int,
)
    requires
        gives_image(*b, image),
        b.spec_size() == old(raw)@.len(),
        off + len <= old(raw)@.len() <= usize::MAX,
        old(raw)@.len() <= old(bitmap)@.len() * 8 * CHUNK_SIZE,
        cache_agrees(old(raw)@, old(bitmap)@, image),
        call_ensures(fetch_data::<B>, (b, raw, bitmap, off, len), Ok(())),
        off <= p < off + len,
    ensures
        cached(final(bitmap)@, p / (CHUNK_SIZE as int)),
        final(raw)@[p] == image[p],
        cache_agrees(final(raw)@, final(bitmap)@, image),
{
    assert(call_requires(fetch_data::<B>, (b, raw, bitmap, off, len)));
    law_reading_keeps_agreement(
        *b,
        image,
        old(raw)@,
        old(bitmap)@,
        final(raw)@,
        final(bitmap)@,
    );
    let unit = CHUNK_SIZE as int;
    assert(off as int / unit <= p / unit <= (off + len - 1) / unit);
    assert(range_cached(final(bitmap)@, off as int, off + len));
    assert(cached(final(bitmap)@, p / unit));
}

} // verus!
