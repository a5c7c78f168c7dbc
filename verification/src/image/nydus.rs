//! An image of many files, in chunks that may be compressed.

use crate::backend::Backend;
use crate::checksum::CheckSum;
use crate::error::{Error, ErrorKind};
use crate::image::{Refusal, ROOT_ID};
use crate::utils::RateLimitedLog;
use vstd::prelude::*;

verus! {

/// At most this many chunks wait to be stored.
pub const CHUNK_STORE_REQ_BUF_SIZE: usize = 4096;

/// At most this many chunks are stored at a time.
pub const CHUNK_STORE_BATCH_SIZE: usize = 64;

/// What the image's metadata says of a chunk.
#[derive(Debug, Clone, Copy, Eq, PartialEq, Structural)]
pub struct ChunkDesc {
    pub encrypted: bool,
    pub batch: bool,
    pub compressed: bool,
    pub compressed_offset: u64,
    pub compressed_size: u32,
    pub uncompressed_size: u32,
}

/// How the data of a chunk is come by.
#[derive(Debug, Clone, Copy, Eq, PartialEq, Structural)]
pub enum ChunkPlan {
    /// It is this many zeros, and nothing is read.
    Zeros(usize),
    /// It is read from the blob.
    Read { offset: u64, size: usize },
}

/// Decides how the data of a chunk is come by. A chunk that is encrypted or lies in a batch
/// cannot be read.
pub fn plan_chunk(chunk: &ChunkDesc) -> (r: Result<ChunkPlan, Error>)
    ensures
        match r {
            Ok(plan) => {
                &&& !chunk.encrypted
                &&& !chunk.batch
                &&& plan == if chunk.uncompressed_size == 0 || chunk.compressed_size == 0 {
                    ChunkPlan::Zeros(chunk.uncompressed_size as usize)
                } else {
                    ChunkPlan::Read {
                        offset: chunk.compressed_offset,
                        size: chunk.compressed_size as usize,
                    }
                }
            },
            Err(e) => {
                &&& chunk.encrypted || chunk.batch
                &&& e.kind == ErrorKind::Unsupported
                &&& e.message@ == if chunk.encrypted {
                    "encrypted chunk is not supported"@
                } else {
                    "batch chunk is not supported"@
                }
            },
        },
{
    if chunk.encrypted {
        return Err(Error::new(ErrorKind::Unsupported, "encrypted chunk is not supported"));
    }
    if chunk.batch {
        return Err(Error::new(ErrorKind::Unsupported, "batch chunk is not supported"));
    }
    if chunk.uncompressed_size == 0 || chunk.compressed_size == 0 {
        return Ok(ChunkPlan::Zeros(chunk.uncompressed_size as usize));
    }
    Ok(
        ChunkPlan::Read {
            offset: chunk.compressed_offset,
            size: chunk.compressed_size as usize,
        },
    )
}

/// Whether what a source reports as read are the bytes of `image`.
pub open spec fn gives_prefix<B: Backend>(b: B, image: Seq<u8>) -> bool {
    forall|off: usize, before: Seq<u8>, after: Seq<u8>, n: usize| #[trigger]
        b.can_read(off, before, after, n) && 0 < n <= before.len() ==> {
            &&& off + n <= image.len()
            &&& after.take(n as int) == image.subrange(off as int, off + n)
        }
}

/// Whether reading `size` bytes of a blob from `offset` on ends with `e` when `got` of them were
/// read: the source fails, or it gives nothing more.
pub open spec fn read_stops<B: Backend>(
    b: B,
    offset: u64,
    size: usize,
    got: usize,
    before: Seq<u8>,
    after: Seq<u8>,
    e: Error,
) -> bool {
    let at = (offset + got) as usize;
    &&& got < size
    &&& before.len() == size - got
    &&& b.can_fail(at, before, after, e) || {
        &&& b.can_read(at, before, after, 0)
        &&& e.kind == ErrorKind::UnexpectedEof
        &&& e.message@ == "short read"@
    }
}

/// Whether `buf` holds the `size` bytes from `offset` on of whatever image a source gives.
pub open spec fn bytes_of_blob<B: Backend>(b: B, offset: u64, size: usize, buf: Seq<u8>) -> bool {
    forall|image: Seq<u8>| #[trigger]
        gives_prefix(b, image) && size > 0 ==> offset + size <= image.len() && buf
            == image.subrange(offset as int, offset + size)
}

/// Reads `size` bytes of a blob from `offset` on, in as many reads as it takes.
pub fn read_blob_range<B: Backend>(reader: &B, offset: u64, size: usize) -> (r: Result<
    Vec<u8>,
    Error,
>)
    requires
        offset + size <= usize::MAX,
    ensures
        match r {
            Ok(buf) => {
                &&& buf@.len() == size
                &&& forall|image: Seq<u8>| #[trigger]
                    gives_prefix(*reader, image) && size > 0 ==> offset + size <= image.len()
                        && buf@ == image.subrange(offset as int, offset + size)
                &&& bytes_of_blob(*reader, offset, size, buf@)
            },
            Err(e) => exists|got: usize, before: Seq<u8>, after: Seq<u8>|
                #[trigger] read_stops(*reader, offset, size, got, before, after, e),
        },
{
    let mut buf: Vec<u8> = vec![0u8; size];
    let base: usize = offset as usize;
    let mut read: usize = 0;
    while read < size
        invariant
            base == offset,
            base + size <= usize::MAX,
            read <= size,
            buf@.len() == size,
            forall|image: Seq<u8>| #[trigger]
                gives_prefix(*reader, image) && read > 0 ==> offset + read <= image.len()
                    && buf@.take(read as int) == image.subrange(offset as int, offset + read),
        decreases size - read,
    {
        let ghost before = buf@;
        let (n, ghost_after) = match fetch_tail(reader, base + read, &mut buf, read) {
            Ok(n) => (n, Ghost(buf@)),
            Err(e) => {
                assert(read_stops(
                    *reader,
                    offset,
                    size,
                    read,
                    before.skip(read as int),
                    buf@.skip(read as int),
                    e,
                ));
                return Err(e);
            },
        };
        if n == 0 {
            let e: Error = Error::new(ErrorKind::UnexpectedEof, "short read");
            assert(read_stops(
                *reader,
                offset,
                size,
                read,
                before.skip(read as int),
                buf@.skip(read as int),
                e,
            ));
            return Err(e);
        }
        proof {
            let after = ghost_after@;
            assert forall|image: Seq<u8>| #[trigger] gives_prefix(*reader, image) implies offset
                + read + n <= image.len() && buf@.take(read + n) == image.subrange(
                offset as int,
                offset + read + n,
            ) by {
                assert(after.skip(read as int).take(n as int) == image.subrange(
                    offset + read,
                    offset + read + n,
                ));
                assert(after.take(read as int) =~= before.take(read as int));
                assert(after.take(read + n) =~= after.take(read as int) + after.skip(
                    read as int,
                ).take(n as int));
                if read > 0 {
                    assert(image.subrange(offset as int, offset + read + n) =~= image.subrange(
                        offset as int,
                        offset + read,
                    ) + image.subrange(offset + read, offset + read + n));
                } else {
                    assert(after.take(0) =~= Seq::<u8>::empty());
                    assert(after.take(n as int) =~= after.skip(0).take(n as int));
                }
            }
        }
        read = read + n;
    }
    assert(buf@.take(size as int) =~= buf@);
    Ok(buf)
}

/// Reads from `off` on into the part of a buffer behind `at`.
fn fetch_tail<B: Backend>(reader: &B, off: usize, buf: &mut Vec<u8>, at: usize) -> (r: Result<
    usize,
    Error,
>)
    requires
        at <= old(buf)@.len(),
    ensures
        final(buf)@.len() == old(buf)@.len(),
        final(buf)@.take(at as int) == old(buf)@.take(at as int),
        ({
            let before = old(buf)@.skip(at as int);
            let after = final(buf)@.skip(at as int);
            match r {
                Ok(n) => n <= before.len() && reader.can_read(off, before, after, n),
                Err(e) => reader.can_fail(off, before, after, e),
            }
        }),
{
    let ghost before = buf@;
    let all: &mut [u8] = buf.as_mut_slice();
    let (_head, tail) = all.split_at_mut(at);
    assert(tail@ =~= before.skip(at as int));
    let r: Result<usize, Error> = reader.fetch(off, tail);
    let ghost after = tail@;
    assert(buf@.skip(at as int) =~= after);
    assert(buf@.take(at as int) =~= before.take(at as int));
    r
}

/// How the data of a chunk comes of what was read of its blob.
#[derive(Debug, Clone, Copy, Eq, PartialEq, Structural)]
pub enum ChunkDecode {
    /// It is the front of what was read.
    Plain,
    /// What was read is decompressed into this many bytes.
    Decompress(usize),
}

/// How the data of a chunk comes of what was read of its blob.
pub fn chunk_decode(chunk: &ChunkDesc) -> (r: ChunkDecode)
    ensures
        r == if chunk.compressed {
            ChunkDecode::Decompress(chunk.uncompressed_size as usize)
        } else {
            ChunkDecode::Plain
        },
{
    if chunk.compressed {
        ChunkDecode::Decompress(chunk.uncompressed_size as usize)
    } else {
        ChunkDecode::Plain
    }
}

/// The data of a chunk that is not compressed, from what was read of the blob.
pub fn plain_data(read: Vec<u8>, uncompressed_size: usize) -> (r: Result<Vec<u8>, Error>)
    ensures
        match r {
            Ok(data) => {
                &&& read@.len() >= uncompressed_size
                &&& data@ == read@.take(uncompressed_size as int)
            },
            Err(e) => {
                &&& read@.len() < uncompressed_size
                &&& e.kind == ErrorKind::InvalidData
                &&& e.message@ == "compressed data is shorter than expected"@
            },
        },
{
    let mut data: Vec<u8> = read;
    if data.len() < uncompressed_size {
        return Err(
            Error::new(ErrorKind::InvalidData, "compressed data is shorter than expected"),
        );
    }
    data.truncate(uncompressed_size);
    Ok(data)
}

/// The data of a chunk that was decompressed into a buffer: what was filled of it, or why it
/// failed.
pub fn decompressed_data(buf: Vec<u8>, result: Result<usize, String>) -> (r: Result<
    Vec<u8>,
    Error,
>)
    ensures
        match result {
            Ok(n) => {
                &&& r is Ok
                &&& r->Ok_0@ == if n < buf@.len() {
                    buf@.take(n as int)
                } else {
                    buf@
                }
            },
            Err(text) => {
                &&& r is Err
                &&& r->Err_0.kind == ErrorKind::InvalidData
                &&& r->Err_0.message@ == "decompress failed: "@ + text@
            },
        },
{
    match result {
        Ok(n) => {
            let mut data: Vec<u8> = buf;
            if n < data.len() {
                data.truncate(n);
            }
            Ok(data)
        },
        Err(text) => {
            let mut message: String = "decompress failed: ".to_owned();
            message.append(text.as_str());
            Err(Error { kind: ErrorKind::InvalidData, message })
        },
    }
}

/// Whatever a chunk is made of, its data is as long as the metadata says: zeros of that length, the
/// front of what was read, or what was decompressed into a buffer of that length and filled it. It
/// is read as the range of the blob that the metadata names.
pub proof fn law_chunk_data_has_its_length(
    chunk: &ChunkDesc,
    plan: Result<ChunkPlan, Error>,
    decode: ChunkDecode,
    read: Vec<u8>,
    plain: Result<Vec<u8>, Error>,
    buf: Vec<u8>,
    filled: usize,
    decompressed: Result<Vec<u8>, Error>,
)
    requires
        call_ensures(plan_chunk, (chunk,), plan),
        call_ensures(chunk_decode, (chunk,), decode),
        call_ensures(plain_data, (read, chunk.uncompressed_size as usize), plain),
        call_ensures(decompressed_data, (buf, Ok(filled)), decompressed),
        decode matches ChunkDecode::Decompress(n) ==> buf@.len() == n,
    ensures
        plan is Err <==> chunk.encrypted || chunk.batch,
        plan matches Ok(ChunkPlan::Zeros(n)) ==> n == chunk.uncompressed_size,
        plan matches Ok(ChunkPlan::Read { offset, size }) ==> offset == chunk.compressed_offset
            && size == chunk.compressed_size && size > 0,
        plan is Ok && plan->Ok_0 is Zeros <==> plan is Ok && (chunk.compressed_size == 0
            || chunk.uncompressed_size == 0),
        decode is Plain <==> !chunk.compressed,
        plain matches Ok(data) ==> data@.len() == chunk.uncompressed_size && data@.is_prefix_of(
            read@,
        ),
        plain is Ok <==> read@.len() >= chunk.uncompressed_size,
        decompressed is Ok,
        decompressed->Ok_0@.is_prefix_of(buf@),
        chunk.compressed && filled >= chunk.uncompressed_size ==> decompressed->Ok_0@.len()
            == chunk.uncompressed_size,
        filled < buf@.len() ==> decompressed->Ok_0@.len() == filled,
{
}

/// Why a range cannot be read.
#[derive(Debug)]
pub enum RangeFault {
    /// The range is not one.
    Failed(Error),
    /// The file cannot be read so.
    Refused(Refusal),
}

/// How many bytes of a range lie within a file.
pub fn check_read_range(is_regular: bool, file_size: u64, size: u32, offset: u64) -> (r: Result<
    u64,
    RangeFault,
>)
    ensures
        match r {
            Ok(n) => {
                &&& offset + size <= u64::MAX
                &&& is_regular
                &&& n == if size == 0 || offset >= file_size {
                    0
                } else if size <= file_size - offset {
                    size as int
                } else {
                    file_size - offset
                }
            },
            Err(RangeFault::Failed(e)) => {
                &&& offset + size > u64::MAX
                &&& e.kind == ErrorKind::InvalidInput
                &&& e.message@ == "invalid range"@
            },
            Err(RangeFault::Refused(why)) => {
                &&& offset + size <= u64::MAX
                &&& !is_regular
                &&& why == Refusal::IsDirectory
            },
        },
{
    if offset.checked_add(size as u64).is_none() {
        return Err(RangeFault::Failed(Error::new(ErrorKind::InvalidInput, "invalid range")));
    }
    if !is_regular {
        return Err(RangeFault::Refused(Refusal::IsDirectory));
    }
    if size == 0 || offset >= file_size {
        return Ok(0);
    }
    let left: u64 = file_size - offset;
    if size as u64 <= left {
        Ok(size as u64)
    } else {
        Ok(left)
    }
}

/// A read of a file, chunk by chunk.
#[derive(Debug)]
pub struct FileRead {
    offset: u64,
    chunk_size: u64,
    next: u64,
    last: u64,
    remaining: usize,
    total: usize,
}

impl FileRead {
    /// Where in the file the read starts.
    pub closed spec fn offset(self) -> int {
        self.offset as int
    }

    /// The number of bytes in a chunk.
    pub closed spec fn chunk_size(self) -> int {
        self.chunk_size as int
    }

    /// The chunk that comes next.
    pub closed spec fn next(self) -> int {
        self.next as int
    }

    /// The last chunk of the range.
    pub closed spec fn last(self) -> int {
        self.last as int
    }

    /// How many bytes are still to be read.
    pub closed spec fn remaining(self) -> int {
        self.remaining as int
    }

    /// How many bytes were read.
    pub closed spec fn spec_total(self) -> int {
        self.total as int
    }

    /// The chunks cover the range.
    pub open spec fn wf(self) -> bool {
        &&& self.chunk_size() > 0
        &&& 0 <= self.next() <= self.last() + 1
        &&& self.last() * self.chunk_size() < u64::MAX
        &&& self.remaining() + self.spec_total() <= usize::MAX
        &&& self.last() < u64::MAX
    }

    /// A read of `size` bytes from `offset` on.
    pub fn new(offset: u64, size: u64, chunk_size: u64) -> (r: FileRead)
        requires
            0 < size <= usize::MAX,
            offset + size <= u64::MAX,
            chunk_size > 0,
        ensures
            r.wf(),
            r.offset() == offset,
            r.chunk_size() == chunk_size,
            r.next() == offset as int / chunk_size as int,
            r.last() == (offset + size - 1) / chunk_size as int,
            r.remaining() == size,
            r.spec_total() == 0,
    {
        let last: u64 = (offset + size - 1) / chunk_size;
        proof {
            let end = offset + size - 1;
            let c = chunk_size as int;
            vstd::arithmetic::div_mod::lemma_fundamental_div_mod(end, c);
            vstd::arithmetic::div_mod::lemma_mod_bound(end, c);
            vstd::arithmetic::mul::lemma_mul_is_commutative(c, end / c);
            vstd::arithmetic::div_mod::lemma_div_is_ordered(offset as int, end, c);
            vstd::arithmetic::div_mod::lemma_div_nonincreasing(end, c);
        }
        FileRead {
            offset,
            chunk_size,
            next: offset / chunk_size,
            last,
            remaining: size as usize,
            total: 0,
        }
    }

    /// The chunk to read next. There is none where all was read, or the range has no more.
    pub fn next_chunk(&self) -> (r: Option<u64>)
        requires
            self.wf(),
        ensures
            r == if self.next() <= self.last() && self.remaining() > 0 {
                Some(self.next() as u64)
            } else {
                None
            },
    {
        if self.next <= self.last && self.remaining > 0 {
            Some(self.next)
        } else {
            None
        }
    }

    /// Which part of the next chunk is read, given how many bytes it has: where the part
    /// starts, and how long it is.
    pub fn span(&self, uncompressed_size: usize) -> (r: Result<(usize, usize), Error>)
        requires
            self.wf(),
            self.next() <= self.last(),
            self.offset() - self.next() * self.chunk_size() <= usize::MAX,
        ensures
            ({
                let base = self.next() * self.chunk_size();
                let start = if self.offset() > base {
                    self.offset() - base
                } else {
                    0
                };
                match r {
                    Ok((at, n)) => {
                        &&& start < uncompressed_size
                        &&& at == start
                        &&& n == if self.remaining() <= uncompressed_size - start {
                            self.remaining()
                        } else {
                            uncompressed_size - start
                        }
                    },
                    Err(e) => {
                        &&& start >= uncompressed_size
                        &&& e.kind == ErrorKind::InvalidData
                        &&& e.message@ == "invalid chunk offset"@
                    },
                }
            }),
    {
        proof {
            let (n, l, c) = (self.next(), self.last(), self.chunk_size());
            assert(n * c <= l * c) by (nonlinear_arith)
                requires
                    0 <= n <= l,
                    c > 0,
            ;
            assert(0 <= n * c) by (nonlinear_arith)
                requires
                    0 <= n,
                    c > 0,
            ;
        }
        let base: u64 = self.next * self.chunk_size;
        let start: usize = if self.offset > base {
            (self.offset - base) as usize
        } else {
            0
        };
        if start >= uncompressed_size {
            return Err(Error::new(ErrorKind::InvalidData, "invalid chunk offset"));
        }
        let left: usize = uncompressed_size - start;
        if self.remaining <= left {
            Ok((start, self.remaining))
        } else {
            Ok((start, left))
        }
    }

    /// Notes that `n` bytes of the next chunk were handed out.
    pub fn wrote(&mut self, n: usize)
        requires
            old(self).wf(),
            old(self).next() <= old(self).last(),
            n <= old(self).remaining(),
        ensures
            final(self).wf(),
            final(self).offset() == old(self).offset(),
            final(self).chunk_size() == old(self).chunk_size(),
            final(self).last() == old(self).last(),
            final(self).next() == old(self).next() + 1,
            final(self).remaining() == old(self).remaining() - n,
            final(self).spec_total() == old(self).spec_total() + n,
    {
        self.total = self.total + n;
        self.remaining = self.remaining - n;
        self.next = self.next + 1;
    }

    /// How many bytes were read.
    pub fn total(&self) -> (r: usize)
        ensures
            r == self.spec_total(),
    {
        self.total
    }
}

/// Checks that the data of a chunk has the part that is to be read.
pub fn chunk_part(data: &[u8], start: usize, len: usize) -> (r: Result<&[u8], Error>)
    requires
        start + len <= usize::MAX,
    ensures
        match r {
            Ok(part) => {
                &&& start + len <= data@.len()
                &&& part@ == data@.subrange(start as int, start + len)
            },
            Err(e) => {
                &&& start + len > data@.len()
                &&& e.kind == ErrorKind::InvalidData
                &&& e.message@ == "chunk data is shorter than expected"@
            },
        },
{
    let end: usize = start + len;
    if end > data.len() {
        return Err(Error::new(ErrorKind::InvalidData, "chunk data is shorter than expected"));
    }
    Ok(&data[start..end])
}

/// What a read takes out of a chunk.
#[derive(Debug, Clone, Copy, Eq, PartialEq)]
pub struct ChunkReadPlan {
    /// The chunk.
    pub checksum: CheckSum,
    /// Where in the chunk the part starts that is read.
    pub start: usize,
    /// How long the part is.
    pub len: usize,
    /// How many bytes the chunk has.
    pub uncompressed: usize,
}

/// Where the read of a chunk stands.
#[derive(Debug, Clone, Copy, Eq, PartialEq, Structural)]
pub enum ChunkReadStage {
    /// Nothing was done.
    Ready,
    /// The chunk database is asked.
    Asking,
    /// The chunk is read from its blob.
    Reading,
    /// The part is handed out.
    Writing,
    /// This many bytes were handed out, and the chunk is put in line to be stored.
    Storing(usize),
    /// The read ended.
    Finished,
}

/// What the read of a chunk is told.
#[derive(Debug)]
pub enum ChunkReadEvent {
    /// It may start.
    Start,
    /// The chunk database handed out this many bytes of the part.
    Hit(usize),
    /// The chunk database does not have the chunk.
    Miss,
    /// The chunk database failed.
    DatabaseError,
    /// The data of the chunk, from its blob.
    Data(Vec<u8>),
    /// This many bytes of the part were handed out.
    Wrote(usize),
    /// The chunk is in line to be stored, or there was no room for it.
    Queued,
    /// What was asked for failed.
    Failed(Error),
}

/// What the read of a chunk asks for next.
#[derive(Debug)]
pub enum ChunkReadAction {
    /// Hand out `len` bytes of the chunk from `start` on, where the chunk database has it.
    AskDatabase { checksum: CheckSum, start: usize, len: usize },
    /// Read the data of the chunk from its blob.
    ReadBlob,
    /// Hand out the part, which [`ChunkReadTask::part`] gives.
    WritePart,
    /// Put the chunk in line to be stored.
    Store { checksum: CheckSum, data: Vec<u8> },
    /// Nothing: this many bytes were handed out.
    Finish(usize),
    /// Nothing: the read failed.
    Fail(Error),
}

/// Whether the data of a chunk has the part that is read.
pub open spec fn has_part(plan: ChunkReadPlan, data: Seq<u8>) -> bool {
    plan.start + plan.len <= data.len()
}

/// The rule of the read of a chunk: what it asks for next, where it then stands, and what data of
/// the chunk it holds.
pub open spec fn chunk_read_rule(
    plan: ChunkReadPlan,
    stage: ChunkReadStage,
    data: Seq<u8>,
    event: ChunkReadEvent,
    next: ChunkReadStage,
    next_data: Seq<u8>,
    action: ChunkReadAction,
) -> bool {
    match (stage, event) {
        (ChunkReadStage::Ready, ChunkReadEvent::Start) => {
            &&& next == ChunkReadStage::Asking
            &&& next_data == data
            &&& action == (ChunkReadAction::AskDatabase {
                checksum: plan.checksum,
                start: plan.start,
                len: plan.len,
            })
        },
        (ChunkReadStage::Asking, ChunkReadEvent::Hit(n)) => {
            &&& next == ChunkReadStage::Finished
            &&& next_data == data
            &&& action == ChunkReadAction::Finish(n)
        },
        (ChunkReadStage::Asking, ChunkReadEvent::Miss) | (
            ChunkReadStage::Asking,
            ChunkReadEvent::DatabaseError,
        ) => {
            &&& next == ChunkReadStage::Reading
            &&& next_data == data
            &&& action is ReadBlob
        },
        (ChunkReadStage::Reading, ChunkReadEvent::Data(read)) => if has_part(plan, read@) {
            &&& next == ChunkReadStage::Writing
            &&& next_data == read@
            &&& action is WritePart
        } else {
            &&& next == ChunkReadStage::Finished
            &&& next_data == data
            &&& action matches ChunkReadAction::Fail(e)
            &&& e.kind == ErrorKind::InvalidData
            &&& e.message@ == "chunk data is shorter than expected"@
        },
        (ChunkReadStage::Writing, ChunkReadEvent::Wrote(n)) => if data.len()
            == plan.uncompressed {
            &&& next == ChunkReadStage::Storing(n)
            &&& next_data == Seq::<u8>::empty()
            &&& action matches ChunkReadAction::Store { checksum, data: stored }
            &&& checksum == plan.checksum
            &&& stored@ == data
        } else {
            &&& next == ChunkReadStage::Finished
            &&& next_data == data
            &&& action == ChunkReadAction::Finish(n)
        },
        (ChunkReadStage::Storing(n), ChunkReadEvent::Queued) => {
            &&& next == ChunkReadStage::Finished
            &&& next_data == data
            &&& action == ChunkReadAction::Finish(n)
        },
        (ChunkReadStage::Reading, ChunkReadEvent::Failed(e)) | (
            ChunkReadStage::Writing,
            ChunkReadEvent::Failed(e),
        ) => {
            &&& next == ChunkReadStage::Finished
            &&& next_data == data
            &&& action == ChunkReadAction::Fail(e)
        },
        _ => {
            &&& next == ChunkReadStage::Finished
            &&& next_data == data
            &&& action matches ChunkReadAction::Fail(e)
            &&& e.kind == ErrorKind::Other
            &&& e.message@ == "unexpected event in chunk read"@
        },
    }
}

/// The read of a part of a chunk: the chunk database is tried first; where it does not have the
/// chunk or fails, the chunk is read from its blob, and stored when it is complete.
#[derive(Debug)]
pub struct ChunkReadTask {
    plan: ChunkReadPlan,
    stage: ChunkReadStage,
    data: Vec<u8>,
}

impl ChunkReadTask {
    /// What is read.
    pub closed spec fn plan(self) -> ChunkReadPlan {
        self.plan
    }

    /// Where the read stands.
    pub closed spec fn stage(self) -> ChunkReadStage {
        self.stage
    }

    /// The data of the chunk that the read holds.
    pub closed spec fn data(self) -> Seq<u8> {
        self.data@
    }

    /// The part lies within the chunk, and within what is handed out.
    pub open spec fn wf(self) -> bool {
        &&& self.plan().start + self.plan().len <= self.plan().uncompressed
        &&& self.stage() is Writing ==> has_part(self.plan(), self.data())
    }

    /// A read that has not started.
    pub fn new(plan: ChunkReadPlan) -> (r: ChunkReadTask)
        requires
            plan.start + plan.len <= plan.uncompressed,
        ensures
            r.wf(),
            r.plan() == plan,
            r.stage() == ChunkReadStage::Ready,
            r.data() == Seq::<u8>::empty(),
    {
        ChunkReadTask { plan, stage: ChunkReadStage::Ready, data: Vec::new() }
    }

    /// The part of the chunk that is to be handed out.
    pub fn part(&self) -> (r: &[u8])
        requires
            self.wf(),
            self.stage() is Writing,
        ensures
            r@ == self.data().subrange(
                self.plan().start as int,
                self.plan().start + self.plan().len,
            ),
    {
        &self.data.as_slice()[self.plan.start..self.plan.start + self.plan.len]
    }

    /// Takes what happened, and returns what to do next. An event that was not asked for ends
    /// the read.
    pub fn on_event(&mut self, event: ChunkReadEvent) -> (r: ChunkReadAction)
        requires
            old(self).wf(),
        ensures
            final(self).wf(),
            final(self).plan() == old(self).plan(),
            chunk_read_rule(
                old(self).plan(),
                old(self).stage(),
                old(self).data(),
                event,
                final(self).stage(),
                final(self).data(),
                r,
            ),
    {
        let plan: ChunkReadPlan = self.plan;
        match (self.stage, event) {
            (ChunkReadStage::Ready, ChunkReadEvent::Start) => {
                self.stage = ChunkReadStage::Asking;
                ChunkReadAction::AskDatabase {
                    checksum: plan.checksum,
                    start: plan.start,
                    len: plan.len,
                }
            },
            (ChunkReadStage::Asking, ChunkReadEvent::Hit(n)) => {
                self.stage = ChunkReadStage::Finished;
                ChunkReadAction::Finish(n)
            },
            (ChunkReadStage::Asking, ChunkReadEvent::Miss) => {
                self.stage = ChunkReadStage::Reading;
                ChunkReadAction::ReadBlob
            },
            (ChunkReadStage::Asking, ChunkReadEvent::DatabaseError) => {
                self.stage = ChunkReadStage::Reading;
                ChunkReadAction::ReadBlob
            },
            (ChunkReadStage::Reading, ChunkReadEvent::Data(read)) => {
                match chunk_part(read.as_slice(), plan.start, plan.len) {
                    Ok(_) => {},
                    Err(e) => {
                        self.stage = ChunkReadStage::Finished;
                        return ChunkReadAction::Fail(e);
                    },
                }
                self.stage = ChunkReadStage::Writing;
                self.data = read;
                ChunkReadAction::WritePart
            },
            (ChunkReadStage::Writing, ChunkReadEvent::Wrote(n)) => {
                if self.data.len() == plan.uncompressed {
                    self.stage = ChunkReadStage::Storing(n);
                    let mut data: Vec<u8> = Vec::new();
                    std::mem::swap(&mut data, &mut self.data);
                    ChunkReadAction::Store { checksum: plan.checksum, data }
                } else {
                    self.stage = ChunkReadStage::Finished;
                    ChunkReadAction::Finish(n)
                }
            },
            (ChunkReadStage::Storing(n), ChunkReadEvent::Queued) => {
                self.stage = ChunkReadStage::Finished;
                ChunkReadAction::Finish(n)
            },
            (ChunkReadStage::Reading, ChunkReadEvent::Failed(e)) => {
                self.stage = ChunkReadStage::Finished;
                ChunkReadAction::Fail(e)
            },
            (ChunkReadStage::Writing, ChunkReadEvent::Failed(e)) => {
                self.stage = ChunkReadStage::Finished;
                ChunkReadAction::Fail(e)
            },
            _ => {
                self.stage = ChunkReadStage::Finished;
                ChunkReadAction::Fail(
                    Error::new(ErrorKind::Other, "unexpected event in chunk read"),
                )
            },
        }
    }
}

/// The blob of a chunk is read only after the chunk database was asked and did not give the
/// chunk.
pub proof fn law_database_is_tried_first(
    plan: ChunkReadPlan,
    stage: ChunkReadStage,
    data: Seq<u8>,
    event: ChunkReadEvent,
    next: ChunkReadStage,
    next_data: Seq<u8>,
    action: ChunkReadAction,
)
    requires
        chunk_read_rule(plan, stage, data, event, next, next_data, action),
    ensures
        action is ReadBlob <==> stage is Asking && (event is Miss || event is DatabaseError),
        next is Reading ==> action is ReadBlob,
        next is Asking ==> action is AskDatabase,
        stage is Ready && event is Start ==> action is AskDatabase,
{
}

/// A chunk is stored exactly where its blob gave all of it, after the part was handed out, and
/// what is stored is what the blob gave.
pub proof fn law_only_complete_chunks_are_stored(
    plan: ChunkReadPlan,
    stage: ChunkReadStage,
    data: Seq<u8>,
    event: ChunkReadEvent,
    next: ChunkReadStage,
    next_data: Seq<u8>,
    action: ChunkReadAction,
)
    requires
        chunk_read_rule(plan, stage, data, event, next, next_data, action),
    ensures
        action is Store <==> stage is Writing && event is Wrote && data.len() == plan.uncompressed,
        action matches ChunkReadAction::Store { checksum, data: stored } ==> checksum
            == plan.checksum && stored@ == data,
        next is Writing ==> (event matches ChunkReadEvent::Data(read) && next_data == read@),
{
}

/// The chunk database is asked for the very bytes that are handed out of the blob's data where it
/// does not have the chunk: the part of the plan, of the chunk of the plan. Whichever handed them
/// out, the read ends with how many bytes that were; and what the blob gave is put in line to be
/// stored, all of it, where it is a complete chunk.
pub proof fn law_database_and_blob_give_one_part(
    plan: ChunkReadPlan,
    task0: &mut ChunkReadTask,
    ask: ChunkReadAction,
    hit: &mut ChunkReadTask,
    hit_count: usize,
    after_hit: ChunkReadAction,
    task1: &mut ChunkReadTask,
    no_hit: ChunkReadEvent,
    read: ChunkReadAction,
    task2: &mut ChunkReadTask,
    data: Vec<u8>,
    write: ChunkReadAction,
    writing: &ChunkReadTask,
    part: &[u8],
    task3: &mut ChunkReadTask,
    count: usize,
    after_write: ChunkReadAction,
    task4: &mut ChunkReadTask,
    last: ChunkReadAction,
)
    requires
        plan.start + plan.len <= plan.uncompressed,
        call_ensures(ChunkReadTask::new, (plan,), *old(task0)),
        call_ensures(ChunkReadTask::on_event, (task0, ChunkReadEvent::Start), ask),
        *old(hit) == *final(task0),
        call_ensures(ChunkReadTask::on_event, (hit, ChunkReadEvent::Hit(hit_count)), after_hit),
        *old(task1) == *final(task0),
        no_hit is Miss || no_hit is DatabaseError,
        call_ensures(ChunkReadTask::on_event, (task1, no_hit), read),
        *old(task2) == *final(task1),
        call_ensures(ChunkReadTask::on_event, (task2, ChunkReadEvent::Data(data)), write),
        plan.start + plan.len <= data@.len(),
        *writing == *final(task2),
        call_ensures(ChunkReadTask::part, (writing,), part),
        *old(task3) == *final(task2),
        call_ensures(ChunkReadTask::on_event, (task3, ChunkReadEvent::Wrote(count)), after_write),
        *old(task4) == *final(task3),
        call_ensures(ChunkReadTask::on_event, (task4, ChunkReadEvent::Queued), last),
    ensures
        ask is AskDatabase,
        ask->AskDatabase_checksum == plan.checksum,
        ask->start == plan.start,
        ask->len == plan.len,
        after_hit == ChunkReadAction::Finish(hit_count),
        read is ReadBlob,
        write is WritePart,
        part@ == data@.subrange(ask->start as int, ask->start + ask->len),
        data@.len() == plan.uncompressed ==> {
            &&& after_write is Store
            &&& after_write->Store_checksum == plan.checksum
            &&& after_write->data@ == data@
            &&& last == ChunkReadAction::Finish(count)
        },
        data@.len() != plan.uncompressed ==> after_write == ChunkReadAction::Finish(count),
{
}

/// A moment of the read of a chunk: where it stands, what data it holds, what it asks for, and what
/// was handed out.
pub ghost struct ChunkReadMoment {
    pub stage: ChunkReadStage,
    pub data: Seq<u8>,
    pub action: ChunkReadAction,
    pub out: Seq<u8>,
}

/// Whether a caller does what the read of a chunk asks for, and says so: what is handed out are
/// bytes that the action names, as many as there is room for. The blob gives bytes of the chunk
/// from its front on, all of them or fewer.
pub open spec fn chunk_read_done(
    plan: ChunkReadPlan,
    chunks: Map<CheckSum, Seq<u8>>,
    m: ChunkReadMoment,
    event: ChunkReadEvent,
    after: Seq<u8>,
) -> bool {
    match (m.action, event) {
        (ChunkReadAction::AskDatabase { checksum, start, len }, ChunkReadEvent::Hit(n)) => {
            &&& n <= len
            &&& chunks.contains_key(checksum)
            &&& start + n <= chunks[checksum].len()
            &&& after == m.out + chunks[checksum].subrange(start as int, start + n)
        },
        (ChunkReadAction::AskDatabase { .. }, ChunkReadEvent::Miss) => after == m.out,
        (ChunkReadAction::AskDatabase { .. }, ChunkReadEvent::DatabaseError) => after == m.out,
        (ChunkReadAction::ReadBlob, ChunkReadEvent::Data(read)) => {
            &&& after == m.out
            &&& chunks.contains_key(plan.checksum)
            &&& read@.len() <= chunks[plan.checksum].len()
            &&& read@ == chunks[plan.checksum].take(read@.len() as int)
        },
        (ChunkReadAction::ReadBlob, ChunkReadEvent::Failed(_)) => after == m.out,
        (ChunkReadAction::WritePart, ChunkReadEvent::Wrote(n)) => {
            let part = m.data.subrange(plan.start as int, plan.start + plan.len);
            &&& n <= part.len()
            &&& after == m.out + part.take(n as int)
        },
        (ChunkReadAction::WritePart, ChunkReadEvent::Failed(_)) => after == m.out,
        (ChunkReadAction::Store { .. }, ChunkReadEvent::Queued) => after == m.out,
        _ => false,
    }
}

/// Whether `run` are the moments of the read of a chunk from its start on, with `events` between
/// them.
pub open spec fn chunk_read_run(
    plan: ChunkReadPlan,
    chunks: Map<CheckSum, Seq<u8>>,
    run: Seq<ChunkReadMoment>,
    events: Seq<ChunkReadEvent>,
) -> bool {
    &&& run.len() == events.len() + 1
    &&& chunk_read_rule(
        plan,
        ChunkReadStage::Ready,
        Seq::empty(),
        ChunkReadEvent::Start,
        run[0].stage,
        run[0].data,
        run[0].action,
    )
    &&& run[0].out == Seq::<u8>::empty()
    &&& forall|k: int|
        0 <= k < events.len() ==> {
            let (m, n) = (run[k], run[k + 1]);
            &&& chunk_read_done(plan, chunks, m, #[trigger] events[k], n.out)
            &&& chunk_read_rule(
                plan,
                m.stage,
                m.data,
                events[k],
                n.stage,
                n.data,
                n.action,
            )
        }
}

/// What holds of a moment of the read of a chunk.
spec fn chunk_moment_holds(
    plan: ChunkReadPlan,
    chunk: Seq<u8>,
    run: Seq<ChunkReadMoment>,
    events: Seq<ChunkReadEvent>,
    k: int,
) -> bool {
    let m = run[k];
    match m.action {
        ChunkReadAction::AskDatabase { checksum, start, len } => {
            &&& m.stage is Asking
            &&& m.out.len() == 0
            &&& checksum == plan.checksum
            &&& start == plan.start
            &&& len == plan.len
        },
        ChunkReadAction::ReadBlob => m.stage is Reading && m.out.len() == 0,
        ChunkReadAction::WritePart => {
            &&& m.stage is Writing
            &&& m.out.len() == 0
            &&& m.data.len() <= chunk.len()
            &&& m.data == chunk.take(m.data.len() as int)
            &&& plan.start + plan.len <= m.data.len()
        },
        ChunkReadAction::Store { checksum, data } => {
            &&& m.stage == ChunkReadStage::Storing(m.out.len() as usize)
            &&& checksum == plan.checksum
            &&& data@ == chunk
            &&& m.out.len() <= plan.len
            &&& m.out == chunk.subrange(plan.start as int, plan.start + m.out.len())
        },
        ChunkReadAction::Finish(n) => {
            &&& m.stage is Finished
            &&& n == m.out.len()
            &&& n <= plan.len
            &&& m.out == chunk.subrange(plan.start as int, plan.start + n)
        },
        ChunkReadAction::Fail(e) => {
            &&& m.stage is Finished
            &&& m.out.len() == 0
            &&& k > 0
            &&& match events[k - 1] {
                ChunkReadEvent::Failed(why) => e == why,
                ChunkReadEvent::Data(read) => {
                    &&& read@.len() < plan.start + plan.len
                    &&& e.kind == ErrorKind::InvalidData
                },
                _ => false,
            }
        },
    }
}

proof fn lemma_chunk_moments_hold(
    plan: ChunkReadPlan,
    chunks: Map<CheckSum, Seq<u8>>,
    run: Seq<ChunkReadMoment>,
    events: Seq<ChunkReadEvent>,
    k: int,
)
    requires
        plan.start + plan.len <= plan.uncompressed,
        chunks.contains_key(plan.checksum),
        chunks[plan.checksum].len() == plan.uncompressed,
        chunk_read_run(plan, chunks, run, events),
        0 <= k < run.len(),
    ensures
        chunk_moment_holds(plan, chunks[plan.checksum], run, events, k),
    decreases k,
{
    let chunk = chunks[plan.checksum];
    if k > 0 {
        lemma_chunk_moments_hold(plan, chunks, run, events, k - 1);
        let (m, n) = (run[k - 1], run[k]);
        let event = events[k - 1];
        assert(chunk_read_done(plan, chunks, m, event, n.out));
        match (m.action, event) {
            (ChunkReadAction::AskDatabase { .. }, ChunkReadEvent::Hit(count)) => {
                assert(n.out =~= chunk.subrange(plan.start as int, plan.start + count));
            },
            (ChunkReadAction::WritePart, ChunkReadEvent::Wrote(count)) => {
                assert(n.out =~= chunk.subrange(plan.start as int, plan.start + count));
                assert(n.out.len() == count);
                if m.data.len() == plan.uncompressed {
                    assert(m.data =~= chunk);
                }
            },
            _ => {},
        }
    }
}

/// Whether all of the part was handed out, where any of it was.
pub open spec fn handed_out_whole(plan: ChunkReadPlan, event: ChunkReadEvent) -> bool {
    match event {
        ChunkReadEvent::Hit(n) => n == plan.len,
        ChunkReadEvent::Wrote(n) => n == plan.len,
        _ => true,
    }
}

/// The read of a chunk hands out the part that was asked for, wherever it comes from: whoever does
/// what it asks for has handed out, when it ends, the bytes of the chunk from the start of the part
/// on, as many as it reports, and all of them where there was room. It fails only where what it
/// asked for failed or the blob gave too little, and then nothing was handed out. What it puts in
/// line to be stored is the whole chunk, under its checksum.
pub proof fn law_chunk_read_hands_out_the_part(
    plan: ChunkReadPlan,
    chunks: Map<CheckSum, Seq<u8>>,
    run: Seq<ChunkReadMoment>,
    events: Seq<ChunkReadEvent>,
)
    requires
        plan.start + plan.len <= plan.uncompressed,
        chunks.contains_key(plan.checksum),
        chunks[plan.checksum].len() == plan.uncompressed,
        chunk_read_run(plan, chunks, run, events),
    ensures
        match run.last().action {
            ChunkReadAction::Finish(n) => {
                &&& n <= plan.len
                &&& run.last().out == chunks[plan.checksum].subrange(
                    plan.start as int,
                    plan.start + n,
                )
                &&& (forall|k: int|
                    0 <= k < events.len() ==> handed_out_whole(plan, #[trigger] events[k]))
                    ==> n == plan.len
            },
            ChunkReadAction::Fail(e) => {
                &&& run.last().out.len() == 0
                &&& events.len() > 0
                &&& match events.last() {
                    ChunkReadEvent::Failed(why) => e == why,
                    ChunkReadEvent::Data(read) => read@.len() < plan.start + plan.len,
                    _ => false,
                }
            },
            ChunkReadAction::Store { checksum, data } => {
                &&& checksum == plan.checksum
                &&& data@ == chunks[plan.checksum]
            },
            _ => true,
        },
        forall|k: int|
            0 <= k < events.len() ==> ((#[trigger] events[k] is Data && events[k]->Data_0@.len()
                == plan.uncompressed && k + 1 < events.len() && events[k + 1] is Wrote)
                ==> run[k + 2].action is Store),
{
    let k = run.len() - 1;
    let chunk = chunks[plan.checksum];
    lemma_chunk_moments_hold(plan, chunks, run, events, k);
    if run.last().action is Finish && forall|j: int|
        0 <= j < events.len() ==> handed_out_whole(plan, #[trigger] events[j]) {
        assert(k > 0);
        lemma_chunk_moments_hold(plan, chunks, run, events, k - 1);
        assert(chunk_read_done(plan, chunks, run[k - 1], events[k - 1], run[k].out));
        assert(handed_out_whole(plan, events[k - 1]));
        if run[k - 1].action is Store {
            assert(k > 1);
            lemma_chunk_moments_hold(plan, chunks, run, events, k - 2);
            assert(chunk_read_done(plan, chunks, run[k - 2], events[k - 2], run[k - 1].out));
            assert(handed_out_whole(plan, events[k - 2]));
        }
    }
    assert forall|j: int|
        0 <= j < events.len() && #[trigger] events[j] is Data && events[j]->Data_0@.len()
            == plan.uncompressed && j + 1 < events.len() && events[j + 1] is Wrote implies run[j
        + 2].action is Store by {
        lemma_chunk_moments_hold(plan, chunks, run, events, j);
        assert(chunk_read_done(plan, chunks, run[j], events[j], run[j + 1].out));
        assert(chunk_read_done(plan, chunks, run[j + 1], events[j + 1], run[j + 2].out));
    }
}

/// How many bytes chunk `k` of a file has: a full chunk, or what is left of the file.
pub open spec fn chunk_len(file_len: int, chunk_size: int, k: int) -> int {
    if file_len - k * chunk_size < chunk_size {
        file_len - k * chunk_size
    } else {
        chunk_size
    }
}

/// Whether a read of `size` bytes of a file has read the first bytes of its range, as many as it
/// counts, and has the chunk with the byte behind them as its next one.
pub open spec fn on_track(r: FileRead, file_len: int, size: int) -> bool {
    let pos = r.offset() + r.spec_total();
    &&& r.wf()
    &&& 0 <= r.offset()
    &&& 0 <= r.spec_total()
    &&& 0 <= r.remaining()
    &&& r.remaining() + r.spec_total() == size
    &&& 0 < size
    &&& r.offset() + size <= file_len <= u64::MAX
    &&& r.chunk_size() <= usize::MAX
    &&& r.last() == (r.offset() + size - 1) / r.chunk_size()
    &&& r.remaining() > 0 ==> {
        &&& r.next() == pos / r.chunk_size()
        &&& r.spec_total() > 0 ==> pos % r.chunk_size() == 0
    }
}

/// A read of a file starts at its offset, with nothing read.
pub proof fn law_file_read_starts_on_track(
    file_len: int,
    offset: u64,
    size: u64,
    chunk_size: u64,
    r: FileRead,
)
    requires
        0 < size <= usize::MAX,
        offset + size <= file_len <= u64::MAX,
        0 < chunk_size <= usize::MAX,
        call_ensures(FileRead::new, (offset, size, chunk_size), r),
    ensures
        on_track(r, file_len, size as int),
        r.offset() == offset,
        r.spec_total() == 0,
{
}

/// A read of a file goes through it without a gap. As long as all of its range was not read there
/// is a next chunk, and the part of that chunk that is read is not empty, starts at the byte of the
/// file that comes next, and reaches to the end of the chunk or of the range. Once it is handed
/// out, the same holds of what is left. Where there is no next chunk, the whole range was read.
pub proof fn law_file_read_has_no_gap(
    file_len: int,
    size: int,
    at: &FileRead,
    chunk: Option<u64>,
    uncompressed: usize,
    span: Result<(usize, usize), Error>,
    r: &mut FileRead,
    n: usize,
)
    requires
        on_track(*at, file_len, size),
        call_ensures(FileRead::next_chunk, (at,), chunk),
        chunk matches Some(k) ==> {
            &&& uncompressed == chunk_len(file_len, at.chunk_size(), k as int)
            &&& call_ensures(FileRead::span, (at, uncompressed), span)
            &&& span matches Ok((_, len)) ==> {
                &&& n == len
                &&& *old(r) == *at
                &&& call_ensures(FileRead::wrote, (r, n), ())
            }
        },
    ensures
        chunk is None <==> at.spec_total() == size,
        match chunk {
            None => true,
            Some(k) => {
                let base = k * at.chunk_size();
                &&& base < file_len
                &&& span is Ok
                &&& base + span->Ok_0.0 == at.offset() + at.spec_total()
                &&& n > 0
                &&& span->Ok_0.0 + n <= uncompressed
                &&& span->Ok_0.0 + n == uncompressed || at.spec_total() + n == size
                &&& on_track(*final(r), file_len, size)
                &&& final(r).offset() == at.offset()
                &&& final(r).spec_total() == at.spec_total() + n
            },
        },
{
    let c = at.chunk_size();
    let pos = at.offset() + at.spec_total();
    let end = at.offset() + size - 1;
    vstd::arithmetic::div_mod::lemma_fundamental_div_mod(pos, c);
    vstd::arithmetic::div_mod::lemma_mod_bound(pos, c);
    if at.remaining() > 0 {
        vstd::arithmetic::div_mod::lemma_div_is_ordered(pos, end, c);
        vstd::arithmetic::mul::lemma_mul_is_commutative(c, at.next());
        let base = at.next() * c;
        assert(base <= pos < base + c);
        assert(chunk == Some(at.next() as u64));
        let start = span->Ok_0.0;
        assert(base + start == pos);
        assert((at.next() + 1) * c == base + c) by (nonlinear_arith)
            requires
                base == at.next() * c,
        ;
        if n < at.remaining() {
            assert(pos + n == base + c);
            vstd::arithmetic::div_mod::lemma_div_multiples_vanish(at.next() + 1, c);
            vstd::arithmetic::div_mod::lemma_mod_multiples_basic(at.next() + 1, c);
            vstd::arithmetic::mul::lemma_mul_is_commutative(at.next() + 1, c);
        }
    }
}

/// A read goes through the file without a gap: as long as every part was handed out whole and
/// every chunk but the last of the file is full, the part of the next chunk starts where the
/// last part ended, and once it is handed out the same holds of the chunk behind it.
pub proof fn law_parts_follow_each_other(
    offset: int,
    chunk_size: int,
    next: int,
    total: int,
    remaining: int,
    uncompressed: int,
)
    requires
        0 <= offset,
        0 < chunk_size,
        0 < remaining,
        0 <= total,
        next == (offset + total) / chunk_size,
        total == 0 || (offset + total) % chunk_size == 0,
        0 < uncompressed <= chunk_size,
    ensures
        ({
            let base = next * chunk_size;
            let start = if offset > base {
                offset - base
            } else {
                0
            };
            let n = if remaining <= uncompressed - start {
                remaining
            } else {
                uncompressed - start
            };
            &&& base + start == offset + total
            &&& n < remaining && uncompressed == chunk_size ==> {
                &&& next + 1 == (offset + total + n) / chunk_size
                &&& (offset + total + n) % chunk_size == 0
            }
        }),
{
    let pos = offset + total;
    let base = next * chunk_size;
    vstd::arithmetic::div_mod::lemma_fundamental_div_mod(pos, chunk_size);
    vstd::arithmetic::div_mod::lemma_mod_bound(pos, chunk_size);
    vstd::arithmetic::mul::lemma_mul_is_commutative(chunk_size, next);
    assert(base <= pos < base + chunk_size);
    let start = if offset > base {
        offset - base
    } else {
        0
    };
    let n = if remaining <= uncompressed - start {
        remaining
    } else {
        uncompressed - start
    };
    if total > 0 {
        assert(pos == base);
    } else {
        assert(pos == offset);
    }
    assert(base + start == pos);
    if n < remaining && uncompressed == chunk_size {
        assert(pos + n == base + chunk_size);
        assert((next + 1) * chunk_size == base + chunk_size) by (nonlinear_arith)
            requires
                base == next * chunk_size,
        ;
        vstd::arithmetic::div_mod::lemma_div_multiples_vanish(next + 1, chunk_size);
        vstd::arithmetic::div_mod::lemma_mod_multiples_basic(next + 1, chunk_size);
        vstd::arithmetic::mul::lemma_mul_is_commutative(next + 1, chunk_size);
    }
}

/// The number of a file in the image's metadata: the root has its own there.
pub fn to_rafs_ino(ino: u64, root_ino: u64) -> (r: u64)
    ensures
        r == if ino == ROOT_ID {
            root_ino
        } else {
            ino
        },
{
    if ino == ROOT_ID {
        root_ino
    } else {
        ino
    }
}

/// The number under which a file is shown.
pub fn to_shown_ino(ino: u64, root_ino: u64) -> (r: u64)
    ensures
        r == if ino == root_ino {
            ROOT_ID
        } else {
            ino
        },
{
    if ino == root_ino {
        ROOT_ID
    } else {
        ino
    }
}

/// The number under which a file is shown leads back to the file, and the root is shown as the root.
pub proof fn law_shown_number_leads_back(ino: u64, root_ino: u64, shown: u64, back: u64)
    requires
        ino == ROOT_ID ==> root_ino == ROOT_ID,
        call_ensures(to_shown_ino, (ino, root_ino), shown),
        call_ensures(to_rafs_ino, (shown, root_ino), back),
    ensures
        back == ino,
        shown == ROOT_ID <==> ino == root_ino,
{
}

/// A file that is shown under a number is found under it, where no other file has the number
/// of the root.
pub proof fn law_shown_files_are_found(ino: u64, root_ino: u64)
    requires
        ino == ROOT_ID ==> root_ino == ROOT_ID,
    ensures
        ({
            let shown = if ino == root_ino {
                ROOT_ID
            } else {
                ino
            };
            (if shown == ROOT_ID {
                root_ino
            } else {
                shown
            }) == ino
        }),
{
}

/// What is shown of a file in place of what its metadata says.
#[derive(Debug, Clone, Copy, Eq, PartialEq)]
pub struct InodeFix {
    /// The owner and the group.
    pub owner: Option<(u32, u32)>,
    /// All times.
    pub time: Option<u64>,
}

/// Decides what is shown of a file: where the image names no owners it belongs to who mounted
/// it, and where a file has no time it is as old as the mount.
pub fn inode_fix(explicit_uidgid: bool, mtime_is_zero: bool, uid: u32, gid: u32, time: u64) -> (r:
    InodeFix)
    ensures
        r == (InodeFix {
            owner: if explicit_uidgid {
                None
            } else {
                Some((uid, gid))
            },
            time: if mtime_is_zero {
                Some(time)
            } else {
                None
            },
        }),
{
    InodeFix {
        owner: if explicit_uidgid {
            None
        } else {
            Some((uid, gid))
        },
        time: if mtime_is_zero {
            Some(time)
        } else {
            None
        },
    }
}

/// Where a name leads to.
#[derive(Debug, Clone, Copy, Eq, PartialEq, Structural)]
pub enum NameTarget {
    /// To the directory itself.
    Itself,
    /// To the directory above it.
    Above,
    /// To a file in it.
    Child,
}

/// Decides where a name in a directory leads to. Above the root lies the root.
pub fn name_target(is_directory: bool, at_root: bool, name: &[u8]) -> (r: Result<
    NameTarget,
    Refusal,
>)
    ensures
        r == if !is_directory {
            Err::<NameTarget, Refusal>(Refusal::NotDirectory)
        } else if name@ == seq![46u8] || (at_root && name@ == seq![46u8, 46u8]) {
            Ok(NameTarget::Itself)
        } else if name@ == seq![46u8, 46u8] {
            Ok(NameTarget::Above)
        } else {
            Ok(NameTarget::Child)
        },
{
    if !is_directory {
        return Err(Refusal::NotDirectory);
    }
    let dot: bool = name.len() == 1 && name[0] == 46;
    let dot_dot: bool = name.len() == 2 && name[0] == 46 && name[1] == 46;
    assert(dot == (name@ == seq![46u8])) by {
        if dot {
            assert(name@ =~= seq![46u8]);
        }
    }
    assert(dot_dot == (name@ == seq![46u8, 46u8])) by {
        if dot_dot {
            assert(name@ =~= seq![46u8, 46u8]);
        }
    }
    if dot || (at_root && dot_dot) {
        return Ok(NameTarget::Itself);
    }
    if dot_dot {
        return Ok(NameTarget::Above);
    }
    Ok(NameTarget::Child)
}

/// The answer to a request for extended attributes.
#[derive(Debug)]
pub enum XattrReply {
    /// How large the buffer has to be.
    Count(u32),
    /// What was asked for.
    Value(Vec<u8>),
}

/// Answers a request for the value of an extended attribute with a buffer of `size` bytes; an
/// empty buffer asks for the size.
pub fn xattr_value(value: Option<Vec<u8>>, size: u32) -> (r: Result<XattrReply, Refusal>)
    requires
        value matches Some(v) ==> v@.len() < usize::MAX,
    ensures
        match value {
            None => r == Err::<XattrReply, Refusal>(Refusal::NoData),
            Some(v) => if size == 0 {
                r == Ok::<XattrReply, Refusal>(XattrReply::Count((v@.len() + 1) as usize as u32))
            } else if size < v@.len() as usize as u32 {
                r == Err::<XattrReply, Refusal>(Refusal::TooSmall)
            } else {
                r == Ok::<XattrReply, Refusal>(XattrReply::Value(v))
            },
        },
{
    match value {
        None => Err(Refusal::NoData),
        Some(v) => {
            if size == 0 {
                return Ok(XattrReply::Count(#[verifier::truncate] ((v.len() + 1) as u32)));
            }
            if size < #[verifier::truncate] (v.len() as u32) {
                return Err(Refusal::TooSmall);
            }
            Ok(XattrReply::Value(v))
        },
    }
}

/// The names, each followed by a zero.
pub open spec fn joined_names(names: Seq<Vec<u8>>) -> Seq<u8>
    decreases names.len(),
{
    if names.len() == 0 {
        Seq::empty()
    } else {
        joined_names(names.drop_last()) + names.last()@.push(0)
    }
}

/// The list of the first names is no longer than that of all.
proof fn lemma_joined_len(names: Seq<Vec<u8>>, i: int)
    requires
        0 <= i <= names.len(),
    ensures
        joined_names(names.take(i)).len() <= joined_names(names).len(),
    decreases names.len(),
{
    if i < names.len() {
        lemma_joined_len(names.drop_last(), i);
        assert(names.drop_last().take(i) =~= names.take(i));
    } else {
        assert(names.take(i) =~= names);
    }
}

/// Answers a request for the names of the extended attributes with a buffer of `size` bytes; an
/// empty buffer asks for the size.
pub fn xattr_names(names: &[Vec<u8>], size: u32) -> (r: Result<XattrReply, Refusal>)
    requires
        joined_names(names@).len() <= usize::MAX,
    ensures
        ({
            let all = joined_names(names@);
            if size == 0 {
                r == Ok::<XattrReply, Refusal>(XattrReply::Count(all.len() as usize as u32))
            } else if size < all.len() as usize as u32 {
                r == Err::<XattrReply, Refusal>(Refusal::TooSmall)
            } else {
                r is Ok && r->Ok_0 is Value && r->Ok_0->Value_0@ == all
            }
        }),
{
    let mut buf: Vec<u8> = Vec::new();
    let mut count: usize = 0;
    let mut i: usize = 0;
    while i < names.len()
        invariant
            i <= names@.len(),
            joined_names(names@).len() <= usize::MAX,
            count == joined_names(names@.take(i as int)).len(),
            size != 0 ==> buf@ == joined_names(names@.take(i as int)),
        decreases names@.len() - i,
    {
        let ghost held = buf@;
        proof {
            lemma_joined_len(names@, i + 1);
            assert(names@.take(i + 1).drop_last() =~= names@.take(i as int));
        }
        let name: &Vec<u8> = &names[i];
        count = count + (name.len() + 1);
        if size != 0 {
            crate::bytes::append_bytes(&mut buf, name.as_slice());
            buf.push(0);
            assert(buf@ =~= held + name@.push(0));
        }
        i = i + 1;
    }
    assert(names@.take(i as int) =~= names@);
    if size == 0 {
        return Ok(XattrReply::Count(#[verifier::truncate] (count as u32)));
    }
    if size < #[verifier::truncate] (count as u32) {
        return Err(Refusal::TooSmall);
    }
    Ok(XattrReply::Value(buf))
}

/// Chunks that wait to be stored together.
#[derive(Debug)]
pub struct StoreBatch {
    chunks: Vec<(CheckSum, Vec<u8>)>,
}

impl StoreBatch {
    /// The chunks, in the order in which they came.
    pub closed spec fn chunks(self) -> Seq<(CheckSum, Vec<u8>)> {
        self.chunks@
    }

    /// A batch without chunks.
    pub fn new() -> (r: StoreBatch)
        ensures
            r.chunks() == Seq::<(CheckSum, Vec<u8>)>::empty(),
    {
        StoreBatch { chunks: Vec::new() }
    }

    /// Takes a chunk, and returns whether the batch is to be stored before another is taken.
    pub fn push(&mut self, checksum: CheckSum, data: Vec<u8>) -> (r: bool)
        ensures
            final(self).chunks() == old(self).chunks().push((checksum, data)),
            r == (final(self).chunks().len() >= CHUNK_STORE_BATCH_SIZE),
    {
        self.chunks.push((checksum, data));
        self.chunks.len() >= CHUNK_STORE_BATCH_SIZE
    }

    /// Hands out the chunks; the batch is empty then.
    pub fn take(&mut self) -> (r: Vec<(CheckSum, Vec<u8>)>)
        ensures
            r@ == old(self).chunks(),
            final(self).chunks() == Seq::<(CheckSum, Vec<u8>)>::empty(),
    {
        let mut out: Vec<(CheckSum, Vec<u8>)> = Vec::new();
        std::mem::swap(&mut out, &mut self.chunks);
        out
    }
}

/// Counts the chunks that were dropped because too many wait to be stored.
#[derive(Debug)]
pub struct StoreDrops {
    dropped: u64,
    limiter: RateLimitedLog,
}

impl StoreDrops {
    /// How many were dropped since the last note of it.
    pub closed spec fn dropped(self) -> nat {
        self.dropped as nat
    }

    /// When the last note of it was, in seconds.
    pub closed spec fn noted_at(self) -> nat {
        self.limiter.last()
    }

    /// How many seconds lie between two notes.
    pub closed spec fn spacing(self) -> nat {
        self.limiter.interval()
    }

    /// Nothing was dropped yet. A note is made every five seconds at most.
    pub fn new() -> (r: StoreDrops)
        ensures
            r.dropped() == 0,
            r.noted_at() == 0,
            r.spacing() == 5,
    {
        StoreDrops { dropped: 0, limiter: RateLimitedLog::new(5) }
    }

    /// Counts a chunk that was dropped at second `now`, and returns how many there were where
    /// it is time for a note.
    pub fn count(&mut self, now: u64) -> (r: Option<u64>)
        requires
            old(self).dropped() < u64::MAX,
        ensures
            final(self).spacing() == old(self).spacing(),
            match r {
                Some(n) => {
                    &&& now >= old(self).noted_at() + old(self).spacing()
                    &&& n == old(self).dropped() + 1
                    &&& final(self).dropped() == 0
                    &&& final(self).noted_at() == now
                },
                None => {
                    &&& now < old(self).noted_at() + old(self).spacing()
                    &&& final(self).dropped() == old(self).dropped() + 1
                    &&& final(self).noted_at() == old(self).noted_at()
                },
            },
    {
        let dropped: u64 = self.dropped + 1;
        if self.limiter.should_log_at(now) {
            self.dropped = 0;
            return Some(dropped);
        }
        self.dropped = dropped;
        None
    }
}

/// The file in which a blob is cached.
pub fn blob_cache_path(cache_dir: &str, blob_id: &str) -> (r: String)
    ensures
        r@ == cache_dir@ + "/"@ + blob_id@,
{
    let mut path: String = cache_dir.to_owned();
    path.append("/");
    path.append(blob_id);
    path
}

/// How a blob is read.
#[derive(Debug, Clone, Copy, Eq, PartialEq, Structural)]
pub enum BlobAccess {
    /// From where it is.
    Direct,
    /// Through a cache.
    Cached,
    /// Through a cache whose chunks are deduplicated.
    Deduplicated,
}

/// Decides how a blob is read: without a directory for it there is no cache, and without a
/// cache nothing is deduplicated.
pub fn blob_access(cache_dir: &str, has_dedup_db: bool) -> (r: BlobAccess)
    ensures
        r == if cache_dir@.len() == 0 {
            BlobAccess::Direct
        } else if has_dedup_db {
            BlobAccess::Deduplicated
        } else {
            BlobAccess::Cached
        },
{
    if cache_dir.unicode_len() == 0 {
        BlobAccess::Direct
    } else if has_dedup_db {
        BlobAccess::Deduplicated
    } else {
        BlobAccess::Cached
    }
}

/// Refuses the configuration of a storage service that does not hold up.
pub fn check_backend_config(valid: bool) -> (r: Result<(), Error>)
    ensures
        match r {
            Ok(_) => valid,
            Err(e) => {
                &&& !valid
                &&& e.kind == ErrorKind::InvalidInput
                &&& e.message@ == "Invalid backend config"@
            },
        },
{
    if !valid {
        return Err(Error::new(ErrorKind::InvalidInput, "Invalid backend config"));
    }
    Ok(())
}

/// Checks that an image can be mounted: its configuration is a file, and its format is known.
pub fn check_image(config_is_file: bool, is_v6: bool) -> (r: Result<(), Error>)
    ensures
        match r {
            Ok(_) => config_is_file && !is_v6,
            Err(e) => if !config_is_file {
                e.kind == ErrorKind::InvalidInput && e.message@ == "invalid backend cfg"@
            } else {
                &&& is_v6
                &&& e.kind == ErrorKind::Unsupported
                &&& e.message@
                    == "RAFS v6 is not supported by distill-fs yet; build RAFS v5 images"@
            },
        },
{
    if !config_is_file {
        return Err(Error::new(ErrorKind::InvalidInput, "invalid backend cfg"));
    }
    if is_v6 {
        return Err(
            Error::new(
                ErrorKind::Unsupported,
                "RAFS v6 is not supported by distill-fs yet; build RAFS v5 images",
            ),
        );
    }
    Ok(())
}

/// What the chunk database hands out for what it is asked, where it has the chunk, are the bytes of
/// the part that is to be read.
pub proof fn law_hit_hands_out_the_part<'a>(
    plan: ChunkReadPlan,
    task: &mut ChunkReadTask,
    ask: ChunkReadAction,
    chunk: &'a [u8],
    r: Result<Option<&'a [u8]>, Error>,
)
    requires
        plan.start + plan.len <= plan.uncompressed,
        call_ensures(ChunkReadTask::new, (plan,), *old(task)),
        call_ensures(ChunkReadTask::on_event, (task, ChunkReadEvent::Start), ask),
        ask is AskDatabase,
        chunk@.len() == plan.uncompressed,
        call_ensures(
            crate::backend::chunkdb::chunk_range,
            (Some(chunk), ask->start, ask->len),
            r,
        ),
    ensures
        ask->AskDatabase_checksum == plan.checksum,
        r is Ok && r->Ok_0 is Some,
        r->Ok_0->Some_0@ == chunk@.subrange(plan.start as int, plan.start + plan.len),
{
}

/// A read of a file gets each byte that it asks for and the file has; only files can be read.
pub proof fn law_file_range_is_cut_at_the_end(
    is_regular: bool,
    file_size: u64,
    size: u32,
    offset: u64,
    r: Result<u64, RangeFault>,
    p: int,
)
    requires
        call_ensures(check_read_range, (is_regular, file_size, size, offset), r),
        offset <= p,
    ensures
        r is Ok <==> is_regular && offset + size <= u64::MAX,
        r matches Ok(n) ==> (p < offset + n <==> p < offset + size && p < file_size),
{
}

/// The size that is told for an extended attribute or for the list of their names suffices to get
/// it, and what is got is the whole value, or all names, each with a zero behind it.
pub proof fn law_told_size_suffices(
    value: Vec<u8>,
    told: Result<XattrReply, Refusal>,
    got: Result<XattrReply, Refusal>,
    names: &[Vec<u8>],
    told_names: Result<XattrReply, Refusal>,
    got_names: Result<XattrReply, Refusal>,
)
    requires
        value@.len() < u32::MAX,
        call_ensures(xattr_value, (Some(value), 0u32), told),
        told is Ok && told->Ok_0 is Count,
        call_ensures(xattr_value, (Some(value), told->Ok_0->Count_0), got),
        0 < joined_names(names@).len() <= u32::MAX,
        call_ensures(xattr_names, (names, 0u32), told_names),
        told_names is Ok && told_names->Ok_0 is Count,
        call_ensures(xattr_names, (names, told_names->Ok_0->Count_0), got_names),
    ensures
        got is Ok && got->Ok_0 is Value && got->Ok_0->Value_0@ == value@,
        got_names is Ok && got_names->Ok_0 is Value,
        got_names->Ok_0->Value_0@.len() == told_names->Ok_0->Count_0,
{
    assert(call_requires(xattr_value, (Some(value), 0u32)));
    assert(call_requires(xattr_value, (Some(value), told->Ok_0->Count_0)));
    assert(call_requires(xattr_names, (names, 0u32)));
    assert(call_requires(xattr_names, (names, told_names->Ok_0->Count_0)));
}

/// A buffer that cannot hold the value is refused, one that can gets it; an attribute that is not
/// there has no value of any size.
pub proof fn law_small_buffers_are_refused(
    value: Option<Vec<u8>>,
    size: u32,
    r: Result<XattrReply, Refusal>,
)
    requires
        size > 0,
        value matches Some(v) ==> v@.len() < u32::MAX,
        call_ensures(xattr_value, (value, size), r),
    ensures
        r is Ok <==> value is Some && value->Some_0@.len() <= size,
        r is Ok ==> r->Ok_0 is Value && r->Ok_0->Value_0@ == value->Some_0@,
        value is None ==> r == Err::<XattrReply, Refusal>(Refusal::NoData),
        r is Err && value is Some ==> r->Err_0 == Refusal::TooSmall,
{
    assert(call_requires(xattr_value, (value, size)));
}

/// The names of two lists follow each other in the list of both, and a name is followed by a zero.
pub proof fn law_names_are_listed_one_after_the_other(a: Seq<Vec<u8>>, b: Seq<Vec<u8>>, name: Vec<u8>)
    ensures
        joined_names(a + b) == joined_names(a) + joined_names(b),
        joined_names(seq![name]) == name@ + seq![0u8],
    decreases b.len(),
{
    if b.len() > 0 {
        law_names_are_listed_one_after_the_other(a, b.drop_last(), name);
        assert((a + b).drop_last() =~= a + b.drop_last());
        assert(joined_names(a + b) =~= joined_names(a) + joined_names(b));
    } else {
        assert(a + b =~= a);
        assert(joined_names(a + b) =~= joined_names(a) + joined_names(b));
    }
    let one = seq![name];
    reveal_with_fuel(joined_names, 2);
    assert(one.drop_last() =~= Seq::<Vec<u8>>::empty());
    assert(joined_names(one) =~= name@ + seq![0u8]);
}

/// Chunks that wait to be stored are handed out in the order in which they came, all of them, and
/// no more wait than are stored at a time.
pub proof fn law_waiting_chunks_are_handed_out(
    b0: &mut StoreBatch,
    checksum: CheckSum,
    data: Vec<u8>,
    full: bool,
    b1: &mut StoreBatch,
    out: Vec<(CheckSum, Vec<u8>)>,
)
    requires
        call_ensures(StoreBatch::push, (b0, checksum, data), full),
        *old(b1) == *final(b0),
        call_ensures(StoreBatch::take, (b1,), out),
    ensures
        out@ == old(b0).chunks().push((checksum, data)),
        final(b1).chunks().len() == 0,
        full <==> out@.len() >= 64,
{
}

/// Every chunk that is dropped is counted in one note: in the next one, which comes five seconds
/// after the last at the earliest.
pub proof fn law_dropped_chunks_are_counted_once(
    d0: &mut StoreDrops,
    t0: u64,
    first: Option<u64>,
    d1: &mut StoreDrops,
    t1: u64,
    second: Option<u64>,
)
    requires
        old(d0).dropped() < u64::MAX - 1,
        old(d0).spacing() == 5,
        call_ensures(StoreDrops::count, (d0, t0), first),
        *old(d1) == *final(d0),
        call_ensures(StoreDrops::count, (d1, t1), second),
    ensures
        first matches Some(n) ==> n == old(d0).dropped() + 1 && final(d0).dropped() == 0,
        first is Some && second is Some ==> second->Some_0 == 1 && t1 >= t0 + 5,
        first is None && second is Some ==> second->Some_0 == old(d0).dropped() + 2,
        first is None && second is None ==> final(d1).dropped() == old(d0).dropped() + 2,
        first is Some && t1 < t0 + 5 ==> second is None,
        first is Some <==> t0 >= old(d0).noted_at() + 5,
{
    assert(call_requires(StoreDrops::count, (d0, t0)));
    assert(call_requires(StoreDrops::count, (d1, t1)));
}

/// In a directory every name leads to itself, above it or to a file in it, and no name leads out
/// of the root; what is no directory has no names.
pub proof fn law_no_name_leads_out_of_the_root(
    at_root: bool,
    name: &[u8],
    r: Result<NameTarget, Refusal>,
    is_directory: bool,
    of_any: Result<NameTarget, Refusal>,
)
    requires
        call_ensures(name_target, (true, at_root, name), r),
        call_ensures(name_target, (is_directory, at_root, name), of_any),
    ensures
        r is Ok,
        at_root ==> !(r->Ok_0 is Above),
        r->Ok_0 is Child <==> name@ != seq![46u8] && name@ != seq![46u8, 46u8],
        !at_root && name@ == seq![46u8, 46u8] ==> r->Ok_0 is Above,
        name@ == seq![46u8] ==> r->Ok_0 is Itself,
        of_any is Err <==> !is_directory,
{
    assert(seq![46u8].len() != seq![46u8, 46u8].len());
}

/// The read of a chunk takes the step that its rule says: nothing else is asked for.
pub proof fn law_chunk_read_follows_its_rule(
    task: &mut ChunkReadTask,
    event: ChunkReadEvent,
    action: ChunkReadAction,
)
    requires
        old(task).wf(),
        call_ensures(ChunkReadTask::on_event, (task, event), action),
    ensures
        chunk_read_rule(
            old(task).plan(),
            old(task).stage(),
            old(task).data(),
            event,
            final(task).stage(),
            final(task).data(),
            action,
        ),
        final(task).plan() == old(task).plan(),
{
}

/// Whether an event tells of what the read of a chunk asked for.
pub open spec fn chunk_read_awaits(action: ChunkReadAction, event: ChunkReadEvent) -> bool {
    match action {
        ChunkReadAction::AskDatabase { .. } => event is Hit || event is Miss
            || event is DatabaseError,
        ChunkReadAction::ReadBlob => event is Data || event is Failed,
        ChunkReadAction::WritePart => event is Wrote || event is Failed,
        ChunkReadAction::Store { .. } => event is Queued,
        _ => false,
    }
}

/// The read of a chunk fails with what failed, and an event that was not asked for fails it too; a
/// chunk that the database cannot give is read from its blob, whether it has not got it or fails.
pub proof fn law_chunk_read_fails_for_a_reason(
    task0: &mut ChunkReadTask,
    before: ChunkReadEvent,
    action: ChunkReadAction,
    task1: &mut ChunkReadTask,
    event: ChunkReadEvent,
    next: ChunkReadAction,
)
    requires
        old(task0).wf(),
        call_ensures(ChunkReadTask::on_event, (task0, before), action),
        *old(task1) == *final(task0),
        call_ensures(ChunkReadTask::on_event, (task1, event), next),
    ensures
        !chunk_read_awaits(action, event) ==> next is Fail,
        chunk_read_awaits(action, event) ==> (next is Fail <==> event is Failed || (event is Data
            && event->Data_0@.len() < old(task0).plan().start + old(task0).plan().len)),
        chunk_read_awaits(action, event) && event is Failed ==> next == ChunkReadAction::Fail(
            event->Failed_0,
        ),
        action is AskDatabase && (event is Miss || event is DatabaseError) ==> next is ReadBlob,
        action is AskDatabase && event is Hit ==> next == ChunkReadAction::Finish(event->Hit_0),
{
}

/// The part of a chunk's data is handed out byte for byte where the data has it.
pub proof fn law_data_part_is_byte_for_byte(
    data: &[u8],
    start: usize,
    len: usize,
    r: Result<&[u8], Error>,
    i: int,
)
    requires
        start + len <= usize::MAX,
        call_ensures(chunk_part, (data, start, len), r),
    ensures
        r is Ok <==> start + len <= data@.len(),
        r is Ok ==> r->Ok_0@.len() == len,
        r is Ok && 0 <= i < len ==> r->Ok_0@[i] == data@[start + i],
{
    assert(call_requires(chunk_part, (data, start, len)));
}

/// What is read of a blob are its bytes, all that were asked for: a source that gives fewer at a
/// time is asked again for the rest.
pub proof fn law_blob_range_is_read_whole<B: Backend>(
    reader: &B,
    image: Seq<u8>,
    offset: u64,
    size: usize,
    buf: Vec<u8>,
)
    requires
        offset + size <= usize::MAX,
        size > 0,
        gives_prefix(*reader, image),
        call_ensures(read_blob_range::<B>, (reader, offset, size), Ok(buf)),
    ensures
        buf@.len() == size,
        offset + size <= image.len(),
        buf@ == image.subrange(offset as int, offset + size),
{
    assert(call_requires(read_blob_range::<B>, (reader, offset, size)));
    assert(bytes_of_blob(*reader, offset, size, buf@));
}

/// What the image says of a file is shown as it is; only what it does not say is made up.
pub proof fn law_given_attributes_are_shown(
    explicit_uidgid: bool,
    mtime_is_zero: bool,
    uid: u32,
    gid: u32,
    time: u64,
    fix: InodeFix,
    dir: &str,
    has_db: bool,
    access: BlobAccess,
)
    requires
        call_ensures(inode_fix, (explicit_uidgid, mtime_is_zero, uid, gid, time), fix),
        call_ensures(blob_access, (dir, has_db), access),
    ensures
        fix.owner is None <==> explicit_uidgid,
        fix.owner is Some ==> fix.owner->Some_0 == (uid, gid),
        fix.time is Some <==> mtime_is_zero,
        fix.time is Some ==> fix.time->Some_0 == time,
        access is Direct <==> dir@.len() == 0,
        access is Deduplicated <==> dir@.len() > 0 && has_db,
{
}

/// A read of a file reports how many bytes were handed out, all of them.
pub proof fn law_file_read_reports_what_was_handed_out(
    r: &mut FileRead,
    n: usize,
    before: &FileRead,
    was: usize,
    after: &FileRead,
    is: usize,
)
    requires
        old(r).wf(),
        old(r).next() <= old(r).last(),
        n <= old(r).remaining(),
        *before == *old(r),
        call_ensures(FileRead::total, (before,), was),
        call_ensures(FileRead::wrote, (r, n), ()),
        *after == *final(r),
        call_ensures(FileRead::total, (after,), is),
    ensures
        is == was + n,
        final(r).remaining() + is == old(r).remaining() + was,
{
    assert(call_requires(FileRead::wrote, (r, n)));
}

/// A read of a file hands out the file's bytes: the part of the next chunk that it takes are the
/// bytes of the file that come next, where each chunk holds its bytes of the file.
pub proof fn law_file_part_is_file_data(
    file: Seq<u8>,
    size: int,
    at: &FileRead,
    k: u64,
    chunk: Seq<u8>,
    start: usize,
    n: usize,
    r: &mut FileRead,
)
    requires
        on_track(*at, file.len() as int, size),
        call_ensures(FileRead::next_chunk, (at,), Some(k)),
        chunk.len() == chunk_len(file.len() as int, at.chunk_size(), k as int),
        chunk == file.subrange(k * at.chunk_size(), k * at.chunk_size() + chunk.len()),
        call_ensures(FileRead::span, (at, chunk.len() as usize), Ok((start, n))),
        *old(r) == *at,
        call_ensures(FileRead::wrote, (r, n), ()),
    ensures
        start + n <= chunk.len(),
        n > 0,
        chunk.subrange(start as int, start + n) == file.subrange(
            at.offset() + at.spec_total(),
            at.offset() + at.spec_total() + n,
        ),
        on_track(*final(r), file.len() as int, size),
        final(r).spec_total() == at.spec_total() + n,
{
    law_file_read_has_no_gap(
        file.len() as int,
        size,
        at,
        Some(k),
        chunk.len() as usize,
        Ok((start, n)),
        r,
        n,
    );
    let base = k * at.chunk_size();
    assert(base >= 0) by (nonlinear_arith)
        requires
            base == k * at.chunk_size(),
            at.chunk_size() > 0,
            k >= 0,
    ;
    assert(chunk.subrange(start as int, start + n) =~= file.subrange(
        at.offset() + at.spec_total(),
        at.offset() + at.spec_total() + n,
    ));
}

} // verus!
