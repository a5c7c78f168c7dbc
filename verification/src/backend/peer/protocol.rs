//! The protocol by which chunks are asked for and served.

use crate::backend::dedup::text_with_two;
use crate::backend::CHUNK_SIZE;
use crate::bytes::{
    append_bytes, be_to_u32, be_to_u64, be_value, lemma_be_value_injective, take32, u32_to_be,
    u64_to_be,
};
use crate::checksum::{
    byte_method, empty_checksum, lemma_checksum_ext, method_byte, CheckSum, CheckSumMethod,
};
use crate::error::{Error, ErrorKind};
use crate::text::{decimal, to_decimal};
use vstd::prelude::*;

verus! {

/// The number of bytes in a request.
pub const REQUEST_LEN: usize = 50;

/// The number of bytes in front of a response's payload.
pub const RESPONSE_HEADER_LEN: usize = 13;

/// A checksum takes this many bytes in a batch.
pub const BATCH_ENTRY_LEN: usize = 33;

/// A response's payload has at most this many bytes: a chunk.
pub const MAX_CHUNK_PAYLOAD_SIZE: usize = 4194304;

pub const STATUS_HIT: u8 = 0;

pub const STATUS_MISS: u8 = 1;

pub const STATUS_ERROR: u8 = 2;

/// What a request asks for.
#[derive(Debug, Clone, Copy, Eq, PartialEq, Structural)]
pub enum MessageType {
    GetChunk,
    PrefetchChunk,
    RegisterChunk,
    UnregisterChunk,
    RegisterChunks,
    UnregisterChunks,
    HealthCheck,
}

/// The byte that stands for a message type.
pub open spec fn message_byte(m: MessageType) -> u8 {
    match m {
        MessageType::GetChunk => 1,
        MessageType::PrefetchChunk => 2,
        MessageType::RegisterChunk => 3,
        MessageType::UnregisterChunk => 4,
        MessageType::RegisterChunks => 5,
        MessageType::UnregisterChunks => 6,
        MessageType::HealthCheck => 7,
    }
}

impl MessageType {
    /// The byte that stands for the type.
    pub fn to_byte(self) -> (r: u8)
        ensures
            r == message_byte(self),
    {
        match self {
            MessageType::GetChunk => 1,
            MessageType::PrefetchChunk => 2,
            MessageType::RegisterChunk => 3,
            MessageType::UnregisterChunk => 4,
            MessageType::RegisterChunks => 5,
            MessageType::UnregisterChunks => 6,
            MessageType::HealthCheck => 7,
        }
    }

    /// The type that a byte stands for.
    pub fn try_from_byte(value: u8) -> (r: Result<MessageType, Error>)
        ensures
            match r {
                Ok(m) => message_byte(m) == value,
                Err(e) => {
                    &&& value == 0 || value > 7
                    &&& e.kind == ErrorKind::InvalidData
                    &&& e.message@ == "invalid message type: "@ + decimal(value as nat)
                },
            },
    {
        match value {
            1 => Ok(MessageType::GetChunk),
            2 => Ok(MessageType::PrefetchChunk),
            3 => Ok(MessageType::RegisterChunk),
            4 => Ok(MessageType::UnregisterChunk),
            5 => Ok(MessageType::RegisterChunks),
            6 => Ok(MessageType::UnregisterChunks),
            7 => Ok(MessageType::HealthCheck),
            _ => {
                let mut text: String = "invalid message type: ".to_owned();
                let n: String = to_decimal(value as u64);
                text.append(n.as_str());
                Err(Error { kind: ErrorKind::InvalidData, message: text })
            },
        }
    }

    /// Whether the request is followed by a batch of checksums.
    pub fn is_batch(self) -> (r: bool)
        ensures
            r == (self is RegisterChunks || self is UnregisterChunks),
    {
        match self {
            MessageType::RegisterChunks => true,
            MessageType::UnregisterChunks => true,
            _ => false,
        }
    }
}

/// A request of the protocol.
#[derive(Debug, Clone, Copy, Eq, PartialEq)]
pub struct Request {
    pub request_id: u64,
    pub message_type: MessageType,
    pub checksum: CheckSum,
    pub offset: u32,
    pub length: u32,
}

/// Whether `s` holds the 50 bytes of a request: its number, the type, the checksum's method
/// and digest, the offset and the length.
pub open spec fn is_request_bytes(s: Seq<u8>, req: Request) -> bool {
    &&& s.len() == 50
    &&& be_value(s.subrange(0, 8)) == req.request_id
    &&& s[8] == message_byte(req.message_type)
    &&& byte_method(s[9]) == req.checksum.method
    &&& s.subrange(10, 42) == req.checksum.raw@
    &&& be_value(s.subrange(42, 46)) == req.offset
    &&& be_value(s.subrange(46, 50)) == req.length
}

impl Request {
    /// A request with the given fields.
    pub fn new(
        request_id: u64,
        message_type: MessageType,
        checksum: CheckSum,
        offset: u32,
        length: u32,
    ) -> (r: Request)
        ensures
            r == (Request { request_id, message_type, checksum, offset, length }),
    {
        Request { request_id, message_type, checksum, offset, length }
    }

    /// A request for a whole chunk.
    pub fn whole_chunk(message_type: MessageType, checksum: CheckSum) -> (r: Request)
        ensures
            r == (Request { request_id: 0, message_type, checksum, offset: 0, length: 0 }),
    {
        Request::new(0, message_type, checksum, 0, 0)
    }

    /// A request that is followed by `count` checksums.
    pub fn control_batch(message_type: MessageType, count: usize) -> (r: Request)
        ensures
            r == (Request {
                request_id: 0,
                message_type,
                checksum: empty_checksum(),
                offset: 0,
                length: count as u32,
            }),
    {
        Request::new(
            0,
            message_type,
            CheckSum::empty(),
            0,
            #[verifier::truncate] (count as u32),
        )
    }

    /// Checks that the request is for a whole chunk.
    pub fn ensure_full_chunk(&self) -> (r: Result<(), Error>)
        ensures
            match r {
                Ok(_) => self.offset == 0 && self.length == 0,
                Err(e) => {
                    &&& self.offset != 0 || self.length != 0
                    &&& e.kind == ErrorKind::InvalidInput
                    &&& e.message@
                        == "chunk peer protocol only supports full-chunk requests, got offset="@
                        + decimal(self.offset as nat) + " length="@ + decimal(self.length as nat)
                        + ""@
                },
            },
    {
        if self.offset == 0 && self.length == 0 {
            return Ok(());
        }
        Err(
            Error {
                kind: ErrorKind::InvalidInput,
                message: text_with_two(
                    "chunk peer protocol only supports full-chunk requests, got offset=",
                    self.offset as u64,
                    " length=",
                    self.length as u64,
                    "",
                ),
            },
        )
    }

    /// Checks that the request can be followed by checksums, and returns by how many.
    pub fn ensure_control_batch(&self) -> (r: Result<usize, Error>)
        ensures
            match r {
                Ok(count) => self.offset == 0 && count == self.length,
                Err(e) => {
                    &&& self.offset != 0
                    &&& e.kind == ErrorKind::InvalidInput
                    &&& e.message@ == "invalid batch control request offset="@ + decimal(
                        self.offset as nat,
                    )
                },
            },
    {
        if self.offset != 0 {
            let mut text: String = "invalid batch control request offset=".to_owned();
            let n: String = to_decimal(self.offset as u64);
            text.append(n.as_str());
            return Err(Error { kind: ErrorKind::InvalidInput, message: text });
        }
        Ok(self.length as usize)
    }

    /// The bytes of the request.
    pub fn encode(&self) -> (r: [u8; 50])
        ensures
            is_request_bytes(r@, *self),
            r@[9] == method_byte(self.checksum.method),
    {
        let mut out: Vec<u8> = Vec::with_capacity(REQUEST_LEN);
        self.write_to_sync(&mut out);
        let mut buf: [u8; 50] = [0u8;50];
        let mut i: usize = 0;
        while i < 50
            invariant
                i <= 50,
                out@.len() == 50,
                buf@.len() == 50,
                forall|j: int| 0 <= j < i ==> buf@[j] == out@[j],
            decreases 50 - i,
        {
            buf[i] = out[i];
            i = i + 1;
        }
        assert(buf@ =~= out@);
        assert(out@.skip(0) =~= out@);
        buf
    }

    /// The request that bytes hold.
    pub fn decode(buf: [u8; 50]) -> (r: Result<Request, Error>)
        ensures
            match r {
                Ok(req) => is_request_bytes(buf@, req),
                Err(e) => {
                    &&& buf@[8] == 0 || buf@[8] > 7
                    &&& e.kind == ErrorKind::InvalidData
                    &&& e.message@ == "invalid message type: "@ + decimal(buf@[8] as nat)
                },
            },
    {
        let request_id: u64 = be_to_u64(&buf, 0);
        let message_type: MessageType = match MessageType::try_from_byte(buf[8]) {
            Ok(m) => m,
            Err(e) => {
                return Err(e);
            },
        };
        let raw: [u8; 32] = take32(&buf, 10);
        let checksum: CheckSum = CheckSum { raw, method: CheckSumMethod::from(buf[9]) };
        let offset: u32 = be_to_u32(&buf, 42);
        let length: u32 = be_to_u32(&buf, 46);
        Ok(Request { request_id, message_type, checksum, offset, length })
    }

    /// Appends the bytes of the request to a buffer.
    pub fn write_to_sync(&self, writer: &mut Vec<u8>)
        ensures
            final(writer)@.len() == old(writer)@.len() + 50,
            final(writer)@.take(old(writer)@.len() as int) == old(writer)@,
            is_request_bytes(final(writer)@.skip(old(writer)@.len() as int), *self),
            final(writer)@[old(writer)@.len() as int + 9] == method_byte(self.checksum.method),
    {
        let ghost n = writer@.len() as int;
        let id: [u8; 8] = u64_to_be(self.request_id);
        append_bytes(writer, &id);
        writer.push(self.message_type.to_byte());
        writer.push(u8::from(self.checksum.method));
        append_bytes(writer, &self.checksum.raw);
        let offset: [u8; 4] = u32_to_be(self.offset);
        append_bytes(writer, &offset);
        let length: [u8; 4] = u32_to_be(self.length);
        append_bytes(writer, &length);
        proof {
            let s = writer@.skip(n);
            assert(writer@.take(n) =~= old(writer)@);
            assert(s.subrange(0, 8) =~= id@);
            assert(s.subrange(10, 42) =~= self.checksum.raw@);
            assert(s.subrange(42, 46) =~= offset@);
            assert(s.subrange(46, 50) =~= length@);
        }
    }
}

/// The bytes of a request give the request back.
pub proof fn law_request_roundtrip(s: Seq<u8>, a: Request, b: Request)
    requires
        is_request_bytes(s, a),
        is_request_bytes(s, b),
    ensures
        a == b,
{
    lemma_checksum_ext(a.checksum, b.checksum);
}

/// A response of the protocol.
#[derive(Debug, Clone, Eq, PartialEq)]
pub struct WireResponse {
    pub request_id: u64,
    pub status: u8,
    pub payload: Vec<u8>,
}

/// Whether `s` holds the 13 bytes in front of a payload of `payload_len` bytes: the number of
/// the request, the status and the length.
pub open spec fn is_response_header(
    s: Seq<u8>,
    request_id: u64,
    status: u8,
    payload_len: u32,
) -> bool {
    &&& s.len() == 13
    &&& be_value(s.subrange(0, 8)) == request_id
    &&& s[8] == status
    &&& be_value(s.subrange(9, 13)) == payload_len
}

/// Whether `s` holds a whole response.
pub open spec fn is_response_bytes(s: Seq<u8>, request_id: u64, status: u8, payload: Seq<u8>) -> bool {
    &&& s.len() == 13 + payload.len()
    &&& payload.len() <= u32::MAX
    &&& is_response_header(s.take(13), request_id, status, payload.len() as u32)
    &&& s.skip(13) == payload
}

/// The bytes in front of a payload.
pub fn encode_response_header(request_id: u64, status: u8, payload_len: usize) -> (r: [u8; 13])
    ensures
        is_response_header(r@, request_id, status, payload_len as u32),
{
    let id: [u8; 8] = u64_to_be(request_id);
    let len: [u8; 4] = u32_to_be(#[verifier::truncate] (payload_len as u32));
    let header: [u8; 13] = [
        id[0],
        id[1],
        id[2],
        id[3],
        id[4],
        id[5],
        id[6],
        id[7],
        status,
        len[0],
        len[1],
        len[2],
        len[3],
    ];
    assert(header@.subrange(0, 8) =~= id@);
    assert(header@.subrange(9, 13) =~= len@);
    header
}

/// What the bytes in front of a payload say: the number of the request, the status and the
/// length of the payload, which is at most that of a chunk.
pub fn decode_response_header(header: &[u8]) -> (r: Result<(u64, u8, usize), Error>)
    requires
        header@.len() == 13,
    ensures
        match r {
            Ok((request_id, status, len)) => {
                &&& len <= MAX_CHUNK_PAYLOAD_SIZE
                &&& is_response_header(header@, request_id, status, len as u32)
            },
            Err(e) => {
                let len = be_value(header@.subrange(9, 13));
                &&& len > MAX_CHUNK_PAYLOAD_SIZE
                &&& e.kind == ErrorKind::InvalidData
                &&& e.message@ == "payload too large: "@ + decimal(len)
            },
        },
{
    let request_id: u64 = be_to_u64(header, 0);
    let status: u8 = header[8];
    let payload_len: u32 = be_to_u32(header, 9);
    if payload_len as usize > MAX_CHUNK_PAYLOAD_SIZE {
        let mut text: String = "payload too large: ".to_owned();
        let n: String = to_decimal(payload_len as u64);
        text.append(n.as_str());
        return Err(Error { kind: ErrorKind::InvalidData, message: text });
    }
    Ok((request_id, status, payload_len as usize))
}

impl WireResponse {
    /// A response without a payload.
    pub fn bare(request_id: u64, status: u8) -> (r: WireResponse)
        ensures
            r.request_id == request_id,
            r.status == status,
            r.payload@ == Seq::<u8>::empty(),
    {
        WireResponse { request_id, status, payload: Vec::new() }
    }

    /// The bytes of the response.
    pub fn to_bytes(&self) -> (r: Vec<u8>)
        requires
            self.payload@.len() <= u32::MAX,
        ensures
            is_response_bytes(r@, self.request_id, self.status, self.payload@),
    {
        let header: [u8; 13] = encode_response_header(
            self.request_id,
            self.status,
            self.payload.len(),
        );
        let mut out: Vec<u8> = Vec::new();
        append_bytes(&mut out, &header);
        append_bytes(&mut out, self.payload.as_slice());
        assert(out@.take(13) =~= header@);
        assert(out@.skip(13) =~= self.payload@);
        out
    }

    /// Reads a response from the front of `input`, and returns how many bytes it took.
    pub fn read_from_sync(input: &[u8]) -> (r: Result<(WireResponse, usize), Error>)
        ensures
            match r {
                Ok((resp, taken)) => {
                    &&& taken <= input@.len()
                    &&& resp.payload@.len() <= MAX_CHUNK_PAYLOAD_SIZE
                    &&& is_response_bytes(
                        input@.take(taken as int),
                        resp.request_id,
                        resp.status,
                        resp.payload@,
                    )
                },
                Err(e) => {
                    let len = be_value(input@.subrange(9, 13));
                    if input@.len() < 13 {
                        e.kind == ErrorKind::UnexpectedEof && e.message@
                            == "failed to fill whole buffer"@
                    } else if len > MAX_CHUNK_PAYLOAD_SIZE {
                        e.kind == ErrorKind::InvalidData && e.message@ == "payload too large: "@
                            + decimal(len)
                    } else {
                        input@.len() < 13 + len && e.kind == ErrorKind::UnexpectedEof && e.message@
                            == "failed to fill whole buffer"@
                    }
                },
            },
    {
        if input.len() < 13 {
            return Err(Error::new(ErrorKind::UnexpectedEof, "failed to fill whole buffer"));
        }
        let header: &[u8] = &input[0..13];
        assert(header@.subrange(9, 13) =~= input@.subrange(9, 13));
        match decode_response_header(header) {
            Err(e) => Err(e),
            Ok((request_id, status, len)) => {
                if input.len() - 13 < len {
                    return Err(
                        Error::new(ErrorKind::UnexpectedEof, "failed to fill whole buffer"),
                    );
                }
                let end: usize = 13 + len;
                let payload: Vec<u8> = vstd::slice::slice_to_vec(&input[13..end]);
                assert(input@.take(end as int).take(13) =~= header@);
                assert(input@.take(end as int).skip(13) =~= payload@);
                Ok((WireResponse { request_id, status, payload }, end))
            },
        }
    }
}

/// Reading the bytes of a response whose payload is at most a chunk gives its number, status
/// and payload back, whatever follows it.
pub proof fn law_response_roundtrip(
    s: Seq<u8>,
    rest: Seq<u8>,
    request_id: u64,
    status: u8,
    payload: Seq<u8>,
    got: WireResponse,
    taken: int,
)
    requires
        is_response_bytes(s, request_id, status, payload),
        0 <= taken <= (s + rest).len(),
        is_response_bytes((s + rest).take(taken), got.request_id, got.status, got.payload@),
    ensures
        got.request_id == request_id,
        got.status == status,
        got.payload@ == payload,
        taken == s.len(),
{
    let t = (s + rest).take(taken);
    assert(t.take(13) =~= s.take(13));
    assert(t.skip(13).len() == got.payload@.len());
    assert(taken == s.len());
    assert(t =~= s);
}

/// What is left to write of a header and a payload.
#[derive(Debug)]
pub struct VectoredWriteCursor<'a> {
    header: &'a [u8],
    payload: &'a [u8],
    written: usize,
}

impl<'a> VectoredWriteCursor<'a> {
    /// All that is to be written.
    pub closed spec fn all(self) -> Seq<u8> {
        self.header@ + self.payload@
    }

    /// How much of it was written.
    pub closed spec fn written(self) -> nat {
        self.written as nat
    }

    /// No more was written than there is.
    pub closed spec fn wf(self) -> bool {
        self.written <= self.header@.len() + self.payload@.len() <= usize::MAX
    }

    /// The bytes that are left to write.
    pub open spec fn left(self) -> Seq<u8> {
        self.all().skip(self.written() as int)
    }

    /// Nothing of `header` and `payload` was written yet.
    pub fn new(header: &'a [u8], payload: &'a [u8]) -> (r: VectoredWriteCursor<'a>)
        requires
            header@.len() + payload@.len() <= usize::MAX,
        ensures
            r.wf(),
            r.all() == header@ + payload@,
            r.written() == 0,
            r.left() == header@ + payload@,
    {
        let r: VectoredWriteCursor<'a> = VectoredWriteCursor { header, payload, written: 0 };
        assert(r.left() =~= r.all());
        r
    }

    /// Whether all was written.
    pub fn is_empty(&self) -> (r: bool)
        requires
            self.wf(),
        ensures
            r == (self.left().len() == 0),
    {
        self.written >= self.header.len() + self.payload.len()
    }

    /// What to write next, in one or two pieces.
    pub fn slices(&self) -> (r: (&'a [u8], &'a [u8]))
        requires
            self.wf(),
        ensures
            r.0@ + r.1@ == self.left(),
            r.0@.len() == 0 ==> self.left().len() == 0,
    {
        let n: usize = self.header.len();
        if self.written < n {
            let r: (&'a [u8], &'a [u8]) = (&self.header[self.written..n], self.payload);
            assert(r.0@ + r.1@ =~= self.left());
            return r;
        }
        let at: usize = self.written - n;
        let end: usize = self.payload.len();
        let r: (&'a [u8], &'a [u8]) = (&self.payload[at..end], &self.payload[end..end]);
        assert(r.0@ + r.1@ =~= self.left());
        r
    }

    /// Notes that `written` more bytes were written.
    pub fn advance(&mut self, written: usize)
        requires
            old(self).wf(),
        ensures
            final(self).wf(),
            final(self).all() == old(self).all(),
            final(self).written() == if old(self).written() + written <= old(self).all().len() {
                old(self).written() + written
            } else {
                old(self).all().len() as int
            },
    {
        let total: usize = self.header.len() + self.payload.len();
        self.written = if written <= total - self.written {
            self.written + written
        } else {
            total
        };
    }

    /// Takes what a write to the stream reported. A stream that takes nothing is broken.
    pub fn wrote(&mut self, n: usize) -> (r: Result<(), Error>)
        requires
            old(self).wf(),
        ensures
            final(self).wf(),
            final(self).all() == old(self).all(),
            match r {
                Ok(_) => {
                    &&& n > 0
                    &&& final(self).written() == if old(self).written() + n <= old(
                        self,
                    ).all().len() {
                        old(self).written() + n
                    } else {
                        old(self).all().len() as int
                    }
                },
                Err(e) => {
                    &&& n == 0
                    &&& final(self).written() == old(self).written()
                    &&& e.kind == ErrorKind::WriteZero
                    &&& e.message@ == "failed to write response to stream"@
                },
            },
    {
        if n == 0 {
            return Err(Error::new(ErrorKind::WriteZero, "failed to write response to stream"));
        }
        self.advance(n);
        Ok(())
    }
}

/// Each byte of a response is written once and in order: what a write takes off the front of
/// what is left is gone, and nothing else.
pub proof fn law_partial_writes_lose_nothing(
    all: Seq<u8>,
    written: int,
    n: int,
)
    requires
        0 <= written,
        0 <= n,
        written + n <= all.len(),
    ensures
        all.take(written) + all.skip(written).take(n) == all.take(written + n),
        all.skip(written).skip(n) == all.skip(written + n),
{
    assert(all.take(written) + all.skip(written).take(n) =~= all.take(written + n));
    assert(all.skip(written).skip(n) =~= all.skip(written + n));
}

/// Whether `s` holds a batch of checksums: 33 bytes for each, the method, then the digest.
pub open spec fn is_batch_bytes(s: Seq<u8>, checksums: Seq<CheckSum>) -> bool {
    &&& s.len() == checksums.len() * 33
    &&& forall|i: int|
        0 <= i < checksums.len() ==> {
            &&& byte_method(s[i * 33]) == (#[trigger] checksums[i]).method
            &&& s.subrange(i * 33 + 1, i * 33 + 33) == checksums[i].raw@
        }
}

/// The bytes of a batch of checksums.
pub fn encode_checksum_batch(checksums: &[CheckSum]) -> (r: Vec<u8>)
    requires
        checksums@.len() * 33 <= usize::MAX,
    ensures
        is_batch_bytes(r@, checksums@),
        forall|i: int|
            0 <= i < checksums@.len() ==> r@[i * 33] == method_byte(
                (#[trigger] checksums@[i]).method,
            ),
{
    let mut out: Vec<u8> = Vec::new();
    let mut i: usize = 0;
    while i < checksums.len()
        invariant
            i <= checksums@.len(),
            out@.len() == i * 33,
            forall|j: int|
                0 <= j < i ==> {
                    &&& out@[j * 33] == method_byte((#[trigger] checksums@[j]).method)
                    &&& out@.subrange(j * 33 + 1, j * 33 + 33) == checksums@[j].raw@
                },
        decreases checksums@.len() - i,
    {
        let cs: CheckSum = checksums[i];
        let ghost before = out@;
        out.push(u8::from(cs.method));
        append_bytes(&mut out, &cs.raw);
        proof {
            assert forall|j: int| 0 <= j < i + 1 implies {
                &&& out@[j * 33] == method_byte((#[trigger] checksums@[j]).method)
                &&& out@.subrange(j * 33 + 1, j * 33 + 33) == checksums@[j].raw@
            } by {
                if j < i {
                    assert(out@.subrange(j * 33 + 1, j * 33 + 33) =~= before.subrange(
                        j * 33 + 1,
                        j * 33 + 33,
                    ));
                } else {
                    assert(out@.subrange(j * 33 + 1, j * 33 + 33) =~= cs.raw@);
                }
            }
        }
        i = i + 1;
    }
    out
}

/// The checksums that a batch of `count` holds.
pub fn decode_checksum_batch(s: &[u8], count: usize) -> (r: Result<Vec<CheckSum>, Error>)
    ensures
        match r {
            Ok(checksums) => {
                &&& checksums@.len() == count
                &&& count * 33 <= s@.len()
                &&& is_batch_bytes(s@.take(count * 33), checksums@)
            },
            Err(e) => {
                &&& count * 33 > s@.len()
                &&& e.kind == ErrorKind::UnexpectedEof
                &&& e.message@ == "failed to fill whole buffer"@
            },
        },
{
    if s.len() / 33 < count {
        return Err(Error::new(ErrorKind::UnexpectedEof, "failed to fill whole buffer"));
    }
    assert(s.len() == s@.len());
    let ghost t = s@.take(count * 33);
    let mut out: Vec<CheckSum> = Vec::new();
    let mut i: usize = 0;
    while i < count
        invariant
            i <= count,
            count * 33 <= s.len() == s@.len(),
            t == s@.take(count * 33),
            out@.len() == i,
            forall|j: int|
                0 <= j < i ==> {
                    &&& byte_method(t[j * 33]) == (#[trigger] out@[j]).method
                    &&& t.subrange(j * 33 + 1, j * 33 + 33) == out@[j].raw@
                },
        decreases count - i,
    {
        let at: usize = i * 33;
        let raw: [u8; 32] = take32(s, at + 1);
        let cs: CheckSum = CheckSum { raw, method: CheckSumMethod::from(s[at]) };
        assert(t.subrange(at + 1, at + 33) =~= s@.subrange(at + 1, at + 33));
        out.push(cs);
        i = i + 1;
    }
    Ok(out)
}

/// The bytes of a batch give its checksums back.
pub proof fn law_checksum_batch_roundtrip(s: Seq<u8>, a: Seq<CheckSum>, b: Seq<CheckSum>)
    requires
        is_batch_bytes(s, a),
        is_batch_bytes(s, b),
    ensures
        a == b,
{
    assert forall|i: int| 0 <= i < a.len() implies a[i] == b[i] by {
        lemma_checksum_ext(a[i], b[i]);
    }
    assert(a =~= b);
}

/// A request is written as one byte string only, up to the byte of an unknown method.
pub proof fn law_request_bytes_unique(s: Seq<u8>, t: Seq<u8>, req: Request)
    requires
        is_request_bytes(s, req),
        is_request_bytes(t, req),
        s[9] == t[9],
    ensures
        s == t,
{
    lemma_be_value_injective(s.subrange(0, 8), t.subrange(0, 8));
    lemma_be_value_injective(s.subrange(42, 46), t.subrange(42, 46));
    lemma_be_value_injective(s.subrange(46, 50), t.subrange(46, 50));
    assert(s =~= s.subrange(0, 8) + seq![s[8], s[9]] + s.subrange(10, 42) + s.subrange(42, 46)
        + s.subrange(46, 50));
    assert(t =~= t.subrange(0, 8) + seq![t[8], t[9]] + t.subrange(10, 42) + t.subrange(42, 46)
        + t.subrange(46, 50));
}

/// A request that is written is read back as it was.
pub proof fn law_request_survives_the_wire(
    a: &Request,
    bytes: [u8; 50],
    r: Result<Request, Error>,
)
    requires
        call_ensures(Request::encode, (a,), bytes),
        call_ensures(Request::decode, (bytes,), r),
    ensures
        r == Ok::<Request, Error>(*a),
{
    if let Ok(b) = r {
        law_request_roundtrip(bytes@, *a, b);
    }
}

/// Writing a request leaves what was written before it, and adds the bytes of the request.
pub proof fn law_request_is_appended(
    a: &Request,
    out: &mut Vec<u8>,
    bytes: [u8; 50],
)
    requires
        call_ensures(Request::write_to_sync, (a, out), ()),
        call_ensures(Request::encode, (a,), bytes),
    ensures
        final(out)@ == old(out)@ + bytes@,
{
    let n = old(out)@.len() as int;
    let tail = final(out)@.skip(n);
    assert(tail[9] == bytes@[9]);
    law_request_bytes_unique(tail, bytes@, *a);
    assert(final(out)@ =~= final(out)@.take(n) + tail);
}

/// A response that is written is read back as it was, whatever follows it, and no byte of what
/// follows is taken.
pub proof fn law_response_survives_the_wire(
    a: &WireResponse,
    bytes: Vec<u8>,
    rest: Seq<u8>,
    input: &[u8],
    r: Result<(WireResponse, usize), Error>,
)
    requires
        a.payload@.len() <= MAX_CHUNK_PAYLOAD_SIZE,
        call_ensures(WireResponse::to_bytes, (a,), bytes),
        input@ == bytes@ + rest,
        call_ensures(WireResponse::read_from_sync, (input,), r),
    ensures
        r is Ok,
        r->Ok_0.0.request_id == a.request_id,
        r->Ok_0.0.status == a.status,
        r->Ok_0.0.payload@ == a.payload@,
        input@.skip(r->Ok_0.1 as int) == rest,
{
    assert(call_requires(WireResponse::to_bytes, (a,)));
    assert(input@.subrange(9, 13) =~= bytes@.take(13).subrange(9, 13));
    if let Ok((resp, taken)) = r {
        law_response_roundtrip(
            bytes@,
            rest,
            a.request_id,
            a.status,
            a.payload@,
            resp,
            taken as int,
        );
        assert(input@.skip(taken as int) =~= rest);
    }
}

/// A batch of checksums that is written is read back as it was.
pub proof fn law_batch_survives_the_wire(
    a: &[CheckSum],
    bytes: Vec<u8>,
    input: &[u8],
    r: Result<Vec<CheckSum>, Error>,
)
    requires
        a@.len() * 33 <= usize::MAX,
        a@.len() <= usize::MAX,
        call_ensures(encode_checksum_batch, (a,), bytes),
        input@ == bytes@,
        call_ensures(decode_checksum_batch, (input, a@.len() as usize), r),
    ensures
        r is Ok,
        r->Ok_0@ == a@,
{
    assert(call_requires(encode_checksum_batch, (a,)));
    if let Ok(b) = r {
        assert(input@.take((a@.len() * 33) as int) =~= bytes@);
        law_checksum_batch_roundtrip(bytes@, a@, b@);
    }
}

/// The byte of a message type leads back to it, and every byte leads to one type or to none.
pub proof fn law_message_type_survives_the_wire(
    m: MessageType,
    byte: u8,
    r: Result<MessageType, Error>,
    other: u8,
    of_other: Result<MessageType, Error>,
)
    requires
        call_ensures(MessageType::to_byte, (m,), byte),
        call_ensures(MessageType::try_from_byte, (byte,), r),
        call_ensures(MessageType::try_from_byte, (other,), of_other),
    ensures
        r == Ok::<MessageType, Error>(m),
        of_other == Ok::<MessageType, Error>(m) ==> other == byte,
        of_other is Ok <==> 1 <= other <= 7,
{
}

/// A response is written piece by piece without losing or repeating a byte: what is to be written
/// next are the bytes that are left, what the stream took is gone from their front, and all is
/// written once none is left. A stream that takes nothing is an error and changes nothing.
pub proof fn law_written_bytes_are_gone<'a>(
    at: &VectoredWriteCursor<'a>,
    pieces: (&'a [u8], &'a [u8]),
    empty: bool,
    cursor: &mut VectoredWriteCursor<'a>,
    n: usize,
    r: Result<(), Error>,
)
    requires
        at.wf(),
        call_ensures(VectoredWriteCursor::<'a>::slices, (at,), pieces),
        call_ensures(VectoredWriteCursor::<'a>::is_empty, (at,), empty),
        *old(cursor) == *at,
        at.written() <= at.all().len(),
        n <= pieces.0@.len() + pieces.1@.len(),
        call_ensures(VectoredWriteCursor::<'a>::wrote, (cursor, n), r),
    ensures
        final(cursor).wf(),
        empty <==> pieces.0@.len() + pieces.1@.len() == 0,
        r is Ok <==> n > 0,
        final(cursor).left() == (pieces.0@ + pieces.1@).skip(n as int),
        !empty ==> pieces.0@.len() > 0,
{
    assert(call_requires(VectoredWriteCursor::<'a>::slices, (at,)));
    assert(call_requires(VectoredWriteCursor::<'a>::is_empty, (at,)));
    assert(call_requires(VectoredWriteCursor::<'a>::wrote, (cursor, n)));
    assert(pieces.0@ + pieces.1@ == at.left());
    assert(final(cursor).left() =~= at.left().skip(n as int));
}

/// Requests that are made for a whole chunk pass the test for it, and requests that are made for a
/// batch pass the test for that with their number.
pub proof fn law_made_requests_are_whole(
    message_type: MessageType,
    checksum: CheckSum,
    whole: Request,
    at: &Request,
    full: Result<(), Error>,
    count: usize,
    batch: Request,
    at_batch: &Request,
    counted: Result<usize, Error>,
)
    requires
        call_ensures(Request::whole_chunk, (message_type, checksum), whole),
        *at == whole,
        call_ensures(Request::ensure_full_chunk, (at,), full),
        count <= u32::MAX,
        call_ensures(Request::control_batch, (message_type, count), batch),
        *at_batch == batch,
        call_ensures(Request::ensure_control_batch, (at_batch,), counted),
    ensures
        full is Ok,
        whole.message_type == message_type,
        whole.checksum == checksum,
        counted == Ok::<usize, Error>(count),
        batch.message_type == message_type,
{
}

/// What is written in front of a payload is read back, where the payload is at most a chunk; a
/// longer one is refused.
pub proof fn law_response_header_survives_the_wire(
    request_id: u64,
    status: u8,
    len: usize,
    header: [u8; 13],
    bytes: &[u8],
    r: Result<(u64, u8, usize), Error>,
)
    requires
        len <= u32::MAX,
        call_ensures(encode_response_header, (request_id, status, len), header),
        bytes@ == header@,
        call_ensures(decode_response_header, (bytes,), r),
    ensures
        r is Ok <==> len <= MAX_CHUNK_PAYLOAD_SIZE,
        r is Ok ==> r == Ok::<(u64, u8, usize), Error>((request_id, status, len)),
{
    assert(call_requires(decode_response_header, (bytes,)));
}

/// A response that is cut short is told from one that is too long: the one is an end of the stream,
/// the other is invalid.
pub proof fn law_cut_response_is_an_end_of_stream(
    a: &WireResponse,
    bytes: Vec<u8>,
    n: int,
    input: &[u8],
    r: Result<(WireResponse, usize), Error>,
)
    requires
        a.payload@.len() <= MAX_CHUNK_PAYLOAD_SIZE,
        call_ensures(WireResponse::to_bytes, (a,), bytes),
        0 <= n < bytes@.len(),
        input@ == bytes@.take(n),
        call_ensures(WireResponse::read_from_sync, (input,), r),
    ensures
        r is Err,
        r->Err_0.kind == ErrorKind::UnexpectedEof,
{
    assert(call_requires(WireResponse::to_bytes, (a,)));
    if input@.len() >= 13 {
        assert(input@.subrange(9, 13) =~= bytes@.take(13).subrange(9, 13));
        if let Ok((resp, taken)) = r {
            let t = input@.take(taken as int);
            assert(t.take(13) =~= bytes@.take(13));
        }
    }
}

/// A header and a payload that are written by a stream that takes all of it are written whole.
pub proof fn law_whole_write_leaves_nothing<'a>(
    header: &'a [u8],
    payload: &'a [u8],
    cursor: &mut VectoredWriteCursor<'a>,
    at: &VectoredWriteCursor<'a>,
    pieces: (&'a [u8], &'a [u8]),
    n: usize,
    r: Result<(), Error>,
    later: &VectoredWriteCursor<'a>,
    empty: bool,
)
    requires
        0 < header@.len() + payload@.len() <= usize::MAX,
        call_ensures(VectoredWriteCursor::<'a>::new, (header, payload), *old(cursor)),
        *at == *old(cursor),
        call_ensures(VectoredWriteCursor::<'a>::slices, (at,), pieces),
        n == pieces.0@.len() + pieces.1@.len(),
        call_ensures(VectoredWriteCursor::<'a>::wrote, (cursor, n), r),
        *later == *final(cursor),
        call_ensures(VectoredWriteCursor::<'a>::is_empty, (later,), empty),
    ensures
        pieces.0@ + pieces.1@ == header@ + payload@,
        r is Ok,
        empty,
{
    assert(call_requires(VectoredWriteCursor::<'a>::new, (header, payload)));
    assert(call_requires(VectoredWriteCursor::<'a>::slices, (at,)));
    assert(call_requires(VectoredWriteCursor::<'a>::wrote, (cursor, n)));
    assert(call_requires(VectoredWriteCursor::<'a>::is_empty, (later,)));
    assert((pieces.0@ + pieces.1@).len() == n);
}

/// How a request stands on the wire: its number first, then the type, the method and the digest of
/// the checksum, the offset and the length; of a number, the byte that counts most comes first.
pub proof fn law_request_layout(a: &Request, bytes: [u8; 50], i: int)
    requires
        call_ensures(Request::encode, (a,), bytes),
        0 <= i < 32,
    ensures
        be_value(bytes@.subrange(0, 8)) == a.request_id,
        bytes@[10 + i] == a.checksum.raw@[i],
        bytes@[42] * 0x100_0000 + bytes@[43] * 0x1_0000 + bytes@[44] * 0x100 + bytes@[45]
            == a.offset,
        bytes@[46] * 0x100_0000 + bytes@[47] * 0x1_0000 + bytes@[48] * 0x100 + bytes@[49]
            == a.length,
        a.message_type is GetChunk <==> bytes@[8] == 1,
        a.message_type is PrefetchChunk <==> bytes@[8] == 2,
        a.message_type is RegisterChunk <==> bytes@[8] == 3,
        a.message_type is UnregisterChunk <==> bytes@[8] == 4,
        a.message_type is RegisterChunks <==> bytes@[8] == 5,
        a.message_type is UnregisterChunks <==> bytes@[8] == 6,
        a.message_type is HealthCheck <==> bytes@[8] == 7,
{
    crate::bytes::law_four_bytes_denote_a_number(bytes@.subrange(42, 46));
    crate::bytes::law_four_bytes_denote_a_number(bytes@.subrange(46, 50));
    assert(bytes@.subrange(10, 42)[i] == bytes@[10 + i]);
}

/// How a response stands on the wire: the number of the request, the status, the length of the
/// payload, the payload.
pub proof fn law_response_layout(a: &WireResponse, bytes: Vec<u8>, i: int)
    requires
        a.payload@.len() <= u32::MAX,
        call_ensures(WireResponse::to_bytes, (a,), bytes),
        0 <= i < a.payload@.len(),
    ensures
        be_value(bytes@.subrange(0, 8)) == a.request_id,
        bytes@[8] == a.status,
        bytes@[9] * 0x100_0000 + bytes@[10] * 0x1_0000 + bytes@[11] * 0x100 + bytes@[12]
            == a.payload@.len(),
        bytes@[13 + i] == a.payload@[i],
{
    assert(call_requires(WireResponse::to_bytes, (a,)));
    let header = bytes@.take(13);
    assert(bytes@.subrange(0, 8) =~= header.subrange(0, 8));
    crate::bytes::law_four_bytes_denote_a_number(header.subrange(9, 13));
    assert(bytes@.skip(13)[i] == bytes@[13 + i]);
}

} // verus!
