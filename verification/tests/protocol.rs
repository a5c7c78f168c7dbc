use distill_fs::backend::peer::client::{
    batch_message, chunk_outcome, chunk_reply, control_done, control_reply, is_well, Outcome,
};
use distill_fs::backend::peer::health::CircuitBreaker;
use distill_fs::backend::peer::protocol::{
    decode_checksum_batch, decode_response_header, encode_checksum_batch, encode_response_header,
    MessageType, Request, VectoredWriteCursor, WireResponse, MAX_CHUNK_PAYLOAD_SIZE, REQUEST_LEN,
    STATUS_ERROR, STATUS_HIT, STATUS_MISS,
};
use distill_fs::backend::peer::server::{
    after_read, chunk_hit_header, missing_chunk_reply, request_name, Inbound, ReadEnd,
    ServeAction, ServeEvent, ServeTask, Services, Transport,
};
use distill_fs::backend::peer::session::{timeout_error, Delivery, MultiplexedSession, Reply};
use distill_fs::checksum::{CheckSum, CheckSumMethod};
use distill_fs::error::{Error, ErrorKind};
use std::collections::HashMap;

/// A chunk server whose connections are byte strings.
#[derive(Default)]
struct Server {
    chunks: HashMap<[u8; 32], Vec<u8>>,
    peer_chunks: HashMap<[u8; 32], Vec<u8>>,
    has_client: bool,
    has_index: bool,
    index_fails: bool,
    registered: Vec<CheckSum>,
    unregistered: Vec<CheckSum>,
}

impl Server {
    fn add_chunk(&mut self, cs: &CheckSum, data: Vec<u8>) {
        self.chunks.insert(cs.raw, data);
    }

    fn index_event(&self) -> ServeEvent {
        if self.index_fails {
            ServeEvent::Failed
        } else {
            ServeEvent::Applied
        }
    }

    fn answer(&mut self, request: Request, checksums: Vec<CheckSum>, t: Transport) -> WireResponse {
        let services = Services {
            transport: t,
            has_client: self.has_client,
            has_index: self.has_index,
        };
        let mut task = ServeTask::new(request, checksums, services);
        let mut action = task.on_event(ServeEvent::Start);
        loop {
            let event = match action {
                ServeAction::Find(cs) => ServeEvent::Found(self.chunks.contains_key(&cs.raw)),
                ServeAction::Fetch(cs) => {
                    ServeEvent::Fetched(self.peer_chunks.get(&cs.raw).cloned())
                }
                ServeAction::Store(cs, data) => {
                    self.chunks.insert(cs.raw, data);
                    ServeEvent::Applied
                }
                ServeAction::Register(cs) => {
                    self.registered.push(cs);
                    self.index_event()
                }
                ServeAction::Unregister(cs) => {
                    self.unregistered.push(cs);
                    self.index_event()
                }
                ServeAction::RegisterAll(all) => {
                    self.registered.extend(all);
                    self.index_event()
                }
                ServeAction::UnregisterAll(all) => {
                    self.unregistered.extend(all);
                    self.index_event()
                }
                ServeAction::SendChunk {
                    request_id,
                    checksum,
                } => {
                    return match self.chunks.get(&checksum.raw) {
                        Some(data) => {
                            let mut bytes = chunk_hit_header(request_id, data).to_vec();
                            bytes.extend_from_slice(data);
                            WireResponse::read_from_sync(&bytes).unwrap().0
                        }
                        None => missing_chunk_reply(request_id, false).0,
                    }
                }
                ServeAction::Reply(response, _) => return response,
                ServeAction::Nothing => panic!("answered twice"),
            };
            action = task.on_event(event);
        }
    }

    /// Serves a connection on which `input` comes in, and returns what goes out.
    fn serve(&mut self, input: &[u8], t: Transport) -> Vec<u8> {
        let mut out = Vec::new();
        let mut at = 0;
        loop {
            let end = if input.len() - at < REQUEST_LEN {
                ReadEnd::Failed(Error::new(ErrorKind::UnexpectedEof, "eof"))
            } else {
                let bytes: [u8; REQUEST_LEN] = input[at..at + REQUEST_LEN].try_into().unwrap();
                at += REQUEST_LEN;
                match Request::decode(bytes) {
                    Ok(request) => ReadEnd::Request(request),
                    Err(e) => ReadEnd::Failed(e),
                }
            };
            match after_read(end) {
                Inbound::Answer(request, count) => {
                    let checksums = decode_checksum_batch(&input[at..], count).unwrap();
                    at += count * 33;
                    out.extend(self.answer(request, checksums, t).to_bytes());
                }
                Inbound::Close | Inbound::Abort(_) => return out,
            }
        }
    }
}

fn responses(mut bytes: &[u8]) -> Vec<WireResponse> {
    let mut out = Vec::new();
    while !bytes.is_empty() {
        let (response, taken) = WireResponse::read_from_sync(bytes).unwrap();
        out.push(response);
        bytes = &bytes[taken..];
    }
    out
}

#[test]
fn test_request_roundtrip() {
    let checksum = CheckSum::from_data(b"hello", CheckSumMethod::Blake3);
    let req = Request::whole_chunk(MessageType::GetChunk, checksum);
    let encoded = req.encode();
    let decoded = Request::decode(encoded).unwrap();
    assert_eq!(decoded, req);
}

#[test]
fn test_request_rejects_non_full_chunk() {
    let checksum = CheckSum::from_data(b"hello", CheckSumMethod::Blake3);
    let req = Request::new(0, MessageType::GetChunk, checksum, 12, 34);
    let err = req.ensure_full_chunk().unwrap_err();
    assert_eq!(err.kind, ErrorKind::InvalidInput);
    assert_eq!(
        err.message,
        "chunk peer protocol only supports full-chunk requests, got offset=12 length=34"
    );
}

#[test]
fn test_chunk_response_rejects_oversized_payload() {
    let mut data = Vec::new();
    data.extend_from_slice(&0_u64.to_be_bytes());
    data.push(STATUS_HIT);
    data.extend_from_slice(&((MAX_CHUNK_PAYLOAD_SIZE as u32) + 1).to_be_bytes());
    let err = WireResponse::read_from_sync(data.as_slice()).unwrap_err();
    assert_eq!(err.kind, ErrorKind::InvalidData);
    assert_eq!(err.message, "payload too large: 4194305");
}

#[test]
fn test_wire_response_roundtrip() {
    let response = WireResponse {
        request_id: 42,
        status: STATUS_HIT,
        payload: b"payload".to_vec(),
    };
    let (decoded, taken) = WireResponse::read_from_sync(&response.to_bytes()).unwrap();
    assert_eq!(taken, 13 + 7);
    assert_eq!(decoded.request_id, 42);
    assert_eq!(decoded.status, STATUS_HIT);
    assert_eq!(decoded.payload, b"payload".to_vec());
}

#[test]
fn test_chunk_response_roundtrip_preserves_request_id() {
    let expected = WireResponse {
        request_id: 42,
        status: STATUS_HIT,
        payload: b"payload".to_vec(),
    };
    let (actual, _) = WireResponse::read_from_sync(&expected.to_bytes()).unwrap();
    assert_eq!(actual, expected);
}

#[test]
fn test_chunk_server_get_chunk() {
    let mut server = Server::default();
    let data = b"peer-data".to_vec();
    let checksum = CheckSum::from_data(&data, CheckSumMethod::Blake3);
    server.add_chunk(&checksum, data.clone());

    let mut stream = Vec::new();
    Request::whole_chunk(MessageType::GetChunk, checksum).write_to_sync(&mut stream);
    let out = responses(&server.serve(&stream, Transport::Tcp));
    assert_eq!(out.len(), 1);
    assert_eq!(out[0].status, STATUS_HIT);
    assert_eq!(out[0].payload, data);
}

#[test]
fn test_chunk_server_keeps_tcp_connection_alive_for_multiple_requests() {
    let mut server = Server::default();
    let data = b"peer-data".to_vec();
    let checksum = CheckSum::from_data(&data, CheckSumMethod::Blake3);
    server.add_chunk(&checksum, data.clone());

    let mut stream = Vec::new();
    for _ in 0..2 {
        Request::whole_chunk(MessageType::GetChunk, checksum).write_to_sync(&mut stream);
    }
    let out = responses(&server.serve(&stream, Transport::Tcp));
    assert_eq!(out.len(), 2);
    for response in out {
        assert_eq!(response.status, STATUS_HIT);
        assert_eq!(response.payload, data);
    }
}

#[test]
fn test_chunk_server_raw_pipelined_requests_require_request_id_matching() {
    let mut server = Server::default();
    let data = b"peer-data".to_vec();
    let checksum = CheckSum::from_data(&data, CheckSumMethod::Blake3);
    server.add_chunk(&checksum, data.clone());

    let mut stream = Vec::new();
    let get_request = Request::whole_chunk(MessageType::GetChunk, checksum);
    let health_request = Request::whole_chunk(MessageType::HealthCheck, CheckSum::empty());
    get_request.write_to_sync(&mut stream);
    health_request.write_to_sync(&mut stream);

    let out = responses(&server.serve(&stream, Transport::Tcp));
    assert!(out.iter().any(|response| {
        response.request_id == get_request.request_id
            && response.status == STATUS_HIT
            && response.payload == data
    }));
    assert!(out.iter().any(|response| {
        response.request_id == health_request.request_id
            && response.status == STATUS_HIT
            && response.payload.is_empty()
    }));
}

#[test]
fn test_chunk_server_health_check_over_tcp_and_unix() {
    let mut server = Server::default();
    for transport in [Transport::Tcp, Transport::Unix] {
        let mut stream = Vec::new();
        Request::whole_chunk(MessageType::HealthCheck, CheckSum::empty())
            .write_to_sync(&mut stream);
        let out = responses(&server.serve(&stream, transport));
        assert_eq!(out[0].status, STATUS_HIT);
        assert!(out[0].payload.is_empty());
    }
}

#[test]
fn test_chunk_server_keeps_unix_connection_alive_for_multiple_requests() {
    let mut server = Server {
        has_client: true,
        has_index: true,
        ..Default::default()
    };
    let checksum = CheckSum::from_data(b"register-me", CheckSumMethod::Blake3);
    let mut stream = Vec::new();
    for message_type in [
        MessageType::HealthCheck,
        MessageType::RegisterChunk,
        MessageType::UnregisterChunk,
    ] {
        Request::whole_chunk(message_type, checksum).write_to_sync(&mut stream);
    }
    let out = responses(&server.serve(&stream, Transport::Unix));
    assert_eq!(out.len(), 3);
    for resp in out {
        assert_eq!(resp.status, STATUS_HIT);
        assert!(resp.payload.is_empty());
    }
    assert_eq!(server.registered, vec![checksum]);
    assert_eq!(server.unregistered, vec![checksum]);
}

#[test]
fn test_multiplexed_session_routes_out_of_order_responses() {
    let mut session = MultiplexedSession::new(0);
    let checksum1 = CheckSum::from_data(b"first", CheckSumMethod::Blake3);
    let checksum2 = CheckSum::from_data(b"second", CheckSumMethod::Blake3);
    let mut first = Request::whole_chunk(MessageType::GetChunk, checksum1);
    let mut second = Request::whole_chunk(MessageType::GetChunk, checksum2);
    let id1 = session.begin(&mut first, 1).unwrap();
    let id2 = session.begin(&mut second, 2).unwrap();
    assert_ne!(first.request_id, second.request_id);
    assert_eq!((first.request_id, second.request_id), (id1, id2));
    assert_eq!(session.inflight(), 2);

    let mut received = Vec::new();
    for (id, payload) in [(id2, b"second".to_vec()), (id1, b"first".to_vec())] {
        assert!(matches!(session.responded(id, 3), Delivery::Deliver));
        let response = WireResponse {
            request_id: id,
            status: STATUS_HIT,
            payload,
        };
        let (result, failed) = session.finish(id, Reply::Response(response), 4);
        assert!(failed.is_empty());
        received.push(result.unwrap().payload);
    }
    assert_eq!(received, vec![b"second".to_vec(), b"first".to_vec()]);
    assert_eq!(session.inflight(), 0);
}

#[test]
fn test_multiplexed_session_touch_updates_last_used() {
    let mut session = MultiplexedSession::new(10);
    let before = session.last_used();
    session.touch(2010);
    assert!(session.last_used() >= before);
    assert_eq!(session.last_used(), 2010);
}

fn begun(n: u64) -> MultiplexedSession {
    let mut session = MultiplexedSession::new(0);
    for i in 1..=n {
        let mut request = Request::whole_chunk(MessageType::GetChunk, CheckSum::empty());
        assert_eq!(session.begin(&mut request, 0).unwrap(), i);
    }
    session
}

#[test]
fn a_session_that_fails_fails_all_that_wait() {
    let mut session = begun(3);
    let (e, failed) = session.write_failed(2, Error::new(ErrorKind::BrokenPipe, "gone"));
    assert_eq!(e.message, "gone");
    assert_eq!(failed, vec![1, 3]);
    assert!(session.is_closed());
    let mut request = Request::whole_chunk(MessageType::GetChunk, CheckSum::empty());
    let e = session.begin(&mut request, 0).unwrap_err();
    assert_eq!(e.kind, ErrorKind::BrokenPipe);
    assert_eq!(e.message, "session is closed");
    assert!(session.close().is_empty());
    assert_eq!(session.inflight(), 2);
}

#[test]
fn slow_requests_close_the_session() {
    let mut session = begun(2);
    let (e, failed) = session.write_timed_out(1);
    assert_eq!(e.kind, ErrorKind::TimedOut);
    assert_eq!(e.message, "request write timed out");
    assert_eq!(failed, vec![2]);
    let mut session = begun(2);
    let (r, failed) = session.finish(2, Reply::TimedOut, 9);
    assert_eq!(r.unwrap_err().message, "response read timed out");
    assert_eq!(failed, vec![1]);
    assert!(session.is_closed());
    let mut session = begun(1);
    let (r, _) = session.finish(1, Reply::ChannelClosed, 9);
    assert_eq!(r.unwrap_err().message, "response channel closed");
    assert!(!session.is_closed());
    let mut session = begun(1);
    let (r, _) = session.finish(1, Reply::Failed(timeout_error("peer connect")), 9);
    assert_eq!(r.unwrap_err().message, "peer connect timed out");
}

#[test]
fn a_response_that_nothing_waits_for_closes_the_session() {
    let mut session = begun(1);
    match session.responded(7, 1) {
        Delivery::Close(e, failed) => {
            assert_eq!(e.kind, ErrorKind::InvalidData);
            assert_eq!(e.message, "unknown response request_id=7");
            assert_eq!(failed, vec![1]);
        }
        Delivery::Deliver => panic!("delivered"),
    }
    assert!(session.is_closed());
}

#[test]
fn message_types_have_bytes() {
    for b in 1..=7 {
        assert_eq!(MessageType::try_from_byte(b).unwrap().to_byte(), b);
    }
    let e = MessageType::try_from_byte(8).unwrap_err();
    assert_eq!(e.kind, ErrorKind::InvalidData);
    assert_eq!(e.message, "invalid message type: 8");
    assert!(MessageType::try_from_byte(0).is_err());
    let mut bytes = Request::whole_chunk(MessageType::GetChunk, CheckSum::empty()).encode();
    bytes[8] = 9;
    assert!(Request::decode(bytes).is_err());
    assert_eq!(request_name(MessageType::RegisterChunks), "register_batch");
    assert_eq!(request_name(MessageType::PrefetchChunk), "prefetch");
}

#[test]
fn requests_have_fixed_places() {
    let cs = CheckSum::from_data(b"p", CheckSumMethod::Blake3);
    let bytes = Request::new(0x0102, MessageType::HealthCheck, cs, 3, 4).encode();
    assert_eq!(&bytes[..8], &[0, 0, 0, 0, 0, 0, 1, 2]);
    assert_eq!((bytes[8], bytes[9]), (7, 1));
    assert_eq!(&bytes[10..42], &cs.raw);
    assert_eq!(&bytes[42..], &[0, 0, 0, 3, 0, 0, 0, 4]);
    let header = encode_response_header(5, STATUS_MISS, 6);
    assert_eq!(header, [0, 0, 0, 0, 0, 0, 0, 5, 1, 0, 0, 0, 6]);
    assert_eq!(decode_response_header(&header).unwrap(), (5, STATUS_MISS, 6));
    let e = WireResponse::read_from_sync(&header).unwrap_err();
    assert_eq!(e.kind, ErrorKind::UnexpectedEof);
    assert!(WireResponse::read_from_sync(&header[..12]).is_err());
}

#[test]
fn batches_of_checksums_come_back() {
    let all = [
        CheckSum::from_data(b"1", CheckSumMethod::Blake3),
        CheckSum::from_data(b"2", CheckSumMethod::Sha256),
    ];
    let bytes = encode_checksum_batch(&all);
    assert_eq!(bytes.len(), 66);
    assert_eq!(decode_checksum_batch(&bytes, 2).unwrap(), all.to_vec());
    assert_eq!(decode_checksum_batch(&bytes, 1).unwrap(), all[..1].to_vec());
    let e = decode_checksum_batch(&bytes, 3).unwrap_err();
    assert_eq!(e.kind, ErrorKind::UnexpectedEof);
    let (request, payload) = batch_message(MessageType::RegisterChunks, &all).unwrap();
    assert_eq!((request.length, payload), (2, bytes));
    assert!(batch_message(MessageType::RegisterChunks, &[]).is_none());
    assert_eq!(request.ensure_control_batch().unwrap(), 2);
    let bad = Request::new(0, MessageType::RegisterChunks, CheckSum::empty(), 1, 2);
    let e = bad.ensure_control_batch().unwrap_err();
    assert_eq!(e.message, "invalid batch control request offset=1");
    assert!(matches!(after_read(ReadEnd::Request(bad)), Inbound::Abort(_)));
    assert!(matches!(after_read(ReadEnd::Idle), Inbound::Close));
}

#[test]
fn partial_writes_lose_nothing() {
    let header = [1u8, 2, 3];
    let payload = [4u8, 5, 6, 7];
    for step in 1..=7 {
        let mut cursor = VectoredWriteCursor::new(&header, &payload);
        let mut out: Vec<u8> = Vec::new();
        while !cursor.is_empty() {
            let (a, b) = cursor.slices();
            let all: Vec<u8> = a.iter().chain(b).copied().collect();
            let n = step.min(all.len());
            out.extend(&all[..n]);
            cursor.wrote(n).unwrap();
        }
        assert_eq!(out, vec![1, 2, 3, 4, 5, 6, 7]);
    }
    let mut cursor = VectoredWriteCursor::new(&header, &payload);
    let e = cursor.wrote(0).unwrap_err();
    assert_eq!(e.kind, ErrorKind::WriteZero);
    assert_eq!(e.message, "failed to write response to stream");
    cursor.advance(usize::MAX);
    assert!(cursor.is_empty());
}

fn ask(server: &mut Server, kind: MessageType, cs: CheckSum, t: Transport) -> u8 {
    let mut request = Request::whole_chunk(kind, cs);
    request.request_id = 77;
    let response = server.answer(request, vec![], t);
    assert_eq!(response.request_id, 77);
    response.status
}

#[test]
fn prefetched_chunks_are_checked_and_stored() {
    let cs = CheckSum::from_data(b"good", CheckSumMethod::Blake3);
    let mut server = Server::default();
    let prefetch = MessageType::PrefetchChunk;
    assert_eq!(ask(&mut server, prefetch, cs, Transport::Unix), STATUS_MISS);
    server.has_client = true;
    assert_eq!(ask(&mut server, prefetch, cs, Transport::Unix), STATUS_MISS);
    server.peer_chunks.insert(cs.raw, b"forged".to_vec());
    assert_eq!(ask(&mut server, prefetch, cs, Transport::Unix), STATUS_MISS);
    assert!(server.chunks.is_empty());
    server.peer_chunks.insert(cs.raw, b"good".to_vec());
    assert_eq!(ask(&mut server, prefetch, cs, Transport::Unix), STATUS_HIT);
    assert_eq!(server.chunks[&cs.raw], b"good".to_vec());
    server.has_client = false;
    assert_eq!(ask(&mut server, prefetch, cs, Transport::Unix), STATUS_HIT);
}

#[test]
fn only_this_node_tells_the_index() {
    let cs = CheckSum::from_data(b"r", CheckSumMethod::Blake3);
    let mut server = Server {
        has_index: true,
        ..Default::default()
    };
    let register = MessageType::RegisterChunk;
    assert_eq!(ask(&mut server, register, cs, Transport::Tcp), STATUS_ERROR);
    assert!(server.registered.is_empty());
    assert_eq!(ask(&mut server, register, cs, Transport::Unix), STATUS_HIT);
    server.index_fails = true;
    assert_eq!(ask(&mut server, register, cs, Transport::Unix), STATUS_ERROR);
    let mut bare = Server::default();
    assert_eq!(ask(&mut bare, register, cs, Transport::Unix), STATUS_HIT);
    assert_eq!(
        ask(&mut bare, MessageType::UnregisterChunk, cs, Transport::Unix),
        STATUS_HIT
    );
    assert!(bare.registered.is_empty());
}

#[test]
fn batches_reach_the_index() {
    let all = vec![
        CheckSum::from_data(b"1", CheckSumMethod::Blake3),
        CheckSum::from_data(b"2", CheckSumMethod::Sha256),
    ];
    let mut server = Server {
        has_index: true,
        ..Default::default()
    };
    let mut stream = Vec::new();
    for kind in [MessageType::RegisterChunks, MessageType::UnregisterChunks] {
        let (request, payload) = batch_message(kind, &all).unwrap();
        request.write_to_sync(&mut stream);
        stream.extend(payload);
    }
    let out = responses(&server.serve(&stream, Transport::Unix));
    assert!(out.iter().all(|r| r.status == STATUS_HIT));
    assert_eq!(server.registered, all);
    assert_eq!(server.unregistered, all);
    let request = Request::control_batch(MessageType::RegisterChunks, 3);
    let response = server.answer(request, all.clone(), Transport::Unix);
    assert_eq!(response.status, STATUS_ERROR);
    let request = Request::control_batch(MessageType::RegisterChunks, 2);
    let response = server.answer(request, all, Transport::Tcp);
    assert_eq!(response.status, STATUS_ERROR);
}

#[test]
fn partial_chunks_are_not_served() {
    let mut server = Server::default();
    let cs = CheckSum::empty();
    for kind in [
        MessageType::GetChunk,
        MessageType::PrefetchChunk,
        MessageType::HealthCheck,
        MessageType::RegisterChunk,
    ] {
        let request = Request::new(1, kind, cs, 0, 5);
        let response = server.answer(request, vec![], Transport::Unix);
        assert_eq!(response.status, STATUS_ERROR);
    }
    let request = Request::new(1, MessageType::GetChunk, cs, 0, 0);
    let response = server.answer(request, vec![], Transport::Unix);
    assert_eq!(response.status, STATUS_MISS);
    assert_eq!(missing_chunk_reply(3, true).0.status, STATUS_ERROR);
    assert_eq!(Transport::Unix.as_str(), "unix");
    assert_eq!(Transport::Tcp.as_str(), "tcp");
}

fn response(status: u8) -> Result<WireResponse, Error> {
    Ok(WireResponse {
        request_id: 1,
        status,
        payload: vec![9],
    })
}

#[test]
fn answers_of_peers_are_read() {
    assert_eq!(chunk_reply(response(STATUS_HIT)).unwrap(), Some(vec![9]));
    assert_eq!(chunk_reply(response(STATUS_MISS)).unwrap(), None);
    let e = chunk_reply(response(STATUS_ERROR)).unwrap_err();
    assert_eq!(e.message, "peer returned error");
    assert_eq!(chunk_outcome(&Ok(Some(vec![]))), Outcome::Hit);
    assert_eq!(chunk_outcome(&Ok(None)), Outcome::Miss);
    assert_eq!(chunk_outcome(&Err(timeout_error("x"))), Outcome::TimedOut);
    assert_eq!(chunk_outcome(&Err(e)), Outcome::Failed);
    assert!(is_well(&response(STATUS_HIT)));
    assert!(!is_well(&response(STATUS_MISS)));
    assert!(!is_well(&Err(timeout_error("x"))));
    assert_eq!(Outcome::TimedOut.as_str(), "timeout");
    assert_eq!(Outcome::Failed.as_str(), "error");
}

#[test]
fn local_chunk_client_missing_socket() {
    let mut breaker = CircuitBreaker::new(30_000);
    for (i, _op) in ["prefetch", "health_check", "register", "unregister"]
        .iter()
        .enumerate()
    {
        if breaker.should_reject(i as u64) {
            continue;
        }
        let result = Err(Error::new(ErrorKind::NotFound, "no such socket"));
        let (granted, outcome) = control_done(&mut breaker, &result, i as u64);
        assert!(!granted);
        assert_eq!(outcome, Outcome::Failed);
    }
    assert!(breaker.should_reject(5));
}

#[test]
fn answers_of_the_local_server_close_the_breaker() {
    let mut breaker = CircuitBreaker::new(100);
    breaker.record_failure(0);
    let result = control_reply(response(STATUS_MISS));
    assert_eq!(
        control_done(&mut breaker, &result, 5),
        (false, Outcome::Miss)
    );
    assert!(!breaker.should_reject(5));
    let result = control_reply(response(STATUS_HIT));
    assert_eq!(control_done(&mut breaker, &result, 5), (true, Outcome::Hit));
    let e = control_reply(response(STATUS_ERROR)).unwrap_err();
    assert_eq!(e.message, "local chunk server returned error");
    let late = Err(timeout_error("local connect"));
    assert_eq!(
        control_done(&mut breaker, &late, 7),
        (false, Outcome::TimedOut)
    );
    assert!(breaker.should_reject(106));
    assert!(!breaker.should_reject(107));
}

#[test]
fn a_chunk_that_is_there_is_answered_with_its_bytes() {
    let header = chunk_hit_header(0x0102_0304_0506_0708, &[9, 8, 7]);
    assert_eq!(header, [1, 2, 3, 4, 5, 6, 7, 8, 0, 0, 0, 0, 3]);
    let mut bytes = header.to_vec();
    bytes.extend_from_slice(&[9, 8, 7]);
    let (response, taken) = WireResponse::read_from_sync(&bytes).unwrap();
    assert_eq!(taken, 16);
    assert_eq!(response.request_id, 0x0102_0304_0506_0708);
    assert_eq!(response.status, STATUS_HIT);
    assert_eq!(response.payload, vec![9, 8, 7]);
}
