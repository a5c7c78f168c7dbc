//! How the chunk server answers requests.

use crate::backend::peer::client::{
    batch_message, chunk_outcome, chunk_reply, control_done, control_reply, is_well, Outcome,
};
use crate::backend::peer::health::CircuitBreaker;
use crate::backend::peer::protocol::{
    decode_checksum_batch, encode_response_header, is_response_bytes, is_response_header,
    law_checksum_batch_roundtrip, law_response_roundtrip, MessageType, Request, WireResponse,
    MAX_CHUNK_PAYLOAD_SIZE, STATUS_ERROR, STATUS_HIT, STATUS_MISS,
};
use crate::checksum::{is_checksum_of, lemma_checksum_ext, CheckSum};
use crate::error::{Error, ErrorKind};
use crate::text::decimal;
use vstd::prelude::*;

verus! {

/// At most this many connections are served at a time.
pub const DEFAULT_MAX_CONNECTIONS: usize = 8;

/// A connection on which nothing is asked for this long is closed.
pub const SERVER_KEEPALIVE_IDLE_TIMEOUT_SECS: u64 = 30;

/// How a request came in.
#[derive(Debug, Clone, Copy, Eq, PartialEq, Structural)]
pub enum Transport {
    /// From another node.
    Tcp,
    /// From this node.
    Unix,
}

impl Transport {
    /// The name of the transport in metrics.
    pub fn as_str(self) -> (r: &'static str)
        ensures
            r@ == match self {
                Transport::Tcp => "tcp"@,
                Transport::Unix => "unix"@,
            },
    {
        match self {
            Transport::Tcp => "tcp",
            Transport::Unix => "unix",
        }
    }
}

/// The name of a request in metrics.
pub fn request_name(message_type: MessageType) -> (r: &'static str)
    ensures
        r@ == match message_type {
            MessageType::GetChunk => "get_chunk"@,
            MessageType::PrefetchChunk => "prefetch"@,
            MessageType::RegisterChunk => "register"@,
            MessageType::UnregisterChunk => "unregister"@,
            MessageType::RegisterChunks => "register_batch"@,
            MessageType::UnregisterChunks => "unregister_batch"@,
            MessageType::HealthCheck => "health_check"@,
        },
{
    match message_type {
        MessageType::GetChunk => "get_chunk",
        MessageType::PrefetchChunk => "prefetch",
        MessageType::RegisterChunk => "register",
        MessageType::UnregisterChunk => "unregister",
        MessageType::RegisterChunks => "register_batch",
        MessageType::UnregisterChunks => "unregister_batch",
        MessageType::HealthCheck => "health_check",
    }
}

/// How reading a request ended.
#[derive(Debug)]
pub enum ReadEnd {
    /// A request was read.
    Request(Request),
    /// It failed.
    Failed(Error),
    /// Nothing came for too long.
    Idle,
}

/// What is done after reading a request.
#[derive(Debug)]
pub enum Inbound {
    /// Read this many checksums, then answer the request.
    Answer(Request, usize),
    /// Write what is left to write and close the connection.
    Close,
    /// Give the connection up.
    Abort(Error),
}

/// Decides what is done after reading a request: a connection that ends or stays idle is
/// closed, and one that is out of step is given up.
pub fn after_read(end: ReadEnd) -> (r: Inbound)
    ensures
        match end {
            ReadEnd::Request(request) => {
                let batch = request.message_type is RegisterChunks
                    || request.message_type is UnregisterChunks;
                if batch && request.offset != 0 {
                    &&& r is Abort
                    &&& r->Abort_0.kind == ErrorKind::InvalidInput
                    &&& r->Abort_0.message@ == "invalid batch control request offset="@ + decimal(
                        request.offset as nat,
                    )
                } else {
                    &&& r is Answer
                    &&& r->Answer_0 == request
                    &&& r->Answer_1 == if batch {
                        request.length as int
                    } else {
                        0
                    }
                }
            },
            ReadEnd::Failed(e) => if e.kind == ErrorKind::UnexpectedEof {
                r is Close
            } else {
                r == Inbound::Abort(e)
            },
            ReadEnd::Idle => r is Close,
        },
{
    match end {
        ReadEnd::Request(request) => {
            if !request.message_type.is_batch() {
                return Inbound::Answer(request, 0);
            }
            match request.ensure_control_batch() {
                Ok(count) => Inbound::Answer(request, count),
                Err(e) => Inbound::Abort(e),
            }
        },
        ReadEnd::Failed(e) => {
            if e.kind == ErrorKind::UnexpectedEof {
                Inbound::Close
            } else {
                Inbound::Abort(e)
            }
        },
        ReadEnd::Idle => Inbound::Close,
    }
}

/// Where the answer to a request stands.
#[derive(Debug, Clone, Copy, Eq, PartialEq, Structural)]
pub enum ServeStage {
    /// Nothing was done yet.
    Ready,
    /// The chunk is looked for in the database.
    Finding,
    /// The chunk is asked for at peers.
    Fetching,
    /// The chunk is stored, or the index is told.
    Applying,
    /// The answer was given.
    Answered,
}

/// What is told to an answer in the making.
#[derive(Debug)]
pub enum ServeEvent {
    /// It may start.
    Start,
    /// The chunk is in the database, or not.
    Found(bool),
    /// What the peers gave.
    Fetched(Option<Vec<u8>>),
    /// What was asked for was done.
    Applied,
    /// What was asked for failed.
    Failed,
}

/// What an answer in the making asks for next.
#[derive(Debug)]
pub enum ServeAction {
    /// Look whether the database has a chunk.
    Find(CheckSum),
    /// Ask the peers for a chunk.
    Fetch(CheckSum),
    /// Store a chunk.
    Store(CheckSum, Vec<u8>),
    /// Tell the index that this node has a chunk.
    Register(CheckSum),
    /// Tell the index that this node has a chunk no more.
    Unregister(CheckSum),
    /// Tell the index that this node has chunks.
    RegisterAll(Vec<CheckSum>),
    /// Tell the index that this node has chunks no more.
    UnregisterAll(Vec<CheckSum>),
    /// Answer with the chunk from the database.
    SendChunk { request_id: u64, checksum: CheckSum },
    /// Answer with this.
    Reply(WireResponse, Outcome),
    /// Nothing: the answer was given.
    Nothing,
}

/// The status that stands for an outcome.
pub open spec fn outcome_status(outcome: Outcome) -> u8 {
    match outcome {
        Outcome::Hit => STATUS_HIT,
        Outcome::Miss => STATUS_MISS,
        _ => STATUS_ERROR,
    }
}

/// Whether the action answers request `id` with an outcome and no payload.
pub open spec fn replies(action: ServeAction, id: u64, outcome: Outcome) -> bool {
    &&& action is Reply
    &&& action->Reply_0.request_id == id
    &&& action->Reply_0.status == outcome_status(outcome)
    &&& action->Reply_0.payload@ == Seq::<u8>::empty()
    &&& action->Reply_1 == outcome
}

/// Whether a request is for a whole chunk.
pub open spec fn full_chunk(request: Request) -> bool {
    request.offset == 0 && request.length == 0
}

/// What a server can do.
#[derive(Debug, Clone, Copy, Eq, PartialEq, Structural)]
pub struct Services {
    pub transport: Transport,
    /// Whether there are peers to ask.
    pub has_client: bool,
    /// Whether there is an index to tell.
    pub has_index: bool,
}

/// How an answer starts.
pub open spec fn serve_start_rule(
    request: Request,
    checksums: Seq<CheckSum>,
    services: Services,
    next: ServeStage,
    action: ServeAction,
) -> bool {
    let id = request.request_id;
    let answered = next == ServeStage::Answered;
    let refused = services.transport != Transport::Unix;
    match request.message_type {
        MessageType::GetChunk => answered && if full_chunk(request) {
            action == (ServeAction::SendChunk { request_id: id, checksum: request.checksum })
        } else {
            replies(action, id, Outcome::Failed)
        },
        MessageType::PrefetchChunk => if full_chunk(request) {
            next == ServeStage::Finding && action == ServeAction::Find(request.checksum)
        } else {
            answered && replies(action, id, Outcome::Failed)
        },
        MessageType::HealthCheck => answered && replies(
            action,
            id,
            if full_chunk(request) {
                Outcome::Hit
            } else {
                Outcome::Failed
            },
        ),
        MessageType::RegisterChunk | MessageType::UnregisterChunk => if refused || !full_chunk(
            request,
        ) {
            answered && replies(action, id, Outcome::Failed)
        } else if !services.has_index {
            answered && replies(action, id, Outcome::Hit)
        } else {
            &&& next == ServeStage::Applying
            &&& action == if request.message_type is RegisterChunk {
                ServeAction::Register(request.checksum)
            } else {
                ServeAction::Unregister(request.checksum)
            }
        },
        MessageType::RegisterChunks | MessageType::UnregisterChunks => if refused || request.offset
            != 0 || request.length != checksums.len() {
            answered && replies(action, id, Outcome::Failed)
        } else if !services.has_index {
            answered && replies(action, id, Outcome::Hit)
        } else {
            &&& next == ServeStage::Applying
            &&& if request.message_type is RegisterChunks {
                action is RegisterAll && action->RegisterAll_0@ == checksums
            } else {
                action is UnregisterAll && action->UnregisterAll_0@ == checksums
            }
        },
    }
}

/// The rule of an answer: what is asked for next, and where it then stands.
pub open spec fn serve_rule(
    request: Request,
    checksums: Seq<CheckSum>,
    services: Services,
    stage: ServeStage,
    event: ServeEvent,
    next: ServeStage,
    action: ServeAction,
) -> bool {
    let id = request.request_id;
    let answered = next == ServeStage::Answered;
    match (stage, event) {
        (ServeStage::Ready, ServeEvent::Start) => serve_start_rule(
            request,
            checksums,
            services,
            next,
            action,
        ),
        (ServeStage::Finding, ServeEvent::Found(found)) => if found {
            answered && replies(action, id, Outcome::Hit)
        } else if !services.has_client {
            answered && replies(action, id, Outcome::Miss)
        } else {
            next == ServeStage::Fetching && action == ServeAction::Fetch(request.checksum)
        },
        (ServeStage::Fetching, ServeEvent::Fetched(data)) => match data {
            Some(data) if is_checksum_of(request.checksum, data@, request.checksum.method) => {
                &&& next == ServeStage::Applying
                &&& action == ServeAction::Store(request.checksum, data)
            },
            _ => answered && replies(action, id, Outcome::Miss),
        },
        (ServeStage::Applying, ServeEvent::Applied) => answered && replies(
            action,
            id,
            Outcome::Hit,
        ),
        (ServeStage::Answered, _) => answered && action is Nothing,
        _ => answered && replies(action, id, Outcome::Failed),
    }
}

/// The answer to one request.
#[derive(Debug)]
pub struct ServeTask {
    request: Request,
    checksums: Vec<CheckSum>,
    services: Services,
    stage: ServeStage,
}

impl ServeTask {
    /// The request.
    pub closed spec fn request(self) -> Request {
        self.request
    }

    /// The checksums that followed it.
    pub closed spec fn checksums(self) -> Seq<CheckSum> {
        self.checksums@
    }

    /// What the server can do.
    pub closed spec fn services(self) -> Services {
        self.services
    }

    /// Where the answer stands.
    pub closed spec fn stage(self) -> ServeStage {
        self.stage
    }

    /// An answer that has not started.
    pub fn new(request: Request, checksums: Vec<CheckSum>, services: Services) -> (r: ServeTask)
        ensures
            r.request() == request,
            r.checksums() == checksums@,
            r.services() == services,
            r.stage() == ServeStage::Ready,
    {
        ServeTask { request, checksums, services, stage: ServeStage::Ready }
    }

    fn reply(&mut self, outcome: Outcome) -> (r: ServeAction)
        ensures
            replies(r, old(self).request().request_id, outcome),
            final(self).stage() == ServeStage::Answered,
            final(self).request() == old(self).request(),
            final(self).services() == old(self).services(),
            final(self).checksums() == old(self).checksums(),
    {
        self.stage = ServeStage::Answered;
        let status: u8 = match outcome {
            Outcome::Hit => STATUS_HIT,
            Outcome::Miss => STATUS_MISS,
            _ => STATUS_ERROR,
        };
        ServeAction::Reply(WireResponse::bare(self.request.request_id, status), outcome)
    }

    fn start(&mut self) -> (r: ServeAction)
        ensures
            serve_start_rule(
                old(self).request(),
                old(self).checksums(),
                old(self).services(),
                final(self).stage(),
                r,
            ),
            final(self).request() == old(self).request(),
            final(self).services() == old(self).services(),
    {
        let full: bool = self.request.offset == 0 && self.request.length == 0;
        let local: bool = self.services.transport == Transport::Unix;
        let checksum: CheckSum = self.request.checksum;
        match self.request.message_type {
            MessageType::GetChunk => {
                if !full {
                    return self.reply(Outcome::Failed);
                }
                self.stage = ServeStage::Answered;
                ServeAction::SendChunk { request_id: self.request.request_id, checksum }
            },
            MessageType::PrefetchChunk => {
                if !full {
                    return self.reply(Outcome::Failed);
                }
                self.stage = ServeStage::Finding;
                ServeAction::Find(checksum)
            },
            MessageType::HealthCheck => {
                self.reply(
                    if full {
                        Outcome::Hit
                    } else {
                        Outcome::Failed
                    },
                )
            },
            MessageType::RegisterChunk => {
                if !local || !full {
                    return self.reply(Outcome::Failed);
                }
                if !self.services.has_index {
                    return self.reply(Outcome::Hit);
                }
                self.stage = ServeStage::Applying;
                ServeAction::Register(checksum)
            },
            MessageType::UnregisterChunk => {
                if !local || !full {
                    return self.reply(Outcome::Failed);
                }
                if !self.services.has_index {
                    return self.reply(Outcome::Hit);
                }
                self.stage = ServeStage::Applying;
                ServeAction::Unregister(checksum)
            },
            MessageType::RegisterChunks => {
                if !local || self.request.offset != 0 || self.request.length as usize
                    != self.checksums.len() {
                    return self.reply(Outcome::Failed);
                }
                if !self.services.has_index {
                    return self.reply(Outcome::Hit);
                }
                self.stage = ServeStage::Applying;
                let mut all: Vec<CheckSum> = Vec::new();
                std::mem::swap(&mut all, &mut self.checksums);
                ServeAction::RegisterAll(all)
            },
            MessageType::UnregisterChunks => {
                if !local || self.request.offset != 0 || self.request.length as usize
                    != self.checksums.len() {
                    return self.reply(Outcome::Failed);
                }
                if !self.services.has_index {
                    return self.reply(Outcome::Hit);
                }
                self.stage = ServeStage::Applying;
                let mut all: Vec<CheckSum> = Vec::new();
                std::mem::swap(&mut all, &mut self.checksums);
                ServeAction::UnregisterAll(all)
            },
        }
    }

    /// Takes what happened, and returns what to do next. An event that was not asked for makes
    /// the answer an error.
    pub fn on_event(&mut self, event: ServeEvent) -> (r: ServeAction)
        ensures
            serve_rule(
                old(self).request(),
                old(self).checksums(),
                old(self).services(),
                old(self).stage(),
                event,
                final(self).stage(),
                r,
            ),
            final(self).request() == old(self).request(),
            final(self).services() == old(self).services(),
    {
        match (self.stage, event) {
            (ServeStage::Ready, ServeEvent::Start) => self.start(),
            (ServeStage::Finding, ServeEvent::Found(found)) => {
                if found {
                    return self.reply(Outcome::Hit);
                }
                if !self.services.has_client {
                    return self.reply(Outcome::Miss);
                }
                self.stage = ServeStage::Fetching;
                ServeAction::Fetch(self.request.checksum)
            },
            (ServeStage::Fetching, ServeEvent::Fetched(data)) => {
                match data {
                    None => self.reply(Outcome::Miss),
                    Some(data) => {
                        let wanted: CheckSum = self.request.checksum;
                        let actual: CheckSum = CheckSum::from_data(data.as_slice(), wanted.method);
                        proof {
                            if is_checksum_of(wanted, data@, wanted.method) {
                                lemma_checksum_ext(wanted, actual);
                            }
                        }
                        if !actual.same(&wanted) {
                            return self.reply(Outcome::Miss);
                        }
                        self.stage = ServeStage::Applying;
                        ServeAction::Store(wanted, data)
                    },
                }
            },
            (ServeStage::Applying, ServeEvent::Applied) => self.reply(Outcome::Hit),
            (ServeStage::Answered, _) => ServeAction::Nothing,
            _ => self.reply(Outcome::Failed),
        }
    }
}

/// A chunk that peers gave is stored only where its content has the checksum asked for.
pub proof fn law_prefetched_chunks_are_checked(
    request: Request,
    checksums: Seq<CheckSum>,
    services: Services,
    stage: ServeStage,
    event: ServeEvent,
    next: ServeStage,
    action: ServeAction,
)
    requires
        serve_rule(request, checksums, services, stage, event, next, action),
        action is Store,
    ensures
        action->Store_0 == request.checksum,
        is_checksum_of(request.checksum, action->Store_1@, request.checksum.method),
{
}

/// Only this node tells the index: a request from another node to register chunks or to take
/// them out is answered with an error, and the index is not touched.
pub proof fn law_other_nodes_do_not_touch_the_index(
    request: Request,
    checksums: Seq<CheckSum>,
    services: Services,
    stage: ServeStage,
    event: ServeEvent,
    next: ServeStage,
    action: ServeAction,
)
    requires
        serve_rule(request, checksums, services, stage, event, next, action),
        services.transport == Transport::Tcp,
    ensures
        !(action is Register || action is Unregister || action is RegisterAll
            || action is UnregisterAll),
{
}

/// Every request is answered under its own number.
pub proof fn law_answers_carry_the_request_id(
    request: Request,
    checksums: Seq<CheckSum>,
    services: Services,
    stage: ServeStage,
    event: ServeEvent,
    next: ServeStage,
    action: ServeAction,
)
    requires
        serve_rule(request, checksums, services, stage, event, next, action),
    ensures
        action is Reply ==> action->Reply_0.request_id == request.request_id,
        action is SendChunk ==> action->request_id == request.request_id && action->checksum
            == request.checksum,
        next == ServeStage::Answered <==> (action is Reply || action is SendChunk
            || action is Nothing),
{
}

/// What peers gave is stored exactly where it has the checksum asked for, however long it is: it is
/// stored as it came, and the request is a hit once that is done. Where the peers gave nothing, or
/// data with another checksum, the request is a miss.
pub proof fn law_fetched_chunks_are_stored(
    task0: &mut ServeTask,
    before: ServeEvent,
    wanted: CheckSum,
    task1: &mut ServeTask,
    data: Option<Vec<u8>>,
    action: ServeAction,
    task2: &mut ServeTask,
    last: ServeAction,
)
    requires
        call_ensures(ServeTask::on_event, (task0, before), ServeAction::Fetch(wanted)),
        *old(task1) == *final(task0),
        call_ensures(ServeTask::on_event, (task1, ServeEvent::Fetched(data)), action),
        *old(task2) == *final(task1),
        call_ensures(ServeTask::on_event, (task2, ServeEvent::Applied), last),
    ensures
        wanted == old(task0).request().checksum,
        match data {
            Some(data) if is_checksum_of(wanted, data@, wanted.method) => {
                &&& action == ServeAction::Store(wanted, data)
                &&& last is Reply
                &&& last->Reply_0.status == STATUS_HIT
                &&& last->Reply_0.request_id == old(task0).request().request_id
            },
            _ => {
                &&& action is Reply
                &&& action->Reply_0.status == STATUS_MISS
                &&& action->Reply_0.request_id == old(task0).request().request_id
            },
        },
{
}

/// What the requests work on: the chunks of the database, and those that the index has for this
/// node.
pub ghost struct ServeWorld {
    pub chunks: Map<CheckSum, Seq<u8>>,
    pub index: Set<CheckSum>,
}

/// A moment of an answer in the making.
pub ghost struct ServeMoment {
    pub stage: ServeStage,
    pub action: ServeAction,
    pub world: ServeWorld,
}

/// Whether a server does what is asked for, and says so. The database says what it has; what the
/// peers give is up to them; what is to be stored or told to the index may fail, and then nothing
/// is done.
pub open spec fn serve_done(
    action: ServeAction,
    event: ServeEvent,
    before: ServeWorld,
    after: ServeWorld,
) -> bool {
    let changed = match action {
        ServeAction::Store(cs, data) => ServeWorld {
            chunks: before.chunks.insert(cs, data@),
            index: before.index,
        },
        ServeAction::Register(cs) => ServeWorld {
            chunks: before.chunks,
            index: before.index.insert(cs),
        },
        ServeAction::Unregister(cs) => ServeWorld {
            chunks: before.chunks,
            index: before.index.remove(cs),
        },
        ServeAction::RegisterAll(all) => ServeWorld {
            chunks: before.chunks,
            index: before.index.union(all@.to_set()),
        },
        ServeAction::UnregisterAll(all) => ServeWorld {
            chunks: before.chunks,
            index: before.index.difference(all@.to_set()),
        },
        _ => before,
    };
    match action {
        ServeAction::Find(cs) => after == before && match event {
            ServeEvent::Found(found) => found == before.chunks.contains_key(cs),
            ServeEvent::Failed => true,
            _ => false,
        },
        ServeAction::Fetch(_) => after == before && event is Fetched,
        ServeAction::SendChunk { .. } | ServeAction::Reply(..) | ServeAction::Nothing => false,
        _ => match event {
            ServeEvent::Applied => after == changed,
            ServeEvent::Failed => after == before,
            _ => false,
        },
    }
}

/// Whether `run` are the moments of an answer from its start on, with `events` between them.
pub open spec fn serve_run(
    request: Request,
    checksums: Seq<CheckSum>,
    services: Services,
    run: Seq<ServeMoment>,
    events: Seq<ServeEvent>,
) -> bool {
    &&& run.len() == events.len() + 1
    &&& serve_rule(
        request,
        checksums,
        services,
        ServeStage::Ready,
        ServeEvent::Start,
        run[0].stage,
        run[0].action,
    )
    &&& forall|k: int|
        0 <= k < events.len() ==> {
            let (m, n) = (run[k], run[k + 1]);
            &&& serve_done(m.action, #[trigger] events[k], m.world, n.world)
            &&& serve_rule(
                request,
                checksums,
                services,
                m.stage,
                events[k],
                n.stage,
                n.action,
            )
        }
}

/// Whether something failed.
pub open spec fn some_failed(events: Seq<ServeEvent>) -> bool {
    exists|k: int| 0 <= k < events.len() && (#[trigger] events[k]) is Failed
}

/// Whether peers were asked and gave a chunk with the checksum asked for.
pub open spec fn peers_gave(wanted: CheckSum, events: Seq<ServeEvent>) -> bool {
    exists|k: int|
        0 <= k < events.len() && match #[trigger] events[k] {
            ServeEvent::Fetched(Some(data)) => is_checksum_of(wanted, data@, wanted.method),
            _ => false,
        }
}

/// An answer is given after a few steps.
proof fn lemma_serve_is_short(
    request: Request,
    checksums: Seq<CheckSum>,
    services: Services,
    run: Seq<ServeMoment>,
    events: Seq<ServeEvent>,
)
    requires
        serve_run(request, checksums, services, run, events),
    ensures
        events.len() <= 3,
        forall|k: int| 0 <= k < events.len() ==> !(#[trigger] run[k].stage is Answered),
{
    assert forall|k: int| 0 <= k < events.len() implies !(#[trigger] run[k].stage is Answered) by {
        assert(serve_done(run[k].action, events[k], run[k].world, run[k + 1].world));
        if k > 0 {
            assert(serve_done(
                run[k - 1].action,
                events[k - 1],
                run[k - 1].world,
                run[k].world,
            ));
        }
    }
    if events.len() > 3 {
        assert(!(run[0].stage is Answered));
        assert(!(run[1].stage is Answered));
        assert(!(run[2].stage is Answered));
        assert(!(run[3].stage is Answered));
        assert(serve_done(run[0].action, events[0], run[0].world, run[1].world));
        assert(serve_done(run[1].action, events[1], run[1].world, run[2].world));
        assert(serve_done(run[2].action, events[2], run[2].world, run[3].world));
        assert(serve_done(run[3].action, events[3], run[3].world, run[4].world));
    }
}

/// The answer to a prefetch says whether the database has the chunk now. It has it if it had it
/// before, or if there are peers that gave it; no other chunk comes, and none goes.
pub proof fn law_prefetch_answer_is_true(
    request: Request,
    checksums: Seq<CheckSum>,
    services: Services,
    run: Seq<ServeMoment>,
    events: Seq<ServeEvent>,
)
    requires
        request.message_type is PrefetchChunk,
        serve_run(request, checksums, services, run, events),
        run.last().stage is Answered,
        !some_failed(events),
    ensures
        ({
            let (start, end) = (run[0].world, run.last().world);
            let cs = request.checksum;
            let whole = request.offset == 0 && request.length == 0;
            &&& run.last().action is Reply
            &&& ({
                let reply = run.last().action->Reply_0;
                &&& reply.request_id == request.request_id
                &&& reply.payload@.len() == 0
                &&& !whole ==> reply.status == STATUS_ERROR && end == start
                &&& whole ==> (reply.status == STATUS_HIT <==> end.chunks.contains_key(cs))
                &&& whole ==> (reply.status == STATUS_MISS <==> !end.chunks.contains_key(cs))
            })
            &&& end.index == start.index
            &&& end.chunks.contains_key(cs) <==> start.chunks.contains_key(cs) || peers_gave(
                cs,
                events,
            )
            &&& start.chunks.contains_key(cs) || !end.chunks.contains_key(cs) ==> end.chunks
                == start.chunks
            &&& !start.chunks.contains_key(cs) && end.chunks.contains_key(cs) ==> is_checksum_of(
                cs,
                end.chunks[cs],
                cs.method,
            ) && end.chunks == start.chunks.insert(cs, end.chunks[cs])
            &&& whole && !start.chunks.contains_key(cs) && services.has_client ==> exists|k: int|
                0 <= k < events.len() && (#[trigger] events[k]) is Fetched
            &&& whole && (start.chunks.contains_key(cs) || !services.has_client) ==> events.len()
                == 1
        }),
{
    lemma_serve_is_short(request, checksums, services, run, events);
    let cs = request.checksum;
    if events.len() > 0 {
        assert(serve_done(run[0].action, events[0], run[0].world, run[1].world));
        assert(!(events[0] is Failed));
    }
    if events.len() > 1 {
        assert(serve_done(run[1].action, events[1], run[1].world, run[2].world));
        assert(!(events[1] is Failed));
        assert(events[1] is Fetched);
    }
    if events.len() > 2 {
        assert(serve_done(run[2].action, events[2], run[2].world, run[3].world));
        assert(!(events[2] is Failed));
        assert(peers_gave(cs, events)) by {
            assert(events[1] is Fetched);
        }
    }
    if peers_gave(cs, events) {
        let k = choose|k: int|
            0 <= k < events.len() && match #[trigger] events[k] {
                ServeEvent::Fetched(Some(data)) => is_checksum_of(cs, data@, cs.method),
                _ => false,
            };
        assert(k == 1);
        assert(run[1].stage is Fetching);
    }
}

/// Whether a request to change the index is one that the server takes: it comes from this node, and
/// it is whole.
pub open spec fn index_request_taken(
    request: Request,
    checksums: Seq<CheckSum>,
    services: Services,
) -> bool {
    &&& services.transport is Unix
    &&& request.offset == 0
    &&& if request.message_type is RegisterChunk || request.message_type is UnregisterChunk {
        request.length == 0
    } else {
        request.length == checksums.len()
    }
}

/// The chunks that a request to change the index names.
pub open spec fn named_chunks(request: Request, checksums: Seq<CheckSum>) -> Set<CheckSum> {
    if request.message_type is RegisterChunk || request.message_type is UnregisterChunk {
        set![request.checksum]
    } else {
        checksums.to_set()
    }
}

/// A request to register chunks makes the index have them, one to take them out makes it have them
/// no more, and either is a hit once that is done. Where there is no index there is nothing to do.
/// A request that is not taken, or that fails, is answered with an error and changes nothing.
pub proof fn law_index_follows_requests(
    request: Request,
    checksums: Seq<CheckSum>,
    services: Services,
    run: Seq<ServeMoment>,
    events: Seq<ServeEvent>,
)
    requires
        request.message_type is RegisterChunk || request.message_type is UnregisterChunk
            || request.message_type is RegisterChunks || request.message_type is UnregisterChunks,
        serve_run(request, checksums, services, run, events),
        run.last().stage is Answered,
    ensures
        ({
            let (start, end) = (run[0].world, run.last().world);
            let taken = index_request_taken(request, checksums, services);
            let adds = request.message_type is RegisterChunk
                || request.message_type is RegisterChunks;
            let done = taken && services.has_index && !some_failed(events);
            &&& run.last().action is Reply
            &&& run.last().action->Reply_0.request_id == request.request_id
            &&& run.last().action->Reply_0.payload@.len() == 0
            &&& run.last().action->Reply_0.status == if taken && !some_failed(events) {
                STATUS_HIT
            } else {
                STATUS_ERROR
            }
            &&& end.chunks == start.chunks
            &&& !done ==> end.index == start.index
            &&& done && adds ==> end.index == start.index.union(named_chunks(request, checksums))
            &&& done && !adds ==> end.index == start.index.difference(
                named_chunks(request, checksums),
            )
        }),
{
    lemma_serve_is_short(request, checksums, services, run, events);
    let start = run[0].world;
    if events.len() > 0 {
        assert(serve_done(run[0].action, events[0], start, run[1].world));
        assert(start.index.insert(request.checksum) =~= start.index.union(set![request.checksum]));
        assert(start.index.remove(request.checksum) =~= start.index.difference(
            set![request.checksum],
        ));
    }
    if events.len() > 1 {
        assert(serve_done(run[1].action, events[1], run[1].world, run[2].world));
    }
}

/// A request for a chunk is answered at once with the chunk asked for, and a probe with a hit; both
/// have to be whole, and change nothing.
pub proof fn law_chunks_and_probes_are_answered_at_once(
    request: Request,
    checksums: Seq<CheckSum>,
    services: Services,
    run: Seq<ServeMoment>,
    events: Seq<ServeEvent>,
)
    requires
        request.message_type is GetChunk || request.message_type is HealthCheck,
        serve_run(request, checksums, services, run, events),
    ensures
        events.len() == 0,
        ({
            let whole = request.offset == 0 && request.length == 0;
            let action = run[0].action;
            &&& request.message_type is GetChunk && whole ==> action == (ServeAction::SendChunk {
                request_id: request.request_id,
                checksum: request.checksum,
            })
            &&& !(request.message_type is GetChunk && whole) ==> {
                &&& action is Reply
                &&& action->Reply_0.request_id == request.request_id
                &&& action->Reply_0.status == if whole {
                    STATUS_HIT
                } else {
                    STATUS_ERROR
                }
            }
        }),
{
    lemma_serve_is_short(request, checksums, services, run, events);
    if events.len() > 0 {
        assert(!(run[0].stage is Answered));
    }
}

/// What a reply says and what is counted for it are the same.
pub proof fn law_counted_outcome_is_the_answer(
    task: &mut ServeTask,
    event: ServeEvent,
    response: WireResponse,
    outcome: Outcome,
)
    requires
        call_ensures(ServeTask::on_event, (task, event), ServeAction::Reply(response, outcome)),
    ensures
        outcome is Hit <==> response.status == STATUS_HIT,
        outcome is Miss <==> response.status == STATUS_MISS,
        outcome is Failed <==> response.status == STATUS_ERROR,
        event is Failed ==> outcome is Failed,
        event is Applied ==> outcome is Hit || outcome is Failed,
{
}

/// The bytes that are written in front of a chunk that the database has: the number of the
/// request, that the chunk is there, and its length. The bytes of the chunk follow.
pub fn chunk_hit_header(request_id: u64, data: &[u8]) -> (r: [u8; 13])
    ensures
        is_response_header(r@, request_id, STATUS_HIT, data@.len() as u32),
{
    encode_response_header(request_id, STATUS_HIT, data.len())
}

/// The answer to a request for a chunk that the database has is read back as a hit with the
/// request's number and the bytes of the chunk.
pub proof fn law_chunk_answer_roundtrip(
    header: Seq<u8>,
    chunk: Seq<u8>,
    request_id: u64,
    id: u64,
    status: u8,
    payload: Seq<u8>,
)
    requires
        chunk.len() <= u32::MAX,
        is_response_header(header, request_id, STATUS_HIT, chunk.len() as u32),
        is_response_bytes(header + chunk, id, status, payload),
    ensures
        id == request_id,
        status == STATUS_HIT,
        payload == chunk,
{
    assert((header + chunk).take(13) =~= header);
    assert((header + chunk).skip(13) =~= chunk);
}

/// What is written where the database has no chunk to send, or failed to read it.
pub fn missing_chunk_reply(request_id: u64, failed: bool) -> (r: (WireResponse, Outcome))
    ensures
        r.0.request_id == request_id,
        r.0.payload@ == Seq::<u8>::empty(),
        r.0.status == if failed {
            STATUS_ERROR
        } else {
            STATUS_MISS
        },
        r.1 == if failed {
            Outcome::Failed
        } else {
            Outcome::Miss
        },
{
    if failed {
        (WireResponse::bare(request_id, STATUS_ERROR), Outcome::Failed)
    } else {
        (WireResponse::bare(request_id, STATUS_MISS), Outcome::Miss)
    }
}

/// The local client reads of an answer what the server meant by it: a request is granted where the
/// answer is a hit, and both count the same outcome.
pub proof fn law_client_reads_what_the_server_meant(
    task: &mut ServeTask,
    event: ServeEvent,
    response: WireResponse,
    outcome: Outcome,
    result: Result<bool, Error>,
    breaker: &mut CircuitBreaker,
    seen: &Result<bool, Error>,
    now_ms: u64,
    done: (bool, Outcome),
)
    requires
        call_ensures(ServeTask::on_event, (task, event), ServeAction::Reply(response, outcome)),
        call_ensures(control_reply, (Ok(response),), result),
        *seen == result,
        call_ensures(control_done, (breaker, seen, now_ms), done),
    ensures
        done.0 <==> outcome is Hit,
        done.1 == outcome,
{
}

/// A peer reads of an answer without a chunk what the server meant by it.
pub proof fn law_peer_reads_why_there_is_no_chunk(
    request_id: u64,
    failed: bool,
    reply: (WireResponse, Outcome),
    result: Result<Option<Vec<u8>>, Error>,
    seen: &Result<Option<Vec<u8>>, Error>,
    outcome: Outcome,
)
    requires
        call_ensures(missing_chunk_reply, (request_id, failed), reply),
        call_ensures(chunk_reply, (Ok(reply.0),), result),
        *seen == result,
        call_ensures(chunk_outcome, (seen,), outcome),
    ensures
        outcome == reply.1,
        reply.0.request_id == request_id,
        failed <==> result is Err,
        !failed ==> result == Ok::<Option<Vec<u8>>, Error>(None),
{
}

/// Only a request to change the index by many chunks is followed by checksums, as many as it names;
/// every request is answered, but for one of these that is not whole, which ends the connection. A
/// connection that ends or stays idle is closed without an error.
pub proof fn law_every_request_is_answered(end: ReadEnd, next: Inbound)
    requires
        call_ensures(after_read, (end,), next),
    ensures
        match end {
            ReadEnd::Request(request) => {
                let many = request.message_type is RegisterChunks
                    || request.message_type is UnregisterChunks;
                &&& !(next is Close)
                &&& next is Abort <==> many && request.offset != 0
                &&& next is Answer ==> next->Answer_0 == request
                &&& next is Answer && !many ==> next->Answer_1 == 0
                &&& next is Answer && many ==> next->Answer_1 == request.length
            },
            ReadEnd::Failed(e) => {
                &&& next is Close <==> e.kind == ErrorKind::UnexpectedEof
                &&& next is Abort <==> e.kind != ErrorKind::UnexpectedEof
                &&& next is Abort ==> next->Abort_0 == e
            },
            ReadEnd::Idle => next is Close,
        },
{
}

/// A chunk that the database has reaches the peer that asked for it: what is written in front of it
/// and its bytes are read as a hit with the number of the request and those bytes.
pub proof fn law_sent_chunk_is_read_by_the_peer(
    request_id: u64,
    chunk: &[u8],
    header: [u8; 13],
    input: &[u8],
    r: Result<(WireResponse, usize), Error>,
    got: WireResponse,
    reply: Result<Option<Vec<u8>>, Error>,
)
    requires
        chunk@.len() <= MAX_CHUNK_PAYLOAD_SIZE,
        call_ensures(chunk_hit_header, (request_id, chunk), header),
        input@ == header@ + chunk@,
        call_ensures(WireResponse::read_from_sync, (input,), r),
        r is Ok ==> got == r->Ok_0.0,
        call_ensures(chunk_reply, (Ok(got),), reply),
    ensures
        r is Ok,
        got.request_id == request_id,
        reply is Ok && reply->Ok_0 is Some,
        reply->Ok_0->Some_0@ == chunk@,
{
    let s = header@ + chunk@;
    assert(s.take(13) =~= header@);
    assert(s.skip(13) =~= chunk@);
    assert(input@.subrange(9, 13) =~= header@.subrange(9, 13));
    assert(is_response_bytes(s, request_id, STATUS_HIT, chunk@));
    if let Ok((resp, taken)) = r {
        let rest = Seq::<u8>::empty();
        assert(s + rest =~= s);
        law_response_roundtrip(s, rest, request_id, STATUS_HIT, chunk@, resp, taken as int);
    }
}

/// A request for a chunk that a client makes is answered with that chunk.
pub proof fn law_chunk_request_is_served(
    checksum: CheckSum,
    request: Request,
    none: Vec<CheckSum>,
    services: Services,
    task: &mut ServeTask,
    action: ServeAction,
)
    requires
        call_ensures(Request::whole_chunk, (MessageType::GetChunk, checksum), request),
        call_ensures(ServeTask::new, (request, none, services), *old(task)),
        call_ensures(ServeTask::on_event, (task, ServeEvent::Start), action),
    ensures
        action == (ServeAction::SendChunk { request_id: request.request_id, checksum }),
{
}

/// A batch that a client on this node sends is what the server tells the index: all of its
/// checksums, in order.
pub proof fn law_batch_request_is_served(
    checksums: &[CheckSum],
    sent: Option<(Request, Vec<u8>)>,
    next: Inbound,
    payload: &[u8],
    read: Result<Vec<CheckSum>, Error>,
    services: Services,
    task: &mut ServeTask,
    action: ServeAction,
)
    requires
        0 < checksums@.len() <= u32::MAX,
        checksums@.len() * 33 <= usize::MAX,
        call_ensures(batch_message, (MessageType::RegisterChunks, checksums), sent),
        sent is Some,
        call_ensures(after_read, (ReadEnd::Request(sent->Some_0.0),), next),
        next is Answer,
        payload@ == sent->Some_0.1@,
        call_ensures(decode_checksum_batch, (payload, next->Answer_1), read),
        read is Ok,
        services.transport is Unix,
        services.has_index,
        call_ensures(ServeTask::new, (next->Answer_0, read->Ok_0, services), *old(task)),
        call_ensures(ServeTask::on_event, (task, ServeEvent::Start), action),
    ensures
        action is RegisterAll,
        action->RegisterAll_0@ == checksums@,
{
    assert(call_requires(batch_message, (MessageType::RegisterChunks, checksums)));
    let bytes = sent->Some_0.1@;
    assert(payload@.take((checksums@.len() * 33) as int) =~= bytes);
    law_checksum_batch_roundtrip(bytes, read->Ok_0@, checksums@);
}

/// An answer takes the step that its rule says, from its start on: nothing else is asked for.
pub proof fn law_answer_follows_its_rule(
    request: Request,
    checksums: Vec<CheckSum>,
    services: Services,
    begun: ServeTask,
    task: &mut ServeTask,
    event: ServeEvent,
    action: ServeAction,
)
    requires
        call_ensures(ServeTask::new, (request, checksums, services), begun),
        call_ensures(ServeTask::on_event, (task, event), action),
    ensures
        begun.request() == request,
        begun.checksums() == checksums@,
        begun.services() == services,
        begun.stage() is Ready,
        serve_rule(
            old(task).request(),
            old(task).checksums(),
            old(task).services(),
            old(task).stage(),
            event,
            final(task).stage(),
            action,
        ),
        final(task).request() == old(task).request(),
        final(task).services() == old(task).services(),
{
}

/// Whether an event tells of what an answer in the making asked for.
pub open spec fn serve_awaits(action: ServeAction, event: ServeEvent) -> bool {
    match action {
        ServeAction::Find(_) => event is Found,
        ServeAction::Fetch(_) => event is Fetched,
        ServeAction::SendChunk { .. } | ServeAction::Reply(..) | ServeAction::Nothing => false,
        _ => event is Applied,
    }
}

/// Every request is answered once: what failed, or was not asked for, makes the answer an error,
/// and once the answer was given nothing more is asked for.
pub proof fn law_request_is_answered_once(
    task0: &mut ServeTask,
    before: ServeEvent,
    action: ServeAction,
    task1: &mut ServeTask,
    event: ServeEvent,
    next: ServeAction,
)
    requires
        call_ensures(ServeTask::on_event, (task0, before), action),
        *old(task1) == *final(task0),
        call_ensures(ServeTask::on_event, (task1, event), next),
        !serve_awaits(action, event),
    ensures
        ({
            let given = action is Reply || action is SendChunk || action is Nothing;
            &&& given ==> next is Nothing
            &&& !given ==> {
                &&& next is Reply
                &&& next->Reply_0.status == STATUS_ERROR
                &&& next->Reply_0.request_id == old(task0).request().request_id
            }
        }),
{
}

/// A server that is asked for its health by a client is found well.
pub proof fn law_healthy_server_is_found_well(
    checksum: CheckSum,
    request: Request,
    none: Vec<CheckSum>,
    services: Services,
    task: &mut ServeTask,
    response: WireResponse,
    outcome: Outcome,
    seen: &Result<WireResponse, Error>,
    well: bool,
)
    requires
        call_ensures(Request::whole_chunk, (MessageType::HealthCheck, checksum), request),
        call_ensures(ServeTask::new, (request, none, services), *old(task)),
        call_ensures(
            ServeTask::on_event,
            (task, ServeEvent::Start),
            ServeAction::Reply(response, outcome),
        ),
        *seen == Ok::<WireResponse, Error>(response),
        call_ensures(is_well, (seen,), well),
    ensures
        well,
{
}

} // verus!
