//! The order in which changes are written to the chunk database.
//!
//! One writer serves three kinds of requests: chunks to add come first, chunks to delete come
//! next, and access times, of which many can be pending, come last.

use crate::backend::access::AccessKey;
use crate::backend::chunkdb::GC_BATCH;
use crate::checksum::{stored_form, CheckSum, CheckSumOnDisk};
use std::collections::VecDeque;
use vstd::prelude::*;

verus! {

/// Access times are written in batches of at most this many.
pub const ACCESS_BATCH_SIZE: usize = 1024;

/// Chunks are added in batches of at most this many.
pub const ADD_CHUNKS_BATCH_SIZE: usize = 16;

/// Chunks to add, and the ticket under which the result is awaited.
#[derive(Debug)]
pub struct AddRequest {
    pub chunks: Vec<(CheckSum, Vec<u8>)>,
    pub ticket: u64,
}

/// Chunks to delete, and the ticket under which the result is awaited.
#[derive(Debug)]
pub struct DeleteRequest {
    pub keys: Vec<AccessKey>,
    pub ticket: u64,
}

/// What the writer has to do next.
#[derive(Debug)]
pub enum WriteTask {
    Add(AddRequest),
    Delete(DeleteRequest),
    /// Record that these chunks were used.
    Touch(Vec<CheckSumOnDisk>),
}

/// Requests that wait for the writer.
#[derive(Debug)]
pub struct WriteQueue {
    high: VecDeque<AddRequest>,
    medium: VecDeque<DeleteRequest>,
    access: Vec<CheckSumOnDisk>,
    stop: bool,
}

impl WriteQueue {
    /// The chunks to add, in the order in which they came.
    pub closed spec fn adds(self) -> Seq<AddRequest> {
        self.high@
    }

    /// The chunks to delete, in the order in which they came.
    pub closed spec fn deletes(self) -> Seq<DeleteRequest> {
        self.medium@
    }

    /// The chunks whose use is to be recorded.
    pub closed spec fn touched(self) -> Seq<CheckSumOnDisk> {
        self.access@
    }

    /// Whether the writer is asked to end.
    pub closed spec fn stopping(self) -> bool {
        self.stop
    }

    /// No chunk is noted as used twice.
    pub open spec fn wf(self) -> bool {
        self.touched().no_duplicates()
    }

    /// A queue without requests.
    pub fn new() -> (r: WriteQueue)
        ensures
            r.wf(),
            r.adds() == Seq::<AddRequest>::empty(),
            r.deletes() == Seq::<DeleteRequest>::empty(),
            r.touched() == Seq::<CheckSumOnDisk>::empty(),
            !r.stopping(),
    {
        WriteQueue { high: VecDeque::new(), medium: VecDeque::new(), access: Vec::new(), stop: false }
    }

    /// Puts chunks to add behind those that wait.
    pub fn submit_high(&mut self, req: AddRequest)
        ensures
            final(self).adds() == old(self).adds().push(req),
            final(self).deletes() == old(self).deletes(),
            final(self).touched() == old(self).touched(),
            final(self).stopping() == old(self).stopping(),
    {
        self.high.push_back(req);
    }

    /// Puts chunks to delete behind those that wait.
    pub fn submit_medium(&mut self, req: DeleteRequest)
        ensures
            final(self).adds() == old(self).adds(),
            final(self).deletes() == old(self).deletes().push(req),
            final(self).touched() == old(self).touched(),
            final(self).stopping() == old(self).stopping(),
    {
        self.medium.push_back(req);
    }

    /// Notes that a chunk was used, and returns whether that was not noted yet.
    pub fn enqueue_access(&mut self, cs: CheckSumOnDisk) -> (r: bool)
        requires
            old(self).wf(),
        ensures
            final(self).wf(),
            r == !old(self).touched().contains(cs),
            final(self).touched() == if r {
                old(self).touched().push(cs)
            } else {
                old(self).touched()
            },
            final(self).adds() == old(self).adds(),
            final(self).deletes() == old(self).deletes(),
            final(self).stopping() == old(self).stopping(),
    {
        let mut i: usize = 0;
        while i < self.access.len()
            invariant
                *self == *old(self),
                old(self).wf(),
                i <= self.access@.len(),
                forall|j: int| 0 <= j < i ==> self.access@[j] != cs,
            decreases self.access@.len() - i,
        {
            if self.access[i].same(&cs) {
                assert(self.access@[i as int] == cs);
                return false;
            }
            i = i + 1;
        }
        self.access.push(cs);
        true
    }

    /// Notes that chunks were used, and returns whether that was not noted yet of one of them.
    pub fn enqueue_access_many(&mut self, checksums: &[CheckSumOnDisk]) -> (r: bool)
        requires
            old(self).wf(),
        ensures
            final(self).wf(),
            final(self).touched().to_set() == old(self).touched().to_set().union(
                checksums@.to_set(),
            ),
            old(self).touched().is_prefix_of(final(self).touched()),
            r == exists|i: int|
                0 <= i < checksums@.len() && !old(self).touched().contains(
                    #[trigger] checksums@[i],
                ),
            final(self).adds() == old(self).adds(),
            final(self).deletes() == old(self).deletes(),
            final(self).stopping() == old(self).stopping(),
    {
        let mut any: bool = false;
        let mut i: usize = 0;
        assert(old(self).touched().to_set().union(checksums@.take(0).to_set())
            =~= old(self).touched().to_set());
        while i < checksums.len()
            invariant
                i <= checksums@.len(),
                self.wf(),
                self.touched().to_set() == old(self).touched().to_set().union(
                    checksums@.take(i as int).to_set(),
                ),
                old(self).touched().is_prefix_of(self.touched()),
                any == exists|j: int|
                    0 <= j < i && !old(self).touched().contains(#[trigger] checksums@[j]),
                !any ==> self.touched() == old(self).touched(),
                self.adds() == old(self).adds(),
                self.deletes() == old(self).deletes(),
                self.stopping() == old(self).stopping(),
            decreases checksums@.len() - i,
        {
            let ghost before = self.touched();
            let ghost was_any = any;
            let cs: CheckSumOnDisk = checksums[i];
            let new: bool = self.enqueue_access(cs);
            if new {
                any = true;
            }
            i = i + 1;
            proof {
                let t = checksums@.take(i as int);
                assert(t =~= checksums@.take(i - 1).push(cs));
                lemma_push_to_set(checksums@.take(i - 1), cs);
                lemma_push_to_set(before, cs);
                if !new {
                    assert(before.to_set().insert(cs) =~= before.to_set());
                }
                assert(self.touched().to_set() =~= old(self).touched().to_set().union(t.to_set()));
                if new {
                    assert(!old(self).touched().contains(cs)) by {
                        if old(self).touched().contains(cs) {
                            assert(old(self).touched().to_set().contains(cs));
                            assert(before.to_set().contains(cs));
                        }
                    }
                    assert(checksums@[i - 1] == cs);
                } else if !was_any {
                    assert(old(self).touched().contains(checksums@[i - 1]));
                }
            }
        }
        assert(checksums@.take(i as int) =~= checksums@);
        any
    }

    /// Asks the writer to end.
    pub fn request_stop(&mut self)
        ensures
            final(self).stopping(),
            final(self).adds() == old(self).adds(),
            final(self).deletes() == old(self).deletes(),
            final(self).touched() == old(self).touched(),
    {
        self.stop = true;
    }

    /// Whether the writer is asked to end.
    pub fn is_stopping(&self) -> (r: bool)
        ensures
            r == self.stopping(),
    {
        self.stop
    }

    /// Whether the writer has nothing to do and is not asked to end.
    pub fn is_idle(&self) -> (r: bool)
        ensures
            r == (self.adds().len() == 0 && self.deletes().len() == 0 && self.touched().len() == 0
                && !self.stopping()),
    {
        self.high.len() == 0 && self.medium.len() == 0 && self.access.len() == 0 && !self.stop
    }

    /// Whether there is work that goes before access times.
    pub fn higher_pending(&self) -> (r: bool)
        ensures
            r == (self.adds().len() > 0 || self.deletes().len() > 0),
    {
        self.high.len() > 0 || self.medium.len() > 0
    }

    /// Takes all requests out of the queue.
    pub fn drain(&mut self) -> (r: WriteQueue)
        requires
            old(self).wf(),
        ensures
            r.wf(),
            r.adds() == old(self).adds(),
            r.deletes() == old(self).deletes(),
            r.touched() == old(self).touched(),
            r.stopping() == old(self).stopping(),
            final(self).wf(),
            final(self).adds() == Seq::<AddRequest>::empty(),
            final(self).deletes() == Seq::<DeleteRequest>::empty(),
            final(self).touched() == Seq::<CheckSumOnDisk>::empty(),
            final(self).stopping() == old(self).stopping(),
    {
        let mut out: WriteQueue = WriteQueue::new();
        std::mem::swap(&mut out, self);
        self.stop = out.stop;
        out
    }

    /// Takes the next task: the first of the chunks to add, then the first of those to delete,
    /// and last all access times.
    pub fn next_task(&mut self) -> (r: Option<WriteTask>)
        requires
            old(self).wf(),
        ensures
            final(self).wf(),
            final(self).stopping() == old(self).stopping(),
            match r {
                Some(WriteTask::Add(req)) => {
                    &&& old(self).adds() == seq![req] + final(self).adds()
                    &&& final(self).deletes() == old(self).deletes()
                    &&& final(self).touched() == old(self).touched()
                },
                Some(WriteTask::Delete(req)) => {
                    &&& old(self).adds().len() == 0
                    &&& final(self).adds().len() == 0
                    &&& old(self).deletes() == seq![req] + final(self).deletes()
                    &&& final(self).touched() == old(self).touched()
                },
                Some(WriteTask::Touch(list)) => {
                    &&& old(self).adds().len() == 0 && old(self).deletes().len() == 0
                    &&& final(self).adds().len() == 0 && final(self).deletes().len() == 0
                    &&& list@.len() > 0
                    &&& list@ == old(self).touched()
                    &&& final(self).touched().len() == 0
                },
                None => {
                    &&& old(self).adds().len() == 0 && final(self).adds().len() == 0
                    &&& old(self).deletes().len() == 0 && final(self).deletes().len() == 0
                    &&& old(self).touched().len() == 0 && final(self).touched().len() == 0
                },
            },
    {
        if let Some(req) = self.high.pop_front() {
            assert(old(self).adds() =~= seq![req] + self.adds());
            return Some(WriteTask::Add(req));
        }
        if let Some(req) = self.medium.pop_front() {
            assert(old(self).deletes() =~= seq![req] + self.deletes());
            return Some(WriteTask::Delete(req));
        }
        if self.access.len() == 0 {
            return None;
        }
        let mut list: Vec<CheckSumOnDisk> = Vec::new();
        std::mem::swap(&mut list, &mut self.access);
        Some(WriteTask::Touch(list))
    }
}

/// Appending an element adds it to the set of elements.
proof fn lemma_push_to_set<A>(s: Seq<A>, a: A)
    ensures
        s.push(a).to_set() == s.to_set().insert(a),
{
    let t = s.push(a);
    assert forall|x: A| t.to_set().contains(x) <==> s.to_set().insert(a).contains(x) by {
        if s.contains(x) {
            let i = s.index_of(x);
            assert(t[i] == x);
        }
        if x == a {
            assert(t[s.len() as int] == x);
        }
        if t.contains(x) && x != a {
            let i = t.index_of(x);
            assert(s[i] == x);
        }
    }
    assert(t.to_set() =~= s.to_set().insert(a));
}

/// What a pass over access times asks for next.
#[derive(Debug)]
pub enum AccessStep {
    /// Write the access times of these chunks in one transaction.
    Commit(Vec<CheckSumOnDisk>),
    /// Note these chunks again: other work goes first.
    Requeue(Vec<CheckSumOnDisk>),
    /// Nothing: all chunks have been handed out.
    Done,
}

/// A pass over the chunks whose use is to be recorded.
#[derive(Debug)]
pub struct AccessPass {
    checksums: Vec<CheckSumOnDisk>,
    pos: usize,
}

impl AccessPass {
    /// The chunks of the pass.
    pub closed spec fn checksums(self) -> Seq<CheckSumOnDisk> {
        self.checksums@
    }

    /// How many of them have been handed out.
    pub closed spec fn pos(self) -> nat {
        self.pos as nat
    }

    /// No more chunks are handed out than there are.
    pub open spec fn wf(self) -> bool {
        self.pos() <= self.checksums().len()
    }

    /// A pass over `checksums`.
    pub fn new(checksums: Vec<CheckSumOnDisk>) -> (r: AccessPass)
        ensures
            r.wf(),
            r.checksums() == checksums@,
            r.pos() == 0,
    {
        AccessPass { checksums, pos: 0 }
    }

    /// The next step. The first batch is written in any case; behind it, all that is left is
    /// put back as soon as there is work that goes before access times.
    pub fn next(&mut self, higher_pending: bool) -> (r: AccessStep)
        requires
            old(self).wf(),
        ensures
            final(self).wf(),
            final(self).checksums() == old(self).checksums(),
            ({
                let all = old(self).checksums();
                let from = old(self).pos();
                match r {
                    AccessStep::Done => from == all.len() && final(self).pos() == from,
                    AccessStep::Requeue(list) => {
                        &&& 0 < from < all.len()
                        &&& higher_pending
                        &&& final(self).pos() == all.len()
                        &&& list@ == all.skip(from as int)
                    },
                    AccessStep::Commit(list) => {
                        &&& from < all.len()
                        &&& from == 0 || !higher_pending
                        &&& final(self).pos() == if all.len() - from < ACCESS_BATCH_SIZE {
                            all.len() as int
                        } else {
                            from + ACCESS_BATCH_SIZE
                        }
                        &&& list@ == all.subrange(from as int, final(self).pos() as int)
                    },
                }
            }),
    {
        let len: usize = self.checksums.len();
        if self.pos == len {
            return AccessStep::Done;
        }
        let from: usize = self.pos;
        let yields: bool = from > 0 && higher_pending;
        let end: usize = if yields || len - from < ACCESS_BATCH_SIZE {
            len
        } else {
            from + ACCESS_BATCH_SIZE
        };
        let list: Vec<CheckSumOnDisk> = vstd::slice::slice_to_vec(
            &self.checksums.as_slice()[from..end],
        );
        self.pos = end;
        if yields {
            assert(list@ =~= self.checksums@.skip(from as int));
            AccessStep::Requeue(list)
        } else {
            AccessStep::Commit(list)
        }
    }
}

/// What a step hands out.
pub open spec fn handed_out(step: AccessStep) -> Seq<CheckSumOnDisk> {
    match step {
        AccessStep::Commit(list) => list@,
        AccessStep::Requeue(list) => list@,
        AccessStep::Done => Seq::empty(),
    }
}

/// No access time is lost when a pass gives way: what its steps hand out, to be written or to
/// be noted again, is the whole list, in order.
pub proof fn law_access_pass_loses_nothing(
    all: Seq<CheckSumOnDisk>,
    from: nat,
    to: nat,
    step: AccessStep,
    before: Seq<CheckSumOnDisk>,
)
    requires
        from <= to <= all.len(),
        before == all.take(from as int),
        match step {
            AccessStep::Done => to == from && from == all.len(),
            AccessStep::Requeue(list) => to == all.len() && list@ == all.skip(from as int),
            AccessStep::Commit(list) => list@ == all.subrange(from as int, to as int),
        },
    ensures
        before + handed_out(step) == all.take(to as int),
        step is Done || step is Requeue ==> before + handed_out(step) == all,
{
    assert(all.take(all.len() as int) =~= all);
    assert(before + handed_out(step) =~= all.take(to as int));
}

/// Where the addition of a batch of chunks stands.
#[derive(Debug, Copy, Clone, PartialEq, Eq, Structural)]
pub enum AddStage {
    /// A transaction is being opened.
    Opening,
    /// The chunk with this number is being stored.
    Storing(usize),
    /// The transaction is being committed.
    Committing,
    /// Space is being freed.
    Evicting,
    /// The batch was added, or adding it failed.
    Finished,
}

/// What the addition of a batch is told.
#[derive(Debug, Copy, Clone, PartialEq, Eq, Structural)]
pub enum AddEvent {
    /// The transaction is open.
    Opened,
    /// The chunk is stored: it was put, or it was there already.
    Stored,
    /// The database has no space for the chunk.
    MapFull,
    /// The transaction is committed.
    Committed,
    /// Freeing space deleted this many chunks.
    Evicted(usize),
    /// The step failed for another reason.
    Failed,
}

/// What the addition of a batch asks for next.
#[derive(Debug)]
pub enum AddAction {
    /// Open a transaction.
    Open,
    /// Store the chunk with this number, unless it is there.
    Store(usize),
    /// Commit the transaction.
    Commit,
    /// Drop the transaction, and delete this many of the chunks that were used longest ago.
    Evict(usize),
    /// The batch is added: report its chunks to the index, and note that they were used.
    Publish { checksums: Vec<CheckSum>, touched: Vec<CheckSumOnDisk> },
    /// The batch cannot be added: there is no space, and none can be freed.
    OutOfSpace,
    /// The batch cannot be added, for the reason that was reported.
    Abort,
}

/// The stored forms of checksums.
pub open spec fn stored_forms(checksums: Seq<CheckSum>) -> Seq<CheckSumOnDisk> {
    checksums.map_values(|c: CheckSum| stored_form(c))
}

/// Storing goes on with the chunk numbered `n`, or the transaction is committed when there is
/// none.
pub open spec fn store_or_commit(n: int, len: int, next: AddStage, action: AddAction) -> bool {
    if n < len {
        next == AddStage::Storing(n as usize) && action == AddAction::Store(n as usize)
    } else {
        next == AddStage::Committing && action is Commit
    }
}

/// The rule by which a batch of chunks is added.
pub open spec fn add_rule(
    checksums: Seq<CheckSum>,
    stage: AddStage,
    event: AddEvent,
    next: AddStage,
    action: AddAction,
) -> bool {
    match (stage, event) {
        (AddStage::Opening, AddEvent::Opened) => store_or_commit(
            0,
            checksums.len() as int,
            next,
            action,
        ),
        (AddStage::Storing(i), AddEvent::Stored) => store_or_commit(
            i + 1,
            checksums.len() as int,
            next,
            action,
        ),
        (AddStage::Storing(_), AddEvent::MapFull) => {
            next == AddStage::Evicting && action == AddAction::Evict(GC_BATCH)
        },
        (AddStage::Evicting, AddEvent::Evicted(n)) => if n == 0 {
            next == AddStage::Finished && action is OutOfSpace
        } else {
            next == AddStage::Opening && action is Open
        },
        (AddStage::Committing, AddEvent::Committed) => {
            &&& next == AddStage::Finished
            &&& action matches AddAction::Publish { checksums: c, touched: t }
            &&& c@ == checksums
            &&& t@ == stored_forms(checksums)
        },
        _ => next == AddStage::Finished && action is Abort,
    }
}

/// The addition of a batch of chunks: all are stored in one transaction. Where space runs out,
/// the transaction is dropped, space is freed, and all chunks are stored anew.
#[derive(Debug)]
pub struct AddBatch {
    checksums: Vec<CheckSum>,
    stage: AddStage,
}

impl AddBatch {
    /// The chunks of the batch.
    pub closed spec fn checksums(self) -> Seq<CheckSum> {
        self.checksums@
    }

    /// Where the addition stands.
    pub closed spec fn stage(self) -> AddStage {
        self.stage
    }

    /// The chunk that is being stored is one of the batch.
    pub open spec fn wf(self) -> bool {
        self.stage() matches AddStage::Storing(i) ==> i < self.checksums().len()
    }

    /// The addition of these chunks, of which a transaction is the first step.
    pub fn new(checksums: Vec<CheckSum>) -> (r: AddBatch)
        ensures
            r.wf(),
            r.checksums() == checksums@,
            r.stage() == AddStage::Opening,
    {
        AddBatch { checksums, stage: AddStage::Opening }
    }

    /// Takes what happened, and returns what to do next. An event that was not asked for ends
    /// the addition.
    pub fn on_event(&mut self, event: AddEvent) -> (r: AddAction)
        requires
            old(self).wf(),
        ensures
            final(self).wf(),
            final(self).checksums() == old(self).checksums(),
            add_rule(old(self).checksums(), old(self).stage(), event, final(self).stage(), r),
    {
        assert(self.checksums.len() == self.checksums@.len());
        match (self.stage, event) {
            (AddStage::Opening, AddEvent::Opened) => self.store_or_commit(0),
            (AddStage::Storing(i), AddEvent::Stored) => self.store_or_commit(i + 1),
            (AddStage::Storing(_), AddEvent::MapFull) => {
                self.stage = AddStage::Evicting;
                AddAction::Evict(GC_BATCH)
            },
            (AddStage::Evicting, AddEvent::Evicted(n)) => {
                if n == 0 {
                    self.stage = AddStage::Finished;
                    AddAction::OutOfSpace
                } else {
                    self.stage = AddStage::Opening;
                    AddAction::Open
                }
            },
            (AddStage::Committing, AddEvent::Committed) => {
                self.stage = AddStage::Finished;
                let checksums: Vec<CheckSum> = vstd::slice::slice_to_vec(
                    self.checksums.as_slice(),
                );
                AddAction::Publish { checksums, touched: to_stored(self.checksums.as_slice()) }
            },
            _ => {
                self.stage = AddStage::Finished;
                AddAction::Abort
            },
        }
    }

    /// Goes on with the chunk numbered `n`.
    fn store_or_commit(&mut self, n: usize) -> (r: AddAction)
        ensures
            final(self).wf(),
            final(self).checksums() == old(self).checksums(),
            store_or_commit(
                n as int,
                old(self).checksums().len() as int,
                final(self).stage(),
                r,
            ),
    {
        if n < self.checksums.len() {
            self.stage = AddStage::Storing(n);
            AddAction::Store(n)
        } else {
            self.stage = AddStage::Committing;
            AddAction::Commit
        }
    }
}

/// The stored forms of checksums.
pub fn to_stored(checksums: &[CheckSum]) -> (r: Vec<CheckSumOnDisk>)
    ensures
        r@ == stored_forms(checksums@),
{
    let mut out: Vec<CheckSumOnDisk> = Vec::new();
    let mut i: usize = 0;
    while i < checksums.len()
        invariant
            i <= checksums@.len(),
            out@.len() == i,
            forall|j: int| 0 <= j < i ==> out@[j] == stored_form(checksums@[j]),
        decreases checksums@.len() - i,
    {
        out.push(CheckSumOnDisk::from(checksums[i]));
        i = i + 1;
    }
    assert(out@ =~= stored_forms(checksums@));
    out
}

/// Chunks become visible to others only once the transaction that holds all of them is
/// committed.
pub proof fn law_publish_follows_commit(
    checksums: Seq<CheckSum>,
    stage: AddStage,
    event: AddEvent,
    next: AddStage,
    action: AddAction,
)
    requires
        add_rule(checksums, stage, event, next, action),
        action is Publish,
    ensures
        stage == AddStage::Committing,
        event == AddEvent::Committed,
{
}

/// An addition gives up for want of space only when freeing space deleted nothing; as long as
/// that deletes something, all chunks are stored anew in a transaction of their own.
pub proof fn law_out_of_space_means_nothing_to_evict(
    checksums: Seq<CheckSum>,
    stage: AddStage,
    event: AddEvent,
    next: AddStage,
    action: AddAction,
)
    requires
        add_rule(checksums, stage, event, next, action),
    ensures
        action is OutOfSpace <==> stage == AddStage::Evicting && event == AddEvent::Evicted(0),
        stage == AddStage::Evicting && event is Evicted && event != AddEvent::Evicted(0)
            ==> next == AddStage::Opening && action is Open,
{
}

/// The data of a store after chunks are put into it one after the other. A chunk that is there
/// stays as it is.
pub open spec fn store_all(
    data: Map<CheckSumOnDisk, Seq<u8>>,
    chunks: Seq<(CheckSumOnDisk, Seq<u8>)>,
) -> Map<CheckSumOnDisk, Seq<u8>>
    decreases chunks.len(),
{
    if chunks.len() == 0 {
        data
    } else {
        let before = store_all(data, chunks.drop_last());
        let (cs, bytes) = chunks.last();
        if before.dom().contains(cs) {
            before
        } else {
            before.insert(cs, bytes)
        }
    }
}

/// Adding chunks changes none that was there, leaves all of the added ones present, and brings
/// in no other.
pub proof fn law_store_all_keeps_what_is_there(
    data: Map<CheckSumOnDisk, Seq<u8>>,
    chunks: Seq<(CheckSumOnDisk, Seq<u8>)>,
)
    ensures
        forall|cs: CheckSumOnDisk| #[trigger]
            data.dom().contains(cs) ==> store_all(data, chunks).dom().contains(cs) && store_all(
                data,
                chunks,
            )[cs] == data[cs],
        forall|i: int|
            0 <= i < chunks.len() ==> store_all(data, chunks).dom().contains(
                (#[trigger] chunks[i]).0,
            ),
        forall|cs: CheckSumOnDisk| #[trigger]
            store_all(data, chunks).dom().contains(cs) ==> data.dom().contains(cs) || exists|i: int|
                0 <= i < chunks.len() && (#[trigger] chunks[i]) == (cs, store_all(data, chunks)[cs]),
    decreases chunks.len(),
{
    if chunks.len() > 0 {
        let init = chunks.drop_last();
        law_store_all_keeps_what_is_there(data, init);
        let before = store_all(data, init);
        let after = store_all(data, chunks);
        assert forall|i: int| 0 <= i < chunks.len() implies after.dom().contains(
            (#[trigger] chunks[i]).0,
        ) by {
            if i < init.len() {
                assert(init[i] == chunks[i]);
            }
        }
        assert forall|cs: CheckSumOnDisk| #[trigger]
            after.dom().contains(cs) implies data.dom().contains(cs) || exists|i: int|
            0 <= i < chunks.len() && (#[trigger] chunks[i]) == (cs, after[cs]) by {
            if before.dom().contains(cs) {
                if !data.dom().contains(cs) {
                    let i = choose|i: int|
                        0 <= i < init.len() && (#[trigger] init[i]) == (cs, before[cs]);
                    assert(chunks[i] == (cs, after[cs]));
                }
            } else {
                assert(chunks[chunks.len() - 1] == (cs, after[cs]));
            }
        }
    }
}

/// A moment of the addition of a batch: where it stands, what it asks for, what the database holds,
/// and what the open transaction would make of it.
pub ghost struct AddMoment {
    pub stage: AddStage,
    pub action: AddAction,
    pub data: Map<CheckSumOnDisk, Seq<u8>>,
    pub txn: Map<CheckSumOnDisk, Seq<u8>>,
}

/// Whether what the addition of a batch asks for is done, or fails, and is said so: a transaction
/// starts from what the database holds, a chunk is put into it unless it is there, a commit makes
/// the database what the transaction made of it, and freeing space only takes chunks away.
pub open spec fn add_done(
    chunks: Seq<(CheckSumOnDisk, Seq<u8>)>,
    m: AddMoment,
    event: AddEvent,
    n: AddMoment,
) -> bool {
    match (m.action, event) {
        (AddAction::Open, AddEvent::Opened) => n.data == m.data && n.txn == m.data,
        (AddAction::Store(i), AddEvent::Stored) => {
            &&& i < chunks.len()
            &&& n.data == m.data
            &&& n.txn == if m.txn.dom().contains(chunks[i as int].0) {
                m.txn
            } else {
                m.txn.insert(chunks[i as int].0, chunks[i as int].1)
            }
        },
        (AddAction::Store(_), AddEvent::MapFull) => n.data == m.data,
        (AddAction::Commit, AddEvent::Committed) => n.data == m.txn,
        (AddAction::Evict(_), AddEvent::Evicted(_)) => n.data.submap_of(m.data),
        (AddAction::Evict(_), AddEvent::Failed) => n.data.submap_of(m.data),
        (AddAction::Open, AddEvent::Failed) => n.data == m.data,
        (AddAction::Store(_), AddEvent::Failed) => n.data == m.data,
        (AddAction::Commit, AddEvent::Failed) => n.data == m.data,
        _ => false,
    }
}

/// Whether `run` are the moments of the addition of a batch, from its first transaction on, with
/// `events` between them.
pub open spec fn add_run(
    checksums: Seq<CheckSum>,
    chunks: Seq<(CheckSumOnDisk, Seq<u8>)>,
    run: Seq<AddMoment>,
    events: Seq<AddEvent>,
) -> bool {
    &&& run.len() == events.len() + 1
    &&& run[0].stage is Opening
    &&& run[0].action is Open
    &&& forall|k: int|
        0 <= k < events.len() ==> {
            &&& add_done(chunks, run[k], #[trigger] events[k], run[k + 1])
            &&& add_rule(
                checksums,
                run[k].stage,
                events[k],
                run[k + 1].stage,
                run[k + 1].action,
            )
        }
}

/// Whether the database holds what it held before, or less, and all chunks of the batch besides.
pub open spec fn batch_added(
    before: Map<CheckSumOnDisk, Seq<u8>>,
    chunks: Seq<(CheckSumOnDisk, Seq<u8>)>,
    after: Map<CheckSumOnDisk, Seq<u8>>,
) -> bool {
    exists|kept: Map<CheckSumOnDisk, Seq<u8>>| #[trigger]
        kept.submap_of(before) && after == store_all(kept, chunks)
}

/// What holds of a moment of the addition of a batch.
spec fn add_moment_holds(
    chunks: Seq<(CheckSumOnDisk, Seq<u8>)>,
    before: Map<CheckSumOnDisk, Seq<u8>>,
    run: Seq<AddMoment>,
    events: Seq<AddEvent>,
    k: int,
) -> bool {
    let m = run[k];
    match m.stage {
        AddStage::Opening => m.action is Open && m.data.submap_of(before),
        AddStage::Storing(i) => {
            &&& i < chunks.len()
            &&& m.action == AddAction::Store(i)
            &&& m.data.submap_of(before)
            &&& m.txn == store_all(m.data, chunks.take(i as int))
        },
        AddStage::Committing => {
            &&& m.action is Commit
            &&& m.data.submap_of(before)
            &&& m.txn == store_all(m.data, chunks)
        },
        AddStage::Evicting => {
            &&& m.action is Evict
            &&& m.action->Evict_0 > 0
            &&& m.data.submap_of(before)
        },
        AddStage::Finished => match m.action {
            AddAction::Publish { .. } => batch_added(before, chunks, m.data),
            AddAction::OutOfSpace => {
                &&& m.data.submap_of(before)
                &&& k > 0
                &&& events[k - 1] == AddEvent::Evicted(0)
            },
            AddAction::Abort => {
                &&& m.data.submap_of(before)
                &&& k > 0
                &&& events[k - 1] is Failed
            },
            _ => false,
        },
    }
}

proof fn lemma_add_moments_hold(
    checksums: Seq<CheckSum>,
    chunks: Seq<(CheckSumOnDisk, Seq<u8>)>,
    run: Seq<AddMoment>,
    events: Seq<AddEvent>,
    k: int,
)
    requires
        chunks.len() == checksums.len() <= usize::MAX,
        add_run(checksums, chunks, run, events),
        0 <= k < run.len(),
    ensures
        add_moment_holds(chunks, run[0].data, run, events, k),
    decreases k,
{
    let before = run[0].data;
    if k > 0 {
        lemma_add_moments_hold(checksums, chunks, run, events, k - 1);
        let (m, n) = (run[k - 1], run[k]);
        assert(add_done(chunks, m, events[k - 1], n));
        match (m.stage, events[k - 1]) {
            (AddStage::Opening, AddEvent::Opened) => {
                assert(chunks.take(0) =~= Seq::<(CheckSumOnDisk, Seq<u8>)>::empty());
                if chunks.len() == 0 {
                    assert(chunks =~= chunks.take(0));
                }
            },
            (AddStage::Storing(i), AddEvent::Stored) => {
                assert(chunks.take(i + 1).drop_last() =~= chunks.take(i as int));
                if i + 1 == chunks.len() {
                    assert(chunks.take(i + 1) =~= chunks);
                }
            },
            (AddStage::Committing, AddEvent::Committed) => {
                assert(m.data.submap_of(before) && n.data == store_all(m.data, chunks));
            },
            (AddStage::Evicting, _) => {
                assert(n.data.submap_of(before)) by {
                    assert forall|cs: CheckSumOnDisk| #[trigger] n.data.dom().contains(
                        cs,
                    ) implies before.dom().contains(cs) && n.data[cs] == before[cs] by {
                        assert(m.data.dom().contains(cs));
                    }
                }
            },
            _ => {},
        }
    }
}

/// The addition of a batch adds all of its chunks or none. Where they are published, the database
/// holds every one of them, and what it held of others is as it was, but for what was freed. Where
/// the addition ends in another way, none of them came in: space ran out and none could be freed,
/// or something failed. What is published are all chunks of the batch, in order.
pub proof fn law_batch_is_added_whole_or_not_at_all(
    checksums: Seq<CheckSum>,
    chunks: Seq<(CheckSumOnDisk, Seq<u8>)>,
    run: Seq<AddMoment>,
    events: Seq<AddEvent>,
)
    requires
        chunks.len() == checksums.len() <= usize::MAX,
        forall|i: int|
            0 <= i < chunks.len() ==> (#[trigger] chunks[i]).0 == stored_form(checksums[i]),
        add_run(checksums, chunks, run, events),
        run.last().stage is Finished,
    ensures
        match run.last().action {
            AddAction::Publish { checksums: published, touched } => {
                &&& batch_added(run[0].data, chunks, run.last().data)
                &&& forall|i: int|
                    0 <= i < checksums.len() ==> run.last().data.dom().contains(
                        stored_form(#[trigger] checksums[i]),
                    )
                &&& published@ == checksums
                &&& touched@.len() == checksums.len()
                &&& forall|i: int|
                    0 <= i < checksums.len() ==> #[trigger] touched@[i] == stored_form(
                        checksums[i],
                    )
            },
            AddAction::OutOfSpace => {
                &&& run.last().data.submap_of(run[0].data)
                &&& events.last() == AddEvent::Evicted(0)
            },
            AddAction::Abort => {
                &&& run.last().data.submap_of(run[0].data)
                &&& events.last() is Failed
            },
            _ => false,
        },
{
    let k = run.len() - 1;
    lemma_add_moments_hold(checksums, chunks, run, events, k);
    assert(add_done(chunks, run[k - 1], events[k - 1], run[k]));
    if run.last().action is Publish {
        let kept = choose|kept: Map<CheckSumOnDisk, Seq<u8>>| #[trigger]
            kept.submap_of(run[0].data) && run.last().data == store_all(kept, chunks);
        law_store_all_keeps_what_is_there(kept, chunks);
        assert forall|i: int| 0 <= i < checksums.len() implies run.last().data.dom().contains(
            stored_form(#[trigger] checksums[i]),
        ) by {
            assert(chunks[i].0 == stored_form(checksums[i]));
        }
    }
}

/// Where the database has no space for a chunk, space is freed, and as long as that deletes
/// anything, however little, the batch is started anew with its first chunk.
pub proof fn law_addition_starts_anew_after_freeing(
    add0: &mut AddBatch,
    before: AddEvent,
    i: usize,
    add1: &mut AddBatch,
    evict: AddAction,
    add2: &mut AddBatch,
    freed: usize,
    open: AddAction,
    add3: &mut AddBatch,
    first: AddAction,
)
    requires
        old(add0).wf(),
        call_ensures(AddBatch::on_event, (add0, before), AddAction::Store(i)),
        *old(add1) == *final(add0),
        call_ensures(AddBatch::on_event, (add1, AddEvent::MapFull), evict),
        *old(add2) == *final(add1),
        call_ensures(AddBatch::on_event, (add2, AddEvent::Evicted(freed)), open),
        *old(add3) == *final(add2),
        call_ensures(AddBatch::on_event, (add3, AddEvent::Opened), first),
    ensures
        i < old(add0).checksums().len(),
        evict == AddAction::Evict(GC_BATCH),
        open is Open <==> freed > 0,
        open is OutOfSpace <==> freed == 0,
        freed > 0 ==> first == AddAction::Store(0),
{
}

/// Requests of a kind are served in the order in which they came, and none is lost: what comes in
/// last goes out behind all that waited. Chunks to add are served before chunks to delete, and
/// these before access times.
pub proof fn law_requests_are_served_in_order(
    queue0: &mut WriteQueue,
    req: AddRequest,
    queue1: &mut WriteQueue,
    del: DeleteRequest,
    queue2: &mut WriteQueue,
    task: Option<WriteTask>,
)
    requires
        old(queue0).wf(),
        call_ensures(WriteQueue::submit_high, (queue0, req), ()),
        *old(queue1) == *final(queue0),
        call_ensures(WriteQueue::submit_medium, (queue1, del), ()),
        *old(queue2) == *final(queue1),
        call_ensures(WriteQueue::next_task, (queue2,), task),
    ensures
        task is Some && task->Some_0 is Add,
        ({
            let first = task->Some_0->Add_0;
            &&& old(queue0).adds().len() == 0 ==> first == req && final(queue2).adds().len() == 0
            &&& old(queue0).adds().len() > 0 ==> first == old(queue0).adds()[0]
                && final(queue2).adds().last() == req
            &&& final(queue2).adds().len() == old(queue0).adds().len()
            &&& final(queue2).deletes() == old(queue0).deletes().push(del)
            &&& final(queue2).touched() == old(queue0).touched()
        }),
{
    let all = old(queue0).adds().push(req);
    let first = task->Some_0->Add_0;
    assert(all == seq![first] + final(queue2).adds());
    assert(all[0] == first);
    if old(queue0).adds().len() > 0 {
        assert(all.last() == final(queue2).adds().last());
    }
}

/// The use of a chunk is noted once, however often it is told, until it is handed out to be
/// written.
pub proof fn law_use_is_noted_once(
    queue0: &mut WriteQueue,
    cs: CheckSumOnDisk,
    first: bool,
    queue1: &mut WriteQueue,
    second: bool,
    queue2: &mut WriteQueue,
    task: Option<WriteTask>,
)
    requires
        old(queue0).wf(),
        call_ensures(WriteQueue::enqueue_access, (queue0, cs), first),
        *old(queue1) == *final(queue0),
        call_ensures(WriteQueue::enqueue_access, (queue1, cs), second),
        *old(queue2) == *final(queue1),
        old(queue0).adds().len() == 0,
        old(queue0).deletes().len() == 0,
        call_ensures(WriteQueue::next_task, (queue2,), task),
    ensures
        !second,
        first <==> !old(queue0).touched().contains(cs),
        task is Some && task->Some_0 is Touch,
        task->Some_0->Touch_0@.contains(cs),
        task->Some_0->Touch_0@.no_duplicates(),
        task->Some_0->Touch_0@.len() == old(queue0).touched().len() + if first {
            1int
        } else {
            0
        },
        old(queue0).touched().is_prefix_of(task->Some_0->Touch_0@),
{
    let list = final(queue0).touched();
    if first {
        assert(list[list.len() - 1] == cs);
    }
    assert(list.contains(cs));
}

/// A pass over access times hands out every chunk of its list, in order: each step hands out those
/// behind what was handed out before, and no step but the last is empty. The first batch is
/// written whatever else is pending; behind it, all that is left is put back where other work
/// waits.
pub proof fn law_access_pass_goes_through_its_list(
    pass: &mut AccessPass,
    pending: bool,
    step: AccessStep,
)
    requires
        old(pass).wf(),
        call_ensures(AccessPass::next, (pass, pending), step),
    ensures
        final(pass).wf(),
        final(pass).checksums() == old(pass).checksums(),
        old(pass).checksums().take(old(pass).pos() as int) + handed_out(step)
            == old(pass).checksums().take(final(pass).pos() as int),
        step is Done <==> old(pass).pos() == old(pass).checksums().len(),
        !(step is Done) ==> handed_out(step).len() > 0,
        step is Requeue <==> 0 < old(pass).pos() < old(pass).checksums().len() && pending,
        step is Requeue ==> final(pass).pos() == old(pass).checksums().len(),
        step is Commit && final(pass).pos() < old(pass).checksums().len() ==> handed_out(
            step,
        ).len() == 1024,
        handed_out(step).len() <= 1024 || step is Requeue,
{
    let all = old(pass).checksums();
    let (from, to) = (old(pass).pos() as int, final(pass).pos() as int);
    assert(all.take(from) + handed_out(step) =~= all.take(to));
}

/// The addition of a batch takes the step that its rule says, from its start on: nothing else is
/// asked for.
pub proof fn law_addition_follows_its_rule(
    checksums: Vec<CheckSum>,
    begun: AddBatch,
    add: &mut AddBatch,
    event: AddEvent,
    action: AddAction,
)
    requires
        call_ensures(AddBatch::new, (checksums,), begun),
        old(add).wf(),
        call_ensures(AddBatch::on_event, (add, event), action),
    ensures
        begun.checksums() == checksums@,
        begun.stage() is Opening,
        add_rule(
            old(add).checksums(),
            old(add).stage(),
            event,
            final(add).stage(),
            action,
        ),
        final(add).checksums() == old(add).checksums(),
{
}

/// Whether an event tells of what the addition of a batch asked for.
pub open spec fn add_awaits(action: AddAction, event: AddEvent) -> bool {
    match action {
        AddAction::Open => event is Opened,
        AddAction::Store(_) => event is Stored || event is MapFull,
        AddAction::Commit => event is Committed,
        AddAction::Evict(_) => event is Evicted,
        _ => false,
    }
}

/// What fails, or was not asked for, ends the addition of a batch without its chunks being
/// published; the chunks are stored one after the other, and the transaction is committed behind
/// the last.
pub proof fn law_addition_goes_through_its_batch(
    add0: &mut AddBatch,
    before: AddEvent,
    action: AddAction,
    add1: &mut AddBatch,
    event: AddEvent,
    next: AddAction,
)
    requires
        old(add0).wf(),
        call_ensures(AddBatch::on_event, (add0, before), action),
        *old(add1) == *final(add0),
        call_ensures(AddBatch::on_event, (add1, event), next),
    ensures
        !add_awaits(action, event) ==> next is Abort,
        action matches AddAction::Store(i) ==> {
            &&& event is MapFull ==> next == AddAction::Evict(GC_BATCH)
            &&& event is Stored && i + 1 < old(add0).checksums().len() ==> next
                == AddAction::Store((i + 1) as usize)
            &&& event is Stored && i + 1 == old(add0).checksums().len() ==> next is Commit
        },
        action is Open && event is Opened && old(add0).checksums().len() > 0 ==> next
            == AddAction::Store(0),
        action is Commit && event is Committed ==> next is Publish && next->checksums@ == old(
            add0,
        ).checksums(),
{
}

/// Draining a queue hands out all that waits, in order, and leaves nothing to do.
pub proof fn law_drained_queue_is_empty(
    q0: &mut WriteQueue,
    all: WriteQueue,
    q1: &mut WriteQueue,
    task: Option<WriteTask>,
    left: &WriteQueue,
    pending: bool,
)
    requires
        old(q0).wf(),
        call_ensures(WriteQueue::drain, (q0,), all),
        *old(q1) == *final(q0),
        call_ensures(WriteQueue::next_task, (q1,), task),
        *left == *final(q0),
        call_ensures(WriteQueue::higher_pending, (left,), pending),
    ensures
        all.adds() == old(q0).adds(),
        all.deletes() == old(q0).deletes(),
        all.touched() == old(q0).touched(),
        task is None,
        !pending,
{
}

/// A queue with work, or one that is asked to end, is not idle; asking it to end takes nothing out.
pub proof fn law_stopping_queue_keeps_its_work(
    q: &mut WriteQueue,
    at: &WriteQueue,
    stopping: bool,
    idle: bool,
    before: &WriteQueue,
    was_idle: bool,
)
    requires
        *before == *old(q),
        call_ensures(WriteQueue::is_idle, (before,), was_idle),
        call_ensures(WriteQueue::request_stop, (q,), ()),
        *at == *final(q),
        call_ensures(WriteQueue::is_stopping, (at,), stopping),
        call_ensures(WriteQueue::is_idle, (at,), idle),
    ensures
        stopping,
        !idle,
        final(q).adds() == old(q).adds(),
        final(q).deletes() == old(q).deletes(),
        final(q).touched() == old(q).touched(),
        was_idle ==> old(q).adds().len() + old(q).deletes().len() + old(q).touched().len() == 0,
        old(q).adds().len() + old(q).deletes().len() + old(q).touched().len() == 0 && !old(
            q,
        ).stopping() ==> was_idle,
{
}

/// The use of many chunks is noted as if each was noted alone.
pub proof fn law_many_uses_are_noted_like_single_ones(
    q0: &mut WriteQueue,
    list: &[CheckSumOnDisk],
    any: bool,
    q1: &mut WriteQueue,
    cs: CheckSumOnDisk,
    new: bool,
)
    requires
        old(q0).wf(),
        call_ensures(WriteQueue::enqueue_access_many, (q0, list), any),
        *old(q1) == *final(q0),
        call_ensures(WriteQueue::enqueue_access, (q1, cs), new),
    ensures
        new <==> !old(q0).touched().contains(cs) && !list@.contains(cs),
        list@.contains(cs) && !old(q0).touched().contains(cs) ==> any,
        old(q0).touched().is_prefix_of(final(q0).touched()),
{
    assert(call_requires(WriteQueue::enqueue_access_many, (q0, list)));
    let now = final(q0).touched();
    assert(now.to_set().contains(cs) <==> now.contains(cs));
    assert(old(q0).touched().to_set().contains(cs) <==> old(q0).touched().contains(cs));
    assert(list@.to_set().contains(cs) <==> list@.contains(cs));
    if list@.contains(cs) {
        let i = list@.index_of(cs);
        assert(list@[i] == cs);
    }
}

/// A new queue has nothing to do, and a new pass hands out its list from the front on.
pub proof fn law_new_queue_and_pass_start_at_the_front(
    queue: &mut WriteQueue,
    task: Option<WriteTask>,
    list: Vec<CheckSumOnDisk>,
    pass: &mut AccessPass,
    pending: bool,
    step: AccessStep,
)
    requires
        call_ensures(WriteQueue::new, (), *old(queue)),
        call_ensures(WriteQueue::next_task, (queue,), task),
        call_ensures(AccessPass::new, (list,), *old(pass)),
        call_ensures(AccessPass::next, (pass, pending), step),
    ensures
        task is None,
        list@.len() == 0 <==> step is Done,
        list@.len() > 0 ==> step is Commit && handed_out(step).is_prefix_of(list@),
        0 < list@.len() <= 1024 ==> handed_out(step) == list@,
{
    assert(call_requires(WriteQueue::next_task, (queue,)));
    assert(call_requires(AccessPass::next, (pass, pending)));
    if 0 < list@.len() <= 1024 {
        assert(handed_out(step) =~= list@);
    }
}

} // verus!
