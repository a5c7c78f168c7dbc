//! One connection that carries many requests at a time, told apart by number.

use crate::backend::peer::protocol::{Request, WireResponse};
use crate::error::{Error, ErrorKind};
use crate::text::{decimal, to_decimal};
use vstd::prelude::*;

verus! {

/// A counter after one more, where it wraps at the end of its range.
pub open spec fn one_more(n: usize) -> usize {
    if n == usize::MAX {
        0
    } else {
        (n + 1) as usize
    }
}

/// A counter after one less, where it wraps at zero.
pub open spec fn one_less(n: usize) -> usize {
    if n == 0 {
        usize::MAX
    } else {
        (n - 1) as usize
    }
}

/// The number that follows a request's number.
pub open spec fn next_id(id: u64) -> u64 {
    if id == u64::MAX {
        0
    } else {
        (id + 1) as u64
    }
}

/// `ids` without `id`.
pub open spec fn without(ids: Seq<u64>, id: u64) -> Seq<u64> {
    ids.filter(|x: u64| x != id)
}

/// Removes a number from a list, and returns whether it was there.
fn drop_id(ids: &mut Vec<u64>, id: u64) -> (r: bool)
    ensures
        final(ids)@ == without(old(ids)@, id),
        r == old(ids)@.contains(id),
{
    let mut out: Vec<u64> = Vec::new();
    let mut found: bool = false;
    let mut i: usize = 0;
    proof {
        reveal(Seq::filter);
    }
    while i < ids.len()
        invariant
            i <= ids@.len(),
            ids@ == old(ids)@,
            out@ == without(ids@.take(i as int), id),
            found == ids@.take(i as int).contains(id),
        decreases ids@.len() - i,
    {
        let x: u64 = ids[i];
        proof {
            let after = ids@.take(i + 1);
            assert(after.drop_last() =~= ids@.take(i as int));
            assert(after.last() == x);
            reveal(Seq::filter);
            if found {
                let k = choose|k: int|
                    0 <= k < ids@.take(i as int).len() && ids@.take(i as int)[k] == id;
                assert(after[k] == id);
            }
            if x == id {
                assert(after[i as int] == id);
            }
            if after.contains(id) && x != id {
                let k = choose|k: int| 0 <= k < after.len() && after[k] == id;
                assert(ids@.take(i as int)[k] == id);
            }
        }
        if x == id {
            found = true;
        } else {
            out.push(x);
        }
        i = i + 1;
    }
    assert(ids@.take(i as int) =~= ids@);
    *ids = out;
    found
}

/// The error of an operation that took too long.
pub fn timeout_error(op: &str) -> (r: Error)
    ensures
        r.kind == ErrorKind::TimedOut,
        r.message@ == op@ + " timed out"@,
{
    let mut text: String = op.to_owned();
    text.append(" timed out");
    Error { kind: ErrorKind::TimedOut, message: text }
}

/// How a wait for a response ended.
#[derive(Debug)]
pub enum Reply {
    /// The response came.
    Response(WireResponse),
    /// The session was closed with an error.
    Failed(Error),
    /// The session went away without a word.
    ChannelClosed,
    /// It took too long.
    TimedOut,
}

/// What is done with a response that was read.
#[derive(Debug)]
pub enum Delivery {
    /// Hand it to the request that waits for it.
    Deliver,
    /// Stop reading; the requests that wait fail with the error.
    Close(Error, Vec<u64>),
}

/// The requests of a connection.
#[derive(Debug)]
pub struct MultiplexedSession {
    next_request_id: u64,
    closed: bool,
    inflight: usize,
    pending: Vec<u64>,
    last_used_micros: u64,
}

impl MultiplexedSession {
    /// The number of the next request.
    pub closed spec fn next_request_id(self) -> u64 {
        self.next_request_id
    }

    /// Whether the session takes no more requests.
    pub closed spec fn spec_closed(self) -> bool {
        self.closed
    }

    /// How many requests were begun and not finished.
    pub closed spec fn spec_inflight(self) -> usize {
        self.inflight
    }

    /// The numbers of the requests that wait for their response.
    pub closed spec fn pending(self) -> Seq<u64> {
        self.pending@
    }

    /// When the session was last used.
    pub closed spec fn used_at(self) -> u64 {
        self.last_used_micros
    }

    /// Nothing waits on a session that is closed, and no request waits twice.
    pub open spec fn wf(self) -> bool {
        &&& self.spec_closed() ==> self.pending() == Seq::<u64>::empty()
        &&& self.pending().no_duplicates()
    }

    /// The session is closed and nothing else about it changed.
    pub open spec fn only_closed(self, before: MultiplexedSession) -> bool {
        &&& self.spec_closed()
        &&& self.pending() == Seq::<u64>::empty()
        &&& self.next_request_id() == before.next_request_id()
        &&& self.spec_inflight() == before.spec_inflight()
        &&& self.used_at() == before.used_at()
    }

    /// A session without requests. Its first request is number one.
    pub fn new(now_micros: u64) -> (r: MultiplexedSession)
        ensures
            r.wf(),
            r.next_request_id() == 1,
            !r.spec_closed(),
            r.spec_inflight() == 0,
            r.pending() == Seq::<u64>::empty(),
            r.used_at() == now_micros,
    {
        MultiplexedSession {
            next_request_id: 1,
            closed: false,
            inflight: 0,
            pending: Vec::new(),
            last_used_micros: now_micros,
        }
    }

    /// Whether the session takes no more requests.
    pub fn is_closed(&self) -> (r: bool)
        ensures
            r == self.spec_closed(),
    {
        self.closed
    }

    /// How many requests were begun and not finished.
    pub fn inflight(&self) -> (r: usize)
        ensures
            r == self.spec_inflight(),
    {
        self.inflight
    }

    /// When the session was last used.
    pub fn last_used(&self) -> (r: u64)
        ensures
            r == self.used_at(),
    {
        self.last_used_micros
    }

    /// Notes that the session was used.
    pub fn touch(&mut self, now_micros: u64)
        ensures
            final(self).used_at() == now_micros,
            final(self).next_request_id() == old(self).next_request_id(),
            final(self).spec_closed() == old(self).spec_closed(),
            final(self).spec_inflight() == old(self).spec_inflight(),
            final(self).pending() == old(self).pending(),
    {
        self.last_used_micros = now_micros;
    }

    /// Begins a request and gives it its number.
    pub fn begin(&mut self, request: &mut Request, now_micros: u64) -> (r: Result<u64, Error>)
        requires
            old(self).wf(),
        ensures
            final(self).wf(),
            match r {
                Ok(id) => {
                    &&& !old(self).spec_closed()
                    &&& id == old(self).next_request_id()
                    &&& *final(request) == (Request { request_id: id, ..*old(request) })
                    &&& !final(self).spec_closed()
                    &&& final(self).next_request_id() == next_id(id)
                    &&& final(self).spec_inflight() == one_more(old(self).spec_inflight())
                    &&& final(self).pending() == without(old(self).pending(), id).push(id)
                    &&& final(self).used_at() == now_micros
                },
                Err(e) => {
                    &&& old(self).spec_closed()
                    &&& *final(self) == *old(self)
                    &&& *final(request) == *old(request)
                    &&& e.kind == ErrorKind::BrokenPipe
                    &&& e.message@ == "session is closed"@
                },
            },
    {
        if self.closed {
            return Err(Error::new(ErrorKind::BrokenPipe, "session is closed"));
        }
        let id: u64 = self.next_request_id;
        self.next_request_id = if id == u64::MAX {
            0
        } else {
            id + 1
        };
        request.request_id = id;
        let ghost before = self.pending@;
        drop_id(&mut self.pending, id);
        proof {
            lemma_without(before, id);
        }
        self.pending.push(id);
        self.inflight = if self.inflight == usize::MAX {
            0
        } else {
            self.inflight + 1
        };
        self.last_used_micros = now_micros;
        Ok(id)
    }

    /// Closes the session. Returns the requests that waited, which fail; a session is closed
    /// once only.
    pub fn close(&mut self) -> (r: Vec<u64>)
        requires
            old(self).wf(),
        ensures
            final(self).wf(),
            final(self).only_closed(*old(self)),
            r@ == old(self).pending(),
    {
        let mut waiting: Vec<u64> = Vec::new();
        if self.closed {
            return waiting;
        }
        self.closed = true;
        std::mem::swap(&mut waiting, &mut self.pending);
        waiting
    }

    /// The request `id` could not be written: it is over and the session is closed.
    /// Returns the error of the request, and the other requests that fail with it.
    pub fn write_failed(&mut self, id: u64, error: Error) -> (r: (Error, Vec<u64>))
        requires
            old(self).wf(),
        ensures
            final(self).wf(),
            r.0 == error,
            r.1@ == without(old(self).pending(), id),
            final(self).spec_closed(),
            final(self).pending() == Seq::<u64>::empty(),
            final(self).spec_inflight() == one_less(old(self).spec_inflight()),
            final(self).next_request_id() == old(self).next_request_id(),
            final(self).used_at() == old(self).used_at(),
    {
        let ghost before = self.pending@;
        drop_id(&mut self.pending, id);
        proof {
            lemma_without(before, id);
        }
        self.end_one();
        let failed: Vec<u64> = self.close();
        (error, failed)
    }

    /// Writing the request `id` took too long.
    pub fn write_timed_out(&mut self, id: u64) -> (r: (Error, Vec<u64>))
        requires
            old(self).wf(),
        ensures
            final(self).wf(),
            r.0.kind == ErrorKind::TimedOut,
            r.0.message@ == "request write"@ + " timed out"@,
            r.1@ == without(old(self).pending(), id),
            final(self).spec_closed(),
            final(self).pending() == Seq::<u64>::empty(),
            final(self).spec_inflight() == one_less(old(self).spec_inflight()),
            final(self).next_request_id() == old(self).next_request_id(),
            final(self).used_at() == old(self).used_at(),
    {
        self.write_failed(id, timeout_error("request write"))
    }

    /// A response to the request `id` was read. One that nothing waits for closes the session.
    pub fn responded(&mut self, id: u64, now_micros: u64) -> (r: Delivery)
        requires
            old(self).wf(),
        ensures
            final(self).wf(),
            final(self).used_at() == now_micros,
            final(self).next_request_id() == old(self).next_request_id(),
            final(self).spec_inflight() == old(self).spec_inflight(),
            match r {
                Delivery::Deliver => {
                    &&& old(self).pending().contains(id)
                    &&& final(self).pending() == without(old(self).pending(), id)
                    &&& final(self).spec_closed() == old(self).spec_closed()
                },
                Delivery::Close(e, failed) => {
                    &&& !old(self).pending().contains(id)
                    &&& failed@ == old(self).pending()
                    &&& final(self).spec_closed()
                    &&& final(self).pending() == Seq::<u64>::empty()
                    &&& e.kind == ErrorKind::InvalidData
                    &&& e.message@ == "unknown response request_id="@ + decimal(id as nat)
                },
            },
    {
        self.last_used_micros = now_micros;
        let ghost before = self.pending@;
        let found: bool = drop_id(&mut self.pending, id);
        proof {
            lemma_without(before, id);
        }
        if found {
            return Delivery::Deliver;
        }
        let failed: Vec<u64> = self.close();
        let mut text: String = "unknown response request_id=".to_owned();
        let n: String = to_decimal(id);
        text.append(n.as_str());
        Delivery::Close(Error { kind: ErrorKind::InvalidData, message: text }, failed)
    }

    /// The wait for the response to the request `id` is over. Returns the outcome of the
    /// request; where it took too long, the session is closed and the other requests that wait
    /// fail with the same error.
    pub fn finish(&mut self, id: u64, reply: Reply, now_micros: u64) -> (r: (
        Result<WireResponse, Error>,
        Vec<u64>,
    ))
        requires
            old(self).wf(),
        ensures
            final(self).wf(),
            final(self).used_at() == now_micros,
            final(self).next_request_id() == old(self).next_request_id(),
            final(self).spec_inflight() == one_less(old(self).spec_inflight()),
            if reply is TimedOut {
                &&& final(self).spec_closed()
                &&& final(self).pending() == Seq::<u64>::empty()
                &&& r.1@ == without(old(self).pending(), id)
            } else {
                &&& final(self).spec_closed() == old(self).spec_closed()
                &&& final(self).pending() == old(self).pending()
                &&& r.1@ == Seq::<u64>::empty()
            },
            match reply {
                Reply::Response(resp) => r.0 == Ok::<WireResponse, Error>(resp),
                Reply::Failed(e) => r.0 == Err::<WireResponse, Error>(e),
                Reply::ChannelClosed => {
                    &&& r.0 is Err
                    &&& r.0->Err_0.kind == ErrorKind::BrokenPipe
                    &&& r.0->Err_0.message@ == "response channel closed"@
                },
                Reply::TimedOut => {
                    &&& r.0 is Err
                    &&& r.0->Err_0.kind == ErrorKind::TimedOut
                    &&& r.0->Err_0.message@ == "response read"@ + " timed out"@
                },
            },
    {
        self.end_one();
        self.last_used_micros = now_micros;
        match reply {
            Reply::Response(resp) => (Ok(resp), Vec::new()),
            Reply::Failed(e) => (Err(e), Vec::new()),
            Reply::ChannelClosed => (
                Err(Error::new(ErrorKind::BrokenPipe, "response channel closed")),
                Vec::new(),
            ),
            Reply::TimedOut => {
                let ghost before = self.pending@;
                drop_id(&mut self.pending, id);
                proof {
                    lemma_without(before, id);
                }
                let failed: Vec<u64> = self.close();
                (Err(timeout_error("response read")), failed)
            },
        }
    }

    fn end_one(&mut self)
        ensures
            final(self).spec_inflight() == one_less(old(self).spec_inflight()),
            final(self).next_request_id() == old(self).next_request_id(),
            final(self).spec_closed() == old(self).spec_closed(),
            final(self).pending() == old(self).pending(),
            final(self).used_at() == old(self).used_at(),
    {
        self.inflight = if self.inflight == 0 {
            usize::MAX
        } else {
            self.inflight - 1
        };
    }
}

/// Taking a number out of a list leaves the others, each as often as before.
pub proof fn lemma_without(ids: Seq<u64>, id: u64)
    ensures
        forall|x: u64| without(ids, id).contains(x) <==> (ids.contains(x) && x != id),
        ids.no_duplicates() ==> without(ids, id).no_duplicates(),
        !ids.contains(id) ==> without(ids, id) == ids,
    decreases ids.len(),
{
    reveal(Seq::filter);
    if ids.len() > 0 {
        let rest = ids.drop_last();
        let last = ids.last();
        lemma_without(rest, id);
        let kept = without(rest, id);
        let all = without(ids, id);
        assert(all == if last != id {
            kept.push(last)
        } else {
            kept
        });
        assert forall|x: u64| all.contains(x) <==> (ids.contains(x) && x != id) by {
            if all.contains(x) {
                let k = choose|k: int| 0 <= k < all.len() && all[k] == x;
                if last != id && k == kept.len() {
                    assert(ids[ids.len() - 1] == x);
                } else {
                    assert(kept[k] == x);
                    assert(rest.contains(x));
                    let j = choose|j: int| 0 <= j < rest.len() && rest[j] == x;
                    assert(ids[j] == x);
                }
            }
            if ids.contains(x) && x != id {
                let j = choose|j: int| 0 <= j < ids.len() && ids[j] == x;
                if j < rest.len() {
                    assert(rest[j] == x);
                    assert(kept.contains(x));
                    let k = choose|k: int| 0 <= k < kept.len() && kept[k] == x;
                    assert(all[k] == x);
                } else {
                    assert(all[kept.len() as int] == x);
                }
            }
        }
        if !ids.contains(id) {
            assert(ids[ids.len() - 1] == last);
            if rest.contains(id) {
                let j = choose|j: int| 0 <= j < rest.len() && rest[j] == id;
                assert(ids[j] == id);
            }
            assert(all =~= ids);
        }
        if ids.no_duplicates() {
            assert(rest.no_duplicates());
            assert(!rest.contains(last));
            assert(!kept.contains(last));
            assert(all.no_duplicates());
        }
    }
}

/// Responses may come in any order: the response to one of two requests that wait leaves the
/// other one waiting, and after both have come none of the two waits.
pub proof fn law_responses_come_in_any_order(pending: Seq<u64>, a: u64, b: u64)
    requires
        a != b,
        pending.contains(a),
        pending.contains(b),
    ensures
        without(pending, a).contains(b),
        !without(without(pending, a), b).contains(a),
        !without(without(pending, a), b).contains(b),
        forall|x: u64|
            without(without(pending, a), b).contains(x) <==> without(
                without(pending, b),
                a,
            ).contains(x),
{
    lemma_without(pending, a);
    lemma_without(pending, b);
    lemma_without(without(pending, a), b);
    lemma_without(without(pending, b), a);
    assert forall|x: u64|
        without(without(pending, a), b).contains(x) <==> without(without(pending, b), a).contains(
            x,
        ) by {
        assert(without(pending, a).contains(x) <==> (pending.contains(x) && x != a));
        assert(without(pending, b).contains(x) <==> (pending.contains(x) && x != b));
    }
}

/// A request that is begun gets a number that no request has that waits, and another than the one
/// before it; it then waits under that number. The response with the number is handed to it,
/// whichever else wait, and leaves these as they are; a second response with it ends the session.
pub proof fn law_response_reaches_its_request(
    s0: &mut MultiplexedSession,
    request: &mut Request,
    t0: u64,
    id: u64,
    s1: &mut MultiplexedSession,
    next_request: &mut Request,
    t1: u64,
    next_id: u64,
    s2: &mut MultiplexedSession,
    t2: u64,
    first: Delivery,
    s3: &mut MultiplexedSession,
    t3: u64,
    second: Delivery,
    x: u64,
)
    requires
        old(s0).wf(),
        call_ensures(MultiplexedSession::begin, (s0, request, t0), Ok(id)),
        *old(s1) == *final(s0),
        call_ensures(MultiplexedSession::begin, (s1, next_request, t1), Ok(next_id)),
        *old(s2) == *final(s1),
        call_ensures(MultiplexedSession::responded, (s2, id, t2), first),
        *old(s3) == *final(s2),
        call_ensures(MultiplexedSession::responded, (s3, id, t3), second),
    ensures
        final(request).request_id == id,
        final(request).checksum == old(request).checksum,
        final(request).message_type == old(request).message_type,
        final(request).offset == old(request).offset,
        final(request).length == old(request).length,
        next_id != id,
        final(s0).pending().contains(id),
        first is Deliver,
        final(s2).pending().contains(next_id),
        final(s2).pending().contains(x) <==> x == next_id || (old(s0).pending().contains(x) && x
            != id),
        second is Close,
        second->Close_1@.contains(next_id),
        final(s3).spec_closed(),
{
    lemma_without(old(s0).pending(), id);
    lemma_without(final(s0).pending(), next_id);
    lemma_without(final(s1).pending(), id);
    let a = without(old(s0).pending(), id).push(id);
    assert(a[a.len() - 1] == id);
    let kept = without(a, next_id);
    let b = kept.push(next_id);
    assert(b[b.len() - 1] == next_id);
    assert forall|y: u64| b.contains(y) <==> (kept.contains(y) || y == next_id) by {
        lemma_push_id(kept, next_id, y);
    }
    assert forall|y: u64| a.contains(y) <==> (old(s0).pending().contains(y) || y == id) by {
        lemma_push_id(without(old(s0).pending(), id), id, y);
    }
    assert(kept.contains(id));
    assert(kept.contains(x) <==> a.contains(x) && x != next_id);
    assert(without(b, id).contains(x) <==> b.contains(x) && x != id);
}

proof fn lemma_push_id(s: Seq<u64>, id: u64, x: u64)
    ensures
        s.push(id).contains(x) <==> s.contains(x) || x == id,
{
    let t = s.push(id);
    if s.contains(x) {
        let k = s.index_of(x);
        assert(t[k] == x);
    }
    if x == id {
        assert(t[s.len() as int] == x);
    }
    if t.contains(x) && x != id {
        let k = t.index_of(x);
        assert(s[k] == x);
    }
}

/// Requests that are begun and finished leave the number of those in flight as it was.
pub proof fn law_finished_requests_are_not_in_flight(
    s0: &mut MultiplexedSession,
    request: &mut Request,
    t0: u64,
    id: u64,
    s1: &mut MultiplexedSession,
    reply: Reply,
    t1: u64,
    r: (Result<WireResponse, Error>, Vec<u64>),
)
    requires
        old(s0).wf(),
        call_ensures(MultiplexedSession::begin, (s0, request, t0), Ok(id)),
        *old(s1) == *final(s0),
        call_ensures(MultiplexedSession::finish, (s1, id, reply, t1), r),
    ensures
        old(s0).spec_inflight() < usize::MAX ==> final(s0).spec_inflight() == old(
            s0,
        ).spec_inflight() + 1,
        final(s1).spec_inflight() == old(s0).spec_inflight(),
        final(s1).spec_closed() <==> reply is TimedOut,
        r.0 is Ok <==> reply is Response,
        reply matches Reply::Response(resp) ==> r.0 == Ok::<WireResponse, Error>(resp),
        reply matches Reply::Failed(e) ==> r.0 == Err::<WireResponse, Error>(e),
        !r.1@.contains(id),
        !(reply is TimedOut) ==> r.1@.len() == 0,
{
    lemma_without(final(s0).pending(), id);
    lemma_without(old(s0).pending(), id);
    if reply is TimedOut {
        assert(!without(final(s0).pending(), id).contains(id));
    }
}

/// A session that is closed takes no request more, and each request that waited fails, once.
pub proof fn law_closed_session_takes_nothing(
    s0: &mut MultiplexedSession,
    failed: Vec<u64>,
    s1: &mut MultiplexedSession,
    again: Vec<u64>,
    s2: &mut MultiplexedSession,
    request: &mut Request,
    now: u64,
    r: Result<u64, Error>,
)
    requires
        old(s0).wf(),
        call_ensures(MultiplexedSession::close, (s0,), failed),
        *old(s1) == *final(s0),
        call_ensures(MultiplexedSession::close, (s1,), again),
        *old(s2) == *final(s1),
        call_ensures(MultiplexedSession::begin, (s2, request, now), r),
    ensures
        failed@ == old(s0).pending(),
        again@.len() == 0,
        r is Err,
        *final(request) == *old(request),
{
}

/// A request that cannot be written fails with its own error and takes the session with it: every
/// other request that waits fails too, and none is in flight on its account.
pub proof fn law_failed_write_ends_the_session(
    s0: &mut MultiplexedSession,
    id: u64,
    error: Error,
    r: (Error, Vec<u64>),
    x: u64,
)
    requires
        old(s0).wf(),
        old(s0).spec_inflight() > 0,
        call_ensures(MultiplexedSession::write_failed, (s0, id, error), r),
    ensures
        r.0 == error,
        r.1@.contains(x) <==> old(s0).pending().contains(x) && x != id,
        final(s0).spec_closed(),
        final(s0).pending().len() == 0,
        final(s0).spec_inflight() == old(s0).spec_inflight() - 1,
{
    lemma_without(old(s0).pending(), id);
}

/// A wait that takes too long ends the session: each other request that waits fails with it.
pub proof fn law_timeout_ends_the_session(
    s: &mut MultiplexedSession,
    id: u64,
    now: u64,
    r: (Result<WireResponse, Error>, Vec<u64>),
    x: u64,
)
    requires
        old(s).wf(),
        call_ensures(MultiplexedSession::finish, (s, id, Reply::TimedOut, now), r),
    ensures
        r.0 is Err && r.0->Err_0.kind == ErrorKind::TimedOut,
        r.1@.contains(x) <==> old(s).pending().contains(x) && x != id,
        final(s).spec_closed(),
        final(s).pending().len() == 0,
{
    assert(call_requires(MultiplexedSession::finish, (s, id, Reply::TimedOut, now)));
    lemma_without(old(s).pending(), id);
}

/// A session was last used when a request was begun, a response came, or a wait for one ended.
pub proof fn law_session_notes_its_last_use(
    s0: &mut MultiplexedSession,
    request: &mut Request,
    t0: u64,
    id: u64,
    s1: &mut MultiplexedSession,
    t1: u64,
    delivery: Delivery,
    s2: &mut MultiplexedSession,
    reply: Reply,
    t2: u64,
    r: (Result<WireResponse, Error>, Vec<u64>),
)
    requires
        old(s0).wf(),
        call_ensures(MultiplexedSession::begin, (s0, request, t0), Ok(id)),
        *old(s1) == *final(s0),
        call_ensures(MultiplexedSession::responded, (s1, id, t1), delivery),
        *old(s2) == *final(s1),
        call_ensures(MultiplexedSession::finish, (s2, id, reply, t2), r),
    ensures
        final(s0).used_at() == t0,
        final(s1).used_at() == t1,
        final(s2).used_at() == t2,
{
}

/// A new session is open, has no request in flight, and gives its first request the number one.
pub proof fn law_new_session_starts_at_one(
    now: u64,
    s: &mut MultiplexedSession,
    at: &MultiplexedSession,
    closed: bool,
    inflight: usize,
    used: u64,
    request: &mut Request,
    later: u64,
    r: Result<u64, Error>,
)
    requires
        call_ensures(MultiplexedSession::new, (now,), *old(s)),
        *at == *old(s),
        call_ensures(MultiplexedSession::is_closed, (at,), closed),
        call_ensures(MultiplexedSession::inflight, (at,), inflight),
        call_ensures(MultiplexedSession::last_used, (at,), used),
        call_ensures(MultiplexedSession::begin, (s, request, later), r),
    ensures
        !closed,
        inflight == 0,
        used == now,
        r == Ok::<u64, Error>(1),
        final(s).spec_inflight() == 1,
{
}

/// A request whose writing takes too long ends as one that cannot be written, with a timeout.
pub proof fn law_slow_write_is_a_failed_write(
    s0: &mut MultiplexedSession,
    s1: &mut MultiplexedSession,
    id: u64,
    slow: (Error, Vec<u64>),
    error: Error,
    failed: (Error, Vec<u64>),
)
    requires
        old(s0).wf(),
        *old(s1) == *old(s0),
        call_ensures(MultiplexedSession::write_timed_out, (s0, id), slow),
        call_ensures(MultiplexedSession::write_failed, (s1, id, error), failed),
    ensures
        slow.0.kind == ErrorKind::TimedOut,
        slow.1@ == failed.1@,
        final(s0).spec_closed() && final(s1).spec_closed(),
        final(s0).spec_inflight() == final(s1).spec_inflight(),
{
    assert(call_requires(MultiplexedSession::write_timed_out, (s0, id)));
    assert(call_requires(MultiplexedSession::write_failed, (s1, id, error)));
}

} // verus!
