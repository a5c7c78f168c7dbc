//! Asking peers for a chunk, and the local chunk server for its services.

use crate::backend::peer::discovery::PeerAddr;
use crate::backend::peer::health::{
    latest, CircuitBreaker, PeerHealth, PeerHealthTracker, PeerHitHints,
};
use crate::backend::peer::protocol::{
    encode_checksum_batch, is_batch_bytes, MessageType, Request, WireResponse, STATUS_HIT,
    STATUS_MISS,
};
use crate::backend::peer::select::PeerSource;
use crate::checksum::{empty_checksum, stored_form, CheckSum};
use crate::error::{Error, ErrorKind};
use vstd::prelude::*;

verus! {

/// How a query went.
#[derive(Debug, Clone, Copy, Eq, PartialEq, Structural)]
pub enum Outcome {
    Hit,
    Miss,
    TimedOut,
    Failed,
}

impl Outcome {
    /// The name of the outcome in metrics.
    pub fn as_str(self) -> (r: &'static str)
        ensures
            r@ == match self {
                Outcome::Hit => "hit"@,
                Outcome::Miss => "miss"@,
                Outcome::TimedOut => "timeout"@,
                Outcome::Failed => "error"@,
            },
    {
        match self {
            Outcome::Hit => "hit",
            Outcome::Miss => "miss",
            Outcome::TimedOut => "timeout",
            Outcome::Failed => "error",
        }
    }
}

/// The outcome that an error amounts to.
pub open spec fn error_outcome(e: Error) -> Outcome {
    if e.kind == ErrorKind::TimedOut {
        Outcome::TimedOut
    } else {
        Outcome::Failed
    }
}

/// Reads a peer's answer to a request for a chunk: the chunk, or that the peer has not got it.
pub fn chunk_reply(response: Result<WireResponse, Error>) -> (r: Result<Option<Vec<u8>>, Error>)
    ensures
        match response {
            Ok(resp) => if resp.status == STATUS_HIT {
                r == Ok::<Option<Vec<u8>>, Error>(Some(resp.payload))
            } else if resp.status == STATUS_MISS {
                r == Ok::<Option<Vec<u8>>, Error>(None)
            } else {
                &&& r is Err
                &&& r->Err_0.kind == ErrorKind::Other
                &&& r->Err_0.message@ == "peer returned error"@
            },
            Err(e) => r == Err::<Option<Vec<u8>>, Error>(e),
        },
{
    match response {
        Ok(resp) => {
            if resp.status == STATUS_HIT {
                Ok(Some(resp.payload))
            } else if resp.status == STATUS_MISS {
                Ok(None)
            } else {
                Err(Error::new(ErrorKind::Other, "peer returned error"))
            }
        },
        Err(e) => Err(e),
    }
}

/// How a query for a chunk went.
pub fn chunk_outcome(result: &Result<Option<Vec<u8>>, Error>) -> (r: Outcome)
    ensures
        r == match *result {
            Ok(Some(_)) => Outcome::Hit,
            Ok(None) => Outcome::Miss,
            Err(e) => error_outcome(e),
        },
{
    match result {
        Ok(Some(_)) => Outcome::Hit,
        Ok(None) => Outcome::Miss,
        Err(e) => {
            if e.kind == ErrorKind::TimedOut {
                Outcome::TimedOut
            } else {
                Outcome::Failed
            }
        },
    }
}

/// Whether a server that was asked for its health is well.
pub fn is_well(response: &Result<WireResponse, Error>) -> (r: bool)
    ensures
        r == (*response is Ok && (*response)->Ok_0.status == STATUS_HIT),
{
    match response {
        Ok(resp) => resp.status == STATUS_HIT,
        Err(_) => false,
    }
}

/// What a search for a chunk does next.
#[derive(Debug, Clone, Copy, Eq, PartialEq, Structural)]
pub enum FetchStep {
    /// Ask a peer; `retry` where the index named peers and one was asked before.
    Ask { peer: PeerAddr, retry: bool },
    /// Stop: a peer gave the chunk, or none did.
    Stop(Outcome),
}

/// What a search that found nothing amounts to.
pub open spec fn overall(outcomes: Seq<Outcome>) -> Outcome {
    if outcomes.contains(Outcome::Miss) {
        Outcome::Miss
    } else if outcomes.contains(Outcome::TimedOut) {
        Outcome::TimedOut
    } else if outcomes.contains(Outcome::Failed) {
        Outcome::Failed
    } else {
        Outcome::Miss
    }
}

/// What a search does after the peers that were asked answered so.
pub open spec fn fetch_step(peers: Seq<PeerAddr>, source: PeerSource, outcomes: Seq<Outcome>) -> FetchStep {
    if outcomes.contains(Outcome::Hit) {
        FetchStep::Stop(Outcome::Hit)
    } else if outcomes.len() < peers.len() {
        FetchStep::Ask {
            peer: peers[outcomes.len() as int],
            retry: source == PeerSource::Index && outcomes.len() > 0,
        }
    } else {
        FetchStep::Stop(overall(outcomes))
    }
}

/// A search for a chunk among peers, which are asked one after the other.
pub struct ChunkFetch {
    peers: Vec<PeerAddr>,
    source: PeerSource,
    asked: usize,
    saw_hit: bool,
    saw_miss: bool,
    saw_timeout: bool,
    saw_error: bool,
    outcomes: Ghost<Seq<Outcome>>,
}

impl ChunkFetch {
    /// The peers to ask.
    pub closed spec fn peers(self) -> Seq<PeerAddr> {
        self.peers@
    }

    /// How the peers were found.
    pub closed spec fn source(self) -> PeerSource {
        self.source
    }

    /// How those that were asked answered.
    pub closed spec fn outcomes(self) -> Seq<Outcome> {
        self.outcomes@
    }

    pub closed spec fn wf(self) -> bool {
        &&& self.asked == self.outcomes@.len()
        &&& self.asked <= self.peers@.len()
        &&& self.saw_hit == self.outcomes@.contains(Outcome::Hit)
        &&& self.saw_miss == self.outcomes@.contains(Outcome::Miss)
        &&& self.saw_timeout == self.outcomes@.contains(Outcome::TimedOut)
        &&& self.saw_error == self.outcomes@.contains(Outcome::Failed)
    }

    /// A search that has asked no peer.
    pub fn new(peers: Vec<PeerAddr>, source: PeerSource) -> (r: ChunkFetch)
        ensures
            r.wf(),
            r.peers() == peers@,
            r.source() == source,
            r.outcomes() == Seq::<Outcome>::empty(),
    {
        ChunkFetch {
            peers,
            source,
            asked: 0,
            saw_hit: false,
            saw_miss: false,
            saw_timeout: false,
            saw_error: false,
            outcomes: Ghost(Seq::empty()),
        }
    }

    /// What to do next.
    pub fn step(&self) -> (r: FetchStep)
        requires
            self.wf(),
        ensures
            r == fetch_step(self.peers(), self.source(), self.outcomes()),
    {
        if self.saw_hit {
            return FetchStep::Stop(Outcome::Hit);
        }
        if self.asked < self.peers.len() {
            return FetchStep::Ask {
                peer: self.peers[self.asked],
                retry: self.source == PeerSource::Index && self.asked > 0,
            };
        }
        let result: Outcome = if self.saw_miss {
            Outcome::Miss
        } else if self.saw_timeout {
            Outcome::TimedOut
        } else if self.saw_error {
            Outcome::Failed
        } else {
            Outcome::Miss
        };
        FetchStep::Stop(result)
    }

    /// Takes the answer of the peer that was asked, and notes it in what is known of peers.
    pub fn answered(
        &mut self,
        outcome: Outcome,
        checksum: CheckSum,
        health: &mut PeerHealthTracker,
        hints: &mut PeerHitHints,
        now: u64,
    )
        requires
            old(self).wf(),
            fetch_step(old(self).peers(), old(self).source(), old(self).outcomes()) is Ask,
            old(health).wf(),
            old(hints).wf(),
            ({
                let peer = old(self).peers()[old(self).outcomes().len() as int];
                &&& old(health).of(peer).total_requests < u64::MAX
                &&& old(health).of(peer).total_hits < u64::MAX
                &&& old(health).of(peer).consecutive_failures < u32::MAX
                &&& old(hints).count_of(peer) < u64::MAX
            }),
        ensures
            final(self).wf(),
            final(self).peers() == old(self).peers(),
            final(self).source() == old(self).source(),
            final(self).outcomes() == old(self).outcomes().push(outcome),
            final(health).wf(),
            final(hints).wf(),
            ({
                let peer = old(self).peers()[old(self).outcomes().len() as int];
                let before = old(health).of(peer);
                &&& final(health).peers() == old(health).peers().insert(
                    peer,
                    noted(before, outcome, now),
                )
                &&& outcome != Outcome::Hit ==> *final(hints) == *old(hints)
                &&& outcome == Outcome::Hit ==> {
                    &&& final(hints).hits().contains_key(peer)
                    &&& final(hints).hits()[peer].hit_count == old(hints).count_of(peer) + 1
                    &&& final(hints).hits()[peer].last_hit_time == now
                    &&& forall|a: PeerAddr|
                        a != peer && #[trigger] old(hints).hits().contains_key(a)
                            ==> final(hints).hits()[a] == old(hints).hits()[a]
                    &&& final(hints).hits().dom() == old(hints).hits().dom().insert(peer)
                    &&& final(hints).recent_of(peer) == latest(
                        old(hints).recent_of(peer).push(stored_form(checksum)),
                    )
                }
            }),
    {
        let peer: PeerAddr = self.peers[self.asked];
        assert(self.asked < self.peers.len());
        let ghost before = self.outcomes@;
        match outcome {
            Outcome::Hit => {
                self.saw_hit = true;
                health.record_success(peer);
                hints.record_hit(peer, checksum, now);
                assert(hints.hits().dom().contains(peer));
            },
            Outcome::Miss => {
                self.saw_miss = true;
                health.record_miss(peer);
            },
            Outcome::TimedOut => {
                self.saw_timeout = true;
                health.record_failure(peer, now);
            },
            Outcome::Failed => {
                self.saw_error = true;
                health.record_failure(peer, now);
            },
        }
        self.asked = self.asked + 1;
        self.outcomes = Ghost(before.push(outcome));
        proof {
            lemma_push_contains(before, outcome, Outcome::Hit);
            lemma_push_contains(before, outcome, Outcome::Miss);
            lemma_push_contains(before, outcome, Outcome::TimedOut);
            lemma_push_contains(before, outcome, Outcome::Failed);
        }
    }
}

/// What is known of a peer after an answer.
pub open spec fn noted(p: PeerHealth, outcome: Outcome, now: u64) -> PeerHealth {
    match outcome {
        Outcome::Hit => PeerHealth {
            consecutive_failures: 0,
            last_failure_time: p.last_failure_time,
            total_requests: (p.total_requests + 1) as u64,
            total_hits: (p.total_hits + 1) as u64,
        },
        Outcome::Miss => PeerHealth { total_requests: (p.total_requests + 1) as u64, ..p },
        _ => PeerHealth {
            consecutive_failures: (p.consecutive_failures + 1) as u32,
            last_failure_time: now,
            total_requests: (p.total_requests + 1) as u64,
            total_hits: p.total_hits,
        },
    }
}

proof fn lemma_push_contains(s: Seq<Outcome>, x: Outcome, y: Outcome)
    ensures
        s.push(x).contains(y) <==> (s.contains(y) || x == y),
{
    let t = s.push(x);
    if s.contains(y) {
        let k = choose|k: int| 0 <= k < s.len() && s[k] == y;
        assert(t[k] == y);
    }
    if x == y {
        assert(t[s.len() as int] == y);
    }
    if t.contains(y) && x != y {
        let k = choose|k: int| 0 <= k < t.len() && t[k] == y;
        assert(s[k] == y);
    }
}

/// A search goes through the peers in order, and no further than the first that has the chunk.
pub proof fn law_first_peer_with_the_chunk_ends_the_search(
    peers: Seq<PeerAddr>,
    source: PeerSource,
    outcomes: Seq<Outcome>,
    outcome: Outcome,
)
    requires
        fetch_step(peers, source, outcomes) is Ask,
    ensures
        fetch_step(peers, source, outcomes)->peer == peers[outcomes.len() as int],
        outcome == Outcome::Hit ==> fetch_step(peers, source, outcomes.push(outcome))
            == FetchStep::Stop(Outcome::Hit),
        outcome != Outcome::Hit && outcomes.len() + 1 < peers.len() ==> fetch_step(
            peers,
            source,
            outcomes.push(outcome),
        ) is Ask,
{
    lemma_push_contains(outcomes, outcome, Outcome::Hit);
}

/// Reads the local chunk server's answer.
pub fn control_reply(response: Result<WireResponse, Error>) -> (r: Result<bool, Error>)
    ensures
        match response {
            Ok(resp) => if resp.status == STATUS_HIT {
                r == Ok::<bool, Error>(true)
            } else if resp.status == STATUS_MISS {
                r == Ok::<bool, Error>(false)
            } else {
                &&& r is Err
                &&& r->Err_0.kind == ErrorKind::Other
                &&& r->Err_0.message@ == "local chunk server returned error"@
            },
            Err(e) => r == Err::<bool, Error>(e),
        },
{
    match response {
        Ok(resp) => {
            if resp.status == STATUS_HIT {
                Ok(true)
            } else if resp.status == STATUS_MISS {
                Ok(false)
            } else {
                Err(Error::new(ErrorKind::Other, "local chunk server returned error"))
            }
        },
        Err(e) => Err(e),
    }
}

/// What is sent for a batch of checksums: nothing where it is empty, and the request counts as
/// granted.
pub fn batch_message(message_type: MessageType, checksums: &[CheckSum]) -> (r: Option<
    (Request, Vec<u8>),
>)
    requires
        checksums@.len() * 33 <= usize::MAX,
    ensures
        match r {
            None => checksums@.len() == 0,
            Some((request, payload)) => {
                &&& checksums@.len() > 0
                &&& request == (Request {
                    request_id: 0,
                    message_type,
                    checksum: empty_checksum(),
                    offset: 0,
                    length: checksums@.len() as u32,
                })
                &&& is_batch_bytes(payload@, checksums@)
            },
        },
{
    if checksums.len() == 0 {
        return None;
    }
    Some(
        (
            Request::control_batch(message_type, checksums.len()),
            encode_checksum_batch(checksums),
        ),
    )
}

/// Notes in the breaker how a request to the local chunk server went. Returns whether it was
/// granted, and the outcome.
pub fn control_done(breaker: &mut CircuitBreaker, result: &Result<bool, Error>, now_ms: u64) -> (r:
    (bool, Outcome))
    ensures
        *final(breaker) == match *result {
            Ok(_) => CircuitBreaker { open: false, ..*old(breaker) },
            Err(_) => CircuitBreaker {
                open: true,
                last_failure_ms: now_ms,
                cooldown_ms: old(breaker).cooldown_ms,
            },
        },
        r.0 == (*result == Ok::<bool, Error>(true)),
        r.1 == match *result {
            Ok(true) => Outcome::Hit,
            Ok(false) => Outcome::Miss,
            Err(e) => error_outcome(e),
        },
{
    match result {
        Ok(granted) => {
            breaker.record_success();
            if *granted {
                (true, Outcome::Hit)
            } else {
                (false, Outcome::Miss)
            }
        },
        Err(e) => {
            breaker.record_failure(now_ms);
            if e.kind == ErrorKind::TimedOut {
                (false, Outcome::TimedOut)
            } else {
                (false, Outcome::Failed)
            }
        },
    }
}

/// A search asks the peers one after the other, from the first on, and asks no peer twice. It stops
/// as soon as one gave the chunk; while none has, it goes on until every peer was asked.
pub proof fn law_search_asks_each_peer_in_turn(
    at: &ChunkFetch,
    step: FetchStep,
    fetch: &mut ChunkFetch,
    outcome: Outcome,
    checksum: CheckSum,
    health: &mut PeerHealthTracker,
    hints: &mut PeerHitHints,
    now: u64,
    later: &ChunkFetch,
    next: FetchStep,
)
    requires
        at.wf(),
        call_ensures(ChunkFetch::step, (at,), step),
        step is Ask,
        *old(fetch) == *at,
        old(health).wf(),
        old(hints).wf(),
        old(health).of(step->peer).total_requests < u64::MAX,
        old(health).of(step->peer).total_hits < u64::MAX,
        old(health).of(step->peer).consecutive_failures < u32::MAX,
        old(hints).count_of(step->peer) < u64::MAX,
        call_ensures(ChunkFetch::answered, (fetch, outcome, checksum, health, hints, now), ()),
        *later == *final(fetch),
        call_ensures(ChunkFetch::step, (later,), next),
    ensures
        ({
            let asked = at.outcomes().len() as int;
            &&& step->peer == at.peers()[asked]
            &&& step->retry <==> at.source() is Index && asked > 0
            &&& next is Ask <==> !(outcome is Hit) && asked + 1 < at.peers().len()
            &&& next is Ask ==> next->peer == at.peers()[asked + 1]
            &&& next is Ask && at.source() is Index ==> next->retry
            &&& outcome is Hit <==> next == FetchStep::Stop(Outcome::Hit)
        }),
{
    lemma_push_contains(at.outcomes(), outcome, Outcome::Hit);
    lemma_push_contains(at.outcomes(), outcome, Outcome::Miss);
    lemma_push_contains(at.outcomes(), outcome, Outcome::TimedOut);
    lemma_push_contains(at.outcomes(), outcome, Outcome::Failed);
    assert(call_requires(ChunkFetch::step, (at,)));
}

/// A search that has asked no peer starts with the first, and where there is none it is a miss.
pub proof fn law_search_starts_with_the_first_peer(
    peers: Vec<PeerAddr>,
    source: PeerSource,
    fetch: ChunkFetch,
    at: &ChunkFetch,
    step: FetchStep,
)
    requires
        call_ensures(ChunkFetch::new, (peers, source), fetch),
        *at == fetch,
        call_ensures(ChunkFetch::step, (at,), step),
    ensures
        peers@.len() > 0 ==> step == (FetchStep::Ask { peer: peers@[0], retry: false }),
        peers@.len() == 0 ==> step == FetchStep::Stop(Outcome::Miss),
{
    let none = Seq::<Outcome>::empty();
    assert(!none.contains(Outcome::Hit));
    assert(!none.contains(Outcome::TimedOut));
    assert(!none.contains(Outcome::Failed));
}

/// What a search amounts to: a hit where a peer gave the chunk; else every peer was asked, and it is
/// a miss where one said that it has not got it, and a failure only where none did. A timeout
/// counts before other failures.
pub proof fn law_search_result_says_how_peers_answered(at: &ChunkFetch, result: Outcome)
    requires
        at.wf(),
        call_ensures(ChunkFetch::step, (at,), FetchStep::Stop(result)),
    ensures
        ({
            let outcomes = at.outcomes();
            let said = |o: Outcome| exists|k: int| 0 <= k < outcomes.len() && outcomes[k] == o;
            &&& result is Hit <==> said(Outcome::Hit)
            &&& !(result is Hit) ==> outcomes.len() == at.peers().len()
            &&& result is Miss <==> !said(Outcome::Hit) && (said(Outcome::Miss) || outcomes.len()
                == 0)
            &&& result is TimedOut <==> !said(Outcome::Hit) && !said(Outcome::Miss) && said(
                Outcome::TimedOut,
            )
            &&& result is Failed <==> outcomes.len() > 0 && forall|k: int|
                0 <= k < outcomes.len() ==> (#[trigger] outcomes[k]) is Failed
        }),
{
    let outcomes = at.outcomes();
    assert(call_requires(ChunkFetch::step, (at,)));
    if outcomes.len() > 0 {
        let first = outcomes[0];
        assert(outcomes.contains(first));
        assert forall|k: int| 0 <= k < outcomes.len() implies outcomes.contains(
            #[trigger] outcomes[k],
        ) by {}
        if outcomes.contains(Outcome::Hit) {
            let k = outcomes.index_of(Outcome::Hit);
            assert(!(outcomes[k] is Failed));
        }
        if outcomes.contains(Outcome::Miss) {
            let k = outcomes.index_of(Outcome::Miss);
            assert(!(outcomes[k] is Failed));
        }
        if outcomes.contains(Outcome::TimedOut) {
            let k = outcomes.index_of(Outcome::TimedOut);
            assert(!(outcomes[k] is Failed));
        }
    }
}

/// What a peer answers is what the search counts: a chunk is a hit and is handed on as it came, its
/// absence a miss, an error of the peer or of the connection a failure, and one that took too long
/// a timeout.
pub proof fn law_answer_is_counted_as_it_came(
    response: Result<WireResponse, Error>,
    result: Result<Option<Vec<u8>>, Error>,
    seen: &Result<Option<Vec<u8>>, Error>,
    outcome: Outcome,
)
    requires
        call_ensures(chunk_reply, (response,), result),
        *seen == result,
        call_ensures(chunk_outcome, (seen,), outcome),
    ensures
        outcome is Hit <==> response is Ok && response->Ok_0.status == STATUS_HIT,
        outcome is Hit ==> result->Ok_0 is Some && result->Ok_0->Some_0@
            == response->Ok_0.payload@,
        outcome is Miss <==> response is Ok && response->Ok_0.status == STATUS_MISS,
        outcome is TimedOut <==> response is Err && response->Err_0.kind == ErrorKind::TimedOut,
        response is Err ==> result is Err && result->Err_0 == response->Err_0,
{
}

/// After a request to the local chunk server that failed, requests to it are refused for the
/// cooldown and let through after it; after one that it answered, granted or not, none is refused.
pub proof fn law_failure_keeps_the_server_alone(
    breaker: &mut CircuitBreaker,
    result: &Result<bool, Error>,
    at_ms: u64,
    r: (bool, Outcome),
    later: &CircuitBreaker,
    now_ms: u64,
    refused: bool,
)
    requires
        call_ensures(control_done, (breaker, result, at_ms), r),
        *later == *final(breaker),
        at_ms <= now_ms,
        call_ensures(CircuitBreaker::should_reject, (later, now_ms), refused),
    ensures
        refused <==> *result is Err && now_ms - at_ms < old(breaker).cooldown_ms,
        final(breaker).cooldown_ms == old(breaker).cooldown_ms,
        r.0 <==> *result is Ok && (*result)->Ok_0,
        r.0 <==> r.1 is Hit,
        r.1 is Miss <==> *result is Ok && !(*result)->Ok_0,
        r.1 is TimedOut <==> *result is Err && (*result)->Err_0.kind == ErrorKind::TimedOut,
{
}

/// Every answer of a peer counts as one request of it. A hit is counted as such, makes it healthy,
/// and is remembered as a hint with the chunk; a failure adds to those in a row and is dated; a
/// miss does neither. Nothing is noted of any other peer.
pub proof fn law_answer_is_noted_of_the_peer_that_gave_it(
    at: &ChunkFetch,
    step: FetchStep,
    fetch: &mut ChunkFetch,
    outcome: Outcome,
    checksum: CheckSum,
    health: &mut PeerHealthTracker,
    hints: &mut PeerHitHints,
    now: u64,
    other: PeerAddr,
)
    requires
        at.wf(),
        call_ensures(ChunkFetch::step, (at,), step),
        step is Ask,
        *old(fetch) == *at,
        old(health).wf(),
        old(hints).wf(),
        old(health).of(step->peer).total_requests < u64::MAX,
        old(health).of(step->peer).total_hits < u64::MAX,
        old(health).of(step->peer).consecutive_failures < u32::MAX,
        old(hints).count_of(step->peer) < u64::MAX,
        call_ensures(ChunkFetch::answered, (fetch, outcome, checksum, health, hints, now), ()),
        other != step->peer,
    ensures
        ({
            let peer = step->peer;
            let (was, is) = (old(health).of(peer), final(health).of(peer));
            let failed = outcome is Failed || outcome is TimedOut;
            &&& is.total_requests == was.total_requests + 1
            &&& is.total_hits == was.total_hits + if outcome is Hit {
                1int
            } else {
                0
            }
            &&& outcome is Hit ==> is.consecutive_failures == 0
            &&& outcome is Miss ==> is.consecutive_failures == was.consecutive_failures
            &&& failed ==> is.consecutive_failures == was.consecutive_failures + 1
                && is.last_failure_time == now
            &&& !failed ==> is.last_failure_time == was.last_failure_time
            &&& final(hints).count_of(peer) == old(hints).count_of(peer) + if outcome is Hit {
                1int
            } else {
                0
            }
            &&& outcome is Hit ==> final(hints).recent_of(peer).last() == stored_form(checksum)
            &&& final(health).of(other) == old(health).of(other)
            &&& final(hints).count_of(other) == old(hints).count_of(other)
        }),
{
    if outcome is Hit {
        assert(final(hints).hits().dom().contains(other) == old(hints).hits().dom().contains(
            other,
        ));
        if old(hints).hits().contains_key(other) {
            assert(final(hints).hits()[other] == old(hints).hits()[other]);
        }
    }
}

} // verus!
