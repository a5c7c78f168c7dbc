//! Which sessions to a server are kept, and which one takes the next request.

use vstd::prelude::*;

verus! {

pub const CONNECTION_POOL_MIN_IDLE: usize = 1;

pub const CONNECTION_POOL_MAX_SIZE: usize = 8;

pub const CONNECTION_POOL_IDLE_TTL_SECS: u64 = 30;

/// A session with this many requests in flight takes another one only where no further session
/// may be opened.
pub const SESSION_MAX_INFLIGHT: usize = 32;

/// The limits of a pool.
#[derive(Debug, Clone, Copy)]
pub struct ConnectionPoolConfig {
    /// This many sessions are kept though they are idle.
    pub min_idle: usize,
    /// At most this many sessions are open.
    pub max_size: usize,
    /// A session that was idle for longer than this may go, in nanoseconds.
    pub idle_ttl_nanos: u128,
}

impl Default for ConnectionPoolConfig {
    fn default() -> (r: ConnectionPoolConfig)
        ensures
            r.min_idle == 1,
            r.max_size == 8,
            r.idle_ttl_nanos == 30_000_000_000,
    {
        ConnectionPoolConfig {
            min_idle: CONNECTION_POOL_MIN_IDLE,
            max_size: CONNECTION_POOL_MAX_SIZE,
            idle_ttl_nanos: CONNECTION_POOL_IDLE_TTL_SECS as u128 * 1_000_000_000,
        }
    }
}

/// What a pool needs to know of a session.
#[derive(Debug, Clone, Copy, Eq, PartialEq, Structural)]
pub struct SessionState {
    pub closed: bool,
    pub inflight: usize,
    /// When it was last used, in microseconds of a clock that never goes back.
    pub last_used_micros: u64,
}

/// Whether a session that is open was idle for too long at `now`, in nanoseconds.
pub open spec fn idle_expired(s: SessionState, config: ConnectionPoolConfig, now: int) -> bool {
    &&& !s.closed
    &&& s.inflight == 0
    &&& now - s.last_used_micros * 1000 > config.idle_ttl_nanos
}

/// The places of the sessions that are kept, where they are looked at in order: those that are
/// open and, beyond the least number, not idle for too long.
pub open spec fn kept_sessions(
    sessions: Seq<SessionState>,
    config: ConnectionPoolConfig,
    now: int,
) -> Seq<usize>
    decreases sessions.len(),
{
    if sessions.len() == 0 {
        Seq::empty()
    } else {
        let before = kept_sessions(sessions.drop_last(), config, now);
        let s = sessions.last();
        if s.closed || (idle_expired(s, config, now) && before.len() >= config.min_idle) {
            before
        } else {
            before.push((sessions.len() - 1) as usize)
        }
    }
}

/// Returns the places of the sessions that are kept.
pub fn prune_idle(sessions: &[SessionState], config: ConnectionPoolConfig, now_nanos: u128) -> (r:
    Vec<usize>)
    ensures
        r@ == kept_sessions(sessions@, config, now_nanos as int),
{
    let mut kept: Vec<usize> = Vec::new();
    let mut i: usize = 0;
    while i < sessions.len()
        invariant
            i <= sessions@.len(),
            kept@.len() <= i,
            kept@ == kept_sessions(sessions@.take(i as int), config, now_nanos as int),
        decreases sessions@.len() - i,
    {
        let s: SessionState = sessions[i];
        let used: u128 = s.last_used_micros as u128 * 1000;
        let idle: u128 = if now_nanos >= used {
            now_nanos - used
        } else {
            0
        };
        let expired: bool = !s.closed && s.inflight == 0 && idle > config.idle_ttl_nanos;
        assert(sessions@.take(i + 1).drop_last() =~= sessions@.take(i as int));
        if !(s.closed || (expired && kept.len() >= config.min_idle)) {
            kept.push(i);
        }
        i = i + 1;
    }
    assert(sessions@.take(i as int) =~= sessions@);
    kept
}

/// What is done to get a session.
#[derive(Debug, Clone, Copy, Eq, PartialEq, Structural)]
pub enum Acquire {
    /// Use the session at a place.
    Use(usize),
    /// Open another one.
    Connect,
    /// Wait until a session goes.
    Wait,
}

/// Whether the session at `i` is the first of those with the fewest requests in flight.
pub open spec fn least_busy(sessions: Seq<SessionState>, i: int) -> bool {
    &&& 0 <= i < sessions.len()
    &&& !sessions[i].closed
    &&& forall|j: int|
        0 <= j < sessions.len() && !(#[trigger] sessions[j]).closed ==> {
            &&& sessions[i].inflight <= sessions[j].inflight
            &&& j < i ==> sessions[i].inflight < sessions[j].inflight
        }
}

/// Whether no session is open.
pub open spec fn all_closed(sessions: Seq<SessionState>) -> bool {
    forall|j: int| 0 <= j < sessions.len() ==> (#[trigger] sessions[j]).closed
}

/// Picks a session: the least busy one, unless it is busy and another may be opened.
pub fn pick_session(sessions: &[SessionState], config: ConnectionPoolConfig) -> (r: Acquire)
    ensures
        match r {
            Acquire::Use(i) => {
                &&& least_busy(sessions@, i as int)
                &&& sessions@.len() >= config.max_size || sessions@[i as int].inflight
                    < SESSION_MAX_INFLIGHT
            },
            Acquire::Connect => {
                &&& sessions@.len() < config.max_size
                &&& forall|j: int|
                    0 <= j < sessions@.len() && !(#[trigger] sessions@[j]).closed
                        ==> sessions@[j].inflight >= SESSION_MAX_INFLIGHT
            },
            Acquire::Wait => {
                &&& sessions@.len() >= config.max_size
                &&& all_closed(sessions@)
            },
        },
{
    let mut best: Option<usize> = None;
    let mut i: usize = 0;
    while i < sessions.len()
        invariant
            i <= sessions@.len(),
            best is None ==> all_closed(sessions@.take(i as int)),
            best is Some ==> least_busy(sessions@.take(i as int), best->0 as int),
        decreases sessions@.len() - i,
    {
        let ghost before = sessions@.take(i as int);
        let ghost after = sessions@.take(i + 1);
        assert(after =~= before.push(sessions@[i as int]));
        if !sessions[i].closed {
            match best {
                None => {
                    best = Some(i);
                },
                Some(b) => {
                    assert(before[b as int] == sessions@[b as int]);
                    if sessions[i].inflight < sessions[b].inflight {
                        best = Some(i);
                    }
                },
            }
        }
        proof {
            if let Some(b) = best {
                assert forall|j: int| 0 <= j < after.len() && !(#[trigger] after[j]).closed implies {
                    &&& after[b as int].inflight <= after[j].inflight
                    &&& j < b ==> after[b as int].inflight < after[j].inflight
                } by {
                    if j < i {
                        assert(after[j] == before[j]);
                    }
                }
            }
            if best is None {
                assert forall|j: int| 0 <= j < after.len() implies (#[trigger] after[j]).closed by {
                    if j < i {
                        assert(after[j] == before[j]);
                    }
                }
            }
        }
        i = i + 1;
    }
    assert(sessions@.take(i as int) =~= sessions@);
    if let Some(b) = best {
        let should_create: bool = sessions.len() < config.max_size && sessions[b].inflight
            >= SESSION_MAX_INFLIGHT;
        if !should_create {
            return Acquire::Use(b);
        }
    }
    if sessions.len() < config.max_size {
        Acquire::Connect
    } else {
        Acquire::Wait
    }
}

/// What is kept is in order, and open.
pub proof fn law_kept_sessions_are_open(
    sessions: Seq<SessionState>,
    config: ConnectionPoolConfig,
    now: int,
)
    requires
        sessions.len() <= usize::MAX,
    ensures
        kept_sessions(sessions, config, now).len() <= sessions.len(),
        forall|k: int|
            0 <= k < kept_sessions(sessions, config, now).len() ==> {
                &&& (#[trigger] kept_sessions(sessions, config, now)[k]) < sessions.len()
                &&& !sessions[kept_sessions(sessions, config, now)[k] as int].closed
            },
        forall|k: int, l: int|
            0 <= k < l < kept_sessions(sessions, config, now).len() ==> (
            #[trigger] kept_sessions(sessions, config, now)[k]) < (#[trigger] kept_sessions(
                sessions,
                config,
                now,
            )[l]),
    decreases sessions.len(),
{
    if sessions.len() > 0 {
        law_kept_sessions_are_open(sessions.drop_last(), config, now);
        let before = kept_sessions(sessions.drop_last(), config, now);
        let all = kept_sessions(sessions, config, now);
        assert forall|k: int| 0 <= k < all.len() implies {
            &&& (#[trigger] all[k]) < sessions.len()
            &&& !sessions[all[k] as int].closed
        } by {
            if k < before.len() {
                assert(all[k] == before[k]);
                assert(sessions.drop_last()[before[k] as int] == sessions[all[k] as int]);
            }
        }
        assert forall|k: int, l: int| 0 <= k < l < all.len() implies (#[trigger] all[k]) < (
        #[trigger] all[l]) by {
            assert(all[k] == before[k]);
            if l < before.len() {
                assert(all[l] == before[l]);
            }
        }
    }
}

/// A session that is open and in use, or was used of late, is kept.
pub proof fn law_used_sessions_are_kept(
    sessions: Seq<SessionState>,
    config: ConnectionPoolConfig,
    now: int,
    i: int,
)
    requires
        sessions.len() <= usize::MAX,
        0 <= i < sessions.len(),
        !sessions[i].closed,
        !idle_expired(sessions[i], config, now),
    ensures
        kept_sessions(sessions, config, now).contains(i as usize),
    decreases sessions.len(),
{
    let before = kept_sessions(sessions.drop_last(), config, now);
    let all = kept_sessions(sessions, config, now);
    if i == sessions.len() - 1 {
        assert(all.last() == i as usize);
    } else {
        law_used_sessions_are_kept(sessions.drop_last(), config, now, i);
        let k = choose|k: int| 0 <= k < before.len() && before[k] == i as usize;
        assert(all[k] == before[k]);
    }
}

/// How many of the sessions are open.
pub open spec fn open_count(sessions: Seq<SessionState>) -> nat
    decreases sessions.len(),
{
    if sessions.len() == 0 {
        0
    } else {
        open_count(sessions.drop_last()) + if sessions.last().closed {
            0nat
        } else {
            1
        }
    }
}

/// The pool does not shrink below the least number of idle sessions: either that many are kept
/// or every open one is.
pub proof fn law_pool_keeps_its_minimum(
    sessions: Seq<SessionState>,
    config: ConnectionPoolConfig,
    now: int,
)
    ensures
        kept_sessions(sessions, config, now).len() >= config.min_idle || kept_sessions(
            sessions,
            config,
            now,
        ).len() == open_count(sessions),
    decreases sessions.len(),
{
    if sessions.len() > 0 {
        law_pool_keeps_its_minimum(sessions.drop_last(), config, now);
    }
}

/// A session that is not busy is used wherever there is one, the least busy of them, and so is a
/// busy one where no further session may be opened. Another one is opened only while there are
/// fewer than allowed, and a request waits only where there are as many and none of them is open.
pub proof fn law_pool_opens_no_more_than_it_needs(
    sessions: &[SessionState],
    config: ConnectionPoolConfig,
    r: Acquire,
    j: int,
)
    requires
        call_ensures(pick_session, (sessions, config), r),
        0 <= j < sessions@.len(),
        !sessions@[j].closed,
    ensures
        !(r is Wait),
        r matches Acquire::Use(i) ==> i < sessions@.len() && !sessions@[i as int].closed
            && sessions@[i as int].inflight <= sessions@[j].inflight,
        sessions@[j].inflight < 32 ==> r is Use,
        sessions@.len() >= config.max_size ==> r is Use,
        r is Connect ==> sessions@.len() < config.max_size && sessions@[j].inflight >= 32,
        r is Use && sessions@.len() < config.max_size ==> sessions@[r->Use_0 as int].inflight < 32,
{
}

/// A pool without an open session opens one where it may, and waits where it may not.
pub proof fn law_empty_pool_opens_a_session(
    sessions: &[SessionState],
    config: ConnectionPoolConfig,
    r: Acquire,
)
    requires
        call_ensures(pick_session, (sessions, config), r),
        forall|j: int| 0 <= j < sessions@.len() ==> (#[trigger] sessions@[j]).closed,
    ensures
        r is Connect <==> sessions@.len() < config.max_size,
        r is Wait <==> sessions@.len() >= config.max_size,
{
}

/// A session that was idle for too long is kept only as one of the least number.
proof fn lemma_expired_kept_early(
    sessions: Seq<SessionState>,
    config: ConnectionPoolConfig,
    now: int,
    k: int,
)
    requires
        sessions.len() <= usize::MAX,
        0 <= k < kept_sessions(sessions, config, now).len(),
        idle_expired(sessions[kept_sessions(sessions, config, now)[k] as int], config, now),
    ensures
        k < config.min_idle,
    decreases sessions.len(),
{
    let rest = sessions.drop_last();
    let before = kept_sessions(rest, config, now);
    let all = kept_sessions(sessions, config, now);
    law_kept_sessions_are_open(rest, config, now);
    if k < before.len() {
        assert(all[k] == before[k]);
        assert(rest[before[k] as int] == sessions[all[k] as int]);
        lemma_expired_kept_early(rest, config, now, k);
    }
}

/// What pruning keeps: every open session that is in use or was used of late; no closed one; and of
/// those that are idle for too long, none once the least number is kept.
pub proof fn law_pruning_keeps_what_is_needed(
    sessions: &[SessionState],
    config: ConnectionPoolConfig,
    now: u128,
    kept: Vec<usize>,
    i: int,
    k: int,
)
    requires
        call_ensures(prune_idle, (sessions, config, now), kept),
        0 <= i < sessions@.len() <= usize::MAX,
        0 <= k < kept@.len(),
    ensures
        sessions@[i].closed ==> !kept@.contains(i as usize),
        !sessions@[i].closed && (sessions@[i].inflight > 0 || now - sessions@[i].last_used_micros
            * 1000 <= config.idle_ttl_nanos) ==> kept@.contains(i as usize),
        kept@[k] == i && sessions@[i].inflight == 0 && now - sessions@[i].last_used_micros * 1000
            > config.idle_ttl_nanos ==> k < config.min_idle,
{
    law_kept_sessions_are_open(sessions@, config, now as int);
    if !sessions@[i].closed && !idle_expired(sessions@[i], config, now as int) {
        law_used_sessions_are_kept(sessions@, config, now as int, i);
    }
    if kept@[k] == i && idle_expired(sessions@[i], config, now as int) {
        lemma_expired_kept_early(sessions@, config, now as int, k);
    }
    if kept@.contains(i as usize) {
        let q = kept@.index_of(i as usize);
        assert(!sessions@[kept@[q] as int].closed);
    }
}

/// Of the least busy sessions the first is used.
pub proof fn law_first_of_the_least_busy_is_used(
    sessions: &[SessionState],
    config: ConnectionPoolConfig,
    i: usize,
    j: int,
)
    requires
        call_ensures(pick_session, (sessions, config), Acquire::Use(i)),
        0 <= j < i,
        !sessions@[j].closed,
    ensures
        sessions@[i as int].inflight < sessions@[j].inflight,
{
}

} // verus!
