//! What is known of how peers and the local chunk server answer.

use crate::backend::peer::discovery::PeerAddr;
use crate::backend::peer::table::PeerTable;
use crate::checksum::{stored_form, CheckSum, CheckSumOnDisk};
use vstd::prelude::*;

verus! {

/// As many checksums are remembered of each peer.
pub const HINT_MAX_RECENT: usize = 256;

/// A peer is forgotten where it gave nothing for this long.
pub const HINT_TTL_SECS: u64 = 300;

/// How often peers are looked through for those to forget.
pub const HINT_GC_INTERVAL_SECS: u64 = 30;

/// The local chunk server is left alone for this long after a failure.
pub const CIRCUIT_BREAKER_COOLDOWN_MS: u64 = 30_000;

/// The local chunk server is probed this often.
pub const HEALTH_CHECK_INTERVAL_SECS: u64 = 30;

/// A peer that failed this many times in a row is not healthy.
pub const UNHEALTHY_FAILURES: u32 = 3;

/// A peer is taken for healthy again where its last failure is this long ago.
pub const UNHEALTHY_SECS: u64 = 30;

/// `a - b`, or zero where that is negative.
pub open spec fn minus(a: u64, b: u64) -> int {
    if a >= b {
        a - b
    } else {
        0
    }
}

/// Short-circuits requests while a server is known to be unavailable, and lets one through
/// again after a cooldown. Time is in milliseconds of a clock that never goes back.
#[derive(Debug, Clone, Copy, Eq, PartialEq)]
pub struct CircuitBreaker {
    pub open: bool,
    pub last_failure_ms: u64,
    pub cooldown_ms: u64,
}

/// Whether a request is refused at `now`.
pub open spec fn rejects(b: CircuitBreaker, now: u64) -> bool {
    b.open && minus(now, b.last_failure_ms) < b.cooldown_ms
}

impl CircuitBreaker {
    /// A breaker that lets requests through.
    pub fn new(cooldown_ms: u64) -> (r: CircuitBreaker)
        ensures
            r == (CircuitBreaker { open: false, last_failure_ms: 0, cooldown_ms }),
    {
        CircuitBreaker { open: false, last_failure_ms: 0, cooldown_ms }
    }

    /// Whether the request is to be skipped.
    pub fn should_reject(&self, now_ms: u64) -> (r: bool)
        ensures
            r == rejects(*self, now_ms),
    {
        if !self.open {
            return false;
        }
        now_ms.saturating_sub(self.last_failure_ms) < self.cooldown_ms
    }

    /// Notes that the server answered.
    pub fn record_success(&mut self)
        ensures
            *final(self) == (CircuitBreaker { open: false, ..*old(self) }),
    {
        self.open = false;
    }

    /// Notes that the server did not answer.
    pub fn record_failure(&mut self, now_ms: u64)
        ensures
            *final(self) == (CircuitBreaker {
                open: true,
                last_failure_ms: now_ms,
                cooldown_ms: old(self).cooldown_ms,
            }),
    {
        self.last_failure_ms = now_ms;
        self.open = true;
    }
}

/// After a failure requests are refused until the cooldown has passed, and only until then;
/// after a success none is refused.
pub proof fn law_breaker_opens_for_the_cooldown(b: CircuitBreaker, failed: u64, now: u64)
    requires
        failed <= now,
    ensures
        rejects(
            CircuitBreaker { open: true, last_failure_ms: failed, cooldown_ms: b.cooldown_ms },
            now,
        ) <==> now - failed < b.cooldown_ms,
        !rejects(CircuitBreaker { open: false, ..b }, now),
{
}

/// How a peer has answered.
#[derive(Debug, Clone, Copy, Eq, PartialEq)]
pub struct PeerHealth {
    pub consecutive_failures: u32,
    pub last_failure_time: u64,
    pub total_requests: u64,
    pub total_hits: u64,
}

/// What is taken of a peer that was never asked.
pub open spec fn new_peer() -> PeerHealth {
    PeerHealth { consecutive_failures: 0, last_failure_time: 0, total_requests: 0, total_hits: 0 }
}

impl Default for PeerHealth {
    fn default() -> (r: PeerHealth)
        ensures
            r == new_peer(),
    {
        PeerHealth {
            consecutive_failures: 0,
            last_failure_time: 0,
            total_requests: 0,
            total_hits: 0,
        }
    }
}

/// Whether a peer is not to be asked first: it failed three times in a row, and the last time
/// is less than 30 seconds ago.
pub open spec fn spec_unhealthy(p: PeerHealth, now: u64) -> bool {
    p.consecutive_failures >= UNHEALTHY_FAILURES && minus(now, p.last_failure_time)
        < UNHEALTHY_SECS
}

impl PeerHealth {
    /// Whether the peer is not to be asked first.
    pub fn unhealthy(&self, now: u64) -> (r: bool)
        ensures
            r == spec_unhealthy(*self, now),
    {
        self.consecutive_failures >= UNHEALTHY_FAILURES && now.saturating_sub(
            self.last_failure_time,
        ) < UNHEALTHY_SECS
    }
}

/// Which peers are healthy.
#[derive(Debug)]
pub struct PeerHealthSnapshot {
    pub entries: Vec<(PeerAddr, bool)>,
    pub healthy_count: u64,
    pub unhealthy_count: u64,
}

/// How many entries say `healthy`.
pub open spec fn count_healthy(entries: Seq<(PeerAddr, bool)>, healthy: bool) -> nat
    decreases entries.len(),
{
    if entries.len() == 0 {
        0
    } else {
        count_healthy(entries.drop_last(), healthy) + if entries.last().1 == healthy {
            1nat
        } else {
            0
        }
    }
}

/// Every peer is counted once.
pub proof fn law_every_peer_is_counted(entries: Seq<(PeerAddr, bool)>)
    ensures
        count_healthy(entries, true) + count_healthy(entries, false) == entries.len(),
    decreases entries.len(),
{
    if entries.len() > 0 {
        law_every_peer_is_counted(entries.drop_last());
    }
}

/// How each peer has answered.
#[derive(Debug)]
pub struct PeerHealthTracker {
    peers: PeerTable<PeerHealth>,
}

impl PeerHealthTracker {
    /// The peers that were asked.
    pub closed spec fn peers(self) -> Map<PeerAddr, PeerHealth> {
        self.peers@
    }

    pub closed spec fn wf(self) -> bool {
        self.peers.wf()
    }

    /// How a peer has answered.
    pub open spec fn of(self, addr: PeerAddr) -> PeerHealth {
        if self.peers().contains_key(addr) {
            self.peers()[addr]
        } else {
            new_peer()
        }
    }

    /// A tracker that knows no peer.
    pub fn new() -> (r: PeerHealthTracker)
        ensures
            r.wf(),
            r.peers() == Map::<PeerAddr, PeerHealth>::empty(),
    {
        PeerHealthTracker { peers: PeerTable::new() }
    }

    /// How a peer has answered.
    pub fn get(&self, addr: PeerAddr) -> (r: PeerHealth)
        requires
            self.wf(),
        ensures
            r == self.of(addr),
    {
        match self.peers.get(addr) {
            Some(p) => *p,
            None => PeerHealth::default(),
        }
    }

    /// Notes that a peer gave a chunk.
    pub fn record_success(&mut self, addr: PeerAddr)
        requires
            old(self).wf(),
            old(self).of(addr).total_requests < u64::MAX,
            old(self).of(addr).total_hits < u64::MAX,
        ensures
            final(self).wf(),
            final(self).peers() == old(self).peers().insert(
                addr,
                PeerHealth {
                    consecutive_failures: 0,
                    last_failure_time: old(self).of(addr).last_failure_time,
                    total_requests: (old(self).of(addr).total_requests + 1) as u64,
                    total_hits: (old(self).of(addr).total_hits + 1) as u64,
                },
            ),
    {
        let mut entry: PeerHealth = self.get(addr);
        entry.consecutive_failures = 0;
        entry.total_requests = entry.total_requests + 1;
        entry.total_hits = entry.total_hits + 1;
        self.peers.put(addr, entry);
    }

    /// Notes that a peer did not answer, at `now` in seconds.
    pub fn record_failure(&mut self, addr: PeerAddr, now: u64)
        requires
            old(self).wf(),
            old(self).of(addr).total_requests < u64::MAX,
            old(self).of(addr).consecutive_failures < u32::MAX,
        ensures
            final(self).wf(),
            final(self).peers() == old(self).peers().insert(
                addr,
                PeerHealth {
                    consecutive_failures: (old(self).of(addr).consecutive_failures + 1) as u32,
                    last_failure_time: now,
                    total_requests: (old(self).of(addr).total_requests + 1) as u64,
                    total_hits: old(self).of(addr).total_hits,
                },
            ),
    {
        let mut entry: PeerHealth = self.get(addr);
        entry.consecutive_failures = entry.consecutive_failures + 1;
        entry.last_failure_time = now;
        entry.total_requests = entry.total_requests + 1;
        self.peers.put(addr, entry);
    }

    /// Notes that a peer has not got a chunk.
    pub fn record_miss(&mut self, addr: PeerAddr)
        requires
            old(self).wf(),
            old(self).of(addr).total_requests < u64::MAX,
        ensures
            final(self).wf(),
            final(self).peers() == old(self).peers().insert(
                addr,
                PeerHealth {
                    total_requests: (old(self).of(addr).total_requests + 1) as u64,
                    ..old(self).of(addr)
                },
            ),
    {
        let mut entry: PeerHealth = self.get(addr);
        entry.total_requests = entry.total_requests + 1;
        self.peers.put(addr, entry);
    }

    /// Whether a peer is not to be asked first.
    pub fn is_unhealthy(&self, addr: PeerAddr, now: u64) -> (r: bool)
        requires
            self.wf(),
        ensures
            r == (self.peers().contains_key(addr) && spec_unhealthy(self.peers()[addr], now)),
    {
        match self.peers.get(addr) {
            Some(peer) => peer.unhealthy(now),
            None => false,
        }
    }

    /// Which peers are healthy at `now`.
    pub fn snapshot(&self, now: u64) -> (r: PeerHealthSnapshot)
        requires
            self.wf(),
        ensures
            forall|a: PeerAddr, healthy: bool|
                #[trigger] r.entries@.contains((a, healthy)) <==> (self.peers().contains_key(a)
                    && healthy == !spec_unhealthy(self.peers()[a], now)),
            r.entries@.no_duplicates(),
            r.healthy_count == count_healthy(r.entries@, true),
            r.unhealthy_count == count_healthy(r.entries@, false),
    {
        proof {
            self.peers.lemma_rows();
        }
        let mut entries: Vec<(PeerAddr, bool)> = Vec::new();
        let mut healthy_count: u64 = 0;
        let mut unhealthy_count: u64 = 0;
        let mut i: usize = 0;
        while i < self.peers.len()
            invariant
                self.wf(),
                i <= self.peers.rows().len(),
                self.peers.rows().no_duplicates(),
                forall|a: PeerAddr| #[trigger]
                    self.peers@.contains_key(a) <==> self.peers.rows().contains(a),
                entries@.len() == i,
                healthy_count + unhealthy_count == i,
                forall|j: int|
                    0 <= j < i ==> {
                        &&& (#[trigger] entries@[j]).0 == self.peers.rows()[j]
                        &&& entries@[j].1 == !spec_unhealthy(self.peers@[self.peers.rows()[j]], now)
                    },
                healthy_count == count_healthy(entries@, true),
                unhealthy_count == count_healthy(entries@, false),
            decreases self.peers.rows().len() - i,
        {
            let (addr, peer) = self.peers.row(i);
            let healthy: bool = !peer.unhealthy(now);
            let ghost before = entries@;
            if healthy {
                healthy_count = healthy_count + 1;
            } else {
                unhealthy_count = unhealthy_count + 1;
            }
            entries.push((addr, healthy));
            assert(entries@.drop_last() =~= before);
            i = i + 1;
        }
        proof {
            assert forall|a: PeerAddr, healthy: bool|
                #[trigger] entries@.contains((a, healthy)) <==> (self.peers().contains_key(a)
                    && healthy == !spec_unhealthy(self.peers()[a], now)) by {
                if entries@.contains((a, healthy)) {
                    let k = choose|k: int| 0 <= k < entries@.len() && entries@[k] == (a, healthy);
                    assert(self.peers.rows()[k] == a);
                    assert(self.peers.rows().contains(a));
                    assert(self.peers@.contains_key(a));
                }
                if self.peers().contains_key(a) {
                    assert(self.peers@.contains_key(a));
                    let k = choose|k: int|
                        0 <= k < self.peers.rows().len() && self.peers.rows()[k] == a;
                    assert(entries@[k].0 == a);
                    assert(entries@[k] == (a, !spec_unhealthy(self.peers()[a], now)));
                }
            }
            assert forall|j: int, k: int| 0 <= j < k < entries@.len() implies entries@[j]
                != entries@[k] by {
                assert(entries@[j].0 == self.peers.rows()[j]);
                assert(entries@[k].0 == self.peers.rows()[k]);
            }
        }
        PeerHealthSnapshot { entries, healthy_count, unhealthy_count }
    }
}

/// A miss says nothing against a peer.
pub proof fn law_a_miss_is_no_failure(p: PeerHealth, n: u64, now: u64)
    ensures
        spec_unhealthy(PeerHealth { total_requests: n, ..p }, now) == spec_unhealthy(p, now),
{
}

/// A peer is unhealthy only where it failed three times after its last success, and becomes
/// healthy again when enough time has passed.
pub proof fn law_health_comes_back(p: PeerHealth, now: u64)
    ensures
        p.consecutive_failures < 3 ==> !spec_unhealthy(p, now),
        now >= p.last_failure_time + 30 ==> !spec_unhealthy(p, now),
        !spec_unhealthy(PeerHealth { consecutive_failures: 0, ..p }, now),
{
}

/// What a peer has given.
#[derive(Debug)]
pub struct HitRecord {
    pub hit_count: u64,
    pub last_hit_time: u64,
    pub recent_checksums: Vec<CheckSumOnDisk>,
}

/// The last 256 of a list.
pub open spec fn latest(s: Seq<CheckSumOnDisk>) -> Seq<CheckSumOnDisk> {
    if s.len() > HINT_MAX_RECENT {
        s.skip(s.len() - HINT_MAX_RECENT)
    } else {
        s
    }
}

/// Which peers have given chunks of late.
#[derive(Debug)]
pub struct PeerHitHints {
    recent_hits: PeerTable<HitRecord>,
}

impl PeerHitHints {
    /// The peers that gave something.
    pub closed spec fn hits(self) -> Map<PeerAddr, HitRecord> {
        self.recent_hits@
    }

    /// The peers that gave something, in the order in which they first did.
    pub closed spec fn rows(self) -> Seq<PeerAddr> {
        self.recent_hits.rows()
    }

    pub closed spec fn wf(self) -> bool {
        self.recent_hits.wf()
    }

    /// The rows are the peers that gave something, each once.
    pub proof fn lemma_rows(self)
        requires
            self.wf(),
        ensures
            self.rows().no_duplicates(),
            forall|a: PeerAddr| #[trigger]
                self.hits().contains_key(a) <==> self.rows().contains(a),
    {
        self.recent_hits.lemma_rows();
    }

    /// How many chunks a peer gave.
    pub open spec fn count_of(self, addr: PeerAddr) -> u64 {
        if self.hits().contains_key(addr) {
            self.hits()[addr].hit_count
        } else {
            0
        }
    }

    /// The checksums that are remembered of a peer.
    pub open spec fn recent_of(self, addr: PeerAddr) -> Seq<CheckSumOnDisk> {
        if self.hits().contains_key(addr) {
            self.hits()[addr].recent_checksums@
        } else {
            Seq::empty()
        }
    }

    /// Hints that know no peer.
    pub fn new() -> (r: PeerHitHints)
        ensures
            r.wf(),
            r.hits() == Map::<PeerAddr, HitRecord>::empty(),
            r.rows() == Seq::<PeerAddr>::empty(),
    {
        PeerHitHints { recent_hits: PeerTable::new() }
    }

    /// How many peers gave something.
    pub fn len(&self) -> (r: usize)
        requires
            self.wf(),
        ensures
            r == self.rows().len(),
            self.rows().no_duplicates(),
            forall|a: PeerAddr| #[trigger]
                self.hits().contains_key(a) <==> self.rows().contains(a),
    {
        proof {
            self.lemma_rows();
        }
        self.recent_hits.len()
    }

    /// What the peer at a place gave: its address, how many chunks, and when the last one.
    pub fn row(&self, i: usize) -> (r: (PeerAddr, u64, u64))
        requires
            self.wf(),
            i < self.rows().len(),
        ensures
            r.0 == self.rows()[i as int],
            self.rows().no_duplicates(),
            forall|a: PeerAddr| #[trigger]
                self.hits().contains_key(a) <==> self.rows().contains(a),
            self.hits().contains_key(r.0),
            r.1 == self.hits()[r.0].hit_count,
            r.2 == self.hits()[r.0].last_hit_time,
    {
        proof {
            self.lemma_rows();
        }
        let (addr, record) = self.recent_hits.row(i);
        (addr, record.hit_count, record.last_hit_time)
    }

    /// What a peer gave.
    pub fn get(&self, addr: PeerAddr) -> (r: Option<&HitRecord>)
        requires
            self.wf(),
        ensures
            match r {
                Some(record) => self.hits().contains_key(addr) && *record == self.hits()[addr],
                None => !self.hits().contains_key(addr),
            },
    {
        self.recent_hits.get(addr)
    }

    /// Notes that a peer gave a chunk, at `now` in seconds.
    pub fn record_hit(&mut self, addr: PeerAddr, checksum: CheckSum, now: u64)
        requires
            old(self).wf(),
            old(self).count_of(addr) < u64::MAX,
        ensures
            final(self).wf(),
            final(self).hits().dom() == old(self).hits().dom().insert(addr),
            forall|a: PeerAddr|
                a != addr && #[trigger] old(self).hits().contains_key(a) ==> final(self).hits()[a]
                    == old(self).hits()[a],
            final(self).hits()[addr].hit_count == old(self).count_of(addr) + 1,
            final(self).hits()[addr].last_hit_time == now,
            final(self).recent_of(addr) == latest(
                old(self).recent_of(addr).push(stored_form(checksum)),
            ),
    {
        let mut hit_count: u64 = 1;
        let mut recent: Vec<CheckSumOnDisk> = Vec::new();
        let ghost held = self.recent_of(addr);
        match self.recent_hits.get(addr) {
            Some(record) => {
                hit_count = record.hit_count + 1;
                let n: usize = record.recent_checksums.len();
                let start: usize = if n >= HINT_MAX_RECENT {
                    n - HINT_MAX_RECENT + 1
                } else {
                    0
                };
                let mut i: usize = start;
                while i < n
                    invariant
                        start <= i <= n,
                        n == record.recent_checksums@.len(),
                        recent@ == record.recent_checksums@.subrange(start as int, i as int),
                    decreases n - i,
                {
                    recent.push(record.recent_checksums[i]);
                    i = i + 1;
                }
            },
            None => {},
        }
        recent.push(CheckSumOnDisk::from(checksum));
        assert(recent@ =~= latest(held.push(stored_form(checksum))));
        let record: HitRecord = HitRecord {
            hit_count,
            last_hit_time: now,
            recent_checksums: recent,
        };
        self.recent_hits.put(addr, record);
        assert(self.hits().dom() =~= old(self).hits().dom().insert(addr));
    }

    /// Forgets the peers that gave nothing in the last 300 seconds.
    pub fn gc_expired(&mut self, now: u64)
        requires
            old(self).wf(),
        ensures
            final(self).wf(),
            forall|a: PeerAddr| #[trigger]
                final(self).hits().contains_key(a) <==> (old(self).hits().contains_key(a)
                    && old(self).hits()[a].last_hit_time >= minus(now, HINT_TTL_SECS)),
            forall|a: PeerAddr| #[trigger]
                final(self).hits().contains_key(a) ==> {
                    &&& final(self).hits()[a].hit_count == old(self).hits()[a].hit_count
                    &&& final(self).hits()[a].last_hit_time == old(self).hits()[a].last_hit_time
                    &&& final(self).recent_of(a) == old(self).recent_of(a)
                },
    {
        let cutoff: u64 = now.saturating_sub(HINT_TTL_SECS);
        let mut out: PeerTable<HitRecord> = PeerTable::new();
        proof {
            self.recent_hits.lemma_rows();
        }
        let mut i: usize = 0;
        while i < self.recent_hits.len()
            invariant
                *self == *old(self),
                self.wf(),
                out.wf(),
                i <= self.recent_hits.rows().len(),
                self.recent_hits.rows().no_duplicates(),
                forall|a: PeerAddr| #[trigger]
                    out@.contains_key(a) <==> (self.recent_hits.rows().take(i as int).contains(a)
                        && self.recent_hits@[a].last_hit_time >= cutoff),
                forall|a: PeerAddr| #[trigger]
                    out@.contains_key(a) ==> {
                        &&& out@[a].hit_count == self.recent_hits@[a].hit_count
                        &&& out@[a].last_hit_time == self.recent_hits@[a].last_hit_time
                        &&& out@[a].recent_checksums@ == self.recent_hits@[a].recent_checksums@
                    },
            decreases self.recent_hits.rows().len() - i,
        {
            let (addr, record) = self.recent_hits.row(i);
            let ghost before = out@;
            if record.last_hit_time >= cutoff {
                let copy: HitRecord = HitRecord {
                    hit_count: record.hit_count,
                    last_hit_time: record.last_hit_time,
                    recent_checksums: copy_stored(&record.recent_checksums),
                };
                out.put(addr, copy);
            }
            proof {
                let rows = self.recent_hits.rows();
                assert forall|a: PeerAddr| #[trigger]
                    out@.contains_key(a) <==> (rows.take(i + 1).contains(a)
                        && self.recent_hits@[a].last_hit_time >= cutoff) by {
                    lemma_take_contains(rows, i as int, a);
                    assert(before.contains_key(a) <==> (rows.take(i as int).contains(a)
                        && self.recent_hits@[a].last_hit_time >= cutoff));
                }
                assert forall|a: PeerAddr| #[trigger] out@.contains_key(a) implies {
                    &&& out@[a].hit_count == self.recent_hits@[a].hit_count
                    &&& out@[a].last_hit_time == self.recent_hits@[a].last_hit_time
                    &&& out@[a].recent_checksums@ == self.recent_hits@[a].recent_checksums@
                } by {
                    if a != addr {
                        assert(before.contains_key(a));
                    }
                }
            }
            i = i + 1;
        }
        proof {
            let rows = self.recent_hits.rows();
            assert(rows.take(i as int) =~= rows);
            assert forall|a: PeerAddr| #[trigger]
                out@.contains_key(a) <==> (self.hits().contains_key(a)
                    && self.hits()[a].last_hit_time >= minus(now, HINT_TTL_SECS)) by {
                assert(self.recent_hits@.contains_key(a) <==> rows.contains(a));
            }
        }
        self.recent_hits = out;
    }
}

/// What the first `i + 1` of a list hold.
proof fn lemma_take_contains(s: Seq<PeerAddr>, i: int, a: PeerAddr)
    requires
        0 <= i < s.len(),
    ensures
        s.take(i + 1).contains(a) <==> (s.take(i).contains(a) || a == s[i]),
{
    if s.take(i).contains(a) {
        let k = choose|k: int| 0 <= k < i && s.take(i)[k] == a;
        assert(s.take(i + 1)[k] == a);
    }
    if a == s[i] {
        assert(s.take(i + 1)[i] == a);
    }
    if s.take(i + 1).contains(a) && a != s[i] {
        let t = s.take(i + 1);
        let k = choose|k: int| 0 <= k < t.len() && t[k] == a;
        assert(s.take(i)[k] == a);
    }
}

/// Copies a list.
fn copy_stored(v: &Vec<CheckSumOnDisk>) -> (r: Vec<CheckSumOnDisk>)
    ensures
        r@ == v@,
{
    let mut out: Vec<CheckSumOnDisk> = Vec::new();
    let mut i: usize = 0;
    while i < v.len()
        invariant
            i <= v@.len(),
            out@ == v@.take(i as int),
        decreases v@.len() - i,
    {
        out.push(v[i]);
        i = i + 1;
    }
    out
}

/// A peer that fails three times in a row is not healthy from then on, for 30 seconds after the last
/// time; one that failed fewer times is healthy. What is noted of one peer changes no other.
pub proof fn law_third_failure_makes_unhealthy(
    t0: &mut PeerHealthTracker,
    t1: &mut PeerHealthTracker,
    t2: &mut PeerHealthTracker,
    addr: PeerAddr,
    times: (u64, u64, u64),
    second: &PeerHealthTracker,
    after_two: bool,
    third: &PeerHealthTracker,
    after_three: bool,
    now: u64,
    other: PeerAddr,
)
    requires
        old(t0).wf(),
        old(t0).of(addr).consecutive_failures == 0,
        old(t0).of(addr).total_requests < u64::MAX - 2,
        call_ensures(PeerHealthTracker::record_failure, (t0, addr, times.0), ()),
        *old(t1) == *final(t0),
        call_ensures(PeerHealthTracker::record_failure, (t1, addr, times.1), ()),
        *second == *final(t1),
        call_ensures(PeerHealthTracker::is_unhealthy, (second, addr, now), after_two),
        *old(t2) == *final(t1),
        call_ensures(PeerHealthTracker::record_failure, (t2, addr, times.2), ()),
        *third == *final(t2),
        times.2 <= now,
        call_ensures(PeerHealthTracker::is_unhealthy, (third, addr, now), after_three),
        other != addr,
    ensures
        !after_two,
        after_three <==> now - times.2 < 30,
        final(t2).of(other) == old(t0).of(other),
        final(t2).of(addr).total_requests == old(t0).of(addr).total_requests + 3,
        final(t2).of(addr).total_hits == old(t0).of(addr).total_hits,
{
}

/// A peer that gives a chunk is healthy again at once, and each answer counts as one request. A
/// miss says nothing for or against a peer.
pub proof fn law_success_makes_healthy(
    t0: &mut PeerHealthTracker,
    addr: PeerAddr,
    now: u64,
    before: &PeerHealthTracker,
    was: bool,
    missed: &PeerHealthTracker,
    after_miss: bool,
    t1: &mut PeerHealthTracker,
    given: &PeerHealthTracker,
    after_hit: bool,
    other: PeerAddr,
)
    requires
        old(t0).wf(),
        old(t0).of(addr).total_requests < u64::MAX - 1,
        old(t0).of(addr).total_hits < u64::MAX,
        *before == *old(t0),
        call_ensures(PeerHealthTracker::is_unhealthy, (before, addr, now), was),
        call_ensures(PeerHealthTracker::record_miss, (t0, addr), ()),
        *missed == *final(t0),
        call_ensures(PeerHealthTracker::is_unhealthy, (missed, addr, now), after_miss),
        *old(t1) == *final(t0),
        call_ensures(PeerHealthTracker::record_success, (t1, addr), ()),
        *given == *final(t1),
        call_ensures(PeerHealthTracker::is_unhealthy, (given, addr, now), after_hit),
        other != addr,
    ensures
        after_miss == was,
        !after_hit,
        final(t1).of(addr).total_requests == old(t0).of(addr).total_requests + 2,
        final(t1).of(addr).total_hits == old(t0).of(addr).total_hits + 1,
        final(t1).of(other) == old(t0).of(other),
{
}

/// A breaker refuses requests from a failure on until the cooldown has passed, and not after a
/// success.
pub proof fn law_breaker_closes_again(
    b0: &mut CircuitBreaker,
    failed_ms: u64,
    open: &CircuitBreaker,
    now_ms: u64,
    while_open: bool,
    b1: &mut CircuitBreaker,
    closed: &CircuitBreaker,
    after: bool,
)
    requires
        call_ensures(CircuitBreaker::record_failure, (b0, failed_ms), ()),
        *open == *final(b0),
        failed_ms <= now_ms,
        call_ensures(CircuitBreaker::should_reject, (open, now_ms), while_open),
        *old(b1) == *final(b0),
        call_ensures(CircuitBreaker::record_success, (b1,), ()),
        *closed == *final(b1),
        call_ensures(CircuitBreaker::should_reject, (closed, now_ms), after),
    ensures
        while_open <==> now_ms - failed_ms < old(b0).cooldown_ms,
        !after,
        final(b1).cooldown_ms == old(b0).cooldown_ms,
{
}

/// A peer that gave a chunk is remembered with it for 300 seconds, and forgotten after that; what
/// is remembered of other peers does not depend on it.
pub proof fn law_hints_last_for_their_time(
    h0: &mut PeerHitHints,
    addr: PeerAddr,
    checksum: CheckSum,
    given: u64,
    h1: &mut PeerHitHints,
    now: u64,
    other: PeerAddr,
)
    requires
        old(h0).wf(),
        old(h0).count_of(addr) < u64::MAX,
        call_ensures(PeerHitHints::record_hit, (h0, addr, checksum, given), ()),
        *old(h1) == *final(h0),
        given <= now,
        call_ensures(PeerHitHints::gc_expired, (h1, now), ()),
        other != addr,
    ensures
        final(h0).recent_of(addr).len() > 0,
        final(h0).recent_of(addr).len() <= 256 || final(h0).recent_of(addr).len() <= old(
            h0,
        ).recent_of(addr).len(),
        final(h0).recent_of(addr).last() == stored_form(checksum),
        final(h1).hits().contains_key(addr) <==> now - given <= 300,
        now - given <= 300 ==> final(h1).count_of(addr) == old(h0).count_of(addr) + 1,
        final(h1).hits().contains_key(other) ==> old(h0).hits().contains_key(other),
        old(h0).hits().contains_key(other) && now - old(h0).hits()[other].last_hit_time <= 300
            ==> final(h1).hits().contains_key(other) && final(h1).count_of(other) == old(
            h0,
        ).count_of(other),
{
    assert(final(h0).hits().dom().contains(addr));
    assert(final(h0).hits().contains_key(addr));
    assert(final(h0).hits().dom().contains(other) == old(h0).hits().dom().contains(other));
}

/// A snapshot shows each peer that was asked once, as healthy or not as it is found to be, and
/// counts them so.
pub proof fn law_snapshot_shows_every_peer(
    at: &PeerHealthTracker,
    now: u64,
    shown: PeerHealthSnapshot,
    addr: PeerAddr,
    unhealthy: bool,
)
    requires
        at.wf(),
        call_ensures(PeerHealthTracker::snapshot, (at, now), shown),
        call_ensures(PeerHealthTracker::is_unhealthy, (at, addr, now), unhealthy),
    ensures
        at.peers().contains_key(addr) ==> shown.entries@.contains((addr, !unhealthy)),
        at.peers().contains_key(addr) ==> !shown.entries@.contains((addr, unhealthy)),
        !at.peers().contains_key(addr) ==> !unhealthy && !shown.entries@.contains((addr, true))
            && !shown.entries@.contains((addr, false)),
        shown.healthy_count + shown.unhealthy_count == shown.entries@.len(),
{
    assert(call_requires(PeerHealthTracker::snapshot, (at, now)));
    assert(call_requires(PeerHealthTracker::is_unhealthy, (at, addr, now)));
    law_every_peer_is_counted(shown.entries@);
}

/// What is known of a peer is told alike, whichever way it is asked for; of a peer that was never
/// asked nothing speaks against it.
pub proof fn law_health_is_told_alike(
    at: &PeerHealthTracker,
    addr: PeerAddr,
    now: u64,
    health: PeerHealth,
    of: &PeerHealth,
    by_health: bool,
    by_tracker: bool,
)
    requires
        at.wf(),
        call_ensures(PeerHealthTracker::get, (at, addr), health),
        *of == health,
        call_ensures(PeerHealth::unhealthy, (of, now), by_health),
        call_ensures(PeerHealthTracker::is_unhealthy, (at, addr, now), by_tracker),
    ensures
        by_health == by_tracker,
        by_health <==> health.consecutive_failures >= 3 && now < health.last_failure_time + 30,
        !at.peers().contains_key(addr) ==> !by_health && health.total_requests == 0,
{
    assert(call_requires(PeerHealthTracker::get, (at, addr)));
    assert(call_requires(PeerHealthTracker::is_unhealthy, (at, addr, now)));
}

/// The rows of the hints say what is found under their addresses, and every peer that gave a chunk
/// has one.
pub proof fn law_hint_rows_agree_with_hints(
    at: &PeerHitHints,
    n: usize,
    i: usize,
    row: (PeerAddr, u64, u64),
    found: Option<&HitRecord>,
)
    requires
        at.wf(),
        call_ensures(PeerHitHints::len, (at,), n),
        i < n,
        call_ensures(PeerHitHints::row, (at, i), row),
        call_ensures(PeerHitHints::get, (at, row.0), found),
    ensures
        found is Some,
        found->Some_0.hit_count == row.1,
        found->Some_0.last_hit_time == row.2,
        row.0 == at.rows()[i as int],
{
    assert(call_requires(PeerHitHints::len, (at,)));
    assert(call_requires(PeerHitHints::row, (at, i)));
    assert(call_requires(PeerHitHints::get, (at, row.0)));
}

/// A breaker that is new refuses nothing.
pub proof fn law_new_breaker_is_closed(
    cooldown_ms: u64,
    b: CircuitBreaker,
    at: &CircuitBreaker,
    now_ms: u64,
    refused: bool,
)
    requires
        call_ensures(CircuitBreaker::new, (cooldown_ms,), b),
        *at == b,
        call_ensures(CircuitBreaker::should_reject, (at, now_ms), refused),
    ensures
        !refused,
        b.cooldown_ms == cooldown_ms,
{
}

/// The chunks that a peer gave of late are remembered in the order in which it gave them, the last
/// 256 of them.
pub proof fn law_latest_chunks_are_remembered(
    h: &mut PeerHitHints,
    addr: PeerAddr,
    checksum: CheckSum,
    now: u64,
    j: int,
)
    requires
        old(h).wf(),
        old(h).count_of(addr) < u64::MAX,
        call_ensures(PeerHitHints::record_hit, (h, addr, checksum, now), ()),
        0 <= j < 255,
        j < old(h).recent_of(addr).len(),
    ensures
        ({
            let (was, is) = (old(h).recent_of(addr), final(h).recent_of(addr));
            &&& is.len() == if was.len() < 256 {
                was.len() + 1
            } else {
                256
            }
            &&& is[is.len() - 2 - j] == was[was.len() - 1 - j]
            &&& is.last() == stored_form(checksum)
        }),
{
    assert(call_requires(PeerHitHints::record_hit, (h, addr, checksum, now)));
}

} // verus!
