use distill_fs::backend::peer::client::{ChunkFetch, FetchStep, Outcome};
use distill_fs::backend::peer::discovery::{
    discovery_key, invalid_peer_addr, is_blank, other_peers, plan_discovery, split_peer_addrs,
    DiscoveryPlan, PeerAddr,
};
use distill_fs::backend::peer::health::{
    CircuitBreaker, PeerHealthTracker, PeerHitHints, HINT_MAX_RECENT, HINT_TTL_SECS,
};
use distill_fs::backend::peer::index::{
    chunk_index_key, index_mode, live_owner_cutoff, refresh_interval_secs, IndexTracker,
};
use distill_fs::backend::peer::pool::{
    pick_session, prune_idle, Acquire, ConnectionPoolConfig, SessionState, SESSION_MAX_INFLIGHT,
};
use distill_fs::backend::peer::registry::{
    repair_read, split_by_owner, unregistered, IndexSweep, RegisterRun, SweepAction, SweepEvent,
};
use distill_fs::backend::peer::select::{
    candidate_peers, ranked_peers, select_peers, split_hinted, PeerSource, RankedPeer,
    DEFAULT_MAX_QUERY_PEERS,
};
use distill_fs::checksum::{CheckSum, CheckSumMethod, CheckSumOnDisk};

fn addr(port: u16) -> PeerAddr {
    PeerAddr {
        v6: false,
        ip: 0x7f00_0001,
        port,
        flow_info: 0,
        scope_id: 0,
    }
}

fn checksum(text: &str) -> CheckSum {
    CheckSum::from_data(text.as_bytes(), CheckSumMethod::Blake3)
}

fn open_session(inflight: usize, last_used_micros: u64) -> SessionState {
    SessionState {
        closed: false,
        inflight,
        last_used_micros,
    }
}

fn short_pool_config() -> ConnectionPoolConfig {
    ConnectionPoolConfig {
        min_idle: 1,
        max_size: 8,
        idle_ttl_nanos: 40_000_000,
    }
}

#[test]
fn test_local_chunk_client_prunes_idle_connections_to_minimum() {
    let config = short_pool_config();
    let mut sessions: Vec<SessionState> = Vec::new();

    assert_eq!(pick_session(&sessions, config), Acquire::Connect);
    sessions.push(open_session(SESSION_MAX_INFLIGHT, 0));
    assert_eq!(pick_session(&sessions, config), Acquire::Connect);
    sessions.push(open_session(0, 0));
    sessions[0].inflight = 0;
    let kept = prune_idle(&sessions, config, 1_000);
    assert_eq!(kept, vec![0, 1]);

    let kept = prune_idle(&sessions, config, 80_000_000);
    assert_eq!(kept, vec![0]);
    assert_eq!(pick_session(&sessions[..1], config), Acquire::Use(0));
}

#[test]
fn sessions_are_reused_until_they_are_busy() {
    let config = ConnectionPoolConfig::default();
    let mut sessions = vec![open_session(3, 0), open_session(2, 0), open_session(2, 0)];
    assert_eq!(pick_session(&sessions, config), Acquire::Use(1));
    sessions[1].closed = true;
    assert_eq!(pick_session(&sessions, config), Acquire::Use(2));
    let busy = vec![open_session(40, 0); 8];
    assert_eq!(pick_session(&busy, config), Acquire::Use(0));
    let mut closed = busy.clone();
    closed.iter_mut().for_each(|s| s.closed = true);
    assert_eq!(pick_session(&closed, config), Acquire::Wait);
    assert!(prune_idle(&closed, config, 0).is_empty());
    assert_eq!(config.idle_ttl_nanos, 30_000_000_000);
}

#[test]
fn test_peer_health_miss_does_not_mark_unhealthy() {
    let mut tracker = PeerHealthTracker::new();
    let addr = addr(9876);
    tracker.record_miss(addr);
    tracker.record_miss(addr);
    tracker.record_miss(addr);
    assert!(!tracker.is_unhealthy(addr, 100));
    assert_eq!(tracker.get(addr).total_requests, 3);
}

#[test]
fn test_peer_hit_hints_gc() {
    let mut hints = PeerHitHints::new();
    let addr = addr(9876);
    let now = 1_000_000;
    hints.record_hit(addr, checksum("gc"), now - HINT_TTL_SECS - 1);
    assert!(hints.get(addr).is_some());
    hints.gc_expired(now);
    assert!(hints.get(addr).is_none());
    hints.record_hit(addr, checksum("gc"), now - HINT_TTL_SECS);
    hints.gc_expired(now);
    assert_eq!(hints.len(), 1);
    assert_eq!(hints.row(0), (addr, 1, now - HINT_TTL_SECS));
}

#[test]
fn hints_remember_the_latest_chunks() {
    let mut hints = PeerHitHints::new();
    let sums: Vec<CheckSum> = (0..300).map(|i| checksum(&format!("{i}"))).collect();
    for (i, cs) in sums.iter().enumerate() {
        hints.record_hit(addr(1), *cs, i as u64);
    }
    let record = hints.get(addr(1)).unwrap();
    assert_eq!((record.hit_count, record.last_hit_time), (300, 299));
    assert_eq!(record.recent_checksums.len(), HINT_MAX_RECENT);
    assert_eq!(record.recent_checksums[0], CheckSumOnDisk::from(sums[44]));
    assert_eq!(
        record.recent_checksums[255],
        CheckSumOnDisk::from(sums[299])
    );
}

#[test]
fn failures_pass_with_time() {
    let mut tracker = PeerHealthTracker::new();
    for now in [10, 11, 12] {
        assert!(!tracker.is_unhealthy(addr(1), now));
        tracker.record_failure(addr(1), now);
    }
    assert!(tracker.is_unhealthy(addr(1), 41));
    assert!(!tracker.is_unhealthy(addr(1), 42));
    tracker.record_miss(addr(2));
    let snapshot = tracker.snapshot(20);
    assert_eq!(snapshot.entries, vec![(addr(1), false), (addr(2), true)]);
    assert_eq!((snapshot.healthy_count, snapshot.unhealthy_count), (1, 1));
    tracker.record_success(addr(1));
    assert!(!tracker.is_unhealthy(addr(1), 20));
    assert_eq!(tracker.get(addr(1)).total_hits, 1);
    assert!(!tracker.is_unhealthy(addr(9), 20));
}

#[test]
fn the_breaker_opens_for_the_cooldown() {
    let mut breaker = CircuitBreaker::new(30_000);
    assert!(!breaker.should_reject(0));
    breaker.record_failure(1_000);
    assert!(breaker.should_reject(30_999));
    assert!(!breaker.should_reject(31_000));
    breaker.record_failure(40_000);
    breaker.record_success();
    assert!(!breaker.should_reject(40_001));
}

/// A key that orders scores which are not negative as the scores are ordered.
fn score_key(hint: f64, rtt_ms: f64) -> u64 {
    (hint * 10.0 + 100.0 / rtt_ms.max(1.0)).to_bits()
}

#[test]
fn test_ranked_peers_prefers_healthy_then_score_then_rtt() {
    let (a, b, c) = (addr(3001), addr(3002), addr(3003));
    let mut health = PeerHealthTracker::new();
    health.record_success(a);
    health.record_success(b);
    health.record_success(c);
    health.record_failure(c, 100);
    health.record_failure(c, 100);
    health.record_failure(c, 100);
    assert!(!health.is_unhealthy(a, 100));
    assert!(health.is_unhealthy(c, 100));
    // The average of the reply times starts at 50 ms, and a new one counts for three tenths.
    let rtt = |ms: f64| 0.3 * ms + 0.7 * 50.0;
    assert!(rtt(20.0) < rtt(80.0));

    let peer = |p: PeerAddr, hint: f64, ms: f64| RankedPeer {
        addr: p,
        unhealthy: health.is_unhealthy(p, 100),
        score: score_key(hint, rtt(ms)),
    };
    let (ra, rb, rc) = (peer(a, 0.0, 80.0), peer(b, 2.0, 20.0), peer(c, 100.0, 10.0));
    let ranked = ranked_peers(&[rc, ra, rb, ra], None);

    assert_eq!(ranked, vec![b, a, c]);
}

#[test]
fn test_candidate_peers_filter_self_addr() {
    let self_addr = addr(18080);
    let owner_addr = addr(18081);
    let peer = |p: PeerAddr| RankedPeer {
        addr: p,
        unhealthy: false,
        score: score_key(0.0, 50.0),
    };
    let owners = ranked_peers(&[peer(self_addr), peer(owner_addr)], Some(self_addr));

    let (candidates, source) = candidate_peers(&owners, &[], &[], DEFAULT_MAX_QUERY_PEERS);
    assert_eq!(source.as_str(), "index");
    assert_eq!(candidates, vec![owner_addr]);
}

#[test]
fn ranking_keeps_the_order_of_equals() {
    let peer = |port: u16, unhealthy: bool, score: u64| RankedPeer {
        addr: addr(port),
        unhealthy,
        score,
    };
    let ranked = ranked_peers(
        &[
            peer(1, true, 9),
            peer(2, false, 1),
            peer(3, false, 5),
            peer(4, false, 1),
            peer(2, false, 1),
        ],
        None,
    );
    assert_eq!(
        ranked,
        vec![addr(3), addr(2), addr(4), addr(2), addr(1)]
    );
}

#[test]
fn candidates_come_from_hints_and_chance() {
    let ranked = [addr(1), addr(2), addr(3), addr(4)];
    let (hinted, unknown) = split_hinted(&ranked, &[false, true, false, true]);
    assert_eq!(hinted, vec![addr(2), addr(4)]);
    assert_eq!(unknown, vec![addr(1), addr(3)]);
    let (picked, source) = candidate_peers(&[], &hinted, &unknown, 3);
    assert_eq!(source, PeerSource::HitHints);
    assert_eq!(picked, vec![addr(2), addr(4), addr(1)]);
    let (picked, source) = candidate_peers(&[], &[], &unknown, 1);
    assert_eq!((picked, source.as_str()), (vec![addr(1)], "random"));
    let (picked, source) = candidate_peers(&ranked, &hinted, &unknown, 3);
    assert_eq!((picked.len(), source), (3, PeerSource::Index));
    let (picked, _) = candidate_peers(&[], &hinted, &unknown, 1);
    assert_eq!(picked, vec![addr(2)]);
    assert!(candidate_peers(&[], &[], &[], 3).0.is_empty());
}

fn search(outcomes: &[Outcome], source: PeerSource) -> (Vec<PeerAddr>, Outcome, usize) {
    let mut health = PeerHealthTracker::new();
    let mut hints = PeerHitHints::new();
    let peers = (0..3).map(|i| addr(i + 1)).collect();
    let mut fetch = ChunkFetch::new(peers, source);
    let mut asked = Vec::new();
    let mut retries = 0;
    loop {
        match fetch.step() {
            FetchStep::Ask { peer, retry } => {
                retries += retry as usize;
                let outcome = outcomes[asked.len()];
                asked.push(peer);
                fetch.answered(outcome, checksum("c"), &mut health, &mut hints, 5);
                let noted = health.get(peer);
                assert_eq!(noted.total_requests, 1);
                assert_eq!(noted.total_hits, (outcome == Outcome::Hit) as u64);
                assert_eq!(hints.get(peer).is_some(), outcome == Outcome::Hit);
            }
            FetchStep::Stop(outcome) => return (asked, outcome, retries),
        }
    }
}

#[test]
fn a_search_ends_with_the_first_hit() {
    let (asked, outcome, retries) =
        search(&[Outcome::Failed, Outcome::Hit], PeerSource::Index);
    assert_eq!(asked, vec![addr(1), addr(2)]);
    assert_eq!((outcome, retries), (Outcome::Hit, 1));
    let all = |o| search(&[Outcome::Failed, o, Outcome::TimedOut], PeerSource::Random);
    assert_eq!(all(Outcome::Miss).1, Outcome::Miss);
    assert_eq!(all(Outcome::Failed).1, Outcome::TimedOut);
    assert_eq!(all(Outcome::Failed).2, 0);
    let failed = search(&[Outcome::Failed; 3], PeerSource::Random);
    assert_eq!(failed.1, Outcome::Failed);
    assert_eq!(
        ChunkFetch::new(vec![], PeerSource::Random).step(),
        FetchStep::Stop(Outcome::Miss)
    );
}

#[test]
fn peer_client_timeout_returns_none() {
    let mut health = PeerHealthTracker::new();
    let mut hints = PeerHitHints::new();
    let peer = addr(9);
    let mut fetch = ChunkFetch::new(vec![peer], PeerSource::Random);
    assert_eq!(
        fetch.step(),
        FetchStep::Ask {
            peer,
            retry: false
        }
    );
    fetch.answered(Outcome::TimedOut, checksum("x"), &mut health, &mut hints, 1);
    assert_eq!(fetch.step(), FetchStep::Stop(Outcome::TimedOut));
    assert_eq!(hints.len(), 0);
}

#[test]
fn test_index_tracker_tracks_and_removes_checksums() {
    let mut tracker = IndexTracker::new();
    let a = CheckSum::from_data(b"tracker-a", CheckSumMethod::Blake3);
    let b = CheckSum::from_data(b"tracker-b", CheckSumMethod::Sha256);

    tracker.insert_many(&[CheckSumOnDisk::from(a), CheckSumOnDisk::from(b)]);
    assert!(tracker.contains(&a));
    assert!(tracker.contains(&b));

    let mut snapshot = tracker.snapshot();
    snapshot.sort();
    let mut expected = vec![a, b];
    expected.sort();
    assert_eq!(snapshot, expected);

    tracker.remove_many(&[CheckSumOnDisk::from(a)]);
    assert!(!tracker.contains(&a));
    assert!(tracker.contains(&b));
}

#[test]
fn the_tracker_holds_each_chunk_once() {
    let mut tracker = IndexTracker::new();
    let all: Vec<CheckSum> = (0..200).map(|i| checksum(&format!("t{i}"))).collect();
    let stored: Vec<CheckSumOnDisk> = all.iter().map(|c| CheckSumOnDisk::from(*c)).collect();
    tracker.insert_many(&stored);
    tracker.insert_many(&stored);
    assert_eq!(tracker.len(), 200);
    assert!(tracker.untracked(&all).is_empty());
    tracker.remove_many(&stored[..100]);
    assert_eq!(tracker.untracked(&all), all[..100].to_vec());
    assert_eq!(tracker.len(), 100);
}

#[test]
fn registration_keeps_what_the_index_keeps() {
    let all: Vec<CheckSum> = (0..2500).map(|i| checksum(&format!("r{i}"))).collect();
    let mut tracker = IndexTracker::new();
    let mut run = RegisterRun::new(all.clone());
    let mut sizes = Vec::new();
    while let Some(batch) = run.next_batch() {
        let n = batch.len();
        sizes.push(n);
        let results: Vec<i32> = (0..n).map(|i| (i % 2) as i32).collect();
        run.answered(&results);
    }
    assert_eq!(sizes, vec![1000, 1000, 500]);
    let summary = run.finish(&mut tracker);
    assert_eq!((summary.registered, summary.dropped), (1250, 1250));
    assert!(summary.many_dropped);
    assert!(tracker.contains(&all[1]));
    assert!(!tracker.contains(&all[0]));
    unregistered(&mut tracker, &all);
    assert_eq!(tracker.len(), 0);
    let mut few = RegisterRun::new(all[..9].to_vec());
    few.answered(&[1, 1, 1, 1, 1, 1, 1, 0, 0]);
    assert!(!few.finish(&mut tracker).many_dropped);
    let mut short = RegisterRun::new(all[..2].to_vec());
    short.answered(&[1]);
    assert_eq!(short.finish(&mut tracker).registered, 1);
}

#[test]
fn owners_decide_what_is_registered() {
    let all = [checksum("0"), checksum("1"), checksum("2"), checksum("3")];
    let text = |list: &[&str]| list.iter().map(|s| s.to_string()).collect::<Vec<String>>();
    let owners = vec![
        text(&["me"]),
        text(&["a", "b", "c"]),
        text(&["a", "b"]),
        text(&["a", "b", "c", "me"]),
    ];
    let (known, missing) = split_by_owner(&all, &owners, "me");
    assert_eq!(
        known,
        vec![CheckSumOnDisk::from(all[0]), CheckSumOnDisk::from(all[3])]
    );
    assert_eq!(missing, vec![all[2]]);
    let (known, missing) = split_by_owner(&all, &owners[..1], "me");
    assert_eq!((known.len(), missing.len()), (1, 0));
}

#[test]
fn index_keys_name_the_chunk() {
    let cs = CheckSum::from_data(b"abc", CheckSumMethod::Sha256);
    assert_eq!(
        chunk_index_key(&cs),
        "distill-fs:chunk-owner:Sha256:ba7816bf8f01cfea414140de5dae2223b00361a396177a9cb410ff61f20015ad"
    );
    assert_eq!(live_owner_cutoff(100, 30), 70);
    assert_eq!(live_owner_cutoff(10, 30), 0);
    assert_eq!(refresh_interval_secs(43200), 14400);
    assert_eq!(refresh_interval_secs(2), 1);
    assert_eq!(index_mode(1), "single");
    assert_eq!(index_mode(2), "batch");
}

#[test]
fn test_refresh_index_falls_back_to_chunk_scan() {
    let first = checksum("refresh-first");
    let second = checksum("refresh-second");
    let mut stored = vec![first, second];
    let mut registered = Vec::new();

    let mut sweep = IndexSweep::new();
    let mut action = sweep.on_event(SweepEvent::Start);
    let refreshed = loop {
        let event = match action {
            SweepAction::Read(cursor, size) => {
                assert_eq!(size, 1000);
                assert_eq!(cursor, registered.last().copied());
                SweepEvent::Read(std::mem::take(&mut stored))
            }
            SweepAction::HandOver(batch) => {
                registered.extend_from_slice(&batch);
                SweepEvent::Taken(batch.len())
            }
            SweepAction::Done(total) => break total,
            SweepAction::GiveUp(_) => panic!("gave up"),
        };
        action = sweep.on_event(event);
    };

    assert_eq!(refreshed, 2);
    assert_eq!(registered.len(), 2);
    assert!(registered.contains(&first));
    assert!(registered.contains(&second));
}

#[test]
fn a_sweep_that_fails_gives_up() {
    let mut sweep = IndexSweep::new();
    sweep.on_event(SweepEvent::Start);
    sweep.on_event(SweepEvent::Read(vec![checksum("x")]));
    sweep.on_event(SweepEvent::Taken(1));
    assert!(matches!(
        sweep.on_event(SweepEvent::Failed),
        SweepAction::GiveUp(1)
    ));
}

#[test]
fn repair_starts_over_at_the_end() {
    let mut cursor = None;
    let all = [checksum("1"), checksum("2")];
    assert!(repair_read(&mut cursor, &all));
    assert_eq!(cursor, Some(all[1]));
    assert!(!repair_read(&mut cursor, &[]));
    assert_eq!(cursor, None);
}

#[test]
fn peers_are_listed_or_discovered() {
    assert_eq!(
        split_peer_addrs(" 10.0.0.1:1 ,,\t10.0.0.2:2,\u{3000}"),
        vec!["10.0.0.1:1", "10.0.0.2:2"]
    );
    assert!(split_peer_addrs("").is_empty());
    assert!(matches!(
        plan_discovery("redis://host", "x"),
        Ok(DiscoveryPlan::Redis)
    ));
    assert!(matches!(
        plan_discovery("  ", "a,b"),
        Ok(DiscoveryPlan::Static(list)) if list == vec!["a", "b"]
    ));
    assert_eq!(
        plan_discovery("etcd://x", "").unwrap_err().message,
        "unsupported peer discovery configuration: etcd://x"
    );
    assert_eq!(invalid_peer_addr("zz").message, "invalid peer addr: zz");
    assert_eq!(discovery_key("n"), "distill-fs:peers:n");
    assert!(is_blank("\n\u{2028} "));
    assert!(!is_blank(" x "));
    let all = [addr(1), addr(2), addr(1)];
    assert_eq!(other_peers(&all, Some(addr(1))), vec![addr(2)]);
    assert_eq!(other_peers(&all, None), all.to_vec());
}

#[test]
fn white_space_is_that_of_unicode() {
    for u in 0..=0x3001u32 {
        if let Some(c) = char::from_u32(u) {
            assert_eq!(is_blank(&c.to_string()), c.is_whitespace(), "{u:x}");
        }
    }
}

#[test]
fn unknown_peers_are_asked_in_an_order_drawn_by_the_seed() {
    let unknown: Vec<PeerAddr> = (1..=20).map(addr).collect();
    let draw = |seed: u64| select_peers(&[], &[], unknown.clone(), 20, seed).0;
    assert_eq!(draw(1), draw(1));
    assert_ne!(draw(1), unknown);
    assert_ne!(draw(1), draw(2));
    let mut ports: Vec<u16> = draw(3).iter().map(|a| a.port).collect();
    ports.sort();
    assert_eq!(ports, (1..=20).collect::<Vec<u16>>());

    let (picked, source) = select_peers(&[], &[addr(99)], unknown.clone(), 3, 5);
    assert_eq!(source, PeerSource::HitHints);
    assert_eq!(picked[0], addr(99));
    assert!(unknown.contains(&picked[1]) && unknown.contains(&picked[2]));
    let (picked, source) = select_peers(&[addr(7)], &[addr(99)], unknown, 3, 5);
    assert_eq!((picked, source), (vec![addr(7)], PeerSource::Index));
}
