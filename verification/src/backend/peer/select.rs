//! Which peers are asked for a chunk, and in what order.

use crate::backend::peer::discovery::PeerAddr;
use rand::rngs::StdRng;
use rand::seq::SliceRandom;
use rand::SeedableRng;
use vstd::prelude::*;

verus! {

/// At most this many peers are asked for a chunk.
pub const DEFAULT_MAX_QUERY_PEERS: usize = 3;

/// A peer is given this long to answer, in milliseconds.
pub const DEFAULT_TIMEOUT_MS: u64 = 1000;

/// A peer and what decides its place: those that are not healthy come last, and among the
/// others the ones with the higher score come first.
#[derive(Debug, Clone, Copy, Eq, PartialEq, Structural)]
pub struct RankedPeer {
    pub addr: PeerAddr,
    pub unhealthy: bool,
    pub score: u64,
}

/// What decides the place of a peer.
pub open spec fn rank(p: RankedPeer) -> (bool, u64) {
    (p.unhealthy, p.score)
}

/// Whether a peer of rank `a` comes before one of rank `b`.
pub open spec fn ranks_before(a: (bool, u64), b: (bool, u64)) -> bool {
    (!a.0 && b.0) || (a.0 == b.0 && a.1 > b.1)
}

/// The peers of a rank.
pub open spec fn of_rank(k: (bool, u64)) -> spec_fn(RankedPeer) -> bool {
    |p: RankedPeer| rank(p) == k
}

/// Whether no peer stands behind one that it ranks before.
pub open spec fn in_rank_order(s: Seq<RankedPeer>) -> bool {
    forall|i: int, j: int|
        0 <= i < j < s.len() ==> !ranks_before(rank(#[trigger] s[j]), rank(#[trigger] s[i]))
}

/// Whether `r` holds the peers of `s` in rank order, those of one rank as they stood.
pub open spec fn is_ranking(s: Seq<RankedPeer>, r: Seq<RankedPeer>) -> bool {
    &&& in_rank_order(r)
    &&& forall|k: (bool, u64)| r.filter(#[trigger] of_rank(k)) == s.filter(of_rank(k))
}

/// A list in which nothing is of a rank has no part of that rank.
proof fn lemma_filter_none(s: Seq<RankedPeer>, k: (bool, u64))
    requires
        forall|i: int| 0 <= i < s.len() ==> rank(#[trigger] s[i]) != k,
    ensures
        s.filter(of_rank(k)) == Seq::<RankedPeer>::empty(),
    decreases s.len(),
{
    reveal(Seq::filter);
    if s.len() > 0 {
        assert(rank(s[s.len() - 1]) != k);
        lemma_filter_none(s.drop_last(), k);
    }
}

/// Entering a peer behind those that it does not rank before keeps the ranking.
proof fn lemma_insert_keeps_ranking(s: Seq<RankedPeer>, r: Seq<RankedPeer>, x: RankedPeer, at: int)
    requires
        is_ranking(s, r),
        0 <= at <= r.len(),
        forall|i: int| 0 <= i < at ==> !ranks_before(rank(x), rank(#[trigger] r[i])),
        forall|i: int| at <= i < r.len() ==> ranks_before(rank(x), rank(#[trigger] r[i])),
    ensures
        is_ranking(s.push(x), r.insert(at, x)),
{
    let q = r.insert(at, x);
    let front = r.take(at);
    let back = r.skip(at);
    assert(r =~= front + back);
    assert(q =~= front + (seq![x] + back));
    assert forall|i: int, j: int| 0 <= i < j < q.len() implies !ranks_before(
        rank(#[trigger] q[j]),
        rank(#[trigger] q[i]),
    ) by {
        let i0 = if i > at {
            i - 1
        } else {
            i
        };
        let j0 = if j > at {
            j - 1
        } else {
            j
        };
        if i != at {
            assert(q[i] == r[i0]);
        }
        if j != at {
            assert(q[j] == r[j0]);
        }
    }
    assert forall|k: (bool, u64)| q.filter(#[trigger] of_rank(k)) == s.push(x).filter(
        of_rank(k),
    ) by {
        let p = of_rank(k);
        assert(s.push(x) =~= s + seq![x]);
        Seq::filter_distributes_over_add(s, seq![x], p);
        Seq::filter_distributes_over_add(front, back, p);
        Seq::filter_distributes_over_add(front, seq![x] + back, p);
        Seq::filter_distributes_over_add(seq![x], back, p);
        assert(r.filter(p) == s.filter(p));
        if rank(x) == k {
            assert forall|i: int| 0 <= i < back.len() implies rank(#[trigger] back[i]) != k by {
                assert(back[i] == r[at + i]);
            }
            lemma_filter_none(back, k);
            assert(front.filter(p) + back.filter(p) =~= front.filter(p));
            assert(seq![x].filter(p) + back.filter(p) =~= seq![x].filter(p));
        } else {
            lemma_filter_none(seq![x], k);
            assert(seq![x].filter(p) + back.filter(p) =~= back.filter(p));
            assert(s.filter(p) + seq![x].filter(p) =~= s.filter(p));
        }
    }
}

/// Whether a peer ranks before another.
fn comes_before(a: RankedPeer, b: RankedPeer) -> (r: bool)
    ensures
        r == ranks_before(rank(a), rank(b)),
{
    (!a.unhealthy && b.unhealthy) || (a.unhealthy == b.unhealthy && a.score > b.score)
}

/// Puts peers in rank order; those of one rank stay as they stand.
pub fn rank_order(peers: &[RankedPeer]) -> (r: Vec<RankedPeer>)
    ensures
        is_ranking(peers@, r@),
{
    let mut out: Vec<RankedPeer> = Vec::new();
    let mut i: usize = 0;
    assert(peers@.take(0) =~= Seq::<RankedPeer>::empty());
    assert(out@ =~= Seq::<RankedPeer>::empty());
    while i < peers.len()
        invariant
            i <= peers@.len(),
            is_ranking(peers@.take(i as int), out@),
        decreases peers@.len() - i,
    {
        let x: RankedPeer = peers[i];
        let mut at: usize = out.len();
        while at > 0 && comes_before(x, out[at - 1])
            invariant
                at <= out@.len(),
                forall|j: int|
                    at <= j < out@.len() ==> ranks_before(rank(x), rank(#[trigger] out@[j])),
            decreases at,
        {
            at = at - 1;
        }
        proof {
            assert forall|j: int| 0 <= j < at implies !ranks_before(
                rank(x),
                rank(#[trigger] out@[j]),
            ) by {
                if j < at - 1 {
                    assert(!ranks_before(rank(out@[at - 1]), rank(out@[j])));
                }
            }
            lemma_insert_keeps_ranking(peers@.take(i as int), out@, x, at as int);
            assert(peers@.take(i + 1) =~= peers@.take(i as int).push(x));
        }
        out.insert(at, x);
        i = i + 1;
    }
    assert(peers@.take(i as int) =~= peers@);
    out
}

/// Two rankings of the same peers are the same.
pub proof fn law_ranking_is_unique(s: Seq<RankedPeer>, a: Seq<RankedPeer>, b: Seq<RankedPeer>)
    requires
        is_ranking(s, a),
        is_ranking(s, b),
    ensures
        a == b,
    decreases a.len(),
{
    reveal(Seq::filter);
    if a.len() == 0 {
        if b.len() > 0 {
            let k = rank(b[0]);
            b.lemma_filter_contains(of_rank(k), 0);
            assert(a.filter(of_rank(k)) == s.filter(of_rank(k)));
        }
        assert(a =~= b);
    } else {
        let k = rank(a.last());
        assert(a.filter(of_rank(k)) == s.filter(of_rank(k)));
        assert(b.filter(of_rank(k)) == s.filter(of_rank(k)));
        assert(a.filter(of_rank(k)).last() == a.last());
        if b.len() == 0 {
            assert(false);
        }
        let l = rank(b.last());
        assert(a.filter(of_rank(l)) == s.filter(of_rank(l)));
        assert(b.filter(of_rank(l)) == s.filter(of_rank(l)));
        assert(b.filter(of_rank(l)).last() == b.last());
        if k != l {
            // The last of each also stands in the other, where it is not last.
            a.lemma_filter_contains_rev(of_rank(l), b.last());
            b.lemma_filter_contains_rev(of_rank(k), a.last());
            let i = choose|i: int| 0 <= i < a.len() && a[i] == b.last();
            let j = choose|j: int| 0 <= j < b.len() && b[j] == a.last();
            assert(!ranks_before(rank(a[a.len() - 1]), rank(a[i])));
            assert(!ranks_before(rank(b[b.len() - 1]), rank(b[j])));
        }
        assert(a.last() == b.last());
        assert forall|m: (bool, u64)| a.drop_last().filter(#[trigger] of_rank(m))
            == b.drop_last().filter(of_rank(m)) by {
            assert(a.filter(of_rank(m)) == s.filter(of_rank(m)));
            assert(b.filter(of_rank(m)) == s.filter(of_rank(m)));
            let fa = a.drop_last().filter(of_rank(m));
            let fb = b.drop_last().filter(of_rank(m));
            if rank(a.last()) == m {
                assert(fa.push(a.last()).drop_last() =~= fa);
                assert(fb.push(a.last()).drop_last() =~= fb);
            }
        }
        assert(is_ranking(a.drop_last(), b.drop_last()));
        assert(is_ranking(a.drop_last(), a.drop_last()));
        law_ranking_is_unique(a.drop_last(), a.drop_last(), b.drop_last());
        assert(a =~= a.drop_last().push(a.last()));
        assert(b =~= b.drop_last().push(b.last()));
    }
}

/// `peers` without the one at `own`.
pub open spec fn not_self(peers: Seq<RankedPeer>, own: Option<PeerAddr>) -> Seq<RankedPeer>
    decreases peers.len(),
{
    if peers.len() == 0 {
        Seq::empty()
    } else {
        let before = not_self(peers.drop_last(), own);
        if own == Some(peers.last().addr) {
            before
        } else {
            before.push(peers.last())
        }
    }
}

/// The addresses of peers, where one that follows itself is named once.
pub open spec fn addrs_once(peers: Seq<RankedPeer>) -> Seq<PeerAddr>
    decreases peers.len(),
{
    if peers.len() == 0 {
        Seq::empty()
    } else {
        let before = addrs_once(peers.drop_last());
        let addr = peers.last().addr;
        if before.len() > 0 && before.last() == addr {
            before
        } else {
            before.push(addr)
        }
    }
}

/// Returns the addresses of peers in rank order, without this node's own.
pub fn ranked_peers(peers: &[RankedPeer], own: Option<PeerAddr>) -> (r: Vec<PeerAddr>)
    ensures
        exists|q: Seq<RankedPeer>| #[trigger]
            is_ranking(not_self(peers@, own), q) && r@ == addrs_once(q),
{
    let mut others: Vec<RankedPeer> = Vec::new();
    let mut i: usize = 0;
    while i < peers.len()
        invariant
            i <= peers@.len(),
            others@ == not_self(peers@.take(i as int), own),
        decreases peers@.len() - i,
    {
        let peer: RankedPeer = peers[i];
        assert(peers@.take(i + 1).drop_last() =~= peers@.take(i as int));
        let is_self: bool = match own {
            Some(local) => local == peer.addr,
            None => false,
        };
        if !is_self {
            others.push(peer);
        }
        i = i + 1;
    }
    assert(peers@.take(i as int) =~= peers@);
    let order: Vec<RankedPeer> = rank_order(others.as_slice());
    let mut out: Vec<PeerAddr> = Vec::new();
    let mut j: usize = 0;
    while j < order.len()
        invariant
            j <= order@.len(),
            out@ == addrs_once(order@.take(j as int)),
        decreases order@.len() - j,
    {
        let addr: PeerAddr = order[j].addr;
        assert(order@.take(j + 1).drop_last() =~= order@.take(j as int));
        if !(out.len() > 0 && out[out.len() - 1] == addr) {
            out.push(addr);
        }
        j = j + 1;
    }
    assert(order@.take(j as int) =~= order@);
    assert(is_ranking(not_self(peers@, own), order@));
    out
}

/// A peer is in a ranking if and only if it is one of those that were ranked.
proof fn lemma_ranking_same_peers(s: Seq<RankedPeer>, q: Seq<RankedPeer>, p: RankedPeer)
    requires
        is_ranking(s, q),
    ensures
        s.contains(p) <==> q.contains(p),
{
    let f = of_rank(rank(p));
    assert(q.filter(f) == s.filter(f));
    if s.contains(p) {
        let i = choose|i: int| 0 <= i < s.len() && s[i] == p;
        s.lemma_filter_contains(f, i);
        q.lemma_filter_contains_rev(f, p);
    }
    if q.contains(p) {
        let i = choose|i: int| 0 <= i < q.len() && q[i] == p;
        q.lemma_filter_contains(f, i);
        s.lemma_filter_contains_rev(f, p);
    }
}

proof fn lemma_not_self(peers: Seq<RankedPeer>, own: Option<PeerAddr>, p: RankedPeer)
    ensures
        not_self(peers, own).contains(p) <==> (peers.contains(p) && own != Some(p.addr)),
    decreases peers.len(),
{
    if peers.len() > 0 {
        let rest = peers.drop_last();
        lemma_not_self(rest, own, p);
        let before = not_self(rest, own);
        let all = not_self(peers, own);
        if all.contains(p) {
            let k = choose|k: int| 0 <= k < all.len() && all[k] == p;
            if k < before.len() {
                assert(before[k] == p);
                let j = choose|j: int| 0 <= j < rest.len() && rest[j] == p;
                assert(peers[j] == p);
            } else {
                assert(peers[peers.len() - 1] == p);
            }
        }
        if peers.contains(p) && own != Some(p.addr) {
            let j = choose|j: int| 0 <= j < peers.len() && peers[j] == p;
            if j < rest.len() {
                assert(rest[j] == p);
                let k = choose|k: int| 0 <= k < before.len() && before[k] == p;
                assert(all[k] == p);
            } else {
                assert(all[before.len() as int] == p);
            }
        }
    }
}

proof fn lemma_addrs_once(q: Seq<RankedPeer>, a: PeerAddr)
    ensures
        addrs_once(q).contains(a) <==> exists|i: int| 0 <= i < q.len() && (#[trigger] q[i]).addr == a,
    decreases q.len(),
{
    if q.len() > 0 {
        let rest = q.drop_last();
        lemma_addrs_once(rest, a);
        let before = addrs_once(rest);
        let all = addrs_once(q);
        if all.contains(a) {
            let k = choose|k: int| 0 <= k < all.len() && all[k] == a;
            if k < before.len() {
                assert(before[k] == a);
                let i = choose|i: int| 0 <= i < rest.len() && (#[trigger] rest[i]).addr == a;
                assert(q[i].addr == a);
            } else {
                assert(q[q.len() - 1].addr == a);
            }
        }
        if exists|i: int| 0 <= i < q.len() && (#[trigger] q[i]).addr == a {
            let i = choose|i: int| 0 <= i < q.len() && (#[trigger] q[i]).addr == a;
            if i < rest.len() {
                assert(rest[i].addr == a);
                let k = choose|k: int| 0 <= k < before.len() && before[k] == a;
                assert(all[k] == a);
            } else if before.len() > 0 && before.last() == a {
                assert(all[before.len() - 1] == a);
            } else {
                assert(all[before.len() as int] == a);
            }
        }
    }
}

/// Ranking loses no peer but this node, and adds none.
pub proof fn law_ranking_keeps_every_other_peer(
    peers: Seq<RankedPeer>,
    own: Option<PeerAddr>,
    q: Seq<RankedPeer>,
    p: RankedPeer,
)
    requires
        is_ranking(not_self(peers, own), q),
        peers.contains(p),
    ensures
        addrs_once(q).contains(p.addr) <==> own != Some(p.addr),
{
    lemma_not_self(peers, own, p);
    lemma_ranking_same_peers(not_self(peers, own), q, p);
    lemma_addrs_once(q, p.addr);
    if own != Some(p.addr) {
        let i = choose|i: int| 0 <= i < q.len() && q[i] == p;
        assert(q[i].addr == p.addr);
    }
    if addrs_once(q).contains(p.addr) {
        let i = choose|i: int| 0 <= i < q.len() && (#[trigger] q[i]).addr == p.addr;
        lemma_ranking_same_peers(not_self(peers, own), q, q[i]);
        lemma_not_self(peers, own, q[i]);
        assert(q.contains(q[i]));
    }
}

/// No peer that is not healthy stands before one that is.
pub proof fn law_healthy_peers_come_first(s: Seq<RankedPeer>, q: Seq<RankedPeer>, i: int, j: int)
    requires
        is_ranking(s, q),
        0 <= i < j < q.len(),
    ensures
        q[i].unhealthy ==> q[j].unhealthy,
        q[i].unhealthy == q[j].unhealthy ==> q[i].score >= q[j].score,
{
    assert(!ranks_before(rank(q[j]), rank(q[i])));
}

/// How the peers that are asked were found.
#[derive(Debug, Clone, Copy, Eq, PartialEq, Structural)]
pub enum PeerSource {
    /// The index names them as owners of the chunk.
    Index,
    /// Some have given chunks of late.
    HitHints,
    /// They are any peers.
    Random,
}

impl PeerSource {
    /// The name of the source in metrics.
    pub fn as_str(self) -> (r: &'static str)
        ensures
            r@ == match self {
                PeerSource::Index => "index"@,
                PeerSource::HitHints => "hithints"@,
                PeerSource::Random => "random"@,
            },
    {
        match self {
            PeerSource::Index => "index",
            PeerSource::HitHints => "hithints",
            PeerSource::Random => "random",
        }
    }
}

/// The peers whose flag is `flag`, in order.
pub open spec fn flagged(peers: Seq<PeerAddr>, flags: Seq<bool>, flag: bool) -> Seq<PeerAddr>
    decreases peers.len(),
{
    if peers.len() == 0 || flags.len() != peers.len() {
        Seq::empty()
    } else {
        let before = flagged(peers.drop_last(), flags.drop_last(), flag);
        if flags.last() == flag {
            before.push(peers.last())
        } else {
            before
        }
    }
}

/// Splits ranked peers into those that have given chunks of late and the others.
pub fn split_hinted(ranked: &[PeerAddr], hinted: &[bool]) -> (r: (Vec<PeerAddr>, Vec<PeerAddr>))
    requires
        ranked@.len() == hinted@.len(),
    ensures
        r.0@ == flagged(ranked@, hinted@, true),
        r.1@ == flagged(ranked@, hinted@, false),
{
    let mut known: Vec<PeerAddr> = Vec::new();
    let mut unknown: Vec<PeerAddr> = Vec::new();
    let mut i: usize = 0;
    while i < ranked.len()
        invariant
            i <= ranked@.len(),
            ranked@.len() == hinted@.len(),
            known@ == flagged(ranked@.take(i as int), hinted@.take(i as int), true),
            unknown@ == flagged(ranked@.take(i as int), hinted@.take(i as int), false),
        decreases ranked@.len() - i,
    {
        assert(ranked@.take(i + 1).drop_last() =~= ranked@.take(i as int));
        assert(hinted@.take(i + 1).drop_last() =~= hinted@.take(i as int));
        if hinted[i] {
            known.push(ranked[i]);
        } else {
            unknown.push(ranked[i]);
        }
        i = i + 1;
    }
    assert(ranked@.take(i as int) =~= ranked@);
    assert(hinted@.take(i as int) =~= hinted@);
    (known, unknown)
}

/// The first `max` of a list.
pub open spec fn first_of(s: Seq<PeerAddr>, max: nat) -> Seq<PeerAddr> {
    if s.len() <= max {
        s
    } else {
        s.take(max as int)
    }
}

/// The peers to ask: the owners that the index names; where there are none, those that have
/// given chunks of late and then the others; at most `max`.
pub open spec fn spec_candidates(
    owners: Seq<PeerAddr>,
    hinted: Seq<PeerAddr>,
    unknown: Seq<PeerAddr>,
    max: nat,
) -> (Seq<PeerAddr>, PeerSource) {
    if owners.len() > 0 {
        (first_of(owners, max), PeerSource::Index)
    } else if hinted.len() > 0 {
        (first_of(hinted + unknown, max), PeerSource::HitHints)
    } else {
        (first_of(unknown, max), PeerSource::Random)
    }
}

/// Copies the first of `a`, then of `b`, at most `max` in all.
fn copy_first(a: &[PeerAddr], b: &[PeerAddr], max: usize) -> (r: Vec<PeerAddr>)
    ensures
        r@ == first_of(a@ + b@, max as nat),
{
    let mut out: Vec<PeerAddr> = Vec::new();
    let mut i: usize = 0;
    while i < a.len() && out.len() < max
        invariant
            i <= a@.len(),
            i <= max,
            out@ == a@.take(i as int),
        decreases a@.len() - i,
    {
        out.push(a[i]);
        i = i + 1;
    }
    let mut j: usize = 0;
    while j < b.len() && out.len() < max
        invariant
            j <= b@.len(),
            i <= a@.len(),
            j > 0 ==> i == a@.len(),
            i == a@.len() || out@.len() == max,
            out@.len() <= max,
            out@ == a@.take(i as int) + b@.take(j as int),
        decreases b@.len() - j,
    {
        out.push(b[j]);
        assert(out@ =~= a@.take(i as int) + b@.take(j + 1));
        j = j + 1;
    }
    assert(out@ =~= first_of(a@ + b@, max as nat));
    out
}

/// The order in which `SliceRandom::shuffle` of `rand` leaves a list, with the generator `StdRng`
/// that starts from a seed.
pub uninterp spec fn shuffled(list: Seq<PeerAddr>, seed: u64) -> Seq<PeerAddr>;

/// `rand::seq::SliceRandom::shuffle`, with the generator that `StdRng::seed_from_u64` makes of
/// the seed: it changes places in the list and nothing else, so that every peer stays in it as
/// often as before, and the order depends on the list and the seed alone.
#[verifier::external_body]
fn shuffle(list: &mut Vec<PeerAddr>, seed: u64)
    ensures
        final(list)@ == shuffled(old(list)@, seed),
        final(list)@.to_multiset() == old(list)@.to_multiset(),
{
    list.shuffle(&mut StdRng::seed_from_u64(seed));
}

/// Picks the peers to ask, of which those that nothing is known of come in an order that is drawn
/// by `seed`, a number to be chosen at random for each call.
pub fn select_peers(
    owners: &[PeerAddr],
    hinted: &[PeerAddr],
    unknown: Vec<PeerAddr>,
    max_query_peers: usize,
    seed: u64,
) -> (r: (Vec<PeerAddr>, PeerSource))
    ensures
        (r.0@, r.1) == spec_candidates(
            owners@,
            hinted@,
            shuffled(unknown@, seed),
            max_query_peers as nat,
        ),
        shuffled(unknown@, seed).to_multiset() == unknown@.to_multiset(),
        forall|a: PeerAddr| #[trigger]
            r.0@.contains(a) ==> owners@.contains(a) || hinted@.contains(a) || unknown@.contains(a),
{
    let ghost given = unknown@;
    let mut order: Vec<PeerAddr> = unknown;
    shuffle(&mut order, seed);
    let r: (Vec<PeerAddr>, PeerSource) = candidate_peers(
        owners,
        hinted,
        order.as_slice(),
        max_query_peers,
    );
    proof {
        order@.to_multiset_ensures();
        given.to_multiset_ensures();
        assert forall|a: PeerAddr| #[trigger] r.0@.contains(a) implies owners@.contains(a)
            || hinted@.contains(a) || given.contains(a) by {
            law_candidates_are_known_peers(owners@, hinted@, order@, max_query_peers as nat, a);
            assert(order@.contains(a) <==> order@.to_multiset().count(a) > 0);
            assert(given.contains(a) <==> given.to_multiset().count(a) > 0);
        }
    }
    r
}

/// Picks the peers to ask. `unknown` is handed in, in the order in which they are to be asked.
pub fn candidate_peers(
    owners: &[PeerAddr],
    hinted: &[PeerAddr],
    unknown: &[PeerAddr],
    max_query_peers: usize,
) -> (r: (Vec<PeerAddr>, PeerSource))
    ensures
        (r.0@, r.1) == spec_candidates(owners@, hinted@, unknown@, max_query_peers as nat),
{
    if owners.len() > 0 {
        let none: Vec<PeerAddr> = Vec::new();
        assert(owners@ + none@ =~= owners@);
        return (copy_first(owners, none.as_slice(), max_query_peers), PeerSource::Index);
    }
    if hinted.len() > 0 {
        return (copy_first(hinted, unknown, max_query_peers), PeerSource::HitHints);
    }
    assert(hinted@ + unknown@ =~= unknown@);
    (copy_first(hinted, unknown, max_query_peers), PeerSource::Random)
}

/// However the others are shuffled, the same number of peers is asked, and every peer that is
/// asked is an owner, one that gave chunks of late, or one of the others.
pub proof fn law_candidates_are_known_peers(
    owners: Seq<PeerAddr>,
    hinted: Seq<PeerAddr>,
    unknown: Seq<PeerAddr>,
    max: nat,
    a: PeerAddr,
)
    ensures
        spec_candidates(owners, hinted, unknown, max).0.len() <= max,
        spec_candidates(owners, hinted, unknown, max).0.contains(a) ==> owners.contains(a)
            || hinted.contains(a) || unknown.contains(a),
        owners.len() == 0 ==> spec_candidates(owners, hinted, unknown, max).0.len() == if max
            <= hinted.len() + unknown.len() {
            max
        } else {
            hinted.len() + unknown.len()
        },
{
    let r = spec_candidates(owners, hinted, unknown, max).0;
    if r.contains(a) {
        let k = choose|k: int| 0 <= k < r.len() && r[k] == a;
        if owners.len() > 0 {
            assert(owners[k] == a);
        } else if hinted.len() > 0 {
            if k < hinted.len() {
                assert(hinted[k] == a);
            } else {
                assert(unknown[k - hinted.len()] == a);
            }
        } else {
            assert(unknown[k] == a);
        }
    }
}

/// The owners that the index names are asked, and only they, where there are any; else those that
/// gave chunks of late come before the others. Whoever they are, they are asked in the order given,
/// as many as there are up to the limit, and the source says which of the three it was.
pub proof fn law_owners_then_hinted_then_others(
    owners: &[PeerAddr],
    hinted: &[PeerAddr],
    unknown: &[PeerAddr],
    max: usize,
    r: (Vec<PeerAddr>, PeerSource),
)
    requires
        call_ensures(candidate_peers, (owners, hinted, unknown, max), r),
    ensures
        r.0@.len() <= max,
        r.1 is Index <==> owners@.len() > 0,
        r.1 is HitHints <==> owners@.len() == 0 && hinted@.len() > 0,
        owners@.len() > 0 ==> r.0@.is_prefix_of(owners@) && (r.0@.len() == max || r.0@
            == owners@),
        owners@.len() == 0 ==> r.0@.is_prefix_of(hinted@ + unknown@) && (r.0@.len() == max || r.0@
            == hinted@ + unknown@),
{
    assert(owners@.len() == 0 && hinted@.len() == 0 ==> hinted@ + unknown@ =~= unknown@);
}

/// Whatever the seed is, the owners come first, then those that gave chunks of late, and of the
/// others only their order depends on it.
pub proof fn law_seed_orders_only_the_others(
    owners: &[PeerAddr],
    hinted: &[PeerAddr],
    unknown: Vec<PeerAddr>,
    max: usize,
    seed: u64,
    r: (Vec<PeerAddr>, PeerSource),
)
    requires
        call_ensures(select_peers, (owners, hinted, unknown, max, seed), r),
    ensures
        r.0@.len() <= max,
        r.1 is Index <==> owners@.len() > 0,
        r.1 is HitHints <==> owners@.len() == 0 && hinted@.len() > 0,
        owners@.len() > 0 ==> r.0@.is_prefix_of(owners@) && (r.0@.len() == max || r.0@
            == owners@),
        owners@.len() == 0 && max <= hinted@.len() ==> r.0@ == hinted@.take(max as int),
        owners@.len() == 0 && max > hinted@.len() ==> hinted@.is_prefix_of(r.0@),
        owners@.len() == 0 && hinted@.len() + unknown@.len() <= max ==> r.0@.to_multiset()
            == hinted@.to_multiset().add(unknown@.to_multiset()),
        owners@.len() == 0 && hinted@.len() + unknown@.len() > max ==> r.0@.len() == max,
{
    let order = shuffled(unknown@, seed);
    order.to_multiset_ensures();
    unknown@.to_multiset_ensures();
    assert(order.len() == order.to_multiset().len());
    vstd::seq_lib::lemma_multiset_commutative(hinted@, order);
    if owners@.len() == 0 {
        assert(hinted@.len() == 0 ==> hinted@ + order =~= order);
        assert((hinted@ + order).len() > max && max <= hinted@.len() ==> (hinted@ + order).take(
            max as int,
        ) =~= hinted@.take(max as int));
        assert(max == hinted@.len() && order.len() == 0 ==> hinted@ + order =~= hinted@.take(
            max as int,
        ));
    }
}

/// What is flagged comes from the peers with that flag, all of them.
proof fn lemma_flagged(peers: Seq<PeerAddr>, flags: Seq<bool>, flag: bool, a: PeerAddr)
    requires
        peers.len() == flags.len(),
    ensures
        flagged(peers, flags, flag).contains(a) <==> exists|i: int|
            0 <= i < peers.len() && flags[i] == flag && #[trigger] peers[i] == a,
        flagged(peers, flags, true).len() + flagged(peers, flags, false).len() == peers.len(),
    decreases peers.len(),
{
    if peers.len() > 0 {
        let (p, f) = (peers.drop_last(), flags.drop_last());
        let before = flagged(p, f, flag);
        let all = flagged(peers, flags, flag);
        lemma_flagged(p, f, flag, a);
        if all.contains(a) {
            let k = all.index_of(a);
            if k < before.len() {
                assert(before[k] == a);
                let i = choose|i: int| 0 <= i < p.len() && f[i] == flag && #[trigger] p[i] == a;
                assert(peers[i] == a);
            } else {
                assert(peers[peers.len() - 1] == a);
            }
        }
        if exists|i: int| 0 <= i < peers.len() && flags[i] == flag && #[trigger] peers[i] == a {
            let i = choose|i: int|
                0 <= i < peers.len() && flags[i] == flag && #[trigger] peers[i] == a;
            if i < p.len() {
                assert(p[i] == a);
                let k = before.index_of(a);
                assert(all[k] == a);
            } else {
                assert(all[all.len() - 1] == a);
            }
        }
    }
}

/// Every peer is either among those that gave chunks of late or among the others, as its flag says,
/// and none is in there twice on that account.
pub proof fn law_each_peer_is_hinted_or_not(
    ranked: &[PeerAddr],
    hinted: &[bool],
    r: (Vec<PeerAddr>, Vec<PeerAddr>),
    a: PeerAddr,
)
    requires
        ranked@.len() == hinted@.len(),
        call_ensures(split_hinted, (ranked, hinted), r),
    ensures
        r.0@.contains(a) <==> exists|i: int|
            0 <= i < ranked@.len() && hinted@[i] && #[trigger] ranked@[i] == a,
        r.1@.contains(a) <==> exists|i: int|
            0 <= i < ranked@.len() && !hinted@[i] && #[trigger] ranked@[i] == a,
        r.0@.len() + r.1@.len() == ranked@.len(),
{
    lemma_flagged(ranked@, hinted@, true, a);
    lemma_flagged(ranked@, hinted@, false, a);
}

/// The ranked addresses are those of all peers but this node, and none else.
pub proof fn law_ranked_peers_are_the_others(
    peers: &[RankedPeer],
    own: Option<PeerAddr>,
    r: Vec<PeerAddr>,
    p: RankedPeer,
)
    requires
        call_ensures(ranked_peers, (peers, own), r),
        peers@.contains(p),
    ensures
        r@.contains(p.addr) <==> own != Some(p.addr),
{
    let q = choose|q: Seq<RankedPeer>| #[trigger]
        is_ranking(not_self(peers@, own), q) && r@ == addrs_once(q);
    law_ranking_keeps_every_other_peer(peers@, own, q, p);
}

/// In a ranking no peer stands behind one that is less healthy, or as healthy with a lower score.
pub proof fn law_ranking_puts_the_best_first(
    peers: &[RankedPeer],
    r: Vec<RankedPeer>,
    i: int,
    j: int,
)
    requires
        call_ensures(rank_order, (peers,), r),
        0 <= i < j < r@.len(),
    ensures
        !(r@[i].unhealthy && !r@[j].unhealthy),
        r@[i].unhealthy == r@[j].unhealthy ==> r@[i].score >= r@[j].score,
{
    law_healthy_peers_come_first(peers@, r@, i, j);
}

/// Whether two addresses are those of peers that stand in this order.
spec fn stand_in_order(q: Seq<RankedPeer>, a: PeerAddr, b: PeerAddr, i: int, j: int) -> bool {
    0 <= i < j < q.len() && q[i].addr == a && q[j].addr == b
}

/// The addresses of peers stand in the order of the peers.
proof fn lemma_addrs_in_order(q: Seq<RankedPeer>, k: int, l: int)
    requires
        0 <= k < l < addrs_once(q).len(),
    ensures
        exists|i: int, j: int| stand_in_order(q, addrs_once(q)[k], addrs_once(q)[l], i, j),
    decreases q.len(),
{
    let rest = q.drop_last();
    let before = addrs_once(rest);
    let all = addrs_once(q);
    let (a, b) = (all[k], all[l]);
    assert(before[k] == a);
    if l < before.len() {
        assert(before[l] == b);
        lemma_addrs_in_order(rest, k, l);
        let (i, j) = choose|i: int, j: int| stand_in_order(rest, a, b, i, j);
        assert(stand_in_order(q, a, b, i, j));
    } else {
        lemma_addrs_once(rest, a);
        assert(before.contains(a));
        let i = choose|i: int| 0 <= i < rest.len() && (#[trigger] rest[i]).addr == a;
        assert(stand_in_order(q, a, b, i, q.len() - 1));
    }
}

/// Of two peers that are asked one after the other, the second is not the better one: where the
/// first is not healthy the second is not either, and where they are alike in that the first has
/// the higher score, or the same.
pub proof fn law_better_peers_are_asked_first(
    peers: &[RankedPeer],
    own: Option<PeerAddr>,
    r: Vec<PeerAddr>,
    k: int,
    l: int,
)
    requires
        call_ensures(ranked_peers, (peers, own), r),
        0 <= k < l < r@.len(),
    ensures
        exists|p: RankedPeer, q: RankedPeer|
            #![trigger peers@.contains(p), peers@.contains(q)]
            {
                &&& peers@.contains(p)
                &&& peers@.contains(q)
                &&& p.addr == r@[k]
                &&& q.addr == r@[l]
                &&& p.unhealthy ==> q.unhealthy
                &&& p.unhealthy == q.unhealthy ==> p.score >= q.score
            },
{
    let order = choose|order: Seq<RankedPeer>| #[trigger]
        is_ranking(not_self(peers@, own), order) && r@ == addrs_once(order);
    lemma_addrs_in_order(order, k, l);
    let (i, j) = choose|i: int, j: int| stand_in_order(order, r@[k], r@[l], i, j);
    let (p, q) = (order[i], order[j]);
    law_healthy_peers_come_first(not_self(peers@, own), order, i, j);
    lemma_ranking_same_peers(not_self(peers@, own), order, p);
    lemma_ranking_same_peers(not_self(peers@, own), order, q);
    lemma_not_self(peers@, own, p);
    lemma_not_self(peers@, own, q);
    assert(order.contains(p) && order.contains(q));
    assert(peers@.contains(p) && peers@.contains(q));
}

/// Whether two addresses of one flag stand in this order.
spec fn flagged_in_order(
    peers: Seq<PeerAddr>,
    flags: Seq<bool>,
    flag: bool,
    a: PeerAddr,
    b: PeerAddr,
    i: int,
    j: int,
) -> bool {
    &&& 0 <= i < j < peers.len()
    &&& flags[i] == flag
    &&& flags[j] == flag
    &&& peers[i] == a
    &&& peers[j] == b
}

proof fn lemma_flagged_in_order(
    peers: Seq<PeerAddr>,
    flags: Seq<bool>,
    flag: bool,
    k: int,
    l: int,
)
    requires
        peers.len() == flags.len(),
        0 <= k < l < flagged(peers, flags, flag).len(),
    ensures
        exists|i: int, j: int|
            flagged_in_order(
                peers,
                flags,
                flag,
                flagged(peers, flags, flag)[k],
                flagged(peers, flags, flag)[l],
                i,
                j,
            ),
    decreases peers.len(),
{
    let (p, f) = (peers.drop_last(), flags.drop_last());
    let before = flagged(p, f, flag);
    let all = flagged(peers, flags, flag);
    let (a, b) = (all[k], all[l]);
    assert(before[k] == a);
    if l < before.len() {
        assert(before[l] == b);
        lemma_flagged_in_order(p, f, flag, k, l);
        let (i, j) = choose|i: int, j: int| flagged_in_order(p, f, flag, a, b, i, j);
        assert(flagged_in_order(peers, flags, flag, a, b, i, j));
    } else {
        lemma_flagged(p, f, flag, a);
        assert(before.contains(a));
        let i = choose|i: int| 0 <= i < p.len() && f[i] == flag && #[trigger] p[i] == a;
        assert(flagged_in_order(peers, flags, flag, a, b, i, peers.len() - 1));
    }
}

/// Peers that gave chunks of late stay in the order of their rank, and so do the others.
pub proof fn law_splitting_keeps_the_ranking(
    ranked: &[PeerAddr],
    hinted: &[bool],
    r: (Vec<PeerAddr>, Vec<PeerAddr>),
    k: int,
    l: int,
)
    requires
        ranked@.len() == hinted@.len(),
        call_ensures(split_hinted, (ranked, hinted), r),
        0 <= k < l,
    ensures
        l < r.0@.len() ==> exists|i: int, j: int|
            0 <= i < j < ranked@.len() && hinted@[i] && hinted@[j] && #[trigger] ranked@[i]
                == r.0@[k] && #[trigger] ranked@[j] == r.0@[l],
        l < r.1@.len() ==> exists|i: int, j: int|
            0 <= i < j < ranked@.len() && !hinted@[i] && !hinted@[j] && #[trigger] ranked@[i]
                == r.1@[k] && #[trigger] ranked@[j] == r.1@[l],
{
    assert(call_requires(split_hinted, (ranked, hinted)));
    if l < r.0@.len() {
        lemma_flagged_in_order(ranked@, hinted@, true, k, l);
        let (i, j) = choose|i: int, j: int|
            flagged_in_order(ranked@, hinted@, true, r.0@[k], r.0@[l], i, j);
        assert(ranked@[i] == r.0@[k] && ranked@[j] == r.0@[l]);
    }
    if l < r.1@.len() {
        lemma_flagged_in_order(ranked@, hinted@, false, k, l);
        let (i, j) = choose|i: int, j: int|
            flagged_in_order(ranked@, hinted@, false, r.1@[k], r.1@[l], i, j);
        assert(ranked@[i] == r.1@[k] && ranked@[j] == r.1@[l]);
    }
}

proof fn lemma_neighbours_differ(q: Seq<RankedPeer>, k: int)
    requires
        0 <= k < addrs_once(q).len() - 1,
    ensures
        addrs_once(q)[k] != addrs_once(q)[k + 1],
    decreases q.len(),
{
    let before = addrs_once(q.drop_last());
    let all = addrs_once(q);
    assert(all[k] == before[k]);
    if k + 1 < before.len() {
        assert(all[k + 1] == before[k + 1]);
        lemma_neighbours_differ(q.drop_last(), k);
    }
}

/// No peer is asked twice in a row.
pub proof fn law_no_peer_follows_itself(
    peers: &[RankedPeer],
    own: Option<PeerAddr>,
    r: Vec<PeerAddr>,
    k: int,
)
    requires
        call_ensures(ranked_peers, (peers, own), r),
        0 <= k < r@.len() - 1,
    ensures
        r@[k] != r@[k + 1],
{
    let order = choose|order: Seq<RankedPeer>| #[trigger]
        is_ranking(not_self(peers@, own), order) && r@ == addrs_once(order);
    lemma_neighbours_differ(order, k);
}

/// Peers of one rank stay in the order in which they stood, all of them.
pub proof fn law_equals_keep_their_order(
    peers: &[RankedPeer],
    r: Vec<RankedPeer>,
    unhealthy: bool,
    score: u64,
)
    requires
        call_ensures(rank_order, (peers,), r),
    ensures
        r@.filter(of_rank((unhealthy, score))) == peers@.filter(of_rank((unhealthy, score))),
        forall|p: RankedPeer| #[trigger]
            of_rank((unhealthy, score))(p) <==> p.unhealthy == unhealthy && p.score == score,
{
    assert(is_ranking(peers@, r@));
}

} // verus!
