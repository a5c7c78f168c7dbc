//! The index of which nodes have which chunks, as one node uses it.

use crate::backend::peer::health::minus;
use crate::bytes::{
    be_value, bytes_before, bytes_equal, bytes_less, lemma_be_order, lemma_be_value_injective,
    lemma_bytes_less_concat,
};
use crate::checksum::{
    checksum_text, law_on_disk_bytes_injective, loaded_form, on_disk_bytes, stored_form, CheckSum,
    CheckSumOnDisk,
};
use vstd::prelude::*;

verus! {

/// At most this many chunks are registered or looked up at a time.
pub const REDIS_REGISTER_BATCH_SIZE: usize = 1000;

/// At most this many nodes are named as owners of a chunk.
pub const MAX_CHUNK_OWNERS: usize = 3;

/// The key under which the owners of a chunk are listed.
pub fn chunk_index_key(cs: &CheckSum) -> (r: String)
    ensures
        r@ == "distill-fs:chunk-owner:"@ + checksum_text(*cs),
{
    let mut key: String = "distill-fs:chunk-owner:".to_owned();
    let text: String = cs.to_text();
    key.append(text.as_str());
    key
}

/// The number that the bytes of a stored checksum denote. It tells stored checksums apart and
/// orders them.
pub open spec fn code(cs: CheckSumOnDisk) -> nat {
    be_value(on_disk_bytes(cs))
}

/// Stored checksums of one code are the same.
proof fn lemma_code_injective(a: CheckSumOnDisk, b: CheckSumOnDisk)
    requires
        code(a) == code(b),
    ensures
        a == b,
{
    lemma_be_value_injective(on_disk_bytes(a), on_disk_bytes(b));
    law_on_disk_bytes_injective(a, b);
}

/// Whether one stored checksum comes before another.
fn stored_before(a: &CheckSumOnDisk, b: &CheckSumOnDisk) -> (r: bool)
    ensures
        r == (code(*a) < code(*b)),
{
    proof {
        let am = seq![a.method];
        let bm = seq![b.method];
        lemma_be_order(on_disk_bytes(*a), on_disk_bytes(*b));
        lemma_bytes_less_concat(a.raw@ + am, a.reserved@, b.raw@ + bm, b.reserved@);
        lemma_bytes_less_concat(a.raw@, am, b.raw@, bm);
        assert(bytes_less(am, bm) == (a.method < b.method)) by {
            reveal_with_fuel(bytes_less, 2);
        }
        assert((a.raw@ + am == b.raw@ + bm) == (a.raw@ == b.raw@ && a.method == b.method)) by {
            if a.raw@ + am == b.raw@ + bm {
                assert(a.raw@ =~= (a.raw@ + am).take(32));
                assert(b.raw@ =~= (b.raw@ + bm).take(32));
                assert(a.method == (a.raw@ + am)[32]);
                assert(b.method == (b.raw@ + bm)[32]);
            }
        }
        lemma_be_order(a.raw@, a.raw@);
    }
    if !bytes_equal(&a.raw, &b.raw) {
        return bytes_before(&a.raw, &b.raw);
    }
    if a.method != b.method {
        return a.method < b.method;
    }
    bytes_before(&a.reserved, &b.reserved)
}

/// The chunks that this node has registered.
#[derive(Debug)]
pub struct IndexTracker {
    registered: Vec<CheckSumOnDisk>,
}

impl View for IndexTracker {
    type V = Set<CheckSumOnDisk>;

    closed spec fn view(&self) -> Set<CheckSumOnDisk> {
        self.registered@.to_set()
    }
}

impl IndexTracker {
    /// The chunks are kept in order.
    pub closed spec fn wf(self) -> bool {
        forall|i: int, j: int|
            0 <= i < j < self.registered@.len() ==> code(#[trigger] self.registered@[i]) < code(
                #[trigger] self.registered@[j],
            )
    }

    /// The chunks, in order.
    pub closed spec fn rows(self) -> Seq<CheckSumOnDisk> {
        self.registered@
    }

    proof fn lemma_rows(self)
        requires
            self.wf(),
        ensures
            self.registered@.no_duplicates(),
            self@.finite(),
            self@.len() == self.registered@.len(),
    {
        assert forall|i: int, j: int| 0 <= i < j < self.registered@.len() implies self.registered@[i]
            != self.registered@[j] by {
            assert(code(self.registered@[i]) < code(self.registered@[j]));
        }
        self.registered@.unique_seq_to_set();
    }

    /// A tracker without chunks.
    pub fn new() -> (r: IndexTracker)
        ensures
            r.wf(),
            r@ == Set::<CheckSumOnDisk>::empty(),
    {
        let r: IndexTracker = IndexTracker { registered: Vec::new() };
        assert(r@ =~= Set::<CheckSumOnDisk>::empty());
        r
    }

    /// Where a chunk stands, or would stand.
    fn find(&self, cs: &CheckSumOnDisk) -> (r: (bool, usize))
        requires
            self.wf(),
        ensures
            r.1 <= self.registered@.len(),
            r.0 ==> r.1 < self.registered@.len() && self.registered@[r.1 as int] == *cs,
            !r.0 ==> {
                &&& !self@.contains(*cs)
                &&& forall|i: int|
                    0 <= i < r.1 ==> code(#[trigger] self.registered@[i]) < code(*cs)
                &&& forall|i: int|
                    r.1 <= i < self.registered@.len() ==> code(*cs) < code(
                        #[trigger] self.registered@[i],
                    )
            },
    {
        let mut lo: usize = 0;
        let mut hi: usize = self.registered.len();
        while lo < hi
            invariant
                self.wf(),
                lo <= hi <= self.registered@.len(),
                forall|i: int| 0 <= i < lo ==> code(#[trigger] self.registered@[i]) < code(*cs),
                forall|i: int|
                    hi <= i < self.registered@.len() ==> code(*cs) < code(
                        #[trigger] self.registered@[i],
                    ),
            decreases hi - lo,
        {
            let mid: usize = lo + (hi - lo) / 2;
            let x: CheckSumOnDisk = self.registered[mid];
            if stored_before(&x, cs) {
                lo = mid + 1;
            } else if stored_before(cs, &x) {
                hi = mid;
            } else {
                proof {
                    lemma_code_injective(x, *cs);
                }
                return (true, mid);
            }
        }
        proof {
            if self@.contains(*cs) {
                let k = choose|k: int|
                    0 <= k < self.registered@.len() && self.registered@[k] == *cs;
                assert(code(self.registered@[k]) == code(*cs));
            }
        }
        (false, lo)
    }

    /// Notes that a chunk is registered.
    fn insert(&mut self, cs: CheckSumOnDisk)
        requires
            old(self).wf(),
        ensures
            final(self).wf(),
            final(self)@ == old(self)@.insert(cs),
    {
        let (found, at) = self.find(&cs);
        let ghost before = self.registered@;
        if found {
            assert(before.contains(before[at as int]));
            assert(self@ =~= old(self)@.insert(cs));
            return;
        }
        self.registered.insert(at, cs);
        proof {
            let after = self.registered@;
            assert forall|i: int, j: int| 0 <= i < j < after.len() implies code(#[trigger] after[i])
                < code(#[trigger] after[j]) by {
                if i != at {
                    assert(after[i] == before[if i > at {
                        i - 1
                    } else {
                        i
                    }]);
                }
                if j != at {
                    assert(after[j] == before[if j > at {
                        j - 1
                    } else {
                        j
                    }]);
                }
            }
            assert forall|x: CheckSumOnDisk| self@.contains(x) <==> old(self)@.insert(
                cs,
            ).contains(x) by {
                if before.contains(x) {
                    let k = choose|k: int| 0 <= k < before.len() && before[k] == x;
                    assert(after[if k >= at {
                        k + 1
                    } else {
                        k
                    }] == x);
                }
                assert(after[at as int] == cs);
                if after.contains(x) && x != cs {
                    let k = choose|k: int| 0 <= k < after.len() && after[k] == x;
                    assert(before[if k > at {
                        k - 1
                    } else {
                        k
                    }] == x);
                }
            }
            assert(self@ =~= old(self)@.insert(cs));
        }
    }

    /// Notes that a chunk is registered no more.
    fn remove(&mut self, cs: &CheckSumOnDisk)
        requires
            old(self).wf(),
        ensures
            final(self).wf(),
            final(self)@ == old(self)@.remove(*cs),
    {
        let (found, at) = self.find(cs);
        let ghost before = self.registered@;
        if !found {
            assert(self@ =~= old(self)@.remove(*cs));
            return;
        }
        self.registered.remove(at);
        proof {
            let after = self.registered@;
            assert forall|i: int, j: int| 0 <= i < j < after.len() implies code(#[trigger] after[i])
                < code(#[trigger] after[j]) by {
                assert(after[i] == before[if i >= at {
                    i + 1
                } else {
                    i
                }]);
                assert(after[j] == before[if j >= at {
                    j + 1
                } else {
                    j
                }]);
            }
            assert forall|x: CheckSumOnDisk| self@.contains(x) <==> old(self)@.remove(
                *cs,
            ).contains(x) by {
                if before.contains(x) && x != *cs {
                    let k = choose|k: int| 0 <= k < before.len() && before[k] == x;
                    assert(after[if k > at {
                        k - 1
                    } else {
                        k
                    }] == x);
                }
                if after.contains(x) {
                    let k = choose|k: int| 0 <= k < after.len() && after[k] == x;
                    let l = if k >= at {
                        k + 1
                    } else {
                        k
                    };
                    assert(before[l] == x);
                    assert(code(before[l]) != code(before[at as int]));
                }
            }
            assert(self@ =~= old(self)@.remove(*cs));
        }
    }

    /// Notes that chunks are registered.
    pub fn insert_many(&mut self, checksums: &[CheckSumOnDisk])
        requires
            old(self).wf(),
        ensures
            final(self).wf(),
            final(self)@ == old(self)@.union(checksums@.to_set()),
    {
        let mut i: usize = 0;
        assert(self@ =~= old(self)@.union(checksums@.take(0).to_set()));
        while i < checksums.len()
            invariant
                i <= checksums@.len(),
                self.wf(),
                self@ == old(self)@.union(checksums@.take(i as int).to_set()),
            decreases checksums@.len() - i,
        {
            proof {
                lemma_take_set(checksums@, i as int);
            }
            self.insert(checksums[i]);
            assert(self@ =~= old(self)@.union(checksums@.take(i + 1).to_set()));
            i = i + 1;
        }
        assert(checksums@.take(i as int) =~= checksums@);
    }

    /// Notes that chunks are registered no more.
    pub fn remove_many(&mut self, checksums: &[CheckSumOnDisk])
        requires
            old(self).wf(),
        ensures
            final(self).wf(),
            final(self)@ == old(self)@.difference(checksums@.to_set()),
    {
        let mut i: usize = 0;
        assert(self@ =~= old(self)@.difference(checksums@.take(0).to_set()));
        while i < checksums.len()
            invariant
                i <= checksums@.len(),
                self.wf(),
                self@ == old(self)@.difference(checksums@.take(i as int).to_set()),
            decreases checksums@.len() - i,
        {
            proof {
                lemma_take_set(checksums@, i as int);
            }
            self.remove(&checksums[i]);
            assert(self@ =~= old(self)@.difference(checksums@.take(i + 1).to_set()));
            i = i + 1;
        }
        assert(checksums@.take(i as int) =~= checksums@);
    }

    /// Whether a chunk is registered.
    pub fn contains(&self, checksum: &CheckSum) -> (r: bool)
        requires
            self.wf(),
        ensures
            r == self@.contains(stored_form(*checksum)),
    {
        let cs: CheckSumOnDisk = CheckSumOnDisk::from(*checksum);
        let (found, at) = self.find(&cs);
        proof {
            if found {
                assert(self.registered@.contains(self.registered@[at as int]));
            }
        }
        found
    }

    /// How many chunks are registered.
    pub fn len(&self) -> (r: usize)
        requires
            self.wf(),
        ensures
            self@.finite(),
            r == self@.len(),
    {
        proof {
            self.lemma_rows();
        }
        self.registered.len()
    }

    /// The chunks that are registered.
    pub fn snapshot(&self) -> (r: Vec<CheckSum>)
        requires
            self.wf(),
        ensures
            r@ == self.rows().map_values(|cs: CheckSumOnDisk| loaded_form(cs)),
            self.rows().to_set() == self@,
            self.rows().no_duplicates(),
    {
        proof {
            self.lemma_rows();
        }
        let mut out: Vec<CheckSum> = Vec::new();
        let mut i: usize = 0;
        while i < self.registered.len()
            invariant
                i <= self.registered@.len(),
                out@ == self.registered@.take(i as int).map_values(
                    |cs: CheckSumOnDisk| loaded_form(cs),
                ),
            decreases self.registered@.len() - i,
        {
            out.push(CheckSum::from(self.registered[i]));
            assert(out@ =~= self.registered@.take(i + 1).map_values(
                |cs: CheckSumOnDisk| loaded_form(cs),
            ));
            i = i + 1;
        }
        assert(self.registered@.take(i as int) =~= self.registered@);
        out
    }

    /// The chunks among `checksums` that are not registered, in order.
    pub fn untracked(&self, checksums: &[CheckSum]) -> (r: Vec<CheckSum>)
        requires
            self.wf(),
        ensures
            r@ == checksums@.filter(|cs: CheckSum| !self@.contains(stored_form(cs))),
    {
        let ghost p = |cs: CheckSum| !self@.contains(stored_form(cs));
        let mut out: Vec<CheckSum> = Vec::new();
        let mut i: usize = 0;
        proof {
            reveal(Seq::filter);
        }
        while i < checksums.len()
            invariant
                self.wf(),
                i <= checksums@.len(),
                p == (|cs: CheckSum| !self@.contains(stored_form(cs))),
                out@ == checksums@.take(i as int).filter(p),
            decreases checksums@.len() - i,
        {
            proof {
                reveal(Seq::filter);
                assert(checksums@.take(i + 1).drop_last() =~= checksums@.take(i as int));
            }
            if !self.contains(&checksums[i]) {
                out.push(checksums[i]);
            }
            i = i + 1;
        }
        assert(checksums@.take(i as int) =~= checksums@);
        out
    }
}

proof fn lemma_take_set(s: Seq<CheckSumOnDisk>, i: int)
    requires
        0 <= i < s.len(),
    ensures
        s.take(i + 1).to_set() == s.take(i).to_set().insert(s[i]),
{
    assert forall|x: CheckSumOnDisk| s.take(i + 1).to_set().contains(x) <==> s.take(
        i,
    ).to_set().insert(s[i]).contains(x) by {
        let t = s.take(i + 1);
        if s.take(i).contains(x) {
            let k = choose|k: int| 0 <= k < i && s.take(i)[k] == x;
            assert(t[k] == x);
        }
        assert(t[i] == s[i]);
        if t.contains(x) && x != s[i] {
            let k = choose|k: int| 0 <= k < t.len() && t[k] == x;
            assert(s.take(i)[k] == x);
        }
    }
    assert(s.take(i + 1).to_set() =~= s.take(i).to_set().insert(s[i]));
}

/// What was inserted is registered, what was removed is not, and nothing else changes.
pub proof fn law_tracker_follows_the_index(
    before: Set<CheckSumOnDisk>,
    added: Seq<CheckSumOnDisk>,
    gone: Seq<CheckSumOnDisk>,
    cs: CheckSumOnDisk,
)
    ensures
        before.union(added.to_set()).contains(cs) <==> (before.contains(cs) || added.contains(cs)),
        before.difference(gone.to_set()).contains(cs) <==> (before.contains(cs) && !gone.contains(
            cs,
        )),
        added == gone && !before.contains(cs) ==> !before.union(added.to_set()).difference(
            gone.to_set(),
        ).contains(cs),
{
}

/// The owners that were heard of before this time, in seconds, are forgotten.
pub fn live_owner_cutoff(now: u64, ttl_secs: u64) -> (r: i64)
    ensures
        r == (minus(now, ttl_secs) as u64) as i64,
{
    #[verifier::truncate] (now.saturating_sub(ttl_secs) as i64)
}

/// How often registrations are renewed, in seconds: three times before they end.
pub fn refresh_interval_secs(ttl_secs: u64) -> (r: u64)
    ensures
        r == if ttl_secs / 3 >= 1 {
            ttl_secs / 3
        } else {
            1
        },
{
    let third: u64 = ttl_secs / 3;
    if third >= 1 {
        third
    } else {
        1
    }
}

/// The name of a request to the index in metrics.
pub fn index_mode(count: usize) -> (r: &'static str)
    ensures
        r@ == if count == 1 {
            "single"@
        } else {
            "batch"@
        },
{
    if count == 1 {
        "single"
    } else {
        "batch"
    }
}

/// The tracker knows a chunk once it is registered and until it is taken out, and says so alike
/// when it is asked for one chunk, for all of them, or which of some it does not know.
pub proof fn law_tracker_answers_agree(
    at: &IndexTracker,
    checksum: &CheckSum,
    known: bool,
    some: &[CheckSum],
    unknown: Vec<CheckSum>,
)
    requires
        at.wf(),
        call_ensures(IndexTracker::contains, (at, checksum), known),
        some@.contains(*checksum),
        call_ensures(IndexTracker::untracked, (at, some), unknown),
    ensures
        unknown@.contains(*checksum) <==> !known,
{
    assert(call_requires(IndexTracker::contains, (at, checksum)));
    assert(call_requires(IndexTracker::untracked, (at, some)));
    let p = |cs: CheckSum| !at@.contains(stored_form(cs));
    if unknown@.contains(*checksum) {
        let k = unknown@.index_of(*checksum);
        some@.lemma_filter_pred(p, k);
    }
    let i = some@.index_of(*checksum);
    if p(some@[i]) {
        some@.lemma_filter_contains(p, i);
    }
}

/// Registrations are renewed before they end: at least three times in their time, unless that is
/// shorter than three seconds, and never more often than once a second.
pub proof fn law_registrations_are_renewed_in_time(ttl_secs: u64, every: u64)
    requires
        call_ensures(refresh_interval_secs, (ttl_secs,), every),
    ensures
        every >= 1,
        ttl_secs >= 3 ==> 3 * every <= ttl_secs < 3 * (every + 1),
        ttl_secs < 3 ==> every == 1,
{
}

/// Chunks that are registered are known, those that are taken out are not, and every other one is
/// known as before.
pub proof fn law_tracker_notes_what_it_is_told(
    t0: &mut IndexTracker,
    added: &[CheckSumOnDisk],
    after_add: &IndexTracker,
    checksum: &CheckSum,
    known: bool,
    t1: &mut IndexTracker,
    gone: &[CheckSumOnDisk],
    after_remove: &IndexTracker,
    still: bool,
)
    requires
        old(t0).wf(),
        call_ensures(IndexTracker::insert_many, (t0, added), ()),
        *after_add == *final(t0),
        call_ensures(IndexTracker::contains, (after_add, checksum), known),
        *old(t1) == *final(t0),
        call_ensures(IndexTracker::remove_many, (t1, gone), ()),
        *after_remove == *final(t1),
        call_ensures(IndexTracker::contains, (after_remove, checksum), still),
    ensures
        ({
            let cs = stored_form(*checksum);
            &&& known <==> old(t0)@.contains(cs) || added@.contains(cs)
            &&& still <==> known && !gone@.contains(cs)
        }),
{
    let cs = stored_form(*checksum);
    assert(call_requires(IndexTracker::contains, (after_add, checksum)));
    assert(call_requires(IndexTracker::contains, (after_remove, checksum)));
    assert(added@.to_set().contains(cs) <==> added@.contains(cs));
    assert(gone@.to_set().contains(cs) <==> gone@.contains(cs));
}

/// The cutoff for owners lies the time of a registration before now.
pub proof fn law_owners_live_for_their_time(now: u64, ttl_secs: u64, cutoff: i64)
    requires
        ttl_secs <= now <= i64::MAX,
        call_ensures(live_owner_cutoff, (now, ttl_secs), cutoff),
    ensures
        cutoff + ttl_secs == now,
{
}

/// The chunks that a tracker lists are those that it knows, each once, as many as it says.
pub proof fn law_tracker_lists_what_it_knows(
    at: &IndexTracker,
    all: Vec<CheckSum>,
    n: usize,
    checksum: &CheckSum,
    known: bool,
)
    requires
        at.wf(),
        call_ensures(IndexTracker::snapshot, (at,), all),
        call_ensures(IndexTracker::len, (at,), n),
        call_ensures(IndexTracker::contains, (at, checksum), known),
    ensures
        all@.len() == n,
        known ==> all@.contains(*checksum),
{
    assert(call_requires(IndexTracker::snapshot, (at,)));
    assert(call_requires(IndexTracker::len, (at,)));
    assert(call_requires(IndexTracker::contains, (at, checksum)));
    at.rows().unique_seq_to_set();
    if known {
        let cs = stored_form(*checksum);
        assert(at.rows().to_set().contains(cs));
        let k = at.rows().index_of(cs);
        crate::checksum::law_stored_checksum_roundtrip(*checksum);
        assert(all@[k] == *checksum);
    }
}

/// The owners of different chunks are listed under different keys.
pub proof fn law_chunks_have_keys_of_their_own(
    a: &CheckSum,
    b: &CheckSum,
    of_a: String,
    of_b: String,
    text_a: String,
    text_b: String,
)
    requires
        call_ensures(chunk_index_key, (a,), of_a),
        call_ensures(chunk_index_key, (b,), of_b),
        call_ensures(CheckSum::to_text, (a,), text_a),
        call_ensures(CheckSum::to_text, (b,), text_b),
    ensures
        of_a@ == of_b@ <==> text_a@ == text_b@,
        a.method == b.method ==> (of_a@ == of_b@ <==> *a == *b),
{
    let front = "distill-fs:chunk-owner:"@;
    assert(of_a@.skip(front.len() as int) =~= text_a@);
    assert(of_b@.skip(front.len() as int) =~= text_b@);
    if a.method == b.method {
        crate::checksum::law_checksums_are_told_apart_by_their_text(a, b, text_a, text_b);
    }
}

} // verus!
