//! Rules of the chunk database: what is read, listed, expired and evicted.

use crate::backend::access::{AccessKey, TableOp, Tables};
use crate::bytes::{bytes_less, lemma_be_order};
use crate::checksum::{
    loaded_form, method_known, on_disk_bytes, stored_form, CheckSum, CheckSumOnDisk,
};
use crate::error::{Error, ErrorKind};
use vstd::prelude::*;

verus! {

/// Chunks are deleted in batches of at most this many.
pub const GC_BATCH: usize = 128;

/// A chunk that was not used for this many seconds (one day) is expired.
pub const DEFAULT_GC_EXPIRE_SECS: u64 = 86400;

/// Told of the chunks that come into the database and of those that leave it.
pub trait ChunkIndexControl {
    /// Reports that a chunk is available here.
    fn register_chunk(&self, checksum: &CheckSum) -> bool;

    /// Reports that chunks are available here, one after the other until a report fails.
    fn register_chunks(&self, checksums: &[CheckSum]) -> (r: bool)
        ensures
            true,
        default_ensures
            r ==> forall|i: int|
                #![trigger checksums@[i]]
                0 <= i < checksums@.len() ==> call_ensures(
                    Self::register_chunk,
                    (self, &checksums@[i]),
                    true,
                ),
            !r ==> exists|i: int|
                #![trigger checksums@[i]]
                0 <= i < checksums@.len() && call_ensures(
                    Self::register_chunk,
                    (self, &checksums@[i]),
                    false,
                ) && forall|j: int|
                    #![trigger checksums@[j]]
                    0 <= j < i ==> call_ensures(
                        Self::register_chunk,
                        (self, &checksums@[j]),
                        true,
                    ),
    {
        let mut i: usize = 0;
        while i < checksums.len()
            invariant
                i <= checksums@.len(),
                forall|j: int|
                    #![trigger checksums@[j]]
                    0 <= j < i ==> call_ensures(
                        Self::register_chunk,
                        (self, &checksums@[j]),
                        true,
                    ),
            decreases checksums@.len() - i,
        {
            if !self.register_chunk(&checksums[i]) {
                assert(call_ensures(
                    Self::register_chunk,
                    (self, &checksums@[i as int]),
                    false,
                ));
                return false;
            }
            i = i + 1;
        }
        true
    }

    /// Reports that a chunk is no longer available here.
    fn unregister_chunk(&self, checksum: &CheckSum) -> bool;

    /// Reports that chunks are no longer available here, one after the other until a report
    /// fails.
    fn unregister_chunks(&self, checksums: &[CheckSum]) -> (r: bool)
        ensures
            true,
        default_ensures
            r ==> forall|i: int|
                #![trigger checksums@[i]]
                0 <= i < checksums@.len() ==> call_ensures(
                    Self::unregister_chunk,
                    (self, &checksums@[i]),
                    true,
                ),
            !r ==> exists|i: int|
                #![trigger checksums@[i]]
                0 <= i < checksums@.len() && call_ensures(
                    Self::unregister_chunk,
                    (self, &checksums@[i]),
                    false,
                ) && forall|j: int|
                    #![trigger checksums@[j]]
                    0 <= j < i ==> call_ensures(
                        Self::unregister_chunk,
                        (self, &checksums@[j]),
                        true,
                    ),
    {
        let mut i: usize = 0;
        while i < checksums.len()
            invariant
                i <= checksums@.len(),
                forall|j: int|
                    #![trigger checksums@[j]]
                    0 <= j < i ==> call_ensures(
                        Self::unregister_chunk,
                        (self, &checksums@[j]),
                        true,
                    ),
            decreases checksums@.len() - i,
        {
            if !self.unregister_chunk(&checksums[i]) {
                assert(call_ensures(
                    Self::unregister_chunk,
                    (self, &checksums@[i as int]),
                    false,
                ));
                return false;
            }
            i = i + 1;
        }
        true
    }
}

/// What a deletion removed.
#[derive(Debug, Clone, Eq, PartialEq)]
pub struct GcDeleteResult {
    pub removed: usize,
    pub checksums: Vec<CheckSum>,
}

/// The checksums of the chunks that index entries list.
pub open spec fn key_checksums(keys: Seq<AccessKey>) -> Seq<CheckSum> {
    keys.map_values(|k: AccessKey| loaded_form(k.cs))
}

/// The part of a chunk that a read asks for: `None` where there is no chunk, an error where
/// the range does not lie within it.
pub fn chunk_range<'a>(chunk: Option<&'a [u8]>, start: usize, len: usize) -> (r: Result<
    Option<&'a [u8]>,
    Error,
>)
    ensures
        match (chunk, r) {
            (None, Ok(None)) => true,
            (Some(c), Ok(Some(part))) => start + len <= c@.len() && part@ == c@.subrange(
                start as int,
                start + len,
            ),
            (Some(c), Err(e)) => start + len > c@.len() && e.kind == ErrorKind::InvalidData
                && e.message@ == "Chunk range invalid"@,
            _ => false,
        },
{
    match chunk {
        None => Ok(None),
        Some(c) => {
            assert(c.len() == c@.len());
            if start > c.len() || len > c.len() - start {
                return Err(Error::new(ErrorKind::InvalidData, "Chunk range invalid"));
            }
            Ok(Some(&c[start..start + len]))
        },
    }
}

/// When a walk over the access index ends.
#[derive(Debug, Copy, Clone)]
pub enum ScanLimit {
    /// At the first chunk that was used at this second or later.
    Before(u64),
    /// When this many chunks have been collected.
    Count(usize),
}

/// The entries that a walk collects from `index`, whose entries it meets in this order.
pub open spec fn scan(limit: ScanLimit, index: Seq<AccessKey>) -> Seq<AccessKey> {
    scan_on(limit, Seq::empty(), index)
}

/// What a walk has collected when `taken` was collected so far and `rest` is still to come.
pub open spec fn scan_on(
    limit: ScanLimit,
    taken: Seq<AccessKey>,
    rest: Seq<AccessKey>,
) -> Seq<AccessKey>
    decreases rest.len(),
{
    if rest.len() == 0 {
        taken
    } else {
        let (now, more) = scan_step(limit, taken, rest[0]);
        if more {
            scan_on(limit, now, rest.skip(1))
        } else {
            now
        }
    }
}

/// What one entry adds to a walk, and whether the walk goes on.
pub open spec fn scan_step(limit: ScanLimit, taken: Seq<AccessKey>, key: AccessKey) -> (
    Seq<AccessKey>,
    bool,
) {
    match limit {
        ScanLimit::Before(cutoff) => if key.last_access < cutoff {
            (taken.push(key), true)
        } else {
            (taken, false)
        },
        ScanLimit::Count(n) => (taken.push(key), taken.len() + 1 < n),
    }
}

/// A walk over the access index, from the chunk that was used longest ago on.
#[derive(Debug)]
pub struct KeyScan {
    limit: ScanLimit,
    keys: Vec<AccessKey>,
}

impl KeyScan {
    /// When the walk ends.
    pub closed spec fn limit(self) -> ScanLimit {
        self.limit
    }

    /// The entries collected so far.
    pub closed spec fn taken(self) -> Seq<AccessKey> {
        self.keys@
    }

    /// A walk that collects the chunks which were last used more than `timeout_secs` before
    /// `now`.
    pub fn expired(now: u64, timeout_secs: u64) -> (r: KeyScan)
        ensures
            r.limit() == ScanLimit::Before(
                if now < timeout_secs {
                    0
                } else {
                    (now - timeout_secs) as u64
                },
            ),
            r.taken() == Seq::<AccessKey>::empty(),
    {
        KeyScan { limit: ScanLimit::Before(now.saturating_sub(timeout_secs)), keys: Vec::new() }
    }

    /// A walk that collects the `max_delete` chunks which were used longest ago. It collects
    /// one where `max_delete` is 0.
    pub fn oldest(max_delete: usize) -> (r: KeyScan)
        ensures
            r.limit() == ScanLimit::Count(max_delete),
            r.taken() == Seq::<AccessKey>::empty(),
    {
        KeyScan { limit: ScanLimit::Count(max_delete), keys: Vec::new() }
    }

    /// Takes the next entry of the index, and returns whether to walk on.
    pub fn offer(&mut self, key: AccessKey) -> (r: bool)
        ensures
            final(self).limit() == old(self).limit(),
            (final(self).taken(), r) == scan_step(old(self).limit(), old(self).taken(), key),
    {
        match self.limit {
            ScanLimit::Before(cutoff) => {
                if key.last_access >= cutoff {
                    return false;
                }
                self.keys.push(key);
                true
            },
            ScanLimit::Count(n) => {
                self.keys.push(key);
                self.keys.len() < n
            },
        }
    }

    /// The collected entries.
    pub fn into_keys(self) -> (r: Vec<AccessKey>)
        ensures
            r@ == self.taken(),
    {
        self.keys
    }
}

/// The index is walked in the order of access times.
pub open spec fn in_access_order(index: Seq<AccessKey>) -> bool {
    forall|i: int, j: int|
        0 <= i <= j < index.len() ==> index[i].last_access <= index[j].last_access
}

/// A walk for expired chunks collects every chunk that was last used before the cutoff, in
/// order, and no other.
pub proof fn law_expired_scan_is_exact(cutoff: u64, index: Seq<AccessKey>)
    requires
        in_access_order(index),
    ensures
        scan(ScanLimit::Before(cutoff), index) == index.filter(
            |k: AccessKey| k.last_access < cutoff,
        ),
{
    lemma_expired_scan_on(cutoff, Seq::empty(), index);
    assert(Seq::<AccessKey>::empty() + index.filter(|k: AccessKey| k.last_access < cutoff)
        =~= index.filter(|k: AccessKey| k.last_access < cutoff));
}

proof fn lemma_expired_scan_on(cutoff: u64, taken: Seq<AccessKey>, rest: Seq<AccessKey>)
    requires
        in_access_order(rest),
    ensures
        scan_on(ScanLimit::Before(cutoff), taken, rest) == taken + rest.filter(
            |k: AccessKey| k.last_access < cutoff,
        ),
    decreases rest.len(),
{
    let f = |k: AccessKey| k.last_access < cutoff;
    if rest.len() == 0 {
        reveal(Seq::filter);
        assert(rest.filter(f) =~= Seq::<AccessKey>::empty());
        assert(taken + rest.filter(f) =~= taken);
    } else if rest[0].last_access < cutoff {
        lemma_expired_scan_on(cutoff, taken.push(rest[0]), rest.skip(1));
        lemma_filter_first(rest, f);
        assert(taken.push(rest[0]) + rest.skip(1).filter(f) =~= taken + (seq![rest[0]]
            + rest.skip(1).filter(f)));
    } else {
        lemma_filter_none(rest, f);
        assert(taken + rest.filter(f) =~= taken);
    }
}

/// Filtering treats the first element on its own.
proof fn lemma_filter_first<A>(s: Seq<A>, f: spec_fn(A) -> bool)
    requires
        s.len() > 0,
    ensures
        s.filter(f) == if f(s[0]) {
            seq![s[0]] + s.skip(1).filter(f)
        } else {
            s.skip(1).filter(f)
        },
    decreases s.len(),
{
    reveal(Seq::filter);
    let rest = s.skip(1);
    if s.len() == 1 {
        assert(s.drop_last() =~= Seq::<A>::empty());
        assert(rest =~= Seq::<A>::empty());
        assert(s.drop_last().filter(f) =~= Seq::<A>::empty());
        assert(rest.filter(f) =~= Seq::<A>::empty());
        if f(s[0]) {
            assert(s.filter(f) =~= seq![s[0]] + rest.filter(f));
        }
    } else {
        lemma_filter_first(s.drop_last(), f);
        assert(s.drop_last().skip(1) =~= rest.drop_last());
        assert(rest.last() == s.last());
        if f(s[0]) {
            if f(s.last()) {
                assert(s.filter(f) =~= seq![s[0]] + rest.filter(f));
            }
        }
    }
}

/// Filtering by a condition that no element meets leaves nothing.
proof fn lemma_filter_none<A>(s: Seq<A>, f: spec_fn(A) -> bool)
    requires
        forall|i: int| 0 <= i < s.len() ==> !f(#[trigger] s[i]),
    ensures
        s.filter(f) == Seq::<A>::empty(),
    decreases s.len(),
{
    reveal(Seq::filter);
    if s.len() > 0 {
        assert forall|i: int| 0 <= i < s.drop_last().len() implies !f(
            #[trigger] s.drop_last()[i],
        ) by {
            assert(s.drop_last()[i] == s[i]);
        }
        lemma_filter_none(s.drop_last(), f);
    }
}

/// A walk for the oldest chunks collects as many as it was asked for, or all that there are,
/// and at least one where there is one. None that it leaves was used before one that it takes.
pub proof fn law_oldest_scan_is_exact(n: usize, index: Seq<AccessKey>)
    ensures
        ({
            let k = if n == 0 {
                1
            } else {
                n as int
            };
            scan(ScanLimit::Count(n), index) == index.take(
                if k <= index.len() {
                    k
                } else {
                    index.len() as int
                },
            )
        }),
        in_access_order(index) ==> forall|i: int, j: int|
            0 <= i < scan(ScanLimit::Count(n), index).len() <= j < index.len() ==> (#[trigger] scan(
                ScanLimit::Count(n),
                index,
            )[i]).last_access <= (#[trigger] index[j]).last_access,
{
    let k: int = if n == 0 {
        1
    } else {
        n as int
    };
    if index.len() > 0 {
        lemma_oldest_scan_on(n, Seq::empty(), index);
        let m = if k <= index.len() {
            k
        } else {
            index.len() as int
        };
        assert(Seq::<AccessKey>::empty() + index.take(m) =~= index.take(m));
    } else {
        assert(index.take(0) =~= Seq::<AccessKey>::empty());
    }
}

proof fn lemma_oldest_scan_on(n: usize, taken: Seq<AccessKey>, rest: Seq<AccessKey>)
    requires
        rest.len() > 0,
        taken.len() == 0 || taken.len() < n,
    ensures
        ({
            let want = if n <= taken.len() {
                1
            } else {
                n - taken.len()
            };
            scan_on(ScanLimit::Count(n), taken, rest) == taken + rest.take(
                if want <= rest.len() {
                    want
                } else {
                    rest.len() as int
                },
            )
        }),
    decreases rest.len(),
{
    let now = taken.push(rest[0]);
    if now.len() < n {
        if rest.len() > 1 {
            lemma_oldest_scan_on(n, now, rest.skip(1));
            let want = n - now.len();
            let m = if want <= rest.len() - 1 {
                want as int
            } else {
                rest.len() - 1
            };
            assert(now + rest.skip(1).take(m) =~= taken + rest.take(m + 1));
        } else {
            reveal_with_fuel(scan_on, 2);
            assert(rest.skip(1).len() == 0);
            assert(now =~= taken + rest.take(1));
        }
    } else {
        assert(now =~= taken + rest.take(1));
    }
}

/// The changes that delete the chunks which index entries list.
pub open spec fn spec_delete_ops(keys: Seq<AccessKey>) -> Seq<TableOp>
    decreases keys.len(),
{
    if keys.len() == 0 {
        Seq::empty()
    } else {
        let k = keys.last();
        spec_delete_ops(keys.drop_last()) + seq![
            TableOp::DeleteData(k.cs),
            TableOp::DeleteAccess(k.cs),
            TableOp::DeleteIndex(k),
        ]
    }
}

/// What has to change in the tables to delete the chunks that index entries list, and what
/// to report of it.
pub fn delete_keys(keys: &[AccessKey]) -> (r: (Vec<TableOp>, GcDeleteResult))
    ensures
        r.0@ == spec_delete_ops(keys@),
        r.1.removed == keys@.len(),
        r.1.checksums@ == key_checksums(keys@),
{
    let mut ops: Vec<TableOp> = Vec::new();
    let mut checksums: Vec<CheckSum> = Vec::new();
    let mut i: usize = 0;
    while i < keys.len()
        invariant
            i <= keys@.len(),
            ops@ == spec_delete_ops(keys@.take(i as int)),
            checksums@ == key_checksums(keys@.take(i as int)),
        decreases keys@.len() - i,
    {
        let key: AccessKey = keys[i];
        checksums.push(CheckSum::from(key.cs));
        ops.push(TableOp::DeleteData(key.cs));
        ops.push(TableOp::DeleteAccess(key.cs));
        ops.push(TableOp::DeleteIndex(key));
        i = i + 1;
        proof {
            let t = keys@.take(i as int);
            assert(t.drop_last() =~= keys@.take(i - 1));
            assert(t.last() == key);
            assert(key_checksums(t) =~= key_checksums(keys@.take(i - 1)).push(
                loaded_form(key.cs),
            ));
            assert(ops@ =~= spec_delete_ops(t));
        }
    }
    assert(keys@.take(i as int) =~= keys@);
    (ops, GcDeleteResult { removed: keys.len(), checksums })
}

/// Applying two lists of changes one after the other is applying their concatenation.
pub proof fn lemma_apply_all_concat(t: Tables, a: Seq<TableOp>, b: Seq<TableOp>)
    ensures
        t.apply_all(a + b) == t.apply_all(a).apply_all(b),
    decreases b.len(),
{
    if b.len() == 0 {
        assert(a + b =~= a);
    } else {
        assert((a + b).drop_last() =~= a + b.drop_last());
        lemma_apply_all_concat(t, a, b.drop_last());
    }
}

/// Whether one of the entries lists the chunk `cs`.
pub open spec fn lists(keys: Seq<AccessKey>, cs: CheckSumOnDisk) -> bool {
    exists|i: int| 0 <= i < keys.len() && (#[trigger] keys[i]).cs == cs
}

proof fn lemma_delete_effect(t: Tables, keys: Seq<AccessKey>)
    ensures
        ({
            let after = t.apply_all(spec_delete_ops(keys));
            &&& after.data == t.data.remove_keys(Set::new(|cs: CheckSumOnDisk| lists(keys, cs)))
            &&& after.access == t.access.remove_keys(
                Set::new(|cs: CheckSumOnDisk| lists(keys, cs)),
            )
            &&& after.index == t.index.difference(Set::new(|k: AccessKey| keys.contains(k)))
        }),
    decreases keys.len(),
{
    let gone = Set::new(|cs: CheckSumOnDisk| lists(keys, cs));
    let gone_keys = Set::new(|k: AccessKey| keys.contains(k));
    let after = t.apply_all(spec_delete_ops(keys));
    if keys.len() == 0 {
        assert(after.data =~= t.data.remove_keys(gone));
        assert(after.access =~= t.access.remove_keys(gone));
        assert(after.index =~= t.index.difference(gone_keys));
    } else {
        let init = keys.drop_last();
        let k = keys.last();
        let before = t.apply_all(spec_delete_ops(init));
        lemma_delete_effect(t, init);
        let ops = seq![
            TableOp::DeleteData(k.cs),
            TableOp::DeleteAccess(k.cs),
            TableOp::DeleteIndex(k),
        ];
        lemma_apply_all_concat(t, spec_delete_ops(init), ops);
        reveal_with_fuel(Tables::apply_all, 4);
        assert(ops.drop_last().drop_last().drop_last() =~= Seq::<TableOp>::empty());
        assert(after == before.apply(ops[0]).apply(ops[1]).apply(ops[2]));
        assert forall|cs: CheckSumOnDisk| lists(keys, cs) <==> (lists(init, cs) || cs
            == k.cs) by {
            if lists(init, cs) {
                let i = choose|i: int| 0 <= i < init.len() && (#[trigger] init[i]).cs == cs;
                assert(keys[i].cs == cs);
            }
            if cs == k.cs {
                assert(keys[keys.len() - 1].cs == cs);
            }
            if lists(keys, cs) && cs != k.cs {
                let i = choose|i: int| 0 <= i < keys.len() && (#[trigger] keys[i]).cs == cs;
                assert(init[i].cs == cs);
            }
        }
        assert forall|x: AccessKey| keys.contains(x) <==> (init.contains(x) || x == k) by {
            if init.contains(x) {
                let i = init.index_of(x);
                assert(keys[i] == x);
            }
            if x == k {
                assert(keys[keys.len() - 1] == x);
            }
            if keys.contains(x) && x != k {
                let i = keys.index_of(x);
                assert(init[i] == x);
            }
        }
        assert(after.data =~= t.data.remove_keys(gone));
        assert(after.access =~= t.access.remove_keys(gone));
        assert(after.index =~= t.index.difference(gone_keys));
    }
}

/// Deleting chunks that the index lists removes their data and access times, leaves every
/// other chunk alone, and keeps the index in step with the access times.
pub proof fn law_delete_keeps_consistency(t: Tables, keys: Seq<AccessKey>)
    requires
        t.consistent(),
        forall|i: int| 0 <= i < keys.len() ==> t.index.contains(#[trigger] keys[i]),
    ensures
        ({
            let after = t.apply_all(spec_delete_ops(keys));
            &&& after.consistent()
            &&& forall|cs: CheckSumOnDisk|
                lists(keys, cs) ==> !after.data.dom().contains(cs) && !after.access.dom().contains(
                    cs,
                )
            &&& forall|cs: CheckSumOnDisk|
                !lists(keys, cs) ==> {
                    &&& after.data.dom().contains(cs) == t.data.dom().contains(cs)
                    &&& after.data.dom().contains(cs) ==> after.data[cs] == t.data[cs]
                    &&& after.access.dom().contains(cs) == t.access.dom().contains(cs)
                    &&& after.access.dom().contains(cs) ==> after.access[cs] == t.access[cs]
                }
        }),
{
    lemma_delete_effect(t, keys);
    let after = t.apply_all(spec_delete_ops(keys));
    assert forall|key: AccessKey| #[trigger]
        after.index.contains(key) <==> (after.access.dom().contains(key.cs)
            && after.access[key.cs] == key.last_access) by {
        if t.index.contains(key) && !keys.contains(key) {
            if lists(keys, key.cs) {
                let i = choose|i: int| 0 <= i < keys.len() && (#[trigger] keys[i]).cs == key.cs;
                assert(t.index.contains(keys[i]));
                assert(keys[i] == key);
            }
        }
        if keys.contains(key) {
            let i = keys.index_of(key);
            assert(lists(keys, key.cs));
        }
    }
}

/// The deletion of expired chunks, batch by batch.
#[derive(Debug)]
pub struct ExpiredGc {
    keys: Vec<AccessKey>,
    pos: usize,
    total: GcDeleteResult,
}

impl ExpiredGc {
    /// The entries of the chunks to delete.
    pub closed spec fn keys(self) -> Seq<AccessKey> {
        self.keys@
    }

    /// How many of them have been handed out.
    pub closed spec fn pos(self) -> nat {
        self.pos as nat
    }

    /// How many chunks were reported as deleted.
    pub closed spec fn removed(self) -> nat {
        self.total.removed as nat
    }

    /// The checksums of the chunks that were reported as deleted.
    pub closed spec fn checksums(self) -> Seq<CheckSum> {
        self.total.checksums@
    }

    /// No more entries are handed out than there are.
    pub open spec fn wf(self) -> bool {
        self.pos() <= self.keys().len()
    }

    /// Each batch that was handed out was deleted and reported.
    pub open spec fn settled(self) -> bool {
        &&& self.wf()
        &&& self.removed() == self.pos()
        &&& self.checksums() == key_checksums(self.keys().take(self.pos() as int))
    }

    /// The deletion of the chunks that `keys` lists.
    pub fn new(keys: Vec<AccessKey>) -> (r: ExpiredGc)
        ensures
            r.keys() == keys@,
            r.pos() == 0,
            r.settled(),
    {
        let r: ExpiredGc = ExpiredGc {
            keys,
            pos: 0,
            total: GcDeleteResult { removed: 0, checksums: Vec::new() },
        };
        assert(key_checksums(r.keys().take(0)) =~= Seq::<CheckSum>::empty());
        r
    }

    /// The next batch to delete; `None` when all have been handed out.
    pub fn next_batch(&mut self) -> (r: Option<Vec<AccessKey>>)
        requires
            old(self).wf(),
        ensures
            final(self).wf(),
            final(self).keys() == old(self).keys(),
            final(self).removed() == old(self).removed(),
            final(self).checksums() == old(self).checksums(),
            match r {
                None => old(self).pos() == old(self).keys().len() && final(self).pos()
                    == old(self).pos(),
                Some(batch) => {
                    let left = old(self).keys().len() - old(self).pos();
                    &&& left > 0
                    &&& final(self).pos() == old(self).pos() + if left < GC_BATCH {
                        left
                    } else {
                        GC_BATCH as int
                    }
                    &&& batch@ == old(self).keys().subrange(
                        old(self).pos() as int,
                        final(self).pos() as int,
                    )
                },
            },
    {
        let len: usize = self.keys.len();
        if self.pos == len {
            return None;
        }
        let end: usize = if len - self.pos < GC_BATCH {
            len
        } else {
            self.pos + GC_BATCH
        };
        let batch: Vec<AccessKey> = vstd::slice::slice_to_vec(&self.keys.as_slice()[self.pos..end]);
        self.pos = end;
        Some(batch)
    }

    /// Adds what the deletion of a batch reported.
    pub fn deleted(&mut self, result: GcDeleteResult)
        requires
            old(self).wf(),
            old(self).removed() + result.removed <= usize::MAX,
        ensures
            final(self).wf(),
            final(self).keys() == old(self).keys(),
            final(self).pos() == old(self).pos(),
            final(self).removed() == old(self).removed() + result.removed,
            final(self).checksums() == old(self).checksums() + result.checksums@,
    {
        let mut checksums: Vec<CheckSum> = result.checksums;
        self.total.removed = self.total.removed + result.removed;
        self.total.checksums.append(&mut checksums);
    }

    /// The sum of all that was reported.
    pub fn finish(self) -> (r: GcDeleteResult)
        ensures
            r.removed == self.removed(),
            r.checksums@ == self.checksums(),
    {
        self.total
    }
}

/// A batch that is handed out and then reported in full leaves the deletion settled, so at
/// its end every expired chunk is deleted and reported once, in order.
pub proof fn law_expired_gc_reports_all(
    start: ExpiredGc,
    handed: ExpiredGc,
    end: ExpiredGc,
    batch: Seq<AccessKey>,
)
    requires
        start.settled(),
        handed.wf(),
        handed.keys() == start.keys(),
        handed.removed() == start.removed(),
        handed.checksums() == start.checksums(),
        start.pos() <= handed.pos(),
        batch == start.keys().subrange(start.pos() as int, handed.pos() as int),
        end.wf(),
        end.keys() == handed.keys(),
        end.pos() == handed.pos(),
        end.removed() == handed.removed() + batch.len(),
        end.checksums() == handed.checksums() + key_checksums(batch),
    ensures
        end.settled(),
        end.pos() == end.keys().len() ==> end.removed() == end.keys().len() && end.checksums()
            == key_checksums(end.keys()),
{
    let keys = start.keys();
    let a = start.pos() as int;
    let b = handed.pos() as int;
    assert(keys.take(b) =~= keys.take(a) + keys.subrange(a, b));
    assert(key_checksums(keys.take(b)) =~= key_checksums(keys.take(a)) + key_checksums(batch));
    assert(keys.take(keys.len() as int) =~= keys);
}

/// Where a garbage collection stands.
#[derive(Debug, Copy, Clone, PartialEq, Eq, Structural)]
pub enum GcStage {
    /// Nothing was done yet.
    Ready,
    /// Expired chunks are being deleted.
    Expiring,
    /// The index is told of the expired chunks.
    ReportingExpired,
    /// The usage is measured, to see whether space has to be freed.
    Measuring,
    /// The chunks that were used longest ago are being deleted.
    Evicting,
    /// The index is told of evicted chunks; `true` where there were any.
    ReportingEvicted(bool),
    /// The usage is measured, to see whether enough space was freed.
    Remeasuring,
    /// All is done.
    Finished,
}

/// What a garbage collection is told.
#[derive(Debug)]
pub enum GcEvent {
    /// It may start; nothing is to be deleted on a dry run.
    Start { dry_run: bool },
    /// The deletion that it asked for removed these chunks.
    Deleted(GcDeleteResult),
    /// The index was told of the removed chunks.
    Reported,
    /// The usage of the database lies above the high, or above the low watermark.
    Usage { above_high: bool, above_low: bool },
}

/// What a garbage collection asks for next.
#[derive(Debug)]
pub enum GcAction {
    /// Delete the expired chunks.
    Expire,
    /// Tell the index that these chunks are gone.
    Report(Vec<CheckSum>),
    /// Measure the usage of the database.
    Measure,
    /// Delete this many of the chunks that were used longest ago.
    Evict(usize),
    /// Nothing: all is done.
    Done,
}

/// The rule of a garbage collection: what it asks for next, and where it then stands.
pub open spec fn gc_rule(
    stage: GcStage,
    event: GcEvent,
    next: GcStage,
    action: GcAction,
) -> bool {
    match (stage, event) {
        (GcStage::Ready, GcEvent::Start { dry_run }) => if dry_run {
            next == GcStage::Finished && action is Done
        } else {
            next == GcStage::Expiring && action is Expire
        },
        (GcStage::Expiring, GcEvent::Deleted(result)) => {
            &&& next == GcStage::ReportingExpired
            &&& action matches GcAction::Report(gone)
            &&& gone@ == result.checksums@
        },
        (GcStage::ReportingExpired, GcEvent::Reported) => {
            next == GcStage::Measuring && action is Measure
        },
        (GcStage::Measuring, GcEvent::Usage { above_high, .. }) => if above_high {
            next == GcStage::Evicting && action == GcAction::Evict(GC_BATCH)
        } else {
            next == GcStage::Finished && action is Done
        },
        (GcStage::Evicting, GcEvent::Deleted(result)) => {
            &&& next == GcStage::ReportingEvicted(result.removed > 0)
            &&& action matches GcAction::Report(gone)
            &&& gone@ == result.checksums@
        },
        (GcStage::ReportingEvicted(some), GcEvent::Reported) => if some {
            next == GcStage::Remeasuring && action is Measure
        } else {
            next == GcStage::Finished && action is Done
        },
        (GcStage::Remeasuring, GcEvent::Usage { above_low, .. }) => if above_low {
            next == GcStage::Evicting && action == GcAction::Evict(GC_BATCH)
        } else {
            next == GcStage::Finished && action is Done
        },
        _ => next == GcStage::Finished && action is Done,
    }
}

/// A garbage collection: expired chunks go first; where the usage is above the high watermark
/// after that, the chunks that were used longest ago go in batches, until the usage is down to
/// the low watermark or no chunk is left.
#[derive(Debug)]
pub struct GcRun {
    stage: GcStage,
}

impl GcRun {
    /// Where the collection stands.
    pub closed spec fn stage(self) -> GcStage {
        self.stage
    }

    /// A collection that has not started.
    pub fn new() -> (r: GcRun)
        ensures
            r.stage() == GcStage::Ready,
    {
        GcRun { stage: GcStage::Ready }
    }

    /// Takes what happened, and returns what to do next. An event that was not asked for ends
    /// the collection.
    pub fn on_event(&mut self, event: GcEvent) -> (r: GcAction)
        ensures
            gc_rule(old(self).stage(), event, final(self).stage(), r),
    {
        match (self.stage, event) {
            (GcStage::Ready, GcEvent::Start { dry_run }) => {
                if dry_run {
                    self.stage = GcStage::Finished;
                    GcAction::Done
                } else {
                    self.stage = GcStage::Expiring;
                    GcAction::Expire
                }
            },
            (GcStage::Expiring, GcEvent::Deleted(result)) => {
                self.stage = GcStage::ReportingExpired;
                GcAction::Report(result.checksums)
            },
            (GcStage::ReportingExpired, GcEvent::Reported) => {
                self.stage = GcStage::Measuring;
                GcAction::Measure
            },
            (GcStage::Measuring, GcEvent::Usage { above_high, .. }) => {
                if above_high {
                    self.stage = GcStage::Evicting;
                    GcAction::Evict(GC_BATCH)
                } else {
                    self.stage = GcStage::Finished;
                    GcAction::Done
                }
            },
            (GcStage::Evicting, GcEvent::Deleted(result)) => {
                self.stage = GcStage::ReportingEvicted(result.removed > 0);
                GcAction::Report(result.checksums)
            },
            (GcStage::ReportingEvicted(some), GcEvent::Reported) => {
                if some {
                    self.stage = GcStage::Remeasuring;
                    GcAction::Measure
                } else {
                    self.stage = GcStage::Finished;
                    GcAction::Done
                }
            },
            (GcStage::Remeasuring, GcEvent::Usage { above_low, .. }) => {
                if above_low {
                    self.stage = GcStage::Evicting;
                    GcAction::Evict(GC_BATCH)
                } else {
                    self.stage = GcStage::Finished;
                    GcAction::Done
                }
            },
            _ => {
                self.stage = GcStage::Finished;
                GcAction::Done
            },
        }
    }
}

/// Space is freed only after the usage was found above the high watermark, or above the low
/// one once freeing has begun.
pub proof fn law_eviction_needs_usage(
    stage: GcStage,
    event: GcEvent,
    next: GcStage,
    action: GcAction,
)
    requires
        gc_rule(stage, event, next, action),
        action is Evict,
    ensures
        event is Usage,
        (stage is Measuring && event->above_high) || (stage is Remeasuring && event->above_low),
{
}

/// Once freeing has begun, it ends only when the usage is down to the low watermark or when a
/// batch removed nothing.
pub proof fn law_eviction_goes_on(
    stage: GcStage,
    event: GcEvent,
    next: GcStage,
    action: GcAction,
)
    requires
        gc_rule(stage, event, next, action),
        next == GcStage::Finished,
        (stage is Remeasuring && event is Usage) || (stage is ReportingEvicted
            && event is Reported),
    ensures
        (event is Usage && !event->above_low) || stage == GcStage::ReportingEvicted(false),
{
}

/// A dry run asks for nothing.
pub proof fn law_dry_run_asks_for_nothing(next: GcStage, action: GcAction)
    requires
        gc_rule(GcStage::Ready, (GcEvent::Start { dry_run: true }), next, action),
    ensures
        action is Done,
        next == GcStage::Finished,
{
}

/// Whatever a deletion removed is reported, all of it and nothing else. A collection that asked to
/// free space goes on to measure the usage exactly where the deletion removed a chunk, and then
/// frees more exactly where the usage is still above the low watermark.
pub proof fn law_freeing_goes_on_while_it_helps(
    run0: &mut GcRun,
    before: GcEvent,
    batch: usize,
    run1: &mut GcRun,
    result: GcDeleteResult,
    report: GcAction,
    run2: &mut GcRun,
    measure: GcAction,
    run3: &mut GcRun,
    above_high: bool,
    above_low: bool,
    last: GcAction,
)
    requires
        call_ensures(GcRun::on_event, (run0, before), GcAction::Evict(batch)),
        *old(run1) == *final(run0),
        call_ensures(GcRun::on_event, (run1, GcEvent::Deleted(result)), report),
        *old(run2) == *final(run1),
        call_ensures(GcRun::on_event, (run2, GcEvent::Reported), measure),
        *old(run3) == *final(run2),
        call_ensures(GcRun::on_event, (run3, GcEvent::Usage { above_high, above_low }), last),
    ensures
        batch == GC_BATCH,
        before is Usage,
        report is Report && report->Report_0@ == result.checksums@,
        measure is Measure <==> result.removed > 0,
        measure is Done <==> result.removed == 0,
        result.removed > 0 ==> (last is Evict <==> above_low),
        result.removed > 0 ==> (last is Done <==> !above_low),
        result.removed > 0 && above_low ==> last == GcAction::Evict(batch),
{
}

/// Expired chunks go first. Whatever went is reported, and the usage is measured after that,
/// however many chunks went: space is freed exactly where it is above the high watermark.
pub proof fn law_expired_chunks_go_first(
    run0: &mut GcRun,
    begin: GcAction,
    run1: &mut GcRun,
    result: GcDeleteResult,
    report: GcAction,
    run2: &mut GcRun,
    measure: GcAction,
    run3: &mut GcRun,
    above_high: bool,
    above_low: bool,
    last: GcAction,
)
    requires
        call_ensures(GcRun::new, (), *old(run0)),
        call_ensures(GcRun::on_event, (run0, GcEvent::Start { dry_run: false }), begin),
        *old(run1) == *final(run0),
        call_ensures(GcRun::on_event, (run1, GcEvent::Deleted(result)), report),
        *old(run2) == *final(run1),
        call_ensures(GcRun::on_event, (run2, GcEvent::Reported), measure),
        *old(run3) == *final(run2),
        call_ensures(GcRun::on_event, (run3, GcEvent::Usage { above_high, above_low }), last),
    ensures
        begin is Expire,
        report is Report && report->Report_0@ == result.checksums@,
        measure is Measure,
        last is Evict <==> above_high,
        last is Done <==> !above_high,
{
}

/// Whether an event says that what was asked for was done.
pub open spec fn gc_answers(action: GcAction, event: GcEvent) -> bool {
    match action {
        GcAction::Expire => event is Deleted,
        GcAction::Evict(_) => event is Deleted,
        GcAction::Report(_) => event is Reported,
        GcAction::Measure => event is Usage,
        GcAction::Done => false,
    }
}

/// Whether a collection that starts goes through `stages` and asks for `actions`, each of which is
/// done before the next.
pub open spec fn gc_run(
    stages: Seq<GcStage>,
    events: Seq<GcEvent>,
    actions: Seq<GcAction>,
) -> bool {
    &&& events.len() > 0
    &&& actions.len() == events.len()
    &&& stages.len() == events.len() + 1
    &&& stages[0] == GcStage::Ready
    &&& events[0] == (GcEvent::Start { dry_run: false })
    &&& forall|k: int|
        0 <= k < events.len() ==> gc_rule(
            stages[k],
            #[trigger] events[k],
            stages[k + 1],
            actions[k],
        )
    &&& forall|k: int|
        0 < k < events.len() ==> gc_answers(actions[k - 1], #[trigger] events[k])
}

/// Whether one of the first actions, up to number `k`, frees space.
pub open spec fn freed_by(actions: Seq<GcAction>, k: int) -> bool {
    exists|j: int| 0 <= j <= k && (#[trigger] actions[j]) is Evict
}

/// What the stage says of the actions before it.
proof fn lemma_gc_stage(
    stages: Seq<GcStage>,
    events: Seq<GcEvent>,
    actions: Seq<GcAction>,
    k: int,
)
    requires
        gc_run(stages, events, actions),
        0 <= k < events.len(),
    ensures
        match stages[k + 1] {
            GcStage::Ready => false,
            GcStage::Expiring => k == 0 && actions[k] is Expire,
            GcStage::ReportingExpired => {
                &&& k == 1
                &&& events[k] is Deleted
                &&& actions[k] is Report
                &&& !freed_by(actions, k)
            },
            GcStage::Measuring => {
                &&& k == 2
                &&& actions[k] is Measure
                &&& !freed_by(actions, k)
            },
            GcStage::Evicting => actions[k] is Evict && freed_by(actions, k),
            GcStage::ReportingEvicted(some) => {
                &&& k >= 1
                &&& events[k] is Deleted
                &&& some == (events[k]->Deleted_0.removed > 0)
                &&& actions[k - 1] is Evict
                &&& actions[k] is Report
                &&& freed_by(actions, k)
            },
            GcStage::Remeasuring => actions[k] is Measure && freed_by(actions, k),
            GcStage::Finished => actions[k] is Done,
        },
        actions[k] is Done <==> stages[k + 1] is Finished,
    decreases k,
{
    assert(gc_rule(stages[k], events[k], stages[k + 1], actions[k]));
    if k > 0 {
        lemma_gc_stage(stages, events, actions, k - 1);
        assert(gc_answers(actions[k - 1], events[k]));
        if freed_by(actions, k - 1) {
            let j = choose|j: int| 0 <= j <= k - 1 && (#[trigger] actions[j]) is Evict;
            assert(freed_by(actions, k));
        } else if freed_by(actions, k) {
            let j = choose|j: int| 0 <= j <= k && (#[trigger] actions[j]) is Evict;
            assert(j == k);
        }
        if actions[k] is Evict {
            assert(freed_by(actions, k));
        }
    }
}

/// A collection ends only for a reason: space was freed and the usage is down to the low
/// watermark, or nothing had to be freed because it is not above the high one, or the last
/// deletion to free space removed no chunk. Expired chunks are deleted once, first of all; space is
/// freed only after the usage was measured and found too high; and each deletion is reported.
pub proof fn law_collection_ends_for_a_reason(
    stages: Seq<GcStage>,
    events: Seq<GcEvent>,
    actions: Seq<GcAction>,
)
    requires
        gc_run(stages, events, actions),
    ensures
        actions[0] is Expire,
        forall|k: int|
            0 < k < actions.len() ==> {
                let action = #[trigger] actions[k];
                &&& !(action is Expire)
                &&& action is Evict ==> match events[k] {
                    GcEvent::Usage { above_high, above_low } => if freed_by(actions, k - 1) {
                        above_low
                    } else {
                        above_high
                    },
                    _ => false,
                }
                &&& action is Done ==> match events[k] {
                    GcEvent::Usage { above_high, above_low } => if freed_by(actions, k - 1) {
                        !above_low
                    } else {
                        !above_high
                    },
                    GcEvent::Reported => {
                        &&& k >= 2
                        &&& actions[k - 2] is Evict
                        &&& events[k - 1] is Deleted
                        &&& events[k - 1]->Deleted_0.removed == 0
                    },
                    _ => false,
                }
                &&& action is Report <==> events[k] is Deleted
                &&& action is Report ==> action->Report_0@ == events[k]->Deleted_0.checksums@
            },
{
    lemma_gc_stage(stages, events, actions, 0);
    assert(gc_rule(stages[0], events[0], stages[1], actions[0]));
    assert forall|k: int| 0 < k < actions.len() implies {
        let action = #[trigger] actions[k];
        &&& !(action is Expire)
        &&& action is Evict ==> match events[k] {
            GcEvent::Usage { above_high, above_low } => if freed_by(actions, k - 1) {
                above_low
            } else {
                above_high
            },
            _ => false,
        }
        &&& action is Done ==> match events[k] {
            GcEvent::Usage { above_high, above_low } => if freed_by(actions, k - 1) {
                !above_low
            } else {
                !above_high
            },
            GcEvent::Reported => {
                &&& k >= 2
                &&& actions[k - 2] is Evict
                &&& events[k - 1] is Deleted
                &&& events[k - 1]->Deleted_0.removed == 0
            },
            _ => false,
        }
        &&& action is Report <==> events[k] is Deleted
        &&& action is Report ==> action->Report_0@ == events[k]->Deleted_0.checksums@
    } by {
        lemma_gc_stage(stages, events, actions, k - 1);
        assert(gc_answers(actions[k - 1], events[k]));
        assert(gc_rule(stages[k], events[k], stages[k + 1], actions[k]));
    }
}

/// The valid checksums among stored ones, in order.
pub open spec fn listed(keys: Seq<CheckSumOnDisk>) -> Seq<CheckSum>
    decreases keys.len(),
{
    if keys.len() == 0 {
        Seq::empty()
    } else if method_known(keys[0]) {
        seq![loaded_form(keys[0])] + listed(keys.skip(1))
    } else {
        listed(keys.skip(1))
    }
}

/// How many of the stored checksums a listing of at most `want` valid ones goes through.
pub open spec fn listing_reach(want: nat, keys: Seq<CheckSumOnDisk>) -> nat
    decreases keys.len(),
{
    if keys.len() == 0 {
        0
    } else if !method_known(keys[0]) {
        1 + listing_reach(want, keys.skip(1))
    } else if want <= 1 {
        1
    } else {
        1 + listing_reach((want - 1) as nat, keys.skip(1))
    }
}

/// A listing of the chunks in the database, a batch at a time.
#[derive(Debug)]
pub struct ChunkListing {
    want: usize,
    batch: Vec<CheckSum>,
}

impl ChunkListing {
    /// How many chunks the batch may hold.
    pub closed spec fn want(self) -> nat {
        self.want as nat
    }

    /// The chunks listed so far.
    pub closed spec fn batch(self) -> Seq<CheckSum> {
        self.batch@
    }

    /// An empty batch for `batch_size` chunks, or for one where `batch_size` is 0.
    pub fn new(batch_size: usize) -> (r: ChunkListing)
        ensures
            r.want() == if batch_size == 0 {
                1
            } else {
                batch_size as nat
            },
            r.batch() == Seq::<CheckSum>::empty(),
    {
        let want: usize = if batch_size == 0 {
            1
        } else {
            batch_size
        };
        ChunkListing { want, batch: Vec::new() }
    }

    /// Takes the next stored checksum, and returns whether to go on. One without a known
    /// method is passed over.
    pub fn offer(&mut self, cs: CheckSumOnDisk) -> (r: bool)
        ensures
            final(self).want() == old(self).want(),
            final(self).batch() == if method_known(cs) {
                old(self).batch().push(loaded_form(cs))
            } else {
                old(self).batch()
            },
            r == (!method_known(cs) || old(self).batch().len() + 1 < old(self).want()),
    {
        if cs.is_valid() {
            self.batch.push(CheckSum::from(cs));
            return self.batch.len() < self.want;
        }
        true
    }

    /// The batch.
    pub fn finish(self) -> (r: Vec<CheckSum>)
        ensures
            r@ == self.batch(),
    {
        self.batch
    }
}

/// The batch that a listing makes of `rest`, when the chunks in `batch` are listed already.
pub open spec fn list_on(
    want: nat,
    batch: Seq<CheckSum>,
    rest: Seq<CheckSumOnDisk>,
) -> Seq<CheckSum>
    decreases rest.len(),
{
    if rest.len() == 0 {
        batch
    } else if !method_known(rest[0]) {
        list_on(want, batch, rest.skip(1))
    } else if batch.len() + 1 < want {
        list_on(want, batch.push(loaded_form(rest[0])), rest.skip(1))
    } else {
        batch.push(loaded_form(rest[0]))
    }
}

/// A batch holds the valid checksums of those that were gone through, and as many as were
/// asked for unless none is left.
pub proof fn law_listing_batch(want: nat, rest: Seq<CheckSumOnDisk>)
    requires
        want > 0,
    ensures
        ({
            let reach = listing_reach(want, rest) as int;
            &&& reach <= rest.len()
            &&& list_on(want, Seq::empty(), rest) == listed(rest.take(reach))
            &&& list_on(want, Seq::empty(), rest).len() <= want
            &&& list_on(want, Seq::empty(), rest).len() < want ==> reach == rest.len()
        }),
{
    lemma_list_on(want, Seq::empty(), rest);
    let reach = listing_reach(want, rest) as int;
    assert(Seq::<CheckSum>::empty() + listed(rest.take(reach)) =~= listed(rest.take(reach)));
}

proof fn lemma_list_on(want: nat, batch: Seq<CheckSum>, rest: Seq<CheckSumOnDisk>)
    requires
        batch.len() < want,
    ensures
        ({
            let reach = listing_reach((want - batch.len()) as nat, rest) as int;
            &&& reach <= rest.len()
            &&& list_on(want, batch, rest) == batch + listed(rest.take(reach))
            &&& list_on(want, batch, rest).len() <= want
            &&& list_on(want, batch, rest).len() < want ==> reach == rest.len()
        }),
    decreases rest.len(),
{
    let left = (want - batch.len()) as nat;
    let reach = listing_reach(left, rest) as int;
    if rest.len() == 0 {
        assert(rest.take(0) =~= Seq::<CheckSumOnDisk>::empty());
        assert(batch + listed(rest.take(0)) =~= batch);
    } else {
        let tail = rest.skip(1);
        if !method_known(rest[0]) {
            lemma_list_on(want, batch, tail);
            assert(rest.take(reach).skip(1) =~= tail.take(reach - 1));
        } else if left <= 1 {
            reveal_with_fuel(listed, 2);
            assert(rest.take(1).skip(1) =~= Seq::<CheckSumOnDisk>::empty());
            assert(listed(rest.take(1)) =~= seq![loaded_form(rest[0])]);
            assert(batch.push(loaded_form(rest[0])) =~= batch + listed(rest.take(1)));
        } else {
            let now = batch.push(loaded_form(rest[0]));
            lemma_list_on(want, now, tail);
            assert(rest.take(reach).skip(1) =~= tail.take(reach - 1));
            assert(now + listed(tail.take(reach - 1)) =~= batch + listed(rest.take(reach)));
        }
    }
}

/// What a walk over the stored checksums in byte order meets behind `cursor`.
pub open spec fn walk_after(
    keys: Seq<CheckSumOnDisk>,
    cursor: CheckSumOnDisk,
    rest: Seq<CheckSumOnDisk>,
) -> bool {
    exists|p: int|
        {
            &&& 0 <= p <= keys.len()
            &&& rest == #[trigger] keys.skip(p)
            &&& forall|i: int|
                0 <= i < keys.len() ==> (i >= p <==> bytes_less(
                    on_disk_bytes(cursor),
                    on_disk_bytes(#[trigger] keys[i]),
                ))
        }
}

/// The stored checksums are walked in byte order.
pub open spec fn in_byte_order(keys: Seq<CheckSumOnDisk>) -> bool {
    forall|i: int, j: int|
        0 <= i < j < keys.len() ==> bytes_less(
            on_disk_bytes(#[trigger] keys[i]),
            on_disk_bytes(#[trigger] keys[j]),
        )
}

/// A listing that takes up where the last batch ended passes over no chunk and lists none
/// twice: behind the last listed checksum come exactly those that were not gone through.
pub proof fn law_listing_resumes(
    want: nat,
    keys: Seq<CheckSumOnDisk>,
    from: int,
    rest: Seq<CheckSumOnDisk>,
)
    requires
        want > 0,
        in_byte_order(keys),
        forall|i: int|
            0 <= i < keys.len() && method_known(keys[i]) ==> stored_form(
                loaded_form(#[trigger] keys[i]),
            ) == keys[i],
        0 <= from <= keys.len(),
        list_on(want, Seq::empty(), keys.skip(from)).len() > 0,
        walk_after(
            keys,
            stored_form(list_on(want, Seq::empty(), keys.skip(from)).last()),
            rest,
        ),
    ensures
        ({
            let reach = listing_reach(want, keys.skip(from)) as int;
            &&& list_on(want, Seq::empty(), keys.skip(from)) == listed(
                keys.subrange(from, from + reach),
            )
            &&& listed(keys.skip(from)) == list_on(want, Seq::empty(), keys.skip(from)) + listed(
                rest,
            )
        }),
{
    let s = keys.skip(from);
    let batch = list_on(want, Seq::empty(), s);
    let reach = listing_reach(want, s) as int;
    law_listing_batch(want, s);
    assert(s.take(reach) =~= keys.subrange(from, from + reach));
    let q = lemma_last_listed(s.take(reach));
    let at = from + q;
    assert(keys[at] == s.take(reach)[q]);
    let p = choose|p: int|
        {
            &&& 0 <= p <= keys.len()
            &&& rest == #[trigger] keys.skip(p)
            &&& forall|i: int|
                0 <= i < keys.len() ==> (i >= p <==> bytes_less(
                    on_disk_bytes(stored_form(batch.last())),
                    on_disk_bytes(#[trigger] keys[i]),
                ))
        };
    assert(stored_form(batch.last()) == keys[at]);
    lemma_be_order(on_disk_bytes(keys[at]), on_disk_bytes(keys[at]));
    assert(p > at);
    if p > at + 1 {
        assert(bytes_less(on_disk_bytes(keys[at]), on_disk_bytes(keys[at + 1])));
        assert(false);
    }
    assert(rest == keys.skip(at + 1));
    lemma_listed_concat(s.take(q + 1), s.skip(q + 1));
    assert(s =~= s.take(q + 1) + s.skip(q + 1));
    assert(s.skip(q + 1) =~= rest);
    lemma_listed_concat(s.take(q + 1), s.subrange(q + 1, reach));
    assert(s.take(reach) =~= s.take(q + 1) + s.subrange(q + 1, reach));
    assert(s.subrange(q + 1, reach) =~= s.take(reach).skip(q + 1));
    assert(batch + Seq::<CheckSum>::empty() =~= batch);
}

/// Where the last valid checksum stands; none stands behind it.
proof fn lemma_last_listed(s: Seq<CheckSumOnDisk>) -> (q: int)
    requires
        listed(s).len() > 0,
    ensures
        0 <= q < s.len(),
        method_known(s[q]),
        loaded_form(s[q]) == listed(s).last(),
        listed(s.skip(q + 1)) == Seq::<CheckSum>::empty(),
    decreases s.len(),
{
    let tail = s.skip(1);
    if listed(tail).len() > 0 {
        let q = lemma_last_listed(tail);
        assert(tail.skip(q + 1) =~= s.skip(q + 2));
        q + 1
    } else {
        assert(listed(tail) =~= Seq::<CheckSum>::empty());
        0
    }
}

/// The valid checksums of two lists follow each other.
proof fn lemma_listed_concat(a: Seq<CheckSumOnDisk>, b: Seq<CheckSumOnDisk>)
    ensures
        listed(a + b) == listed(a) + listed(b),
    decreases a.len(),
{
    if a.len() == 0 {
        assert(a + b =~= b);
        assert(listed(a) + listed(b) =~= listed(b));
    } else {
        assert((a + b).skip(1) =~= a.skip(1) + b);
        lemma_listed_concat(a.skip(1), b);
        if method_known(a[0]) {
            assert(listed(a + b) =~= listed(a) + listed(b));
        }
    }
}

/// A listing of all chunks is read in batches of this many.
pub const LIST_BATCH: usize = 1024;

/// What a listing of all chunks asks for next.
#[derive(Debug)]
pub enum ListStep {
    /// Read this many chunks, from behind a checksum on or from the front.
    Read(Option<CheckSum>, usize),
    /// Nothing: these are all.
    Done(Vec<CheckSum>),
}

/// A listing of all chunks, batch by batch until there is none left.
#[derive(Debug)]
pub struct WholeListing {
    all: Vec<CheckSum>,
}

impl WholeListing {
    /// The chunks that were read.
    pub closed spec fn all(self) -> Seq<CheckSum> {
        self.all@
    }

    /// A listing that has read nothing.
    pub fn new() -> (r: WholeListing)
        ensures
            r.all() == Seq::<CheckSum>::empty(),
    {
        WholeListing { all: Vec::new() }
    }

    /// What to read first.
    pub fn start(&self) -> (r: ListStep)
        ensures
            r == ListStep::Read(None, LIST_BATCH),
    {
        ListStep::Read(None, LIST_BATCH)
    }

    /// Takes a batch that was read, and returns what to do next: to read on behind its last
    /// chunk, unless it is empty.
    pub fn take(&mut self, batch: Vec<CheckSum>) -> (r: ListStep)
        ensures
            if batch@.len() == 0 {
                &&& r matches ListStep::Done(all)
                &&& all@ == old(self).all()
                &&& final(self).all() == Seq::<CheckSum>::empty()
            } else {
                &&& r == ListStep::Read(Some(batch@.last()), LIST_BATCH)
                &&& final(self).all() == old(self).all() + batch@
            },
    {
        if batch.len() == 0 {
            let mut all: Vec<CheckSum> = Vec::new();
            std::mem::swap(&mut all, &mut self.all);
            return ListStep::Done(all);
        }
        let last: CheckSum = batch[batch.len() - 1];
        let mut batch: Vec<CheckSum> = batch;
        self.all.append(&mut batch);
        ListStep::Read(Some(last), LIST_BATCH)
    }
}

/// Whether `p` is where the stored checksums behind `cursor` start.
pub open spec fn starts_behind(keys: Seq<CheckSumOnDisk>, cursor: CheckSumOnDisk, p: int) -> bool {
    &&& 0 <= p <= keys.len()
    &&& forall|i: int|
        0 <= i < keys.len() ==> (i >= p <==> bytes_less(
            on_disk_bytes(cursor),
            on_disk_bytes(#[trigger] keys[i]),
        ))
}

/// Whether `batches` are what a listing in batches of `want` reads of the stored checksums from
/// `from` on: each batch starts behind the last chunk of the one before, and only the last one
/// is empty.
pub open spec fn batches_read(
    want: nat,
    keys: Seq<CheckSumOnDisk>,
    from: int,
    batches: Seq<Seq<CheckSum>>,
) -> bool
    decreases batches.len(),
{
    let batch = list_on(want, Seq::empty(), keys.skip(from));
    &&& batches.len() > 0
    &&& batches[0] == batch
    &&& if batch.len() == 0 {
        batches.len() == 1
    } else {
        exists|p: int| #[trigger]
            starts_behind(keys, stored_form(batch.last()), p) && batches_read(
                want,
                keys,
                p,
                batches.drop_first(),
            )
    }
}

/// The stored form of each stored checksum with a known method is itself.
pub open spec fn in_stored_form(keys: Seq<CheckSumOnDisk>) -> bool {
    forall|i: int|
        0 <= i < keys.len() && method_known(keys[i]) ==> stored_form(
            loaded_form(#[trigger] keys[i]),
        ) == keys[i]
}

/// The batches that are read from a place on hold the valid checksums from there on.
proof fn lemma_batches_read(
    want: nat,
    keys: Seq<CheckSumOnDisk>,
    from: int,
    batches: Seq<Seq<CheckSum>>,
)
    requires
        want > 0,
        in_byte_order(keys),
        in_stored_form(keys),
        0 <= from <= keys.len(),
        batches_read(want, keys, from, batches),
    ensures
        batches.flatten() == listed(keys.skip(from)),
    decreases batches.len(),
{
    let s = keys.skip(from);
    let batch = list_on(want, Seq::empty(), s);
    let tail = batches.drop_first();
    if batch.len() == 0 {
        law_listing_batch(want, s);
        assert(s.take(s.len() as int) =~= s);
        assert(tail =~= Seq::<Seq<CheckSum>>::empty());
        assert(tail.flatten() =~= Seq::<CheckSum>::empty());
        assert(batches.flatten() =~= listed(s));
    } else {
        let p = choose|p: int| #[trigger]
            starts_behind(keys, stored_form(batch.last()), p) && batches_read(want, keys, p, tail);
        let rest = keys.skip(p);
        assert(walk_after(keys, stored_form(batch.last()), rest));
        law_listing_resumes(want, keys, from, rest);
        lemma_batches_read(want, keys, p, tail);
    }
}

/// The valid checksums are listed in the order in which they are stored, and each that is stored
/// is listed.
proof fn lemma_listed_in_order(keys: Seq<CheckSumOnDisk>)
    requires
        in_byte_order(keys),
        in_stored_form(keys),
    ensures
        in_byte_order(listed(keys).map_values(|c: CheckSum| stored_form(c))),
        forall|i: int|
            0 <= i < keys.len() && method_known(#[trigger] keys[i]) ==> listed(keys).contains(
                loaded_form(keys[i]),
            ),
        forall|k: int|
            0 <= k < listed(keys).len() ==> method_known(stored_form(#[trigger] listed(keys)[k]))
                && keys.contains(stored_form(listed(keys)[k])),
    decreases keys.len(),
{
    if keys.len() > 0 {
        let tail = keys.skip(1);
        assert forall|i: int, j: int| 0 <= i < j < tail.len() implies bytes_less(
            on_disk_bytes(#[trigger] tail[i]),
            on_disk_bytes(#[trigger] tail[j]),
        ) by {
            assert(tail[i] == keys[i + 1] && tail[j] == keys[j + 1]);
        }
        assert forall|i: int| 0 <= i < tail.len() && method_known(tail[i]) implies stored_form(
            loaded_form(#[trigger] tail[i]),
        ) == tail[i] by {
            assert(tail[i] == keys[i + 1]);
        }
        lemma_listed_in_order(tail);
        let rest = listed(tail);
        let all = listed(keys);
        let d: int = if method_known(keys[0]) {
            1
        } else {
            0
        };
        assert(all.len() == rest.len() + d);
        assert forall|k: int| 0 <= k < all.len() implies method_known(
            stored_form(#[trigger] all[k]),
        ) && keys.contains(stored_form(all[k])) by {
            if k < d {
                assert(stored_form(loaded_form(keys[0])) == keys[0]);
                assert(keys.contains(keys[0]));
            } else {
                assert(all[k] == rest[k - d]);
                let q = tail.index_of(stored_form(rest[k - d]));
                assert(keys[q + 1] == tail[q]);
            }
        }
        assert forall|i: int|
            0 <= i < keys.len() && method_known(#[trigger] keys[i]) implies all.contains(
            loaded_form(keys[i]),
        ) by {
            if i == 0 {
                assert(all[0] == loaded_form(keys[0]));
            } else {
                assert(tail[i - 1] == keys[i]);
                let q = rest.index_of(loaded_form(keys[i]));
                assert(all[q + d] == rest[q]);
            }
        }
        let forms = all.map_values(|c: CheckSum| stored_form(c));
        let rest_forms = rest.map_values(|c: CheckSum| stored_form(c));
        assert forall|a: int, b: int| 0 <= a < b < forms.len() implies bytes_less(
            on_disk_bytes(#[trigger] forms[a]),
            on_disk_bytes(#[trigger] forms[b]),
        ) by {
            assert(all[b] == rest[b - d]);
            assert(forms[b] == rest_forms[b - d]);
            if a < d {
                assert(forms[a] == keys[0]);
                let q = tail.index_of(stored_form(rest[b - d]));
                assert(keys[q + 1] == tail[q]);
            } else {
                assert(all[a] == rest[a - d]);
                assert(forms[a] == rest_forms[a - d]);
            }
        }
    }
}

/// A listing of all chunks gives each stored checksum with a known method once, in the order in
/// which they are stored, and nothing else, whatever the size of its batches is.
pub proof fn law_whole_listing_is_complete(
    want: nat,
    keys: Seq<CheckSumOnDisk>,
    batches: Seq<Seq<CheckSum>>,
)
    requires
        in_byte_order(keys),
        in_stored_form(keys),
        want > 0,
        batches_read(want, keys, 0, batches),
    ensures
        ({
            let all = batches.flatten();
            &&& all == listed(keys)
            &&& all.no_duplicates()
            &&& in_byte_order(all.map_values(|c: CheckSum| stored_form(c)))
            &&& forall|i: int|
                0 <= i < keys.len() && method_known(#[trigger] keys[i]) ==> all.contains(
                    loaded_form(keys[i]),
                )
            &&& forall|k: int|
                0 <= k < all.len() ==> method_known(stored_form(#[trigger] all[k]))
                    && keys.contains(stored_form(all[k]))
        }),
{
    lemma_batches_read(want, keys, 0, batches);
    assert(keys.skip(0) =~= keys);
    lemma_listed_in_order(keys);
    let all = listed(keys);
    let forms = all.map_values(|c: CheckSum| stored_form(c));
    assert forall|a: int, b: int| 0 <= a < b < all.len() implies all[a] != all[b] by {
        assert(bytes_less(on_disk_bytes(forms[a]), on_disk_bytes(forms[b])));
        lemma_be_order(on_disk_bytes(forms[a]), on_disk_bytes(forms[b]));
        if all[a] == all[b] {
            assert(forms[a] == forms[b]);
        }
    }
}

/// Key figures of the chunk database.
#[derive(Debug, Copy, Clone, PartialEq, Eq)]
pub struct ChunkDbStats {
    pub total_size_bytes: u64,
    pub used_size_bytes: u64,
    pub free_size_bytes: u64,
    pub total_count: u64,
    pub oldest_epoch_secs: Option<u64>,
    pub newest_epoch_secs: Option<u64>,
}

/// The key figures, from the sizes that the store reports, the number of its chunks, and the
/// first and the last entry of the access index.
pub fn chunk_db_stats(
    map_size: u64,
    used_size: u64,
    entries: u64,
    first: Option<AccessKey>,
    last: Option<AccessKey>,
) -> (r: ChunkDbStats)
    ensures
        r.total_size_bytes == map_size,
        r.used_size_bytes == used_size,
        r.free_size_bytes == if used_size <= map_size {
            map_size - used_size
        } else {
            0
        },
        r.total_count == entries,
        r.oldest_epoch_secs == match first {
            Some(k) => Some(k.last_access),
            None => None,
        },
        r.newest_epoch_secs == match last {
            Some(k) => Some(k.last_access),
            None => None,
        },
{
    ChunkDbStats {
        total_size_bytes: map_size,
        used_size_bytes: used_size,
        free_size_bytes: map_size.saturating_sub(used_size),
        total_count: entries,
        oldest_epoch_secs: match first {
            Some(k) => Some(k.last_access),
            None => None,
        },
        newest_epoch_secs: match last {
            Some(k) => Some(k.last_access),
            None => None,
        },
    }
}

/// A walk for expired chunks takes exactly those that were last used longer ago than the timeout,
/// and ends at the first that was not.
pub proof fn law_expired_walk_takes_what_is_too_old(
    now: u64,
    timeout_secs: u64,
    begun: KeyScan,
    s0: &mut KeyScan,
    key: AccessKey,
    more: bool,
)
    requires
        call_ensures(KeyScan::expired, (now, timeout_secs), begun),
        old(s0).limit() == begun.limit(),
        call_ensures(KeyScan::offer, (s0, key), more),
    ensures
        begun.taken().len() == 0,
        final(s0).limit() == begun.limit(),
        more <==> key.last_access + timeout_secs < now,
        more ==> final(s0).taken() == old(s0).taken().push(key),
        !more ==> final(s0).taken() == old(s0).taken(),
{
}

/// A walk for the chunks that were used longest ago takes each that it is offered, and goes on until
/// it has as many as were asked for.
pub proof fn law_oldest_walk_takes_as_many_as_asked(
    max_delete: usize,
    begun: KeyScan,
    s0: &mut KeyScan,
    key: AccessKey,
    more: bool,
    end: KeyScan,
    keys: Vec<AccessKey>,
)
    requires
        call_ensures(KeyScan::oldest, (max_delete,), begun),
        old(s0).limit() == begun.limit(),
        call_ensures(KeyScan::offer, (s0, key), more),
        end == *final(s0),
        call_ensures(KeyScan::into_keys, (end,), keys),
    ensures
        begun.taken().len() == 0,
        final(s0).limit() == begun.limit(),
        keys@ == old(s0).taken().push(key),
        more <==> keys@.len() < max_delete,
{
}

/// A deletion removes the data and the access time of each chunk that it lists, and its entry in
/// the index; it changes nothing of any other chunk, and reports each chunk once.
pub proof fn law_deletion_removes_what_it_reports(
    t: Tables,
    keys: &[AccessKey],
    r: (Vec<TableOp>, GcDeleteResult),
    cs: CheckSumOnDisk,
)
    requires
        t.consistent(),
        forall|i: int| 0 <= i < keys@.len() ==> t.index.contains(#[trigger] keys@[i]),
        call_ensures(delete_keys, (keys,), r),
    ensures
        ({
            let after = t.apply_all(r.0@);
            let listed = exists|i: int| 0 <= i < keys@.len() && (#[trigger] keys@[i]).cs == cs;
            &&& after.consistent()
            &&& after.data.dom().contains(cs) <==> t.data.dom().contains(cs) && !listed
            &&& after.access.dom().contains(cs) <==> t.access.dom().contains(cs) && !listed
            &&& after.data.dom().contains(cs) ==> after.data[cs] == t.data[cs]
            &&& after.access.dom().contains(cs) ==> after.access[cs] == t.access[cs]
        }),
        r.1.removed == keys@.len(),
        r.1.checksums@.len() == keys@.len(),
        forall|i: int|
            0 <= i < keys@.len() ==> #[trigger] r.1.checksums@[i] == loaded_form(keys@[i].cs),
{
    law_delete_keeps_consistency(t, keys@);
    assert(lists(keys@, cs) <==> exists|i: int|
        0 <= i < keys@.len() && (#[trigger] keys@[i]).cs == cs);
}

/// Expired chunks are deleted in batches, the next ones each time, and where each batch that was
/// handed out was deleted and reported, what is reported in the end is every one of them, once and
/// in order.
pub proof fn law_expired_chunks_go_batch_by_batch(
    g0: &mut ExpiredGc,
    batch: Option<Vec<AccessKey>>,
    keys: &[AccessKey],
    gone: (Vec<TableOp>, GcDeleteResult),
    g1: &mut ExpiredGc,
    end: ExpiredGc,
    total: GcDeleteResult,
)
    requires
        old(g0).settled(),
        old(g0).keys().len() <= usize::MAX,
        call_ensures(ExpiredGc::next_batch, (g0,), batch),
        batch matches Some(b) ==> {
            &&& keys@ == b@
            &&& call_ensures(delete_keys, (keys,), gone)
            &&& *old(g1) == *final(g0)
            &&& call_ensures(ExpiredGc::deleted, (g1, gone.1), ())
        },
        end == *final(g0),
        call_ensures(ExpiredGc::finish, (end,), total),
    ensures
        batch is None <==> old(g0).pos() == old(g0).keys().len(),
        batch matches Some(b) ==> {
            &&& 0 < b@.len() <= GC_BATCH
            &&& final(g0).pos() < old(g0).keys().len() ==> b@.len() == GC_BATCH
            &&& old(g0).keys().take(old(g0).pos() as int) + b@ == old(g0).keys().take(
                final(g0).pos() as int,
            )
            &&& final(g1).settled()
            &&& final(g1).keys() == old(g0).keys()
            &&& final(g1).pos() == final(g0).pos()
        },
        batch is None ==> {
            &&& total.removed == old(g0).keys().len()
            &&& total.checksums@.len() == old(g0).keys().len()
            &&& forall|i: int|
                0 <= i < old(g0).keys().len() ==> #[trigger] total.checksums@[i] == loaded_form(
                    old(g0).keys()[i].cs,
                )
        },
{
    assert(call_requires(ExpiredGc::next_batch, (g0,)));
    let all = old(g0).keys();
    if let Some(b) = batch {
        assert(all.take(old(g0).pos() as int) + b@ =~= all.take(final(g0).pos() as int));
        assert(call_requires(ExpiredGc::deleted, (g1, gone.1)));
        law_expired_gc_reports_all(*old(g0), *final(g0), *final(g1), b@);
    } else {
        assert(all.take(all.len() as int) =~= all);
    }
}

/// A listing takes each stored checksum with a known method, passes over the others, and goes on
/// until its batch is full.
pub proof fn law_listing_takes_known_checksums(
    batch_size: usize,
    begun: ChunkListing,
    l0: &mut ChunkListing,
    cs: CheckSumOnDisk,
    more: bool,
    end: ChunkListing,
    batch: Vec<CheckSum>,
)
    requires
        call_ensures(ChunkListing::new, (batch_size,), begun),
        old(l0).want() == begun.want(),
        call_ensures(ChunkListing::offer, (l0, cs), more),
        end == *final(l0),
        call_ensures(ChunkListing::finish, (end,), batch),
    ensures
        begun.batch().len() == 0,
        final(l0).want() == begun.want(),
        method_known(cs) ==> batch@ == old(l0).batch().push(loaded_form(cs)),
        !method_known(cs) ==> batch@ == old(l0).batch() && more,
        method_known(cs) && batch_size > 0 ==> (more <==> batch@.len() < batch_size),
        method_known(cs) && batch_size == 0 ==> !more,
{
}

/// A listing of all chunks starts at the front, reads on behind the last chunk that it got as long
/// as it gets any, and hands out all that it got, in order, once it gets none.
pub proof fn law_whole_listing_reads_on_to_the_end(
    begun: &WholeListing,
    first: ListStep,
    w0: &mut WholeListing,
    batch: Vec<CheckSum>,
    next: ListStep,
    w1: &mut WholeListing,
    none: Vec<CheckSum>,
    last: ListStep,
)
    requires
        call_ensures(WholeListing::start, (begun,), first),
        batch@.len() > 0,
        call_ensures(WholeListing::take, (w0, batch), next),
        *old(w1) == *final(w0),
        none@.len() == 0,
        call_ensures(WholeListing::take, (w1, none), last),
    ensures
        first is Read && first->Read_0 is None && first->Read_1 == LIST_BATCH,
        next == ListStep::Read(Some(batch@[batch@.len() - 1]), first->Read_1),
        last is Done && last->Done_0@ == old(w0).all() + batch@,
{
}

/// What is free and what is used make up the size, where no more is used than there is; and the
/// ages that are reported are those of the first and the last entry.
pub proof fn law_stats_add_up(
    map_size: u64,
    used_size: u64,
    entries: u64,
    first: Option<AccessKey>,
    last: Option<AccessKey>,
    r: ChunkDbStats,
)
    requires
        call_ensures(chunk_db_stats, (map_size, used_size, entries, first, last), r),
        used_size <= map_size,
    ensures
        r.used_size_bytes + r.free_size_bytes == r.total_size_bytes,
        r.total_size_bytes == map_size,
        r.used_size_bytes == used_size,
        r.total_count == entries,
        first is Some <==> r.oldest_epoch_secs is Some,
        last is Some <==> r.newest_epoch_secs is Some,
        first matches Some(k) ==> r.oldest_epoch_secs->Some_0 == k.last_access,
        last matches Some(k) ==> r.newest_epoch_secs->Some_0 == k.last_access,
{
}

/// A collection takes the step that its rule says: nothing else is asked for.
pub proof fn law_collection_follows_its_rule(run: &mut GcRun, event: GcEvent, action: GcAction)
    requires
        call_ensures(GcRun::on_event, (run, event), action),
    ensures
        gc_rule(old(run).stage(), event, final(run).stage(), action),
{
}

/// An event that was not asked for ends a collection, and one that has ended asks for nothing.
pub proof fn law_unexpected_event_ends_the_collection(
    run0: &mut GcRun,
    before: GcEvent,
    action: GcAction,
    run1: &mut GcRun,
    event: GcEvent,
    next: GcAction,
)
    requires
        call_ensures(GcRun::on_event, (run0, before), action),
        *old(run1) == *final(run0),
        call_ensures(GcRun::on_event, (run1, event), next),
        !gc_answers(action, event),
    ensures
        next is Done,
{
}

/// A part of a chunk is handed out byte for byte where it lies within the chunk, and refused where
/// it does not; where there is no chunk, there is no part.
pub proof fn law_chunk_part_lies_within<'a>(
    chunk: Option<&'a [u8]>,
    start: usize,
    len: usize,
    r: Result<Option<&'a [u8]>, Error>,
    i: int,
)
    requires
        call_ensures(chunk_range, (chunk, start, len), r),
    ensures
        chunk is None <==> r == Ok::<Option<&'a [u8]>, Error>(None),
        chunk is Some ==> (r is Err <==> start + len > chunk->Some_0@.len()),
        r is Ok && chunk is Some ==> {
            &&& r->Ok_0 is Some
            &&& r->Ok_0->Some_0@.len() == len
            &&& 0 <= i < len ==> r->Ok_0->Some_0@[i] == chunk->Some_0@[start + i]
        },
{
}

/// The deletion of expired chunks starts with the first of them and with nothing to report, and a
/// listing of all chunks starts with none.
pub proof fn law_new_deletion_starts_at_the_front(
    keys: Vec<AccessKey>,
    g: &mut ExpiredGc,
    batch: Option<Vec<AccessKey>>,
    end: ExpiredGc,
    total: GcDeleteResult,
    w: &mut WholeListing,
    none: Vec<CheckSum>,
    step: ListStep,
)
    requires
        call_ensures(ExpiredGc::new, (keys,), *old(g)),
        end == *old(g),
        call_ensures(ExpiredGc::finish, (end,), total),
        call_ensures(ExpiredGc::next_batch, (g,), batch),
        call_ensures(WholeListing::new, (), *old(w)),
        none@.len() == 0,
        call_ensures(WholeListing::take, (w, none), step),
    ensures
        total.removed == 0,
        total.checksums@.len() == 0,
        batch is None <==> keys@.len() == 0,
        batch matches Some(b) ==> b@.len() > 0 && b@.is_prefix_of(keys@),
        step is Done && step->Done_0@.len() == 0,
{
    assert(call_requires(ExpiredGc::next_batch, (g,)));
}

} // verus!
