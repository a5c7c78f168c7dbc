//! Access times of stored chunks, and the index that orders chunks by them.

use crate::bytes::{
    append_bytes, be_to_u64, be_value, bytes_less, lemma_be_order, lemma_be_value_injective,
    lemma_bytes_less_concat, u64_to_be,
};
use crate::checksum::{law_on_disk_bytes_injective, on_disk_bytes, stored_order, CheckSumOnDisk};
use crate::error::{Error, ErrorKind};
use std::cmp::Ordering;
use vstd::prelude::*;

verus! {

/// A chunk's access time is rewritten at most once in this many seconds.
pub const ACCESS_UPDATE_MIN_INTERVAL_SECS: u64 = 60;

/// The second at which a chunk was last used.
#[derive(Debug, Copy, Clone, Eq, PartialEq, Structural)]
pub struct AccessTime {
    pub secs: u64,
}

impl AccessTime {
    /// The 8 bytes under which the time is stored.
    pub fn to_bytes(&self) -> (r: [u8; 8])
        ensures
            be_value(r@) == self.secs,
    {
        u64_to_be(self.secs)
    }

    /// The time that is stored in `s`.
    pub fn from_bytes(s: &[u8]) -> (r: Result<AccessTime, Error>)
        ensures
            match r {
                Ok(t) => s@.len() == 8 && t.secs == be_value(s@),
                Err(e) => s@.len() != 8 && e.kind == ErrorKind::Other && e.message@
                    == "Invalid access time length"@,
            },
    {
        if s.len() != 8 {
            return Err(Error::new(ErrorKind::Other, "Invalid access time length"));
        }
        assert(s@.subrange(0, 8) =~= s@);
        Ok(AccessTime { secs: be_to_u64(s, 0) })
    }
}

/// An entry of the access index: a chunk under the time of its last use.
#[derive(Debug, Copy, Clone, Eq, PartialEq)]
pub struct AccessKey {
    pub last_access: u64,
    pub cs: CheckSumOnDisk,
}

/// Index entries are ordered by time, then by checksum.
pub open spec fn access_order(a: AccessKey, b: AccessKey) -> Ordering {
    if a.last_access != b.last_access {
        if a.last_access < b.last_access {
            Ordering::Less
        } else {
            Ordering::Greater
        }
    } else {
        stored_order(a.cs, b.cs)
    }
}

impl PartialOrd for AccessKey {
    fn partial_cmp(&self, other: &AccessKey) -> (r: Option<Ordering>) {
        if self.last_access != other.last_access {
            if self.last_access < other.last_access {
                Some(Ordering::Less)
            } else {
                Some(Ordering::Greater)
            }
        } else {
            self.cs.partial_cmp(&other.cs)
        }
    }
}

impl vstd::std_specs::cmp::PartialOrdSpecImpl for AccessKey {
    open spec fn obeys_partial_cmp_spec() -> bool {
        true
    }

    open spec fn partial_cmp_spec(&self, other: &AccessKey) -> Option<Ordering> {
        Some(access_order(*self, *other))
    }
}

/// Whether `s` holds the 48 bytes of an index entry: the time, then the stored checksum.
pub open spec fn is_access_key_bytes(s: Seq<u8>, key: AccessKey) -> bool {
    &&& s.len() == 48
    &&& be_value(s.subrange(0, 8)) == key.last_access
    &&& s.subrange(8, 48) == on_disk_bytes(key.cs)
}

impl AccessKey {
    /// The entry for a chunk that was last used at `last_access`.
    pub fn new(last_access: u64, cs: CheckSumOnDisk) -> (r: AccessKey)
        ensures
            r.last_access == last_access,
            r.cs == cs,
    {
        AccessKey { last_access, cs }
    }

    /// The bytes under which the entry is stored.
    pub fn to_bytes(&self) -> (r: Vec<u8>)
        ensures
            is_access_key_bytes(r@, *self),
    {
        let mut out: Vec<u8> = Vec::with_capacity(48);
        let time: [u8; 8] = u64_to_be(self.last_access);
        append_bytes(&mut out, &time);
        let cs: Vec<u8> = self.cs.to_bytes();
        append_bytes(&mut out, cs.as_slice());
        assert(out@.subrange(0, 8) =~= time@);
        assert(out@.subrange(8, 48) =~= cs@);
        out
    }

    /// The entry that is stored in `s`.
    pub fn from_bytes(s: &[u8]) -> (r: Result<AccessKey, Error>)
        ensures
            match r {
                Ok(key) => is_access_key_bytes(s@, key),
                Err(e) => s@.len() != 48 && e.kind == ErrorKind::Other && e.message@
                    == "Invalid access key length"@,
            },
    {
        if s.len() != 48 {
            return Err(Error::new(ErrorKind::Other, "Invalid access key length"));
        }
        let last_access: u64 = be_to_u64(s, 0);
        let cs: CheckSumOnDisk = CheckSumOnDisk::from_bytes(s, 8);
        Ok(AccessKey { last_access, cs })
    }

    /// Whether two entries are the same.
    pub fn same(&self, other: &AccessKey) -> (r: bool)
        ensures
            r == (*self == *other),
    {
        self.last_access == other.last_access && self.cs.same(&other.cs)
    }
}

/// The bytes of an index entry give the entry back.
pub proof fn law_access_key_roundtrip(s: Seq<u8>, a: AccessKey, b: AccessKey)
    requires
        is_access_key_bytes(s, a),
        is_access_key_bytes(s, b),
    ensures
        a == b,
{
    law_on_disk_bytes_injective(a.cs, b.cs);
}

/// An index entry is stored under one byte string only.
pub proof fn law_access_key_bytes_unique(s: Seq<u8>, t: Seq<u8>, key: AccessKey)
    requires
        is_access_key_bytes(s, key),
        is_access_key_bytes(t, key),
    ensures
        s == t,
{
    lemma_be_value_injective(s.subrange(0, 8), t.subrange(0, 8));
    assert(s =~= s.subrange(0, 8) + s.subrange(8, 48));
    assert(t =~= t.subrange(0, 8) + t.subrange(8, 48));
}

/// A store that walks its keys in byte order walks the access index from the chunk that was
/// used longest ago to the one used last.
pub proof fn law_index_order_is_access_order(s: Seq<u8>, t: Seq<u8>, a: AccessKey, b: AccessKey)
    requires
        is_access_key_bytes(s, a),
        is_access_key_bytes(t, b),
    ensures
        a.last_access < b.last_access ==> bytes_less(s, t),
        bytes_less(s, t) ==> a.last_access <= b.last_access,
{
    let s1 = s.subrange(0, 8);
    let t1 = t.subrange(0, 8);
    assert(s =~= s1 + s.subrange(8, 48));
    assert(t =~= t1 + t.subrange(8, 48));
    lemma_bytes_less_concat(s1, s.subrange(8, 48), t1, t.subrange(8, 48));
    lemma_be_order(s1, t1);
}

/// The three tables of the chunk database.
pub ghost struct Tables {
    /// The data of each chunk.
    pub data: Map<CheckSumOnDisk, Seq<u8>>,
    /// The time of each chunk's last use.
    pub access: Map<CheckSumOnDisk, u64>,
    /// The chunks under the times of their last use.
    pub index: Set<AccessKey>,
}

/// One change of the tables.
#[derive(Debug, Copy, Clone)]
pub enum TableOp {
    PutAccess(CheckSumOnDisk, AccessTime),
    PutIndex(AccessKey),
    DeleteData(CheckSumOnDisk),
    DeleteAccess(CheckSumOnDisk),
    DeleteIndex(AccessKey),
}

impl Tables {
    /// The tables after one change.
    pub open spec fn apply(self, op: TableOp) -> Tables {
        match op {
            TableOp::PutAccess(cs, t) => Tables { access: self.access.insert(cs, t.secs), ..self },
            TableOp::PutIndex(key) => Tables { index: self.index.insert(key), ..self },
            TableOp::DeleteData(cs) => Tables { data: self.data.remove(cs), ..self },
            TableOp::DeleteAccess(cs) => Tables { access: self.access.remove(cs), ..self },
            TableOp::DeleteIndex(key) => Tables { index: self.index.remove(key), ..self },
        }
    }

    /// The tables after a list of changes, the first one first.
    pub open spec fn apply_all(self, ops: Seq<TableOp>) -> Tables
        decreases ops.len(),
    {
        if ops.len() == 0 {
            self
        } else {
            self.apply_all(ops.drop_last()).apply(ops.last())
        }
    }

    /// The index lists each chunk that has an access time, under that time, and nothing else.
    pub open spec fn consistent(self) -> bool {
        forall|key: AccessKey| #[trigger]
            self.index.contains(key) <==> (self.access.dom().contains(key.cs)
                && self.access[key.cs] == key.last_access)
    }
}

/// Whether a use at second `now` of a chunk last used at `old` is too early to be recorded.
pub open spec fn access_update_skipped(old: Option<u64>, now: u64) -> bool {
    old matches Some(secs) && (now <= secs || now - secs < ACCESS_UPDATE_MIN_INTERVAL_SECS)
}

/// The changes that record a use of `cs` at second `now`.
pub open spec fn spec_update_access(
    old: Option<u64>,
    cs: CheckSumOnDisk,
    now: u64,
) -> Seq<TableOp> {
    if access_update_skipped(old, now) {
        Seq::empty()
    } else {
        let put = seq![
            TableOp::PutAccess(cs, AccessTime { secs: now }),
            TableOp::PutIndex(AccessKey { last_access: now, cs }),
        ];
        match old {
            Some(secs) => seq![TableOp::DeleteIndex(AccessKey { last_access: secs, cs })] + put,
            None => put,
        }
    }
}

/// What has to change in the tables when `cs` is used at second `now`, given the access time
/// that is stored for it: nothing if that is less than a minute ago, else the stored time
/// moves, in the access table and in the index.
pub fn update_access(old: Option<AccessTime>, cs: CheckSumOnDisk, now: u64) -> (r: Vec<TableOp>)
    ensures
        r@ == spec_update_access(
            match old {
                Some(t) => Some(t.secs),
                None => None,
            },
            cs,
            now,
        ),
{
    let mut ops: Vec<TableOp> = Vec::new();
    if let Some(t) = old {
        if now <= t.secs || now - t.secs < ACCESS_UPDATE_MIN_INTERVAL_SECS {
            return ops;
        }
        ops.push(TableOp::DeleteIndex(AccessKey::new(t.secs, cs)));
    }
    ops.push(TableOp::PutAccess(cs, AccessTime { secs: now }));
    ops.push(TableOp::PutIndex(AccessKey::new(now, cs)));
    ops
}

/// Recording a use keeps the index in step with the access times, changes the time of no other
/// chunk, moves the chunk's own time to `now` unless the use is skipped, and touches no data.
pub proof fn law_update_access_keeps_consistency(t: Tables, cs: CheckSumOnDisk, now: u64)
    requires
        t.consistent(),
    ensures
        ({
            let old = if t.access.dom().contains(cs) {
                Some(t.access[cs])
            } else {
                None
            };
            let after = t.apply_all(spec_update_access(old, cs, now));
            &&& after.consistent()
            &&& after.data == t.data
            &&& after.access == if access_update_skipped(old, now) {
                t.access
            } else {
                t.access.insert(cs, now)
            }
        }),
{
    let old = if t.access.dom().contains(cs) {
        Some(t.access[cs])
    } else {
        None
    };
    let ops = spec_update_access(old, cs, now);
    reveal_with_fuel(Tables::apply_all, 4);
    let after = t.apply_all(ops);
    if !access_update_skipped(old, now) {
        let put_index = TableOp::PutIndex(AccessKey { last_access: now, cs });
        let put_access = TableOp::PutAccess(cs, AccessTime { secs: now });
        let n = ops.len() as int;
        assert(ops.last() == put_index);
        assert(ops.drop_last().last() == put_access);
        assert(ops.drop_last().drop_last() =~= ops.take(n - 2));
        if old is Some {
            let del = TableOp::DeleteIndex(AccessKey { last_access: old->0, cs });
            assert(ops.take(1) =~= seq![del]);
            assert(ops.take(1).drop_last() =~= Seq::<TableOp>::empty());
            assert(after == t.apply(del).apply(put_access).apply(put_index));
        } else {
            assert(ops.take(0) =~= Seq::<TableOp>::empty());
            assert(after == t.apply(put_access).apply(put_index));
        }
    }
}

/// A stored access time never goes back, and two times that are stored one after the other
/// lie at least a minute apart.
pub proof fn law_access_time_advances(old: u64, now: u64)
    requires
        !access_update_skipped(Some(old), now),
    ensures
        now >= old + 60,
{
}

/// A use of a chunk is recorded where the last one that was lies a minute or more back, or there is
/// none: its time is then the time of the use, in the access table and in the index, which keep in
/// step. Else nothing changes. No other chunk's time changes, and no data does.
pub proof fn law_recorded_use_is_the_latest(
    t: Tables,
    stored: Option<AccessTime>,
    cs: CheckSumOnDisk,
    now: u64,
    ops: Vec<TableOp>,
    other: CheckSumOnDisk,
)
    requires
        t.consistent(),
        stored is Some <==> t.access.dom().contains(cs),
        stored matches Some(time) ==> time.secs == t.access[cs],
        call_ensures(update_access, (stored, cs, now), ops),
        other != cs,
    ensures
        ({
            let after = t.apply_all(ops@);
            let due = !t.access.dom().contains(cs) || now >= t.access[cs] + 60;
            &&& after.consistent()
            &&& after.data == t.data
            &&& after.access.dom().contains(cs)
            &&& due ==> after.access[cs] == now && after.index.contains(
                AccessKey { last_access: now, cs },
            )
            &&& !due ==> after == t
            &&& after.access.dom().contains(other) == t.access.dom().contains(other)
            &&& after.access.dom().contains(other) ==> after.access[other] == t.access[other]
        }),
{
    law_update_access_keeps_consistency(t, cs, now);
}

/// An access time and an entry of the access index are read back from the bytes that they are
/// stored as.
pub proof fn law_access_survives_storage(
    time: &AccessTime,
    time_bytes: [u8; 8],
    stored_time: &[u8],
    read_time: Result<AccessTime, Error>,
    key: &AccessKey,
    key_bytes: Vec<u8>,
    stored_key: &[u8],
    read_key: Result<AccessKey, Error>,
)
    requires
        call_ensures(AccessTime::to_bytes, (time,), time_bytes),
        stored_time@ == time_bytes@,
        call_ensures(AccessTime::from_bytes, (stored_time,), read_time),
        call_ensures(AccessKey::to_bytes, (key,), key_bytes),
        stored_key@ == key_bytes@,
        call_ensures(AccessKey::from_bytes, (stored_key,), read_key),
    ensures
        read_time is Ok && read_time->Ok_0.secs == time.secs,
        read_key == Ok::<AccessKey, Error>(*key),
{
    if let Ok(back) = read_key {
        law_access_key_roundtrip(key_bytes@, *key, back);
    }
}

} // verus!
