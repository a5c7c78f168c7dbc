//! The per-image index: which ranges of an image are kept as chunks, and under which checksums.

use crate::bytes::{
    append_bytes, be_to_u64, be_value, bytes_before, bytes_equal, bytes_less,
    lemma_be_order, lemma_be_value_injective, lemma_bytes_less_concat, le_to_u32, le_to_u64,
    le_value, take32, u32_to_le, u64_to_be, u64_to_le,
};
use crate::checksum::{
    law_on_disk_bytes_injective, on_disk_bytes, stored_form, CheckSum, CheckSumOnDisk,
};
use crate::error::{Error, ErrorKind};
use std::cmp::Ordering;
use vstd::prelude::*;

verus! {

/// A range of an image: the key of an index entry.
#[derive(Debug, Eq, PartialEq, Copy, Clone)]
pub struct DedupRange {
    pub id: [u8; 32],
    pub start: u64,
    pub end: u64,
}

/// Ranges are ordered by image, then by where they end; of two that end together the one that
/// starts later comes first.
pub open spec fn range_order(a: DedupRange, b: DedupRange) -> Ordering {
    if a.id@ != b.id@ {
        if bytes_less(a.id@, b.id@) {
            Ordering::Less
        } else {
            Ordering::Greater
        }
    } else if a.end != b.end {
        if a.end < b.end {
            Ordering::Less
        } else {
            Ordering::Greater
        }
    } else if a.start != b.start {
        if b.start < a.start {
            Ordering::Less
        } else {
            Ordering::Greater
        }
    } else {
        Ordering::Equal
    }
}

impl PartialOrd for DedupRange {
    fn partial_cmp(&self, other: &DedupRange) -> (r: Option<Ordering>) {
        if !bytes_equal(&self.id, &other.id) {
            if bytes_before(&self.id, &other.id) {
                Some(Ordering::Less)
            } else {
                Some(Ordering::Greater)
            }
        } else if self.end != other.end {
            if self.end < other.end {
                Some(Ordering::Less)
            } else {
                Some(Ordering::Greater)
            }
        } else if self.start != other.start {
            if other.start < self.start {
                Some(Ordering::Less)
            } else {
                Some(Ordering::Greater)
            }
        } else {
            Some(Ordering::Equal)
        }
    }
}

impl vstd::std_specs::cmp::PartialOrdSpecImpl for DedupRange {
    open spec fn obeys_partial_cmp_spec() -> bool {
        true
    }

    open spec fn partial_cmp_spec(&self, other: &DedupRange) -> Option<Ordering> {
        Some(range_order(*self, *other))
    }
}

/// Whether `s` holds the 48 bytes of a range: the image, the end, then the start.
pub open spec fn is_range_bytes(s: Seq<u8>, r: DedupRange) -> bool {
    &&& s.len() == 48
    &&& s.subrange(0, 32) == r.id@
    &&& be_value(s.subrange(32, 40)) == r.end
    &&& be_value(s.subrange(40, 48)) == r.start
}

impl DedupRange {
    /// The range of `len` bytes from `off` on, of no image in particular.
    pub fn new(off: u64, len: u32) -> (r: DedupRange)
        requires
            off + len <= u64::MAX,
        ensures
            r.id@ == Seq::new(32, |i: int| 0u8),
            r.start == off,
            r.end == off + len,
    {
        let r: DedupRange = DedupRange::new_with_id([0u8;32], off, len);
        assert(r.id@ =~= Seq::new(32, |i: int| 0u8));
        r
    }

    /// The range of `len` bytes from `off` on of the image `id`.
    pub fn new_with_id(id: [u8; 32], off: u64, len: u32) -> (r: DedupRange)
        requires
            off + len <= u64::MAX,
        ensures
            r.id == id,
            r.start == off,
            r.end == off + len,
    {
        DedupRange { id, start: off, end: off + len as u64 }
    }

    /// The number of bytes in the range.
    pub fn size(&self) -> (r: usize)
        requires
            self.start <= self.end,
            self.end - self.start <= usize::MAX,
        ensures
            r == self.end - self.start,
    {
        (self.end - self.start) as usize
    }

    /// The bytes under which the range is stored.
    pub fn to_bytes(&self) -> (r: Vec<u8>)
        ensures
            is_range_bytes(r@, *self),
    {
        let mut out: Vec<u8> = Vec::with_capacity(48);
        append_bytes(&mut out, &self.id);
        let end: [u8; 8] = u64_to_be(self.end);
        append_bytes(&mut out, &end);
        let start: [u8; 8] = u64_to_be(self.start);
        append_bytes(&mut out, &start);
        assert(out@.subrange(0, 32) =~= self.id@);
        assert(out@.subrange(32, 40) =~= end@);
        assert(out@.subrange(40, 48) =~= start@);
        out
    }

    /// The range that is stored in `s`.
    pub fn from_bytes(s: &[u8]) -> (r: Result<DedupRange, Error>)
        ensures
            match r {
                Ok(range) => is_range_bytes(s@, range),
                Err(e) => s@.len() != 48 && e.kind == ErrorKind::Other && e.message@
                    == "Invalid DedupRange length"@,
            },
    {
        if s.len() != 48 {
            return Err(Error::new(ErrorKind::Other, "Invalid DedupRange length"));
        }
        let id: [u8; 32] = take32(s, 0);
        let end: u64 = be_to_u64(s, 32);
        let start: u64 = be_to_u64(s, 40);
        Ok(DedupRange { id, start, end })
    }
}

/// The bytes of a range give the range back.
pub proof fn law_range_roundtrip(s: Seq<u8>, a: DedupRange, b: DedupRange)
    requires
        is_range_bytes(s, a),
        is_range_bytes(s, b),
    ensures
        a == b,
{
    assert(a.id =~= b.id);
}

/// A range is stored under one byte string only.
pub proof fn law_range_bytes_unique(s: Seq<u8>, t: Seq<u8>, r: DedupRange)
    requires
        is_range_bytes(s, r),
        is_range_bytes(t, r),
    ensures
        s == t,
{
    lemma_be_value_injective(s.subrange(32, 40), t.subrange(32, 40));
    lemma_be_value_injective(s.subrange(40, 48), t.subrange(40, 48));
    assert(s =~= s.subrange(0, 32) + s.subrange(32, 40) + s.subrange(40, 48));
    assert(t =~= t.subrange(0, 32) + t.subrange(32, 40) + t.subrange(40, 48));
}

/// A store that walks its keys in byte order walks the ranges of one image by where they end,
/// and of two that end together the one that starts first comes first.
pub proof fn law_range_byte_order(s: Seq<u8>, t: Seq<u8>, a: DedupRange, b: DedupRange)
    requires
        is_range_bytes(s, a),
        is_range_bytes(t, b),
    ensures
        a.id@ == b.id@ ==> bytes_less(s, t) == (a.end < b.end || (a.end == b.end && a.start
            < b.start)),
        a.id@ != b.id@ ==> bytes_less(s, t) == bytes_less(a.id@, b.id@),
{
    let (s1, s2, s3) = (s.subrange(0, 32), s.subrange(32, 40), s.subrange(40, 48));
    let (t1, t2, t3) = (t.subrange(0, 32), t.subrange(32, 40), t.subrange(40, 48));
    assert(s =~= s1 + (s2 + s3));
    assert(t =~= t1 + (t2 + t3));
    lemma_bytes_less_concat(s1, s2 + s3, t1, t2 + t3);
    lemma_bytes_less_concat(s2, s3, t2, t3);
    lemma_be_order(s1, t1);
    lemma_be_order(s2, t2);
    lemma_be_order(s3, t3);
    if a.end == b.end {
        lemma_be_value_injective(s2, t2);
    }
}

/// What the index says of a range: the chunk that holds its data.
#[derive(Debug, Copy, Clone, Eq)]
pub struct DedupInfo {
    pub off: u64,
    pub len: u32,
    pub reserved: u32,
    pub cs: CheckSumOnDisk,
}

impl PartialEq for DedupInfo {
    fn eq(&self, other: &DedupInfo) -> (r: bool) {
        self.off == other.off && self.len == other.len && self.cs.same(&other.cs)
    }
}

impl vstd::std_specs::cmp::PartialEqSpecImpl for DedupInfo {
    open spec fn obeys_eq_spec() -> bool {
        true
    }

    open spec fn eq_spec(&self, other: &DedupInfo) -> bool {
        self.off == other.off && self.len == other.len && self.cs == other.cs
    }
}

/// Entries are ordered as their ranges are: by where they end; of two that end together the one
/// that starts later comes first.
pub open spec fn info_order(a: DedupInfo, b: DedupInfo) -> Ordering {
    if a.off + a.len != b.off + b.len {
        if a.off + a.len < b.off + b.len {
            Ordering::Less
        } else {
            Ordering::Greater
        }
    } else if a.off != b.off {
        if b.off < a.off {
            Ordering::Less
        } else {
            Ordering::Greater
        }
    } else {
        Ordering::Equal
    }
}

/// Where the range of an entry ends, also where that is too far for an offset.
fn wide_end(info: &DedupInfo) -> (r: u128)
    ensures
        r == info.off + info.len,
{
    info.off as u128 + info.len as u128
}

impl PartialOrd for DedupInfo {
    fn partial_cmp(&self, other: &DedupInfo) -> (r: Option<Ordering>) {
        let end: u128 = wide_end(self);
        let other_end: u128 = wide_end(other);
        if end != other_end {
            if end < other_end {
                Some(Ordering::Less)
            } else {
                Some(Ordering::Greater)
            }
        } else if self.off != other.off {
            if other.off < self.off {
                Some(Ordering::Less)
            } else {
                Some(Ordering::Greater)
            }
        } else {
            Some(Ordering::Equal)
        }
    }
}

impl vstd::std_specs::cmp::PartialOrdSpecImpl for DedupInfo {
    open spec fn obeys_partial_cmp_spec() -> bool {
        true
    }

    open spec fn partial_cmp_spec(&self, other: &DedupInfo) -> Option<Ordering> {
        Some(info_order(*self, *other))
    }
}

/// The order of entries is that of the ranges that they speak of.
pub proof fn law_info_order_is_range_order(
    a: DedupInfo,
    b: DedupInfo,
    ra: DedupRange,
    rb: DedupRange,
)
    requires
        ra.id == rb.id,
        ra.start == a.off,
        ra.end == a.off + a.len,
        rb.start == b.off,
        rb.end == b.off + b.len,
    ensures
        info_order(a, b) == range_order(ra, rb),
{
}

/// What the index says of `len` bytes from `off` on that the chunk `cs` holds.
pub open spec fn dedup_info(off: u64, len: u32, cs: CheckSum) -> DedupInfo {
    DedupInfo { off, len, reserved: 0, cs: stored_form(cs) }
}

/// Whether `s` holds the 56 bytes of an entry's value.
pub open spec fn is_info_bytes(s: Seq<u8>, info: DedupInfo) -> bool {
    &&& s.len() == 56
    &&& le_value(s.subrange(0, 8)) == info.off
    &&& le_value(s.subrange(8, 12)) == info.len
    &&& le_value(s.subrange(12, 16)) == info.reserved
    &&& s.subrange(16, 56) == on_disk_bytes(info.cs)
}

impl DedupInfo {
    /// What the index says of `len` bytes from `off` on that the chunk `cs` holds.
    pub fn new(off: u64, len: u32, cs: CheckSum) -> (r: DedupInfo)
        ensures
            r == dedup_info(off, len, cs),
    {
        DedupInfo { off, len, reserved: 0, cs: CheckSumOnDisk::from(cs) }
    }

    /// Where the range ends.
    pub fn end(&self) -> (r: u64)
        requires
            self.off + self.len <= u64::MAX,
        ensures
            r == self.off + self.len,
    {
        self.off + self.len as u64
    }

    /// The bytes in which the entry's value is stored.
    pub fn to_bytes(&self) -> (r: Vec<u8>)
        ensures
            is_info_bytes(r@, *self),
    {
        let mut out: Vec<u8> = Vec::with_capacity(56);
        let off: [u8; 8] = u64_to_le(self.off);
        append_bytes(&mut out, &off);
        let len: [u8; 4] = u32_to_le(self.len);
        append_bytes(&mut out, &len);
        let reserved: [u8; 4] = u32_to_le(self.reserved);
        append_bytes(&mut out, &reserved);
        let cs: Vec<u8> = self.cs.to_bytes();
        append_bytes(&mut out, cs.as_slice());
        assert(out@.subrange(0, 8) =~= off@);
        assert(out@.subrange(8, 12) =~= len@);
        assert(out@.subrange(12, 16) =~= reserved@);
        assert(out@.subrange(16, 56) =~= cs@);
        out
    }

    /// The entry's value that is stored in `s`.
    pub fn from_bytes(s: &[u8]) -> (r: DedupInfo)
        requires
            s@.len() == 56,
        ensures
            is_info_bytes(s@, r),
    {
        let off: u64 = le_to_u64(s, 0);
        let len: u32 = le_to_u32(s, 8);
        let reserved: u32 = le_to_u32(s, 12);
        let cs: CheckSumOnDisk = CheckSumOnDisk::from_bytes(s, 16);
        DedupInfo { off, len, reserved, cs }
    }
}

/// The bytes of an entry's value give it back.
pub proof fn law_info_roundtrip(s: Seq<u8>, a: DedupInfo, b: DedupInfo)
    requires
        is_info_bytes(s, a),
        is_info_bytes(s, b),
    ensures
        a == b,
{
    law_on_disk_bytes_injective(a.cs, b.cs);
}

/// A key of the index and its value are read back from the bytes that they are stored as.
pub proof fn law_index_entry_survives_storage(
    range: &DedupRange,
    key: Vec<u8>,
    stored_key: &[u8],
    read_key: Result<DedupRange, Error>,
    info: &DedupInfo,
    value: Vec<u8>,
    stored_value: &[u8],
    read_value: DedupInfo,
)
    requires
        call_ensures(DedupRange::to_bytes, (range,), key),
        stored_key@ == key@,
        call_ensures(DedupRange::from_bytes, (stored_key,), read_key),
        call_ensures(DedupInfo::to_bytes, (info,), value),
        stored_value@ == value@,
        call_ensures(DedupInfo::from_bytes, (stored_value,), read_value),
    ensures
        read_key == Ok::<DedupRange, Error>(*range),
        read_value == *info,
{
    if let Ok(back) = read_key {
        law_range_roundtrip(key@, *range, back);
    }
    assert(call_requires(DedupInfo::from_bytes, (stored_value,)));
    law_info_roundtrip(value@, *info, read_value);
}

/// An entry speaks of the range for which it was made, and its size is that of the range.
pub proof fn law_index_entry_covers_its_range(
    id: [u8; 32],
    off: u64,
    len: u32,
    cs: CheckSum,
    range: DedupRange,
    at: &DedupRange,
    size: usize,
    info: DedupInfo,
    info_at: &DedupInfo,
    end: u64,
)
    requires
        off + len <= u64::MAX,
        len <= usize::MAX,
        call_ensures(DedupRange::new_with_id, (id, off, len), range),
        *at == range,
        call_ensures(DedupRange::size, (at,), size),
        call_ensures(DedupInfo::new, (off, len, cs), info),
        *info_at == info,
        call_ensures(DedupInfo::end, (info_at,), end),
    ensures
        range.id == id,
        range.start == off,
        size == len,
        info.off == off,
        info.len == len,
        end == range.end,
        end == off + len,
        crate::checksum::loaded_form(info.cs) == cs,
{
    assert(call_requires(DedupRange::new_with_id, (id, off, len)));
    assert(call_requires(DedupRange::size, (at,)));
    assert(call_requires(DedupInfo::end, (info_at,)));
    crate::checksum::law_stored_checksum_roundtrip(cs);
}

/// How an entry of the index is stored: the key has the image first, then the end and the start of
/// the range, so that keys sort by where ranges end; of the value's numbers the byte that counts
/// least comes first.
pub proof fn law_index_entry_layout(
    range: &DedupRange,
    key: Vec<u8>,
    info: &DedupInfo,
    value: Vec<u8>,
)
    requires
        call_ensures(DedupRange::to_bytes, (range,), key),
        call_ensures(DedupInfo::to_bytes, (info,), value),
    ensures
        key@.len() == 48,
        key@.take(32) == range.id@,
        be_value(key@.subrange(32, 40)) == range.end,
        be_value(key@.subrange(40, 48)) == range.start,
        value@.len() == 56,
        le_value(value@.subrange(0, 8)) == info.off,
        value@[8] + value@[9] * 0x100 + value@[10] * 0x1_0000 + value@[11] * 0x100_0000
            == info.len,
        value@.subrange(16, 48) == info.cs.raw@,
        value@[48] == info.cs.method,
{
    assert(key@.take(32) =~= key@.subrange(0, 32));
    crate::bytes::law_four_bytes_denote_a_number(value@.subrange(8, 12));
    let cs = value@.subrange(16, 56);
    assert(value@.subrange(16, 48) =~= cs.take(32));
    assert(cs.take(32) =~= info.cs.raw@);
    assert(cs[32] == value@[48]);
}

} // verus!
