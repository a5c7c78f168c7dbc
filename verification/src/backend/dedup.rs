//! Deduplication of image data: which parts of a read come from chunks, which parts of an
//! image are turned into chunks, and when a local copy can be dropped.

use crate::backend::indexdb::{dedup_info, DedupInfo, DedupRange};
use crate::backend::CHUNK_SIZE;
use crate::bytes::bytes_equal;
use crate::checksum::{
    blake3_digest, blake3_hash, empty_checksum, is_checksum_of, loaded_form, method_known,
    CheckSum, CheckSumMethod,
};
use crate::error::{Error, ErrorKind};
use crate::text::{decimal, to_decimal};
use crate::utils::{align_up, spec_align_up};
use vstd::prelude::*;

verus! {

/// The identity of an image in the index: the BLAKE3 digest of its name.
pub fn image_id(data_id: &str) -> (r: [u8; 32])
    ensures
        r@ == blake3_digest(vstd::utf8::encode_utf8(data_id@)),
{
    blake3_hash(data_id.as_bytes())
}

/// A part of a read: what the index says of it, and its length.
pub type Segment = (DedupInfo, u64);

/// A part of `n` bytes from `off` on of which the index knows nothing.
pub open spec fn hole(off: u64, n: u64) -> Segment {
    (dedup_info(off, n as u32, empty_checksum()), n)
}

/// A part of `n` bytes from `off` on of which the index knows nothing.
fn make_hole(off: u64, n: u64) -> (r: Segment)
    ensures
        r == hole(off, n),
{
    (DedupInfo::new(off, #[verifier::truncate] (n as u32), CheckSum::empty()), n)
}

/// Where a walk over the index stands: `len` bytes from `off` on have no part yet.
pub ghost struct Walk {
    pub off: u64,
    pub len: nat,
    pub segs: Seq<Segment>,
}

impl Walk {
    /// A part of `n` bytes is added.
    pub open spec fn add_part(self, info: DedupInfo, n: nat) -> Walk {
        Walk {
            off: (self.off + n) as u64,
            len: (self.len - n) as nat,
            segs: self.segs.push((info, n as u64)),
        }
    }

    /// What lies before `at` is a hole.
    pub open spec fn hole_to(self, at: u64) -> Walk {
        if at <= self.off || self.len == 0 {
            self
        } else {
            let n = if at - self.off <= self.len {
                (at - self.off) as nat
            } else {
                self.len
            };
            self.add_part(hole(self.off, n as u64).0, n)
        }
    }

    /// What an entry that starts here or before says of the range is a part.
    pub open spec fn take(self, info: DedupInfo) -> Walk {
        let end = info.off + info.len;
        if end <= self.off || self.len == 0 {
            self
        } else {
            let n = if end - self.off <= self.len {
                (end - self.off) as nat
            } else {
                self.len
            };
            self.add_part(info, n)
        }
    }

    /// The parts of the whole range, when the walk ends here: what has no part yet is a hole.
    pub open spec fn close(self) -> Seq<Segment> {
        if self.len == 0 {
            self.segs
        } else {
            self.segs.push(hole(self.off, self.len as u64))
        }
    }
}

/// What one index entry does to a walk over the image `id`, and whether the walk goes on: the
/// gap before the entry is a hole, and what the entry says of the range is a part.
pub open spec fn walk_step(id: Seq<u8>, w: Walk, key: DedupRange, info: DedupInfo) -> (Walk, bool) {
    if key.id@ != id {
        (w, false)
    } else {
        let now = w.hole_to(info.off).take(info);
        (now, now.len > 0)
    }
}

/// The parts of a range, when the index entries come in this order.
pub open spec fn walk_on(id: Seq<u8>, w: Walk, entries: Seq<(DedupRange, DedupInfo)>) -> Seq<
    Segment,
>
    decreases entries.len(),
{
    if entries.len() == 0 {
        w.close()
    } else {
        let (now, more) = walk_step(id, w, entries[0].0, entries[0].1);
        if more {
            walk_on(id, now, entries.skip(1))
        } else {
            now.close()
        }
    }
}

/// The parts of the `len` bytes from `off` on of the image `id`.
pub open spec fn segments(
    id: Seq<u8>,
    off: u64,
    len: nat,
    entries: Seq<(DedupRange, DedupInfo)>,
) -> Seq<Segment> {
    if len == 0 {
        Seq::empty()
    } else {
        walk_on(id, Walk { off, len, segs: Seq::empty() }, entries)
    }
}

/// A part says of the bytes from `at` on what the index says of them.
pub open spec fn part_holds(seg: Segment, at: int) -> bool {
    &&& seg.1 > 0
    &&& method_known(seg.0.cs) ==> seg.0.off <= at && at + seg.1 <= seg.0.off + seg.0.len
}

/// The parts follow each other without a gap from `from` to `to`.
pub open spec fn tiles(segs: Seq<Segment>, from: int, to: int) -> bool
    decreases segs.len(),
{
    if segs.len() == 0 {
        from == to
    } else {
        let n = segs.last().1;
        part_holds(segs.last(), to - n) && tiles(segs.drop_last(), from, to - n)
    }
}

/// A walk over the index entries of one image, which cuts a range into parts.
#[derive(Debug)]
pub struct RangeWalk {
    id: [u8; 32],
    start: u64,
    off: u64,
    len: usize,
    segs: Vec<Segment>,
}

impl RangeWalk {
    /// The image.
    pub closed spec fn id(self) -> Seq<u8> {
        self.id@
    }

    /// Where the range starts.
    pub closed spec fn start(self) -> u64 {
        self.start
    }

    /// Where the walk stands.
    pub closed spec fn walk(self) -> Walk {
        Walk { off: self.off, len: self.len as nat, segs: self.segs@ }
    }

    /// The parts made so far follow each other from the start of the range to where the walk
    /// stands, and the range lies within what offsets can denote.
    pub open spec fn wf(self) -> bool {
        &&& self.walk().off + self.walk().len <= u64::MAX
        &&& tiles(self.walk().segs, self.start() as int, self.walk().off as int)
    }

    /// A walk that cuts the `len` bytes from `off` on of the image `id`.
    pub fn new(id: [u8; 32], off: u64, len: usize) -> (r: RangeWalk)
        requires
            off + len <= u64::MAX,
        ensures
            r.wf(),
            r.id() == id@,
            r.start() == off,
            r.walk() == (Walk { off, len: len as nat, segs: Seq::empty() }),
    {
        RangeWalk { id, start: off, off, len, segs: Vec::new() }
    }

    /// The key from which on index entries are to be offered, which comes before each entry
    /// that ends behind the start of the range; `None` where the range is empty and there is
    /// nothing to look up.
    pub fn first_key(&self) -> (r: Option<DedupRange>)
        requires
            self.wf(),
        ensures
            match r {
                None => self.walk().len == 0,
                Some(key) => {
                    &&& self.walk().len > 0
                    &&& key.id@ == self.id()
                    &&& key.start == 0
                    &&& key.end == self.walk().off + 1
                },
            },
    {
        if self.len == 0 {
            return None;
        }
        Some(DedupRange { id: self.id, start: 0, end: self.off + 1 })
    }

    /// Takes the next index entry, and returns whether to go on.
    pub fn offer(&mut self, key: &DedupRange, info: &DedupInfo) -> (r: bool)
        requires
            old(self).wf(),
            old(self).walk().len > 0,
            info.off + info.len <= u64::MAX,
        ensures
            final(self).wf(),
            final(self).id() == old(self).id(),
            final(self).start() == old(self).start(),
            (final(self).walk(), r) == walk_step(old(self).id(), old(self).walk(), *key, *info),
            r ==> final(self).walk().len > 0,
    {
        if !bytes_equal(&key.id, &self.id) {
            return false;
        }
        if info.off > self.off {
            let gap: u64 = info.off - self.off;
            let left: u64 = self.len as u64;
            let n: u64 = if gap <= left {
                gap
            } else {
                left
            };
            let seg: Segment = make_hole(self.off, n);
            self.push(seg, n);
            if self.len == 0 {
                return false;
            }
        }
        let end: u64 = info.end();
        if end <= self.off {
            return true;
        }
        let rest: u64 = end - self.off;
        let left: u64 = self.len as u64;
        let n: u64 = if rest <= left {
            rest
        } else {
            left
        };
        self.push((*info, n), n);
        self.len > 0
    }

    /// Adds a part of `n` bytes.
    fn push(&mut self, seg: Segment, n: u64)
        requires
            old(self).wf(),
            0 < n <= old(self).walk().len,
            seg.1 == n,
            part_holds(seg, old(self).walk().off as int),
        ensures
            final(self).wf(),
            final(self).id() == old(self).id(),
            final(self).start() == old(self).start(),
            final(self).walk() == old(self).walk().add_part(seg.0, n as nat),
    {
        self.segs.push(seg);
        self.off = self.off + n;
        self.len = self.len - n as usize;
        assert(self.segs@.drop_last() =~= old(self).segs@);
    }

    /// The parts of the range.
    pub fn finish(self) -> (r: Vec<Segment>)
        requires
            self.wf(),
        ensures
            r@ == self.walk().close(),
            tiles(r@, self.start() as int, self.walk().off + self.walk().len),
    {
        let mut segs: Vec<Segment> = self.segs;
        if self.len != 0 {
            segs.push(make_hole(self.off, self.len as u64));
            assert(segs@.drop_last() =~= self.segs@);
        }
        segs
    }
}

/// The parts of a range follow each other without a gap from its start to its end, and a part
/// that is kept as a chunk lies within the range that the chunk holds.
pub proof fn law_segments_tile_the_range(
    id: Seq<u8>,
    off: u64,
    len: nat,
    entries: Seq<(DedupRange, DedupInfo)>,
)
    requires
        off + len <= u64::MAX,
    ensures
        tiles(segments(id, off, len, entries), off as int, off + len),
{
    if len > 0 {
        lemma_walk_tiles(id, off as int, Walk { off, len, segs: Seq::empty() }, entries);
    }
}

proof fn lemma_walk_tiles(
    id: Seq<u8>,
    from: int,
    w: Walk,
    entries: Seq<(DedupRange, DedupInfo)>,
)
    requires
        w.len > 0,
        w.off + w.len <= u64::MAX,
        tiles(w.segs, from, w.off as int),
    ensures
        tiles(walk_on(id, w, entries), from, w.off + w.len),
    decreases entries.len(),
{
    assert(w.segs.push(hole(w.off, w.len as u64)).drop_last() =~= w.segs);
    if entries.len() > 0 {
        let info = entries[0].1;
        let (now, more) = walk_step(id, w, entries[0].0, info);
        if entries[0].0.id@ == id {
            let gap = w.hole_to(info.off);
            if gap.segs != w.segs {
                assert(gap.segs.drop_last() =~= w.segs);
            }
            assert(tiles(gap.segs, from, gap.off as int));
            if now.segs != gap.segs {
                assert(now.segs.drop_last() =~= gap.segs);
            }
        }
        assert(tiles(now.segs, from, now.off as int));
        assert(now.segs.push(hole(now.off, now.len as u64)).drop_last() =~= now.segs);
        if more {
            lemma_walk_tiles(id, from, now, entries.skip(1));
        }
    }
}

/// An index entry says that a chunk holds the byte at `p`.
pub open spec fn covers(info: DedupInfo, p: int) -> bool {
    method_known(info.cs) && info.off <= p < info.off + info.len
}

/// Where every part of a range is kept as a chunk, each byte of the range is held by one.
pub proof fn law_known_parts_cover_the_range(segs: Seq<Segment>, from: int, to: int, p: int)
    requires
        tiles(segs, from, to),
        forall|i: int| 0 <= i < segs.len() ==> method_known((#[trigger] segs[i]).0.cs),
        from <= p < to,
    ensures
        exists|i: int| 0 <= i < segs.len() && covers((#[trigger] segs[i]).0, p),
    decreases segs.len(),
{
    let n = segs.last().1;
    let last = segs.len() - 1;
    if to - n <= p {
        assert(covers(segs[last].0, p));
    } else {
        let init = segs.drop_last();
        assert forall|i: int| 0 <= i < init.len() implies method_known(
            (#[trigger] init[i]).0.cs,
        ) by {
            assert(init[i] == segs[i]);
        }
        law_known_parts_cover_the_range(init, from, to - n, p);
        let i = choose|i: int| 0 <= i < init.len() && covers((#[trigger] init[i]).0, p);
        assert(covers(segs[i].0, p));
    }
}

/// What the part says in which the byte at `p` lies, where the parts end at `to`.
pub open spec fn part_at(segs: Seq<Segment>, to: int, p: int) -> Option<DedupInfo>
    decreases segs.len(),
{
    if segs.len() == 0 {
        None
    } else {
        let n = segs.last().1;
        if to - n <= p {
            Some(segs.last().0)
        } else {
            part_at(segs.drop_last(), to - n, p)
        }
    }
}

/// Index entries of one image as the store walks them: they do not overlap, and the first one
/// ends behind `off`.
pub open spec fn in_walk_order(
    id: Seq<u8>,
    entries: Seq<(DedupRange, DedupInfo)>,
    off: int,
) -> bool {
    &&& entries.len() > 0 ==> entries[0].1.off + entries[0].1.len > off
    &&& forall|i: int|
        0 <= i < entries.len() ==> {
            &&& (#[trigger] entries[i]).0.id@ == id
            &&& entries[i].1.len > 0
            &&& entries[i].1.off + entries[i].1.len <= u64::MAX
        }
    &&& forall|i: int, j: int|
        0 <= i < j < entries.len() ==> (#[trigger] entries[i]).1.off + entries[i].1.len
            <= (#[trigger] entries[j]).1.off
}

/// Whether an entry says anything of the byte at `p`.
pub open spec fn reaches(info: DedupInfo, p: int) -> bool {
    info.off <= p < info.off + info.len
}

/// Whether the part in which the byte at `p` lies says what the entries say of it: what the one
/// that reaches it says, or nothing where none does.
pub open spec fn part_is_exact(
    segs: Seq<Segment>,
    to: int,
    entries: Seq<(DedupRange, DedupInfo)>,
    p: int,
) -> bool {
    &&& forall|i: int|
        0 <= i < entries.len() && reaches((#[trigger] entries[i]).1, p) ==> part_at(segs, to, p)
            == Some(entries[i].1)
    &&& (forall|i: int| 0 <= i < entries.len() ==> !reaches((#[trigger] entries[i]).1, p))
        ==> part_at(segs, to, p) is Some && !method_known(part_at(segs, to, p)->0.cs)
}

/// A byte of a range is looked for in the chunk database if and only if the index says that a
/// chunk holds it: each byte that an entry reaches lies in a part that says what the entry says,
/// and each other byte lies in a hole.
pub proof fn law_covered_bytes_come_from_chunks(
    id: Seq<u8>,
    off: u64,
    len: nat,
    entries: Seq<(DedupRange, DedupInfo)>,
    p: int,
)
    requires
        off + len <= u64::MAX,
        in_walk_order(id, entries, off as int),
        off <= p < off + len,
    ensures
        part_is_exact(segments(id, off, len, entries), off + len, entries, p),
{
    lemma_walk_is_exact(id, Walk { off, len, segs: Seq::empty() }, entries, p);
}

/// The part behind which nothing follows.
proof fn lemma_part_at_push(segs: Seq<Segment>, seg: Segment, to: int, p: int)
    ensures
        part_at(segs.push(seg), to, p) == if to - seg.1 <= p {
            Some(seg.0)
        } else {
            part_at(segs, to - seg.1, p)
        },
{
    assert(segs.push(seg).drop_last() =~= segs);
}

/// From where the walk stands on, the parts say what the entries to come say; before that they
/// stay as they are.
proof fn lemma_walk_is_exact(
    id: Seq<u8>,
    w: Walk,
    rest: Seq<(DedupRange, DedupInfo)>,
    p: int,
)
    requires
        w.len > 0,
        w.off + w.len <= u64::MAX,
        in_walk_order(id, rest, w.off as int),
        p < w.off + w.len,
    ensures
        w.off <= p ==> part_is_exact(walk_on(id, w, rest), w.off + w.len, rest, p),
        p < w.off ==> part_at(walk_on(id, w, rest), w.off + w.len, p) == part_at(
            w.segs,
            w.off as int,
            p,
        ),
    decreases rest.len(),
{
    let to = w.off + w.len;
    if rest.len() == 0 {
        lemma_part_at_push(w.segs, hole(w.off, w.len as u64), to, p);
        return;
    }
    let (key, info) = rest[0];
    assert(key.id@ == id && info.len > 0);
    let end = info.off + info.len;
    let gap = w.hole_to(info.off);
    let now = gap.take(info);
    let tail = rest.skip(1);
    let all = walk_on(id, w, rest);
    if gap.off > w.off {
        lemma_part_at_push(w.segs, gap.segs.last(), gap.off as int, p);
        assert(gap.segs == w.segs.push(gap.segs.last()));
    }
    if now.off > gap.off {
        lemma_part_at_push(gap.segs, now.segs.last(), now.off as int, p);
        assert(now.segs == gap.segs.push(now.segs.last()));
    }
    assert forall|i: int| 0 <= i < tail.len() implies {
        &&& (#[trigger] tail[i]).0.id@ == id
        &&& tail[i].1.len > 0
        &&& tail[i].1.off + tail[i].1.len <= u64::MAX
        &&& tail[i].1.off >= end
    } by {
        assert(tail[i] == rest[i + 1]);
    }
    if now.len > 0 {
        assert(now.off == end);
        assert forall|i: int, j: int| 0 <= i < j < tail.len() implies (#[trigger] tail[i]).1.off
            + tail[i].1.len <= (#[trigger] tail[j]).1.off by {
            assert(tail[i] == rest[i + 1]);
            assert(tail[j] == rest[j + 1]);
        }
        lemma_walk_is_exact(id, now, tail, p);
        assert(all == walk_on(id, now, tail));
    } else {
        assert(all == now.segs);
        assert(now.off == to);
    }
    if w.off <= p {
        assert forall|i: int|
            0 <= i < rest.len() && reaches((#[trigger] rest[i]).1, p) implies part_at(all, to, p)
            == Some(rest[i].1) by {
            if i > 0 {
                assert(rest[i] == tail[i - 1]);
                assert(p >= end);
                assert(now.len > 0);
            }
        }
        if forall|i: int| 0 <= i < rest.len() ==> !reaches((#[trigger] rest[i]).1, p) {
            assert(!reaches(rest[0].1, p));
            assert forall|i: int| 0 <= i < tail.len() implies !reaches(
                (#[trigger] tail[i]).1,
                p,
            ) by {
                assert(tail[i] == rest[i + 1]);
            }
        }
    }
}

/// The walk meets each entry of the image that ends behind the start of the range, and no
/// other: an entry comes before the first key if and only if it ends before.
pub proof fn law_first_key_misses_nothing(off: u64, first: DedupRange, key: DedupRange)
    requires
        first.id@ == key.id@,
        first.start == 0,
        first.end == off + 1,
    ensures
        (key.end < first.end || (key.end == first.end && key.start < first.start)) <==> key.end
            <= off,
{
}

/// Whether a range is kept as one chunk. It is an error to ask for a range that has several
/// parts.
pub fn single_part_known(segs: &Vec<Segment>) -> (r: Result<bool, Error>)
    ensures
        match r {
            Ok(known) => segs@.len() == 1 && known == method_known(segs@[0].0.cs),
            Err(e) => segs@.len() != 1 && e.kind == ErrorKind::InvalidInput && e.message@
                == "Invalid range"@,
        },
{
    if segs.len() != 1 {
        return Err(Error::new(ErrorKind::InvalidInput, "Invalid range"));
    }
    Ok(segs[0].0.cs.is_valid())
}

/// Whether every part is kept as a chunk.
pub open spec fn all_known(segs: Seq<Segment>) -> bool {
    forall|i: int| 0 <= i < segs.len() ==> method_known((#[trigger] segs[i]).0.cs)
}

/// Whether every part of a range is kept as a chunk.
pub fn all_parts_known(segs: &Vec<Segment>) -> (r: bool)
    ensures
        r == forall|i: int| 0 <= i < segs@.len() ==> method_known((#[trigger] segs@[i]).0.cs),
        r == all_known(segs@),
{
    let mut i: usize = 0;
    while i < segs.len()
        invariant
            i <= segs@.len(),
            forall|j: int| 0 <= j < i ==> method_known((#[trigger] segs@[j]).0.cs),
        decreases segs@.len() - i,
    {
        if !segs[i].0.cs.is_valid() {
            assert(!method_known(segs@[i as int].0.cs));
            return false;
        }
        i = i + 1;
    }
    true
}

/// The range of the image whose parts decide whether the local copy of a chunk can be dropped:
/// its start and length. `None` where the chunk starts behind the end of the image.
pub fn gc_chunk_range(chunk_id: usize, backend_size: u64) -> (r: Option<(u64, usize)>)
    requires
        (chunk_id + 1) * CHUNK_SIZE <= usize::MAX,
        backend_size <= usize::MAX,
    ensures
        match r {
            None => chunk_id * CHUNK_SIZE > backend_size,
            Some((start, len)) => {
                &&& chunk_id * CHUNK_SIZE <= backend_size
                &&& start == chunk_id * CHUNK_SIZE
                &&& start + len == if (chunk_id + 1) * CHUNK_SIZE <= backend_size {
                    (chunk_id + 1) * CHUNK_SIZE
                } else {
                    backend_size as int
                }
            },
        },
{
    let start: usize = chunk_id * CHUNK_SIZE;
    if start as u64 > backend_size {
        return None;
    }
    let full: usize = (chunk_id + 1) * CHUNK_SIZE;
    let end: usize = if full <= backend_size as usize {
        full
    } else {
        backend_size as usize
    };
    Some((start as u64, end - start))
}

/// The local copy of a chunk is dropped only where each of its bytes in the image is held by a
/// chunk in the chunk database, as the index says.
pub proof fn law_dropped_chunk_is_kept_elsewhere(
    chunk_id: int,
    backend_size: int,
    segs: Seq<Segment>,
    p: int,
)
    requires
        0 <= chunk_id,
        chunk_id * CHUNK_SIZE <= p < (chunk_id + 1) * CHUNK_SIZE,
        p < backend_size,
        tiles(
            segs,
            chunk_id * CHUNK_SIZE,
            if (chunk_id + 1) * CHUNK_SIZE <= backend_size {
                (chunk_id + 1) * CHUNK_SIZE
            } else {
                backend_size
            },
        ),
        forall|i: int| 0 <= i < segs.len() ==> method_known((#[trigger] segs[i]).0.cs),
    ensures
        exists|i: int| 0 <= i < segs.len() && covers((#[trigger] segs[i]).0, p),
{
    let to = if (chunk_id + 1) * CHUNK_SIZE <= backend_size {
        (chunk_id + 1) * CHUNK_SIZE
    } else {
        backend_size
    };
    law_known_parts_cover_the_range(segs, chunk_id * CHUNK_SIZE, to, p);
}

/// A request to turn a range of the image into a chunk.
#[derive(Debug, Eq, PartialEq)]
pub struct DedupRequest {
    off: u64,
    len: u32,
    check_sum: Option<CheckSum>,
    method: CheckSumMethod,
}

impl DedupRequest {
    /// Where the range starts.
    pub closed spec fn spec_offset(&self) -> u64 {
        self.off
    }

    /// The length of the range.
    pub closed spec fn spec_len(&self) -> u32 {
        self.len
    }

    /// The checksum of the range, where it is known beforehand.
    pub closed spec fn spec_check_sum(&self) -> Option<CheckSum> {
        self.check_sum
    }

    /// The method by which the checksum is computed.
    pub closed spec fn spec_method(&self) -> CheckSumMethod {
        self.method
    }

    /// A request for `len` bytes from `off` on, of which no checksum is known.
    pub fn new(off: u64, len: u32, method: CheckSumMethod) -> (r: DedupRequest)
        ensures
            r.spec_offset() == off,
            r.spec_len() == len,
            r.spec_check_sum() is None,
            r.spec_method() == method,
    {
        DedupRequest { off, len, check_sum: None, method }
    }

    /// Where the range starts.
    pub fn offset(&self) -> (r: u64)
        ensures
            r == self.spec_offset(),
    {
        self.off
    }

    /// The length of the range.
    pub fn size(&self) -> (r: usize)
        ensures
            r == self.spec_len(),
    {
        self.len as usize
    }

    /// The job that serves the request for an image of `backend_size` bytes.
    pub fn job(&self, id: [u8; 32], backend_size: u64) -> (r: DedupJob)
        ensures
            r.id == id,
            r.off == self.spec_offset(),
            r.len == self.spec_len(),
            r.check_sum == self.spec_check_sum(),
            r.method == self.spec_method(),
            r.backend_size == backend_size,
    {
        DedupJob {
            id,
            off: self.off,
            len: self.len,
            check_sum: self.check_sum,
            method: self.method,
            backend_size,
        }
    }
}

/// A range of an image that is to become a chunk.
#[derive(Debug, Copy, Clone)]
pub struct DedupJob {
    /// The image.
    pub id: [u8; 32],
    /// Where the range starts.
    pub off: u64,
    /// The length of the range.
    pub len: u32,
    /// The checksum of the range, where it is known beforehand.
    pub check_sum: Option<CheckSum>,
    /// The method by which the checksum is computed, where it is not.
    pub method: CheckSumMethod,
    /// The number of bytes in the image.
    pub backend_size: u64,
}

/// Where a job stands.
#[derive(Debug, Copy, Clone)]
pub enum DedupStage {
    /// Nothing was done yet.
    New,
    /// The index is asked what it says of the range.
    LookingUp,
    /// The chunk database is asked for the chunk that is known beforehand.
    Checking(CheckSum),
    /// The chunk is noted as used.
    Touching(CheckSum),
    /// The data is being read, to be stored under a checksum by this method.
    Fetching(CheckSumMethod),
    /// This many bytes of data are being stored as a chunk.
    Storing(CheckSum, u32),
    /// The index is being told.
    Recording,
    /// The job is done, or it failed.
    Finished,
}

/// What a job is told.
#[derive(Debug)]
pub enum DedupEvent {
    /// It may start.
    Start,
    /// The index has these parts for the range.
    Parts(Vec<Segment>),
    /// Whether the chunk database has the chunk.
    Present(bool),
    /// The data was read: `n` bytes of `buf` are filled.
    Fetched { buf: Vec<u8>, n: usize },
    /// What was asked for is done.
    Done,
}

/// What a job asks for next.
#[derive(Debug)]
pub enum DedupAction {
    /// Cut the range into the parts that the index has for it.
    LookUp(DedupRange),
    /// See whether the chunk database has this chunk.
    Check(CheckSum),
    /// Note that this chunk was used.
    Touch(CheckSum),
    /// Read `len` bytes of the image from `off` on.
    Fetch { off: u64, len: u32 },
    /// Store the data as a chunk.
    Store { cs: CheckSum, data: Vec<u8> },
    /// Tell the index which chunk holds a range.
    Record { range: DedupRange, info: DedupInfo },
    /// Nothing: the job is done.
    Finish,
    /// Nothing: the job failed.
    Fail(Error),
}

/// Whether an action is to fail with the given error.
pub open spec fn fails_with(action: DedupAction, kind: ErrorKind, message: Seq<char>) -> bool {
    action matches DedupAction::Fail(e) && e.kind == kind && e.message@ == message
}

/// Whether an action is to tell the index that the chunk `cs` holds the first `n` bytes of the
/// job's range.
pub open spec fn records(action: DedupAction, job: DedupJob, n: u32, cs: CheckSum) -> bool {
    action matches DedupAction::Record { range, info } && range.id == job.id && range.start
        == job.off && range.end == job.off + n && info == dedup_info(job.off, n, cs)
}

/// Whether a job's range can become a chunk: it lies within the image and starts at a chunk's
/// start, and its length is a multiple of the chunk size or reaches to the image's end.
pub open spec fn range_accepted(job: DedupJob) -> bool {
    &&& job.len > 0
    &&& job.off < job.backend_size
    &&& job.off % CHUNK_SIZE as u64 == 0
    &&& job.off + job.len <= u64::MAX
    &&& job.len % CHUNK_SIZE as u32 == 0 || job.off + job.len >= job.backend_size
}

/// What a job does first: an empty range is done, a range that cannot become a chunk is an
/// error, and any other one is looked up.
pub open spec fn dedup_start_rule(job: DedupJob, next: DedupStage, action: DedupAction) -> bool {
    if job.len == 0 {
        next is Finished && action is Finish
    } else if job.off >= job.backend_size {
        next is Finished && fails_with(
            action,
            ErrorKind::InvalidInput,
            "Offset "@ + decimal(job.off as nat) + " is out of range for backend size "@ + decimal(
                job.backend_size as nat,
            ) + ""@,
        )
    } else if job.off % CHUNK_SIZE as u64 != 0 {
        next is Finished && fails_with(
            action,
            ErrorKind::InvalidInput,
            "Offset "@ + decimal(job.off as nat) + " is not aligned to CHUNK_SIZE ("@ + decimal(
                CHUNK_SIZE as nat,
            ) + ")"@,
        )
    } else if job.off + job.len > u64::MAX {
        next is Finished && fails_with(
            action,
            ErrorKind::InvalidInput,
            "Range overflow: off="@ + decimal(job.off as nat) + ", len="@ + decimal(job.len as nat)
                + ""@,
        )
    } else if job.len % CHUNK_SIZE as u32 != 0 && job.off + job.len < job.backend_size {
        next is Finished && fails_with(
            action,
            ErrorKind::InvalidInput,
            "Length "@ + decimal(job.len as nat) + " is not aligned to CHUNK_SIZE ("@ + decimal(
                CHUNK_SIZE as nat,
            ) + ")"@,
        )
    } else {
        &&& next is LookingUp
        &&& action matches DedupAction::LookUp(range)
        &&& range.id == job.id
        &&& range.start == job.off
        &&& range.end == job.off + job.len
    }
}

/// What a job does with the data that was read: fewer bytes than were asked for are an error
/// unless they reach to the end of the image; what was read is stored as a chunk.
pub open spec fn dedup_fetched_rule(
    job: DedupJob,
    method: CheckSumMethod,
    buf: Seq<u8>,
    n: usize,
    next: DedupStage,
    action: DedupAction,
) -> bool {
    if n != job.len && job.off + n != job.backend_size {
        next is Finished && fails_with(
            action,
            ErrorKind::UnexpectedEof,
            "Short read: expected "@ + decimal(job.len as nat) + " bytes, got "@ + decimal(n as nat)
                + " bytes at offset "@ + decimal(job.off as nat) + ", backend size "@ + decimal(
                job.backend_size as nat,
            ),
        )
    } else {
        &&& action matches DedupAction::Store { cs, data }
        &&& next == DedupStage::Storing(cs, n as u32)
        &&& data@ == buf.take(n as int)
        &&& is_checksum_of(cs, data@, method)
    }
}

/// The rule of a job: what it asks for next, and where it then stands.
pub open spec fn dedup_rule(
    job: DedupJob,
    stage: DedupStage,
    event: DedupEvent,
    next: DedupStage,
    action: DedupAction,
) -> bool {
    match (stage, event) {
        (DedupStage::New, DedupEvent::Start) => dedup_start_rule(job, next, action),
        (DedupStage::LookingUp, DedupEvent::Parts(segs)) => if segs@.len() != 1 {
            next is Finished && fails_with(action, ErrorKind::InvalidInput, "Invalid range"@)
        } else if method_known(segs@[0].0.cs) {
            next is Finished && action is Finish
        } else {
            match job.check_sum {
                Some(cs) => next == DedupStage::Checking(cs) && action == DedupAction::Check(cs),
                None => next == DedupStage::Fetching(job.method) && action == (
                DedupAction::Fetch { off: job.off, len: job.len }),
            }
        },
        (DedupStage::Checking(cs), DedupEvent::Present(there)) => if there {
            next == DedupStage::Touching(cs) && action == DedupAction::Touch(cs)
        } else {
            next == DedupStage::Fetching(cs.method) && action == (DedupAction::Fetch {
                off: job.off,
                len: job.len,
            })
        },
        (DedupStage::Touching(cs), DedupEvent::Done) => {
            next is Recording && records(action, job, job.len, cs)
        },
        (DedupStage::Fetching(method), DedupEvent::Fetched { buf, n }) => dedup_fetched_rule(
            job,
            method,
            buf@,
            n,
            next,
            action,
        ),
        (DedupStage::Storing(cs, n), DedupEvent::Done) => {
            next is Recording && records(action, job, n, cs)
        },
        (DedupStage::Recording, DedupEvent::Done) => next is Finished && action is Finish,
        _ => next is Finished && fails_with(
            action,
            ErrorKind::Other,
            "unexpected event in deduplication"@,
        ),
    }
}

/// The work of turning a range of an image into a chunk.
#[derive(Debug)]
pub struct DedupTask {
    job: DedupJob,
    stage: DedupStage,
}

impl DedupTask {
    /// The job.
    pub closed spec fn job(self) -> DedupJob {
        self.job
    }

    /// Where the job stands.
    pub closed spec fn stage(self) -> DedupStage {
        self.stage
    }

    /// Work goes on only with a range that can become a chunk, and no more is stored than was
    /// asked for.
    pub open spec fn wf(self) -> bool {
        &&& !(self.stage() is New) && !(self.stage() is Finished) ==> range_accepted(self.job())
        &&& self.stage() matches DedupStage::Storing(_, n) ==> n <= self.job().len
    }

    /// A job that has not started.
    pub fn new(job: DedupJob) -> (r: DedupTask)
        ensures
            r.wf(),
            r.job() == job,
            r.stage() is New,
    {
        DedupTask { job, stage: DedupStage::New }
    }

    /// Takes what happened, and returns what to do next. An event that was not asked for ends
    /// the job.
    pub fn on_event(&mut self, event: DedupEvent) -> (r: DedupAction)
        requires
            old(self).wf(),
            event matches DedupEvent::Fetched { buf, n } ==> buf@.len() == old(self).job().len && n
                <= buf@.len(),
        ensures
            final(self).wf(),
            final(self).job() == old(self).job(),
            dedup_rule(old(self).job(), old(self).stage(), event, final(self).stage(), r),
    {
        match (self.stage, event) {
            (DedupStage::New, DedupEvent::Start) => self.start(),
            (DedupStage::LookingUp, DedupEvent::Parts(segs)) => {
                match single_part_known(&segs) {
                    Err(e) => {
                        self.stage = DedupStage::Finished;
                        DedupAction::Fail(e)
                    },
                    Ok(true) => {
                        self.stage = DedupStage::Finished;
                        DedupAction::Finish
                    },
                    Ok(false) => {
                        match self.job.check_sum {
                            Some(cs) => {
                                self.stage = DedupStage::Checking(cs);
                                DedupAction::Check(cs)
                            },
                            None => self.fetch(self.job.method),
                        }
                    },
                }
            },
            (DedupStage::Checking(cs), DedupEvent::Present(there)) => {
                if there {
                    self.stage = DedupStage::Touching(cs);
                    DedupAction::Touch(cs)
                } else {
                    self.fetch(cs.method)
                }
            },
            (DedupStage::Touching(cs), DedupEvent::Done) => self.record(self.job.len, cs),
            (DedupStage::Fetching(method), DedupEvent::Fetched { buf, n }) => self.fetched(
                method,
                buf,
                n,
            ),
            (DedupStage::Storing(cs, n), DedupEvent::Done) => self.record(n, cs),
            (DedupStage::Recording, DedupEvent::Done) => {
                self.stage = DedupStage::Finished;
                DedupAction::Finish
            },
            _ => self.fail(
                ErrorKind::Other,
                "unexpected event in deduplication".to_owned(),
            ),
        }
    }

    /// Looks at the range.
    fn start(&mut self) -> (r: DedupAction)
        ensures
            final(self).wf(),
            final(self).job() == old(self).job(),
            dedup_start_rule(old(self).job(), final(self).stage(), r),
    {
        let job: DedupJob = self.job;
        if job.len == 0 {
            self.stage = DedupStage::Finished;
            return DedupAction::Finish;
        }
        if job.off >= job.backend_size {
            return self.fail(
                ErrorKind::InvalidInput,
                text_with_two(
                    "Offset ",
                    job.off,
                    " is out of range for backend size ",
                    job.backend_size,
                    "",
                ),
            );
        }
        if job.off % CHUNK_SIZE as u64 != 0 {
            return self.fail(
                ErrorKind::InvalidInput,
                text_with_two(
                    "Offset ",
                    job.off,
                    " is not aligned to CHUNK_SIZE (",
                    CHUNK_SIZE as u64,
                    ")",
                ),
            );
        }
        let end: u64 = match job.off.checked_add(job.len as u64) {
            Some(end) => end,
            None => {
                return self.fail(
                    ErrorKind::InvalidInput,
                    text_with_two("Range overflow: off=", job.off, ", len=", job.len as u64, ""),
                );
            },
        };
        if job.len % CHUNK_SIZE as u32 != 0 && end < job.backend_size {
            return self.fail(
                ErrorKind::InvalidInput,
                text_with_two(
                    "Length ",
                    job.len as u64,
                    " is not aligned to CHUNK_SIZE (",
                    CHUNK_SIZE as u64,
                    ")",
                ),
            );
        }
        self.stage = DedupStage::LookingUp;
        DedupAction::LookUp(DedupRange::new_with_id(job.id, job.off, job.len))
    }

    /// Reads the range.
    fn fetch(&mut self, method: CheckSumMethod) -> (r: DedupAction)
        requires
            range_accepted(old(self).job()),
        ensures
            final(self).wf(),
            final(self).job() == old(self).job(),
            final(self).stage() == DedupStage::Fetching(method),
            r == (DedupAction::Fetch { off: old(self).job().off, len: old(self).job().len }),
    {
        self.stage = DedupStage::Fetching(method);
        DedupAction::Fetch { off: self.job.off, len: self.job.len }
    }

    /// Turns what was read into a chunk.
    fn fetched(&mut self, method: CheckSumMethod, buf: Vec<u8>, n: usize) -> (r: DedupAction)
        requires
            range_accepted(old(self).job()),
            buf@.len() == old(self).job().len,
            n <= buf@.len(),
        ensures
            final(self).wf(),
            final(self).job() == old(self).job(),
            dedup_fetched_rule(old(self).job(), method, buf@, n, final(self).stage(), r),
    {
        let job: DedupJob = self.job;
        if n != job.len as usize && job.off + n as u64 != job.backend_size {
            let mut text: String = text_with_two(
                "Short read: expected ",
                job.len as u64,
                " bytes, got ",
                n as u64,
                " bytes at offset ",
            );
            let at: String = to_decimal(job.off);
            text.append(at.as_str());
            text.append(", backend size ");
            let size: String = to_decimal(job.backend_size);
            text.append(size.as_str());
            return self.fail(ErrorKind::UnexpectedEof, text);
        }
        let mut data: Vec<u8> = buf;
        data.truncate(n);
        assert(data@ =~= buf@.take(n as int));
        let cs: CheckSum = CheckSum::from_data(data.as_slice(), method);
        self.stage = DedupStage::Storing(cs, n as u32);
        DedupAction::Store { cs, data }
    }

    /// Tells the index that `cs` holds the first `n` bytes of the range.
    fn record(&mut self, n: u32, cs: CheckSum) -> (r: DedupAction)
        requires
            range_accepted(old(self).job()),
            n <= old(self).job().len,
        ensures
            final(self).wf(),
            final(self).job() == old(self).job(),
            final(self).stage() is Recording,
            records(r, old(self).job(), n, cs),
    {
        self.stage = DedupStage::Recording;
        let range: DedupRange = DedupRange::new_with_id(self.job.id, self.job.off, n);
        DedupAction::Record { range, info: DedupInfo::new(range.start, range.size() as u32, cs) }
    }

    /// Ends the job with an error.
    fn fail(&mut self, kind: ErrorKind, message: String) -> (r: DedupAction)
        ensures
            final(self).wf(),
            final(self).job() == old(self).job(),
            final(self).stage() is Finished,
            fails_with(r, kind, message@),
    {
        self.stage = DedupStage::Finished;
        DedupAction::Fail(Error { kind, message })
    }
}

/// A text with two numbers in it.
pub fn text_with_two(a: &str, x: u64, b: &str, y: u64, c: &str) -> (r: String)
    ensures
        r@ == a@ + decimal(x as nat) + b@ + decimal(y as nat) + c@,
{
    let mut s: String = a.to_owned();
    let xs: String = to_decimal(x);
    s.append(xs.as_str());
    s.append(b);
    let ys: String = to_decimal(y);
    s.append(ys.as_str());
    s.append(c);
    s
}

/// A range that can become a chunk is taken on; any other one is refused, unless it is empty.
pub proof fn law_job_refused_unless_range_accepted(
    job: DedupJob,
    next: DedupStage,
    action: DedupAction,
)
    requires
        dedup_start_rule(job, next, action),
    ensures
        action is LookUp <==> range_accepted(job),
        action is Fail <==> job.len > 0 && !range_accepted(job),
        action is Finish <==> job.len == 0,
{
}

/// What a job has the index say is true of the data that it has stored: the recorded range is
/// as long as the data, and the recorded checksum is that of the data.
pub proof fn law_recorded_chunk_is_what_was_read(
    job: DedupJob,
    method: CheckSumMethod,
    buf: Seq<u8>,
    n: usize,
    storing: DedupStage,
    store: DedupAction,
    recording: DedupStage,
    record: DedupAction,
)
    requires
        buf.len() == job.len,
        n <= buf.len(),
        dedup_fetched_rule(job, method, buf, n, storing, store),
        storing is Storing,
        dedup_rule(job, storing, DedupEvent::Done, recording, record),
    ensures
        record matches DedupAction::Record { range, info } && {
            &&& range.start == job.off
            &&& range.end == job.off + n
            &&& info.off == job.off
            &&& info.len == n
            &&& is_checksum_of(loaded_form(info.cs), buf.take(n as int), method)
        },
{
}

/// A walk that has bytes without a part adds at least one part.
proof fn lemma_walk_adds_part(id: Seq<u8>, w: Walk, entries: Seq<(DedupRange, DedupInfo)>)
    requires
        w.len > 0,
    ensures
        walk_on(id, w, entries).len() > w.segs.len(),
    decreases entries.len(),
{
    if entries.len() > 0 {
        let (now, more) = walk_step(id, w, entries[0].0, entries[0].1);
        if more {
            lemma_walk_adds_part(id, now, entries.skip(1));
        }
    }
}

/// A range that was turned into a chunk with a known method is not read again: where the index
/// gives what a job recorded of it, another job for the range ends without reading. It is done
/// where the whole range was recorded; where the image ended before the range did, it is refused.
pub proof fn law_deduplicated_range_is_not_read_again(
    job: DedupJob,
    n: u32,
    cs: CheckSum,
    entries: Seq<(DedupRange, DedupInfo)>,
    segs: Vec<Segment>,
    next: DedupStage,
    action: DedupAction,
)
    requires
        range_accepted(job),
        0 < n <= job.len,
        method_known(dedup_info(job.off, n, cs).cs),
        entries.len() > 0,
        entries[0].0.id == job.id,
        entries[0].1 == dedup_info(job.off, n, cs),
        segs@ == segments(job.id@, job.off, job.len as nat, entries),
        dedup_rule(job, DedupStage::LookingUp, DedupEvent::Parts(segs), next, action),
    ensures
        if n == job.len {
            action is Finish
        } else {
            fails_with(action, ErrorKind::InvalidInput, "Invalid range"@)
        },
{
    let w = Walk { off: job.off, len: job.len as nat, segs: Seq::empty() };
    let (now, more) = walk_step(job.id@, w, entries[0].0, entries[0].1);
    assert(now.segs =~= seq![(entries[0].1, n as u64)]);
    if n < job.len {
        lemma_walk_adds_part(job.id@, now, entries.skip(1));
    }
}

/// What serves a read.
#[derive(Debug, Copy, Clone, PartialEq, Eq, Structural)]
pub enum ReadStage {
    /// Nothing was read yet.
    Ready,
    /// The chunk database is asked for a part; `true` where that was done before.
    Chunk(bool),
    /// The local chunk server is asked to bring the chunk.
    Prefetching,
    /// A part is read from the image.
    Backend,
    /// All is read.
    Finished,
}

/// What a read is told.
#[derive(Debug, Copy, Clone, PartialEq, Eq, Structural)]
pub enum ReadEvent {
    /// It may start.
    Start,
    /// The chunk database gave this many bytes.
    Hit(usize),
    /// The chunk database does not have the chunk.
    Miss,
    /// The chunk database failed.
    ChunkError,
    /// The local chunk server has answered, in whatever way.
    Prefetched,
    /// The image gave this many bytes.
    BackendRead(usize),
}

/// What a read asks for next.
#[derive(Debug, Copy, Clone)]
pub enum ReadAction {
    /// Copy `len` bytes of a chunk, from `start` on, to the position `pos`.
    Chunk { cs: CheckSum, start: usize, len: usize, pos: usize },
    /// Ask the local chunk server to bring a chunk.
    Prefetch(CheckSum),
    /// Copy `len` bytes of the image, from `off` on, to the position `pos`. A chunk that the
    /// index speaks of and that is missing is to be stored again.
    Backend { off: usize, len: usize, pos: usize, resync: Option<DedupInfo> },
    /// Nothing: this many bytes were read.
    Finish(usize),
}

/// A read of a part of an image that is cut into parts.
pub ghost struct ReadPlan {
    /// The parts.
    pub segs: Seq<Segment>,
    /// Whether there is a local chunk server.
    pub has_client: bool,
    /// Where the read starts.
    pub off: nat,
}

/// Asks for the part numbered `i`, when `pos` bytes have been read.
pub open spec fn read_part(
    plan: ReadPlan,
    i: int,
    pos: nat,
    next: ReadStage,
    action: ReadAction,
) -> bool {
    if i >= plan.segs.len() {
        next == ReadStage::Finished && action == ReadAction::Finish(pos as usize)
    } else {
        let (info, n) = plan.segs[i];
        let at = plan.off + pos;
        if method_known(info.cs) && info.off <= at {
            next == ReadStage::Chunk(false) && action == (ReadAction::Chunk {
                cs: loaded_form(info.cs),
                start: (at - info.off) as usize,
                len: n as usize,
                pos: pos as usize,
            })
        } else {
            next == ReadStage::Backend && action == (ReadAction::Backend {
                off: at as usize,
                len: n as usize,
                pos: pos as usize,
                resync: None,
            })
        }
    }
}

/// The rule of a read: what it asks for next, and where it then stands. `i` is the part that
/// is being read, and `pos` the number of bytes that were read before it.
pub open spec fn read_rule(
    plan: ReadPlan,
    stage: ReadStage,
    i: int,
    pos: nat,
    event: ReadEvent,
    next: ReadStage,
    next_i: int,
    next_pos: nat,
    action: ReadAction,
) -> bool {
    match (stage, event) {
        (ReadStage::Ready, ReadEvent::Start) => {
            next_i == i && next_pos == pos && read_part(plan, i, pos, next, action)
        },
        (ReadStage::Chunk(_), ReadEvent::Hit(n)) => {
            next_i == i + 1 && next_pos == pos + n && read_part(plan, i + 1, pos + n as nat, next, action)
        },
        (ReadStage::Backend, ReadEvent::BackendRead(n)) => {
            next_i == i + 1 && next_pos == pos + n && read_part(plan, i + 1, pos + n as nat, next, action)
        },
        (ReadStage::Chunk(retried), ReadEvent::Miss) => {
            let info = plan.segs[i].0;
            &&& next_i == i && next_pos == pos
            &&& if !retried && plan.has_client {
                next == ReadStage::Prefetching && action == ReadAction::Prefetch(
                    loaded_form(info.cs),
                )
            } else {
                next == ReadStage::Backend && action == (ReadAction::Backend {
                    off: (plan.off + pos) as usize,
                    len: plan.segs[i].1 as usize,
                    pos: pos as usize,
                    resync: Some(info),
                })
            }
        },
        (ReadStage::Chunk(_), ReadEvent::ChunkError) => {
            &&& next_i == i && next_pos == pos
            &&& next == ReadStage::Backend && action == (ReadAction::Backend {
                off: (plan.off + pos) as usize,
                len: plan.segs[i].1 as usize,
                pos: pos as usize,
                resync: None,
            })
        },
        (ReadStage::Prefetching, ReadEvent::Prefetched) => {
            let info = plan.segs[i].0;
            &&& next_i == i && next_pos == pos
            &&& next == ReadStage::Chunk(true) && action == (ReadAction::Chunk {
                cs: loaded_form(info.cs),
                start: (plan.off + pos - info.off) as usize,
                len: plan.segs[i].1 as usize,
                pos: pos as usize,
            })
        },
        _ => {
            next_i == i && next_pos == pos && next == ReadStage::Finished && action
                == ReadAction::Finish(pos as usize)
        },
    }
}

/// The sum of the lengths of the first `i` parts.
pub open spec fn parts_len(segs: Seq<Segment>, i: int) -> nat
    decreases i,
{
    if i <= 0 || i > segs.len() {
        0
    } else {
        parts_len(segs, i - 1) + segs[i - 1].1 as nat
    }
}

/// The parts of a range are together as long as the range.
pub proof fn lemma_tiles_len(segs: Seq<Segment>, from: int, to: int)
    requires
        tiles(segs, from, to),
    ensures
        parts_len(segs, segs.len() as int) == to - from,
        from <= to,
    decreases segs.len(),
{
    if segs.len() > 0 {
        let init = segs.drop_last();
        lemma_tiles_len(init, from, to - segs.last().1);
        lemma_parts_len_prefix(init, segs, init.len() as int);
    }
}

proof fn lemma_parts_len_prefix(a: Seq<Segment>, b: Seq<Segment>, i: int)
    requires
        0 <= i <= a.len() <= b.len(),
        forall|j: int| 0 <= j < a.len() ==> a[j] == b[j],
    ensures
        parts_len(a, i) == parts_len(b, i),
    decreases i,
{
    if i > 0 {
        lemma_parts_len_prefix(a, b, i - 1);
    }
}

proof fn lemma_parts_len_monotone(segs: Seq<Segment>, i: int, j: int)
    requires
        0 <= i <= j <= segs.len(),
    ensures
        parts_len(segs, i) <= parts_len(segs, j),
    decreases j - i,
{
    if i < j {
        lemma_parts_len_monotone(segs, i, j - 1);
    }
}

/// The work of a read that is served part by part: from the chunk database where the index
/// speaks of a chunk, with the local chunk server's help where the chunk is missing, and from
/// the image in all other cases.
#[derive(Debug)]
pub struct ReadTask {
    segs: Vec<Segment>,
    has_client: bool,
    off: usize,
    part: usize,
    pos: usize,
    stage: ReadStage,
}

impl ReadTask {
    /// What is to be read.
    pub closed spec fn plan(self) -> ReadPlan {
        ReadPlan { segs: self.segs@, has_client: self.has_client, off: self.off as nat }
    }

    /// The part that is being read.
    pub closed spec fn part(self) -> int {
        self.part as int
    }

    /// The number of bytes that were read before it.
    pub closed spec fn pos(self) -> nat {
        self.pos as nat
    }

    /// What serves the read.
    pub closed spec fn stage(self) -> ReadStage {
        self.stage
    }

    /// Whether a part is being read.
    pub open spec fn busy(self) -> bool {
        self.stage() is Chunk || self.stage() is Prefetching || self.stage() is Backend
    }

    /// The range lies within what offsets can denote, a part that is being read is one of the
    /// range, and no more bytes were read than the parts before it have.
    pub open spec fn wf(self) -> bool {
        let segs = self.plan().segs;
        &&& self.plan().off + parts_len(segs, segs.len() as int) <= usize::MAX
        &&& 0 <= self.part() <= segs.len()
        &&& self.busy() ==> self.part() < segs.len()
        &&& self.pos() <= parts_len(segs, self.part())
        &&& self.stage() is Chunk || self.stage() is Prefetching ==> method_known(
            segs[self.part()].0.cs,
        ) && segs[self.part()].0.off <= self.plan().off + self.pos()
    }

    /// A read of the parts that the index has for the `len` bytes from `off` on. Where there
    /// are none, because the range is empty or the index cannot be read, the whole range comes
    /// from the image.
    pub fn new(off: usize, len: usize, parts: Option<Vec<Segment>>, has_client: bool) -> (r: ReadTask)
        requires
            off + len <= usize::MAX,
            parts matches Some(segs) ==> tiles(segs@, off as int, off + len),
        ensures
            r.wf(),
            r.plan().off == off,
            r.plan().has_client == has_client,
            r.plan().segs == match parts {
                Some(segs) => if segs@.len() == 0 {
                    seq![hole(off as u64, len as u64)]
                } else {
                    segs@
                },
                None => seq![hole(off as u64, len as u64)],
            },
            r.part() == 0,
            r.pos() == 0,
            r.stage() == ReadStage::Ready,
    {
        proof {
            reveal_with_fuel(parts_len, 2);
        }
        let whole: Vec<Segment> = vec![make_hole(off as u64, len as u64)];
        assert(whole@ =~= seq![hole(off as u64, len as u64)]);
        let segs: Vec<Segment> = match parts {
            Some(segs) => {
                proof {
                    lemma_tiles_len(segs@, off as int, off + len);
                }
                if segs.len() == 0 {
                    whole
                } else {
                    segs
                }
            },
            None => whole,
        };
        ReadTask { segs, has_client, off, part: 0, pos: 0, stage: ReadStage::Ready }
    }

    /// Takes what happened, and returns what to do next. An event that was not asked for ends
    /// the read.
    pub fn on_event(&mut self, event: ReadEvent) -> (r: ReadAction)
        requires
            old(self).wf(),
            old(self).busy() ==> (event matches ReadEvent::Hit(n) ==> n <= old(self).plan().segs[old(self).part()].1),
            old(self).busy() ==> (event matches ReadEvent::BackendRead(n) ==> n <= old(self).plan().segs[old(self).part()].1),
        ensures
            final(self).wf(),
            final(self).plan() == old(self).plan(),
            read_rule(
                old(self).plan(),
                old(self).stage(),
                old(self).part(),
                old(self).pos(),
                event,
                final(self).stage(),
                final(self).part(),
                final(self).pos(),
                r,
            ),
    {
        proof {
            lemma_parts_len_monotone(self.segs@, self.part(), self.segs@.len() as int);
        }
        match (self.stage, event) {
            (ReadStage::Ready, ReadEvent::Start) => self.read_part(),
            (ReadStage::Chunk(_), ReadEvent::Hit(n)) => self.advance(n),
            (ReadStage::Backend, ReadEvent::BackendRead(n)) => self.advance(n),
            (ReadStage::Chunk(retried), ReadEvent::Miss) => {
                let info: DedupInfo = self.segs[self.part].0;
                if !retried && self.has_client {
                    self.stage = ReadStage::Prefetching;
                    ReadAction::Prefetch(CheckSum::from(info.cs))
                } else {
                    self.backend(Some(info))
                }
            },
            (ReadStage::Chunk(_), ReadEvent::ChunkError) => self.backend(None),
            (ReadStage::Prefetching, ReadEvent::Prefetched) => {
                let (info, n) = self.segs[self.part];
                self.stage = ReadStage::Chunk(true);
                ReadAction::Chunk {
                    cs: CheckSum::from(info.cs),
                    start: self.off + self.pos - info.off as usize,
                    len: n as usize,
                    pos: self.pos,
                }
            },
            _ => {
                self.stage = ReadStage::Finished;
                ReadAction::Finish(self.pos)
            },
        }
    }

    /// Goes on behind `n` bytes that were read of the part.
    fn advance(&mut self, n: usize) -> (r: ReadAction)
        requires
            old(self).wf(),
            old(self).busy(),
            n <= old(self).plan().segs[old(self).part()].1,
        ensures
            final(self).wf(),
            final(self).plan() == old(self).plan(),
            final(self).part() == old(self).part() + 1,
            final(self).pos() == old(self).pos() + n,
            read_part(
                old(self).plan(),
                old(self).part() + 1,
                old(self).pos() + n as nat,
                final(self).stage(),
                r,
            ),
    {
        proof {
            lemma_parts_len_monotone(self.segs@, self.part() + 1, self.segs@.len() as int);
        }
        assert(self.segs.len() == self.segs@.len());
        self.part = self.part + 1;
        self.pos = self.pos + n;
        self.stage = ReadStage::Ready;
        self.read_part()
    }

    /// Asks for the part that is next.
    fn read_part(&mut self) -> (r: ReadAction)
        requires
            old(self).wf(),
            old(self).stage() is Ready,
        ensures
            final(self).wf(),
            final(self).plan() == old(self).plan(),
            final(self).part() == old(self).part(),
            final(self).pos() == old(self).pos(),
            read_part(old(self).plan(), old(self).part(), old(self).pos(), final(self).stage(), r),
    {
        if self.part >= self.segs.len() {
            self.stage = ReadStage::Finished;
            return ReadAction::Finish(self.pos);
        }
        proof {
            lemma_parts_len_monotone(self.segs@, self.part(), self.segs@.len() as int);
        }
        let (info, n) = self.segs[self.part];
        let at: usize = self.off + self.pos;
        if info.cs.is_valid() && info.off <= at as u64 {
            self.stage = ReadStage::Chunk(false);
            return ReadAction::Chunk {
                cs: CheckSum::from(info.cs),
                start: at - info.off as usize,
                len: n as usize,
                pos: self.pos,
            };
        }
        self.backend(None)
    }

    /// Has the part read from the image.
    fn backend(&mut self, resync: Option<DedupInfo>) -> (r: ReadAction)
        requires
            old(self).wf(),
            old(self).part() < old(self).plan().segs.len(),
            old(self).plan().off + old(self).pos() <= usize::MAX,
        ensures
            final(self).wf(),
            final(self).plan() == old(self).plan(),
            final(self).part() == old(self).part(),
            final(self).pos() == old(self).pos(),
            final(self).stage() == ReadStage::Backend,
            r == (ReadAction::Backend {
                off: (old(self).plan().off + old(self).pos()) as usize,
                len: old(self).plan().segs[old(self).part()].1 as usize,
                pos: old(self).pos() as usize,
                resync,
            }),
    {
        self.stage = ReadStage::Backend;
        let n: u64 = self.segs[self.part].1;
        ReadAction::Backend { off: self.off + self.pos, len: n as usize, pos: self.pos, resync }
    }
}

/// What a read copies out of a chunk is what the image has at that place, where the chunk holds
/// what the index says of it.
pub proof fn law_chunk_part_is_image_data(
    image: Seq<u8>,
    chunk: Seq<u8>,
    seg: Segment,
    at: int,
)
    requires
        part_holds(seg, at),
        method_known(seg.0.cs),
        seg.0.off + seg.0.len <= image.len(),
        chunk == image.subrange(seg.0.off as int, seg.0.off + seg.0.len),
    ensures
        at - seg.0.off + seg.1 <= chunk.len(),
        chunk.subrange(at - seg.0.off, at - seg.0.off + seg.1) == image.subrange(at, at + seg.1),
{
    assert(chunk.subrange(at - seg.0.off, at - seg.0.off + seg.1) =~= image.subrange(
        at,
        at + seg.1,
    ));
}

/// A read whose parts each give all of their bytes ends with as many bytes as were asked for,
/// and asks for each part where the part before it ended.
pub proof fn law_full_parts_make_a_full_read(
    segs: Seq<Segment>,
    from: int,
    to: int,
    i: int,
)
    requires
        tiles(segs, from, to),
        0 <= i < segs.len(),
    ensures
        part_holds(segs[i], from + parts_len(segs, i)),
        parts_len(segs, i + 1) == parts_len(segs, i) + segs[i].1,
        parts_len(segs, segs.len() as int) == to - from,
    decreases segs.len(),
{
    lemma_tiles_len(segs, from, to);
    let init = segs.drop_last();
    lemma_tiles_len(init, from, to - segs.last().1);
    if i < init.len() {
        law_full_parts_make_a_full_read(init, from, to - segs.last().1, i);
        lemma_parts_len_prefix(init, segs, i);
        assert(init[i] == segs[i]);
    } else {
        lemma_parts_len_prefix(init, segs, i);
    }
}

/// Whether the `n` bytes from `pos` on in a buffer are what serves the part numbered `i` of a
/// read: the bytes of the chunk that the index speaks of, which holds what the index says of it,
/// or the bytes of the image.
pub open spec fn served(
    image: Seq<u8>,
    plan: ReadPlan,
    stage: ReadStage,
    i: int,
    pos: nat,
    n: nat,
    chunk: Seq<u8>,
    buf: Seq<u8>,
) -> bool {
    let info = plan.segs[i].0;
    let at = plan.off + pos;
    if stage is Chunk {
        &&& info.off <= at
        &&& at + n <= info.off + info.len <= image.len()
        &&& chunk == image.subrange(info.off as int, info.off + info.len)
        &&& buf.subrange(pos as int, (pos + n) as int) == chunk.subrange(
            at - info.off,
            at - info.off + n,
        )
    } else {
        &&& at + n <= image.len()
        &&& buf.subrange(pos as int, (pos + n) as int) == image.subrange(at as int, (at + n) as int)
    }
}

/// Whatever serves the parts of a read, and however many bytes each of them gives, the bytes
/// that were read so far are those that the image has from the start of the read on. When the
/// read ends, it reports just these bytes.
pub proof fn law_read_gives_image_data(
    image: Seq<u8>,
    plan: ReadPlan,
    stage: ReadStage,
    i: int,
    pos: nat,
    n: usize,
    next: ReadStage,
    next_i: int,
    next_pos: nat,
    action: ReadAction,
    chunk: Seq<u8>,
    before: Seq<u8>,
    after: Seq<u8>,
)
    requires
        stage is Chunk || stage is Backend,
        read_rule(
            plan,
            stage,
            i,
            pos,
            if stage is Chunk {
                ReadEvent::Hit(n)
            } else {
                ReadEvent::BackendRead(n)
            },
            next,
            next_i,
            next_pos,
            action,
        ),
        pos + n <= after.len() <= usize::MAX,
        pos <= before.len(),
        plan.off + pos <= image.len(),
        before.take(pos as int) == image.subrange(plan.off as int, (plan.off + pos) as int),
        after.take(pos as int) == before.take(pos as int),
        served(image, plan, stage, i, pos, n as nat, chunk, after),
    ensures
        next_pos == pos + n,
        plan.off + next_pos <= image.len(),
        after.take(next_pos as int) == image.subrange(
            plan.off as int,
            (plan.off + next_pos) as int,
        ),
        action matches ReadAction::Finish(total) ==> total == next_pos,
{
    let at = (plan.off + pos) as int;
    let info = plan.segs[i].0;
    if stage is Chunk {
        assert(chunk.subrange(at - info.off, at - info.off + n) =~= image.subrange(at, at + n));
    }
    let whole = image.subrange(plan.off as int, at + n);
    assert(after.take(next_pos as int) =~= after.take(pos as int) + after.subrange(
        pos as int,
        (pos + n) as int,
    ));
    assert(whole =~= image.subrange(plan.off as int, at) + image.subrange(at, at + n));
}

/// What a read asks for, in whatever stage, is the place that it has come to: the bytes of a chunk
/// that hold the image's bytes there, or those bytes themselves, for as long as the part is. A
/// chunk is named by what the index says of the part. A read that ends reports how far it came.
pub proof fn law_read_asks_for_its_place(
    plan: ReadPlan,
    stage: ReadStage,
    i: int,
    pos: nat,
    event: ReadEvent,
    next: ReadStage,
    next_i: int,
    next_pos: nat,
    action: ReadAction,
)
    requires
        plan.off + next_pos <= usize::MAX,
        0 <= i,
        stage is Chunk || stage is Prefetching ==> i < plan.segs.len() && method_known(
            plan.segs[i].0.cs,
        ) && plan.segs[i].0.off <= plan.off + pos,
        forall|k: int| 0 <= k < plan.segs.len() ==> (#[trigger] plan.segs[k]).1 <= usize::MAX,
        read_rule(plan, stage, i, pos, event, next, next_i, next_pos, action),
    ensures
        match action {
            ReadAction::Chunk { cs, start, len, pos: to } => {
                let info = plan.segs[next_i].0;
                &&& 0 <= next_i < plan.segs.len()
                &&& method_known(info.cs)
                &&& cs == loaded_form(info.cs)
                &&& info.off + start == plan.off + next_pos
                &&& len == plan.segs[next_i].1
                &&& to == next_pos
            },
            ReadAction::Prefetch(cs) => {
                &&& 0 <= next_i < plan.segs.len()
                &&& cs == loaded_form(plan.segs[next_i].0.cs)
            },
            ReadAction::Backend { off, len, pos: to, resync } => {
                &&& stage is Chunk || stage is Ready || stage is Backend
                &&& next_i < plan.segs.len() ==> len == plan.segs[next_i].1
                &&& off == plan.off + next_pos
                &&& to == next_pos
                &&& resync matches Some(info) ==> info == plan.segs[next_i].0 && event is Miss
            },
            ReadAction::Finish(n) => n == next_pos,
        },
{
}

/// A part that the index speaks of is read from its chunk first. Where the database does not have
/// the chunk, it is brought by the local chunk server, if there is one, and the very same bytes are
/// asked for once more; only then, or where the database fails, do they come from the image.
pub proof fn law_chunk_comes_before_image(
    plan: ReadPlan,
    i: int,
    pos: nat,
    retried: bool,
    miss_next: ReadStage,
    miss_i: int,
    miss_pos: nat,
    after_miss: ReadAction,
    again_next: ReadStage,
    again_i: int,
    again_pos: nat,
    again: ReadAction,
    fail_next: ReadStage,
    fail_i: int,
    fail_pos: nat,
    after_fail: ReadAction,
)
    requires
        0 <= i < plan.segs.len(),
        method_known(plan.segs[i].0.cs),
        plan.segs[i].0.off <= plan.off + pos <= usize::MAX,
        plan.segs[i].1 <= usize::MAX,
        read_rule(
            plan,
            ReadStage::Chunk(retried),
            i,
            pos,
            ReadEvent::Miss,
            miss_next,
            miss_i,
            miss_pos,
            after_miss,
        ),
        read_rule(
            plan,
            miss_next,
            miss_i,
            miss_pos,
            ReadEvent::Prefetched,
            again_next,
            again_i,
            again_pos,
            again,
        ),
        read_rule(
            plan,
            ReadStage::Chunk(retried),
            i,
            pos,
            ReadEvent::ChunkError,
            fail_next,
            fail_i,
            fail_pos,
            after_fail,
        ),
    ensures
        forall|first_next: ReadStage, first: ReadAction| #[trigger]
            read_part(plan, i, pos, first_next, first) ==> {
                &&& first is Chunk
                &&& first->start + plan.segs[i].0.off == plan.off + pos
                &&& first_next == ReadStage::Chunk(false)
                &&& after_miss is Prefetch ==> again == first && again_next == ReadStage::Chunk(
                    true,
                )
                &&& after_miss is Prefetch ==> after_miss->Prefetch_0 == first->cs
            },
        after_miss is Prefetch <==> plan.has_client && !retried,
        !(after_miss is Prefetch) ==> after_miss == (ReadAction::Backend {
            off: (plan.off + pos) as usize,
            len: plan.segs[i].1 as usize,
            pos: pos as usize,
            resync: Some(plan.segs[i].0),
        }),
        after_fail == (ReadAction::Backend {
            off: (plan.off + pos) as usize,
            len: plan.segs[i].1 as usize,
            pos: pos as usize,
            resync: None,
        }),
{
}

/// A moment of a read: where it stands, what it asks for, and what is in the buffer.
pub ghost struct ReadMoment {
    pub stage: ReadStage,
    pub part: int,
    pub pos: nat,
    pub action: ReadAction,
    pub buf: Seq<u8>,
}

/// Whether a buffer became `after` by `data` being put at `pos`.
pub open spec fn put_at(before: Seq<u8>, after: Seq<u8>, pos: int, data: Seq<u8>) -> bool {
    &&& 0 <= pos
    &&& pos + data.len() <= before.len()
    &&& after == before.take(pos) + data + before.skip(pos + data.len())
}

/// Whether a caller does what a read asks for, and says so: it copies what the action names, of
/// the chunk or of the image, as much as there is of it, to where the action says. The chunk
/// database may miss a chunk or fail at any time.
pub open spec fn read_served(
    image: Seq<u8>,
    chunks: Map<CheckSum, Seq<u8>>,
    action: ReadAction,
    event: ReadEvent,
    before: Seq<u8>,
    after: Seq<u8>,
) -> bool {
    match action {
        ReadAction::Chunk { cs, start, len, pos } => match event {
            ReadEvent::Hit(n) => {
                &&& n <= len
                &&& chunks.contains_key(cs)
                &&& start + n <= chunks[cs].len()
                &&& put_at(before, after, pos as int, chunks[cs].subrange(start as int, start + n))
            },
            ReadEvent::Miss => after == before,
            ReadEvent::ChunkError => after == before,
            _ => false,
        },
        ReadAction::Prefetch(_) => event is Prefetched && after == before,
        ReadAction::Backend { off, len, pos, .. } => match event {
            ReadEvent::BackendRead(n) => {
                &&& n <= len
                &&& off + n <= image.len()
                &&& put_at(before, after, pos as int, image.subrange(off as int, off + n))
            },
            _ => false,
        },
        ReadAction::Finish(_) => false,
    }
}

/// Whether an answer gives all bytes that were asked for, where it gives any.
pub open spec fn served_whole(action: ReadAction, event: ReadEvent) -> bool {
    match event {
        ReadEvent::Hit(n) => action is Chunk && n == action->Chunk_len,
        ReadEvent::BackendRead(n) => action is Backend && n == action->Backend_len,
        _ => true,
    }
}

/// Whether `run` are the moments of a read from its start on, with `events` between them.
pub open spec fn read_run(
    image: Seq<u8>,
    chunks: Map<CheckSum, Seq<u8>>,
    plan: ReadPlan,
    run: Seq<ReadMoment>,
    events: Seq<ReadEvent>,
) -> bool {
    &&& run.len() == events.len() + 1
    &&& read_rule(
        plan,
        ReadStage::Ready,
        0,
        0,
        ReadEvent::Start,
        run[0].stage,
        run[0].part,
        run[0].pos,
        run[0].action,
    )
    &&& forall|k: int|
        0 <= k < events.len() ==> {
            let (m, n) = (run[k], run[k + 1]);
            &&& read_served(image, chunks, m.action, #[trigger] events[k], m.buf, n.buf)
            &&& read_rule(
                plan,
                m.stage,
                m.part,
                m.pos,
                events[k],
                n.stage,
                n.part,
                n.pos,
                n.action,
            )
        }
}

/// Whether each chunk that the database has holds what the index says of it.
pub open spec fn chunks_agree(
    image: Seq<u8>,
    chunks: Map<CheckSum, Seq<u8>>,
    segs: Seq<Segment>,
) -> bool {
    forall|k: int|
        0 <= k < segs.len() && method_known((#[trigger] segs[k]).0.cs) && chunks.contains_key(
            loaded_form(segs[k].0.cs),
        ) ==> {
            let info = segs[k].0;
            &&& info.off + info.len <= image.len()
            &&& chunks[loaded_form(info.cs)] == image.subrange(
                info.off as int,
                info.off + info.len,
            )
        }
}

/// What holds of a moment of a read.
spec fn moment_holds(
    image: Seq<u8>,
    plan: ReadPlan,
    whole: bool,
    m: ReadMoment,
) -> bool {
    let done = m.action is Finish;
    &&& 0 <= m.part <= plan.segs.len()
    &&& m.pos <= parts_len(plan.segs, m.part)
    &&& whole ==> m.pos == parts_len(plan.segs, m.part)
    &&& plan.off + m.pos <= image.len()
    &&& m.pos <= m.buf.len()
    &&& m.buf.take(m.pos as int) == image.subrange(plan.off as int, (plan.off + m.pos) as int)
    &&& match m.action {
        ReadAction::Chunk { cs, start, len, pos } => {
            let info = plan.segs[m.part].0;
            &&& m.stage is Chunk
            &&& m.part < plan.segs.len()
            &&& method_known(info.cs)
            &&& cs == loaded_form(info.cs)
            &&& info.off + start == plan.off + m.pos
            &&& len == plan.segs[m.part].1
            &&& pos == m.pos
        },
        ReadAction::Prefetch(_) => {
            &&& m.stage is Prefetching
            &&& m.part < plan.segs.len()
            &&& method_known(plan.segs[m.part].0.cs)
            &&& plan.segs[m.part].0.off <= plan.off + m.pos
        },
        ReadAction::Backend { off, len, pos, .. } => {
            &&& m.stage is Backend
            &&& m.part < plan.segs.len()
            &&& off == plan.off + m.pos
            &&& len == plan.segs[m.part].1
            &&& pos == m.pos
        },
        ReadAction::Finish(n) => n == m.pos && m.part == plan.segs.len(),
    }
}

proof fn lemma_part_len_fits(segs: Seq<Segment>, i: int)
    requires
        0 <= i < segs.len(),
    ensures
        parts_len(segs, i + 1) == parts_len(segs, i) + segs[i].1,
        segs[i].1 <= parts_len(segs, segs.len() as int),
        parts_len(segs, i + 1) <= parts_len(segs, segs.len() as int),
{
    lemma_parts_len_monotone(segs, i + 1, segs.len() as int);
}

proof fn lemma_moments_hold(
    image: Seq<u8>,
    chunks: Map<CheckSum, Seq<u8>>,
    plan: ReadPlan,
    whole: bool,
    run: Seq<ReadMoment>,
    events: Seq<ReadEvent>,
    k: int,
)
    requires
        plan.off + parts_len(plan.segs, plan.segs.len() as int) <= image.len(),
        image.len() <= usize::MAX,
        chunks_agree(image, chunks, plan.segs),
        read_run(image, chunks, plan, run, events),
        whole ==> forall|j: int|
            0 <= j < events.len() ==> served_whole(run[j].action, #[trigger] events[j]),
        0 <= k < run.len(),
    ensures
        moment_holds(image, plan, whole, run[k]),
    decreases k,
{
    let segs = plan.segs;
    lemma_parts_len_monotone(segs, 0, segs.len() as int);
    if k == 0 {
        assert(run[0].buf.take(0) =~= Seq::<u8>::empty());
        assert(image.subrange(plan.off as int, plan.off as int) =~= Seq::<u8>::empty());
        if segs.len() > 0 {
            lemma_part_len_fits(segs, 0);
        }
    } else {
        lemma_moments_hold(image, chunks, plan, whole, run, events, k - 1);
        let (m, n) = (run[k - 1], run[k]);
        let event = events[k - 1];
        assert(read_served(image, chunks, m.action, event, m.buf, n.buf));
        assert(m.part < segs.len());
        lemma_part_len_fits(segs, m.part);
        if m.part + 1 < segs.len() {
            lemma_part_len_fits(segs, m.part + 1);
        }
        let at = (plan.off + m.pos) as int;
        let (given, count): (Seq<u8>, int) = match (m.action, event) {
            (ReadAction::Chunk { cs, start, .. }, ReadEvent::Hit(c)) => {
                let info = segs[m.part].0;
                assert(chunks[cs] == image.subrange(info.off as int, info.off + info.len));
                assert(chunks[cs].subrange(start as int, start + c) =~= image.subrange(
                    at,
                    at + c,
                ));
                (chunks[cs].subrange(start as int, start + c), c as int)
            },
            (ReadAction::Backend { off, .. }, ReadEvent::BackendRead(c)) => {
                (image.subrange(off as int, off + c), c as int)
            },
            _ => (Seq::empty(), 0),
        };
        assert(given =~= image.subrange(at, at + count));
        assert(n.pos == m.pos + count);
        assert(image.subrange(plan.off as int, at + count) =~= image.subrange(
            plan.off as int,
            at,
        ) + given);
        assert(n.buf.take(n.pos as int) =~= m.buf.take(m.pos as int) + given);
    }
}

/// A read gives the image's bytes: whoever does what it asks for, and nothing else, has at its end
/// the image's bytes from the start of the read on in the buffer, as many as it reports, whichever
/// parts came out of chunks and whichever the database missed. Where no answer was short, these are
/// all bytes of the range.
pub proof fn law_whole_read_gives_image_data(
    image: Seq<u8>,
    chunks: Map<CheckSum, Seq<u8>>,
    plan: ReadPlan,
    len: nat,
    run: Seq<ReadMoment>,
    events: Seq<ReadEvent>,
)
    requires
        tiles(plan.segs, plan.off as int, (plan.off + len) as int),
        plan.off + len <= image.len() <= usize::MAX,
        chunks_agree(image, chunks, plan.segs),
        read_run(image, chunks, plan, run, events),
        run.last().action is Finish,
    ensures
        ({
            let n = run.last().action->Finish_0;
            &&& n <= len
            &&& n <= run.last().buf.len()
            &&& run.last().buf.take(n as int) == image.subrange(
                plan.off as int,
                plan.off + n,
            )
            &&& (forall|j: int|
                0 <= j < events.len() ==> served_whole(run[j].action, #[trigger] events[j]))
                ==> n == len
        }),
{
    lemma_tiles_len(plan.segs, plan.off as int, (plan.off + len) as int);
    let k = run.len() - 1;
    lemma_moments_hold(image, chunks, plan, false, run, events, k);
    if forall|j: int|
        0 <= j < events.len() ==> served_whole(run[j].action, #[trigger] events[j]) {
        lemma_moments_hold(image, chunks, plan, true, run, events, k);
    }
}

/// A read that is answered goes on: as long as it has not ended, it has something to ask for that
/// can be answered, and an answer that gives a part leads to the part behind it.
pub proof fn law_read_goes_on(
    image: Seq<u8>,
    chunks: Map<CheckSum, Seq<u8>>,
    plan: ReadPlan,
    len: nat,
    run: Seq<ReadMoment>,
    events: Seq<ReadEvent>,
    k: int,
)
    requires
        tiles(plan.segs, plan.off as int, (plan.off + len) as int),
        plan.off + len <= image.len() <= usize::MAX,
        chunks_agree(image, chunks, plan.segs),
        read_run(image, chunks, plan, run, events),
        0 <= k < events.len(),
    ensures
        run[k].action is Finish <==> run[k].part == plan.segs.len(),
        events[k] is Hit || events[k] is BackendRead ==> run[k + 1].part == run[k].part + 1,
        !(events[k] is Hit || events[k] is BackendRead) ==> run[k + 1].part == run[k].part
            && run[k + 1].pos == run[k].pos && !(run[k + 1].action is Finish),
{
    lemma_tiles_len(plan.segs, plan.off as int, (plan.off + len) as int);
    lemma_moments_hold(image, chunks, plan, false, run, events, k);
    lemma_moments_hold(image, chunks, plan, false, run, events, k + 1);
    assert(read_served(image, chunks, run[k].action, events[k], run[k].buf, run[k + 1].buf));
}

/// A read covers the range that it was made for: its parts follow each other from the start of the
/// range to its end, they are those of the index where it has any, and reading starts at the first.
pub proof fn law_read_covers_its_range(
    off: usize,
    len: usize,
    parts: Option<Vec<Segment>>,
    has_client: bool,
    task: ReadTask,
)
    requires
        off + len <= usize::MAX,
        len > 0,
        parts matches Some(segs) ==> tiles(segs@, off as int, off + len),
        call_ensures(ReadTask::new, (off, len, parts, has_client), task),
    ensures
        tiles(task.plan().segs, off as int, off + len),
        task.plan().off == off,
        task.plan().has_client == has_client,
        parts matches Some(segs) ==> task.plan().segs == segs@,
        parts is None ==> task.plan().segs.len() == 1 && !method_known(
            task.plan().segs[0].0.cs,
        ),
        task.part() == 0,
        task.pos() == 0,
        task.stage() is Ready,
{
    reveal_with_fuel(tiles, 2);
    if parts is None {
        let segs = task.plan().segs;
        assert(segs.drop_last() =~= Seq::<Segment>::empty());
    }
}

/// The bytes that a read asks a chunk for do not depend on how often it asks: where the database
/// misses the chunk and the local chunk server has brought it, the very same bytes are asked for.
/// Where it is missed again, they come from the same place of the image, and go to the same place.
pub proof fn law_missed_chunk_is_asked_for_again(
    task0: &mut ReadTask,
    before: ReadEvent,
    cs: CheckSum,
    start: usize,
    len: usize,
    pos: usize,
    task1: &mut ReadTask,
    prefetch: ReadAction,
    task2: &mut ReadTask,
    again: ReadAction,
    task3: &mut ReadTask,
    last: ReadAction,
)
    requires
        old(task0).wf(),
        call_requires(ReadTask::on_event, (task0, before)),
        call_ensures(
            ReadTask::on_event,
            (task0, before),
            ReadAction::Chunk { cs, start, len, pos },
        ),
        !(before is Prefetched),
        old(task0).plan().has_client,
        *old(task1) == *final(task0),
        call_ensures(ReadTask::on_event, (task1, ReadEvent::Miss), prefetch),
        *old(task2) == *final(task1),
        call_ensures(ReadTask::on_event, (task2, ReadEvent::Prefetched), again),
        *old(task3) == *final(task2),
        call_ensures(ReadTask::on_event, (task3, ReadEvent::Miss), last),
    ensures
        ({
            let info = old(task1).plan().segs[old(task1).part()].0;
            &&& info.off + start == old(task0).plan().off + pos
            &&& cs == loaded_form(info.cs)
            &&& prefetch == ReadAction::Prefetch(cs)
            &&& again == (ReadAction::Chunk { cs, start, len, pos })
            &&& last is Backend
            &&& last->Backend_off == info.off + start
            &&& last->Backend_len == len
            &&& last->Backend_pos == pos
            &&& last->resync == Some(info)
        }),
{
    let segs = old(task0).plan().segs;
    lemma_parts_len_monotone(segs, old(task1).part(), segs.len() as int);
    if old(task1).part() < segs.len() {
        lemma_part_len_fits(segs, old(task1).part());
    }
}

/// What a job works on: the chunks of the database, and what the index was told.
pub ghost struct DedupWorld {
    pub chunks: Map<CheckSum, Seq<u8>>,
    pub told: Seq<(DedupRange, DedupInfo)>,
}

/// A moment of a job.
pub ghost struct DedupMoment {
    pub stage: DedupStage,
    pub action: DedupAction,
    pub world: DedupWorld,
}

/// Whether what a job asks for is done, and said so: the image gives its bytes from where it is
/// asked for them, as many as it has; the database says what it has; what is to be stored is
/// stored, and the index is told what it is to be told.
pub open spec fn dedup_done(
    image: Seq<u8>,
    action: DedupAction,
    event: DedupEvent,
    before: DedupWorld,
    after: DedupWorld,
) -> bool {
    match action {
        DedupAction::LookUp(_) => event is Parts && after == before,
        DedupAction::Check(cs) => after == before && event == DedupEvent::Present(
            before.chunks.contains_key(cs),
        ),
        DedupAction::Touch(_) => event is Done && after == before,
        DedupAction::Fetch { off, len } => after == before && match event {
            DedupEvent::Fetched { buf, n } => {
                &&& buf@.len() == len
                &&& n <= len
                &&& off + n <= image.len()
                &&& buf@.take(n as int) == image.subrange(off as int, off + n)
            },
            _ => false,
        },
        DedupAction::Store { cs, data } => event is Done && after == (DedupWorld {
            chunks: before.chunks.insert(cs, data@),
            told: before.told,
        }),
        DedupAction::Record { range, info } => event is Done && after == (DedupWorld {
            chunks: before.chunks,
            told: before.told.push((range, info)),
        }),
        DedupAction::Finish => false,
        DedupAction::Fail(_) => false,
    }
}

/// Whether `run` are the moments of a job from its start on, with `events` between them.
pub open spec fn dedup_run(
    image: Seq<u8>,
    job: DedupJob,
    run: Seq<DedupMoment>,
    events: Seq<DedupEvent>,
) -> bool {
    &&& run.len() == events.len() + 1
    &&& dedup_rule(job, DedupStage::New, DedupEvent::Start, run[0].stage, run[0].action)
    &&& forall|k: int|
        0 <= k < events.len() ==> {
            let (m, n) = (run[k], run[k + 1]);
            &&& dedup_done(image, m.action, #[trigger] events[k], m.world, n.world)
            &&& dedup_rule(job, m.stage, events[k], n.stage, n.action)
        }
}

/// Whether the index was told one thing since `before`: that a chunk of the database holds the
/// bytes of the job's range, all of them or those up to the end of the image.
pub open spec fn told_of_range(
    image: Seq<u8>,
    job: DedupJob,
    before: DedupWorld,
    after: DedupWorld,
) -> bool {
    let (range, info) = after.told.last();
    let cs = loaded_form(info.cs);
    let n = info.len as int;
    &&& after.told.len() == before.told.len() + 1
    &&& after.told.drop_last() == before.told
    &&& range.id == job.id
    &&& range.start == job.off
    &&& range.end == job.off + n
    &&& info.off == job.off
    &&& n == job.len || job.off + n == job.backend_size
    &&& after.chunks.contains_key(cs)
    &&& match job.check_sum {
        Some(known) if before.chunks.contains_key(known) => {
            &&& cs == known
            &&& n == job.len
            &&& after.chunks == before.chunks
        },
        _ => {
            &&& after.chunks == before.chunks.insert(
                cs,
                image.subrange(job.off as int, job.off + n),
            )
            &&& is_checksum_of(
                cs,
                after.chunks[cs],
                match job.check_sum {
                    Some(known) => known.method,
                    None => job.method,
                },
            )
        },
    }
}

/// What holds of a moment of a job.
spec fn dedup_moment_holds(
    image: Seq<u8>,
    job: DedupJob,
    start: DedupWorld,
    k: int,
    m: DedupMoment,
) -> bool {
    let w = m.world;
    let method = match job.check_sum {
        Some(known) => known.method,
        None => job.method,
    };
    let known_there = match job.check_sum {
        Some(known) => start.chunks.contains_key(known),
        None => false,
    };
    match m.stage {
        DedupStage::New => false,
        DedupStage::LookingUp => {
            &&& k == 0
            &&& w == start
            &&& m.action is LookUp
            &&& range_accepted(job)
        },
        DedupStage::Checking(cs) => {
            &&& w == start
            &&& m.action == DedupAction::Check(cs)
            &&& job.check_sum == Some(cs)
            &&& range_accepted(job)
        },
        DedupStage::Touching(cs) => {
            &&& w == start
            &&& m.action is Touch
            &&& job.check_sum == Some(cs)
            &&& known_there
        },
        DedupStage::Fetching(by) => {
            &&& w == start
            &&& m.action == (DedupAction::Fetch { off: job.off, len: job.len })
            &&& by == method
            &&& !known_there
        },
        DedupStage::Storing(cs, n) => {
            &&& w == start
            &&& m.action is Store
            &&& m.action->Store_cs == cs
            &&& n <= job.len
            &&& job.off + n <= image.len()
            &&& m.action->data@ == image.subrange(job.off as int, job.off + n)
            &&& n == job.len || job.off + n == job.backend_size
            &&& is_checksum_of(cs, m.action->data@, method)
            &&& !known_there
        },
        DedupStage::Recording => {
            &&& m.action is Record
            &&& told_of_range(
                image,
                job,
                start,
                DedupWorld {
                    chunks: w.chunks,
                    told: w.told.push((m.action->range, m.action->info)),
                },
            )
        },
        DedupStage::Finished => {
            &&& m.action is Finish || m.action is Fail
            &&& m.action is Fail ==> w == start
            &&& w == start || told_of_range(image, job, start, w)
        },
    }
}

proof fn lemma_dedup_moments_hold(
    image: Seq<u8>,
    job: DedupJob,
    run: Seq<DedupMoment>,
    events: Seq<DedupEvent>,
    k: int,
)
    requires
        dedup_run(image, job, run, events),
        0 <= k < run.len(),
    ensures
        dedup_moment_holds(image, job, run[0].world, k, run[k]),
    decreases k,
{
    if k > 0 {
        lemma_dedup_moments_hold(image, job, run, events, k - 1);
        let (m, n) = (run[k - 1], run[k]);
        let event = events[k - 1];
        assert(dedup_done(image, m.action, event, m.world, n.world));
        if n.stage is Recording {
            let (range, info) = (n.action->range, n.action->info);
            let after = n.world.told.push((range, info));
            assert(after.drop_last() =~= n.world.told);
            match m.stage {
                DedupStage::Storing(cs, len) => {
                    crate::checksum::law_stored_checksum_roundtrip(cs);
                },
                DedupStage::Touching(cs) => {
                    crate::checksum::law_stored_checksum_roundtrip(cs);
                },
                _ => {},
            }
        }
    }
}

/// A job that is done has turned its range into a chunk: the database has a chunk with the bytes
/// of the range, and the index was told so, once, and nothing else. Nothing is told and stored
/// where the range is empty, where the index has it as one known part already, or where the job
/// fails. A chunk that is known beforehand and that the database has is not read.
pub proof fn law_done_job_has_deduplicated_its_range(
    image: Seq<u8>,
    job: DedupJob,
    run: Seq<DedupMoment>,
    events: Seq<DedupEvent>,
)
    requires
        image.len() == job.backend_size,
        dedup_run(image, job, run, events),
        run.last().stage is Finished,
    ensures
        ({
            let (start, end) = (run[0].world, run.last().world);
            let known = events.len() > 0 && match events[0] {
                DedupEvent::Parts(segs) => segs@.len() == 1 && method_known(segs@[0].0.cs),
                _ => false,
            };
            &&& run.last().action is Finish || run.last().action is Fail
            &&& run.last().action is Fail ==> end == start
            &&& run.last().action is Finish && (job.len == 0 || known) ==> end == start
            &&& run.last().action is Finish && job.len > 0 && !known ==> told_of_range(
                image,
                job,
                start,
                end,
            )
        }),
{
    let k = run.len() - 1;
    let start = run[0].world;
    lemma_dedup_moments_hold(image, job, run, events, k);
    lemma_dedup_moments_hold(image, job, run, events, 0);
    if events.len() > 0 {
        assert(dedup_done(image, run[0].action, events[0], run[0].world, run[1].world));
        lemma_dedup_moments_hold(image, job, run, events, k - 1);
        assert(dedup_done(
            image,
            run[k - 1].action,
            events[k - 1],
            run[k - 1].world,
            run[k].world,
        ));
        if events.len() > 1 {
            assert(dedup_done(image, run[1].action, events[1], run[1].world, run[2].world));
        }
        if run[k].action is Finish && k > 1 {
            assert(run[k - 1].stage is Recording);
        }
    }
}

/// A job takes the step that its rule says: nothing else is asked for.
pub proof fn law_job_follows_its_rule(task: &mut DedupTask, event: DedupEvent, action: DedupAction)
    requires
        old(task).wf(),
        call_requires(DedupTask::on_event, (task, event)),
        call_ensures(DedupTask::on_event, (task, event), action),
    ensures
        dedup_rule(old(task).job(), old(task).stage(), event, final(task).stage(), action),
        final(task).job() == old(task).job(),
{
}

/// The range that decides over a chunk's local copy is what the image has of the chunk: all of
/// its bytes that lie in the image, and no other.
pub proof fn law_gc_range_is_the_chunk(
    chunk_id: usize,
    backend_size: u64,
    r: Option<(u64, usize)>,
    p: int,
)
    requires
        (chunk_id + 1) * CHUNK_SIZE <= usize::MAX,
        backend_size <= usize::MAX,
        0 <= p,
        call_ensures(gc_chunk_range, (chunk_id, backend_size), r),
    ensures
        (r is Some && r->Some_0.0 <= p < r->Some_0.0 + r->Some_0.1) <==> (p < backend_size && p / (
        CHUNK_SIZE as int) == chunk_id),
        r is None ==> p < backend_size ==> p / (CHUNK_SIZE as int) < chunk_id,
{
}

/// A read is cut off at the end of the image and nowhere else: it gets each byte of the image that
/// it asks for.
pub proof fn law_clamped_read_gets_what_there_is(off: usize, want: usize, size: u64, n: usize, p: int)
    requires
        size <= usize::MAX,
        call_ensures(clamp_read, (off, want, size), n),
    ensures
        off <= p < off + n <==> off <= p < off + want && p < size,
{
}

/// The chunks between the first and the last one that a range touches are those that hold a byte
/// of the range.
pub proof fn law_touched_chunks_hold_the_range(off: usize, len: usize, r: (usize, usize), c: int)
    requires
        len > 0,
        off + len <= usize::MAX,
        call_ensures(touched_chunks, (off, len), r),
        0 <= c,
    ensures
        r.0 <= c <= r.1 <==> exists|p: int|
            off <= p < off + len && #[trigger] (p / (CHUNK_SIZE as int)) == c,
{
    let size = CHUNK_SIZE as int;
    if r.0 <= c <= r.1 {
        let p = if c * size < off {
            off as int
        } else {
            c * size
        };
        assert(p / size == c);
        assert(off <= p < off + len);
    }
    if exists|p: int| off <= p < off + len && #[trigger] (p / size) == c {
        let p = choose|p: int| off <= p < off + len && #[trigger] (p / size) == c;
        assert(off as int / size <= p / size <= (off + len - 1) / size);
    }
}

proof fn lemma_unmarked(at: &DedupMarks, off: usize, len: usize, list: Vec<usize>, c: usize)
    requires
        len > 0,
        off + len <= usize::MAX,
        (off + len - 1) / (CHUNK_SIZE as int) < at.capacity(),
        call_ensures(DedupMarks::unmarked_chunks, (at, off, len), list),
    ensures
        list@.contains(c) <==> off as int / (CHUNK_SIZE as int) <= c <= (off + len - 1) / (
        CHUNK_SIZE as int) && !at.marked(c as int),
{
    assert(call_requires(DedupMarks::unmarked_chunks, (at, off, len)));
    assert(forall|i: int, j: int| 0 <= i < j < list@.len() ==> list@[i] < list@[j]);
    if list@.contains(c) {
        assert(!at.marked(c as int));
    }
    if !at.marked(c as int) && off as int / (CHUNK_SIZE as int) <= c <= (off + len - 1) / (
    CHUNK_SIZE as int) {
        assert(list@.contains(c));
    }
}

/// Each chunk that a read touches is asked to be deduplicated once: the chunks that are not marked
/// come in order, the request for each is for its bytes, and once they are marked there are none
/// left. No other chunk becomes marked.
pub proof fn law_chunk_is_marked_once(
    marks: &mut DedupMarks,
    at: &DedupMarks,
    later: &DedupMarks,
    off: usize,
    len: usize,
    first: Vec<usize>,
    idx: usize,
    method: CheckSumMethod,
    request: DedupRequest,
    second: Vec<usize>,
    c: usize,
)
    requires
        len > 0,
        off + len <= usize::MAX,
        *at == *old(marks),
        (off + len - 1) / (CHUNK_SIZE as int) < at.capacity() <= usize::MAX,
        call_ensures(DedupMarks::unmarked_chunks, (at, off, len), first),
        first@.contains(idx),
        idx * CHUNK_SIZE <= usize::MAX,
        idx * CHUNK_SIZE <= u64::MAX,
        call_ensures(DedupMarks::request_for, (idx, method), request),
        call_ensures(DedupMarks::mark_chunk_dedup, (marks, idx), ()),
        *later == *final(marks),
        call_ensures(DedupMarks::unmarked_chunks, (later, off, len), second),
    ensures
        off < request.spec_offset() + request.spec_len(),
        request.spec_offset() < off + len,
        request.spec_offset() == idx * CHUNK_SIZE,
        request.spec_len() == CHUNK_SIZE,
        request.spec_method() == method,
        second@.contains(c) <==> first@.contains(c) && c != idx,
{
    let size = CHUNK_SIZE as int;
    lemma_unmarked(at, off, len, first, idx);
    lemma_unmarked(at, off, len, first, c);
    lemma_unmarked(later, off, len, second, c);
    if first@.contains(c) || second@.contains(c) {
        assert(c < old(marks).capacity());
        assert(final(marks).marked(c as int) == (old(marks).marked(c as int) || c == idx));
    }
}

/// How many bytes a read of `want` bytes from `off` on gets out of an image of `size` bytes.
pub fn clamp_read(off: usize, want: usize, size: u64) -> (r: usize)
    requires
        size <= usize::MAX,
    ensures
        r == if off >= size {
            0
        } else if want <= size - off {
            want as int
        } else {
            size - off
        },
{
    let size: usize = size as usize;
    if off >= size {
        return 0;
    }
    if want <= size - off {
        want
    } else {
        size - off
    }
}

/// The first and the last chunk that a range touches.
pub fn touched_chunks(off: usize, len: usize) -> (r: (usize, usize))
    requires
        len > 0,
        off + len <= usize::MAX,
    ensures
        r.0 == off / CHUNK_SIZE,
        r.1 == (off + len - 1) / CHUNK_SIZE as int,
        r.0 <= r.1,
{
    (off / CHUNK_SIZE, (off + len - 1) / CHUNK_SIZE)
}

/// Whether a bit of a word is set.
pub open spec fn word_bit(w: u64, i: u64) -> bool {
    w & (1u64 << i) != 0
}

proof fn lemma_set_word_bit(w: u64, i: u64, j: u64)
    by (bit_vector)
    requires
        i < 64,
        j < 64,
    ensures
        ((w | (1u64 << i)) & (1u64 << j) != 0) == (w & (1u64 << j) != 0 || i == j),
{
}

proof fn lemma_zero_word_bit(j: u64)
    by (bit_vector)
    requires
        j < 64,
    ensures
        0u64 & (1u64 << j) == 0,
{
}

/// The chunks of an image for which a request to deduplicate them was sent.
#[derive(Debug)]
pub struct DedupMarks {
    words: Vec<u64>,
}

impl DedupMarks {
    /// How many chunks can be marked.
    pub closed spec fn capacity(self) -> nat {
        self.words@.len() * 64
    }

    /// Whether a chunk is marked.
    pub closed spec fn marked(self, idx: int) -> bool {
        word_bit(self.words@[idx / 64], (idx % 64) as u64)
    }

    /// No marks, with room for each chunk of an image of `size` bytes.
    pub fn new(size: usize) -> (r: DedupMarks)
        requires
            size + CHUNK_SIZE - 1 <= usize::MAX,
        ensures
            r.capacity() == spec_align_up(
                spec_align_up(size as int, CHUNK_SIZE as int) / CHUNK_SIZE as int,
                64,
            ),
            forall|idx: int| 0 <= idx < r.capacity() ==> !#[trigger] r.marked(idx),
    {
        let chunks: usize = align_up(size, CHUNK_SIZE) / CHUNK_SIZE;
        let n: usize = align_up(chunks, 64) / 64;
        let words: Vec<u64> = vec![0u64; n];
        let r: DedupMarks = DedupMarks { words };
        proof {
            let up = spec_align_up(chunks as int, 64);
            assert(up == (chunks + 64 - 1) / 64 * 64);
            assert forall|idx: int| 0 <= idx < r.capacity() implies !#[trigger] r.marked(idx) by {
                lemma_zero_word_bit((idx % 64) as u64);
            }
        }
        r
    }

    /// Whether a chunk is marked.
    pub fn chunk_is_dedup(&self, idx: usize) -> (r: bool)
        requires
            idx < self.capacity(),
        ensures
            r == self.marked(idx as int),
    {
        self.words[idx / 64] & (1u64 << (idx % 64) as u64) != 0
    }

    /// Marks a chunk.
    pub fn mark_chunk_dedup(&mut self, idx: usize)
        requires
            idx < old(self).capacity(),
        ensures
            final(self).capacity() == old(self).capacity(),
            forall|j: int|
                0 <= j < old(self).capacity() ==> #[trigger] final(self).marked(j) == (old(
                    self,
                ).marked(j) || j == idx),
    {
        let at: usize = idx / 64;
        let bit: u64 = (idx % 64) as u64;
        let new: u64 = self.words[at] | (1u64 << bit);
        self.words[at] = new;
        proof {
            assert forall|j: int| 0 <= j < old(self).capacity() implies #[trigger] self.marked(j)
                == (old(self).marked(j) || j == idx) by {
                if j / 64 == at {
                    lemma_set_word_bit(old(self).words@[at as int], bit, (j % 64) as u64);
                }
            }
        }
    }

    /// The chunks that a read of `len` bytes from `off` on touches and that are not marked, in
    /// order.
    pub fn unmarked_chunks(&self, off: usize, len: usize) -> (r: Vec<usize>)
        requires
            off + len <= usize::MAX,
            len > 0 ==> (off + len - 1) / (CHUNK_SIZE as int) < self.capacity(),
        ensures
            len == 0 ==> r@.len() == 0,
            len > 0 ==> forall|c: usize|
                r@.contains(c) <==> off as int / (CHUNK_SIZE as int) <= c <= (off + len - 1) / (
                CHUNK_SIZE as int) && !self.marked(c as int),
            forall|i: int, j: int| 0 <= i < j < r@.len() ==> r@[i] < r@[j],
    {
        let mut out: Vec<usize> = Vec::new();
        if len == 0 {
            return out;
        }
        let (first, last) = touched_chunks(off, len);
        let mut idx: usize = first;
        while idx <= last
            invariant
                first <= idx <= last + 1,
                last < usize::MAX,
                last < self.capacity(),
                forall|c: usize| first <= c < idx && !self.marked(c as int) ==> out@.contains(c),
                forall|i: int|
                    0 <= i < out@.len() ==> first <= #[trigger] out@[i] < idx && !self.marked(
                        out@[i] as int,
                    ),
                forall|i: int, j: int| 0 <= i < j < out@.len() ==> out@[i] < out@[j],
            decreases last + 1 - idx,
        {
            let ghost before = out@;
            if !self.chunk_is_dedup(idx) {
                out.push(idx);
                assert(out@[before.len() as int] == idx);
            }
            proof {
                assert forall|c: usize| first <= c < idx + 1 && !self.marked(
                    c as int,
                ) implies out@.contains(c) by {
                    if c < idx {
                        let k = before.index_of(c);
                        assert(out@[k] == c);
                    }
                }
            }
            idx = idx + 1;
        }
        assert forall|c: usize| out@.contains(c) implies first <= c <= last && !self.marked(
            c as int,
        ) by {
            let k = out@.index_of(c);
            assert(out@[k] == c);
        }
        out
    }

    /// The request to deduplicate a chunk.
    pub fn request_for(idx: usize, method: CheckSumMethod) -> (r: DedupRequest)
        requires
            idx * CHUNK_SIZE <= u64::MAX,
            idx * CHUNK_SIZE <= usize::MAX,
        ensures
            r.spec_offset() == idx * CHUNK_SIZE,
            r.spec_len() == CHUNK_SIZE,
            r.spec_check_sum() is None,
            r.spec_method() == method,
    {
        DedupRequest::new((idx * CHUNK_SIZE) as u64, CHUNK_SIZE as u32, method)
    }
}

/// Whether a missing chunk that the index speaks of can be stored again from the image.
pub fn sync_wanted(info: &DedupInfo) -> (r: bool)
    ensures
        r == (method_known(info.cs) && info.len > 0),
{
    info.cs.is_valid() && info.len != 0
}

/// The chunk to store for data that was read from the image in place of a missing chunk:
/// `None` where less was read than the index speaks of, or where it is not what the index
/// speaks of.
pub fn sync_chunk(info: &DedupInfo, buf: &[u8], n: usize) -> (r: Option<CheckSum>)
    requires
        buf@.len() == info.len,
    ensures
        r == if n == info.len && is_checksum_of(
            loaded_form(info.cs),
            buf@,
            loaded_form(info.cs).method,
        ) {
            Some(loaded_form(info.cs))
        } else {
            None
        },
{
    if n != info.len as usize {
        return None;
    }
    let cs: CheckSum = CheckSum::from(info.cs);
    let data_cs: CheckSum = CheckSum::from_data(buf, cs.method);
    if data_cs.same(&cs) {
        Some(cs)
    } else {
        proof {
            if is_checksum_of(cs, buf@, cs.method) {
                crate::checksum::lemma_checksum_ext(cs, data_cs);
            }
        }
        None
    }
}

/// What an entry of the index does to a walk: where it holds the next bytes of the range, they
/// become a part of it, up to its end or that of the range; where it starts behind them, what lies
/// before it is a part of no chunk; where it ends before them, it changes nothing. An entry of
/// another image ends the walk, and so does the end of the range.
pub proof fn law_offered_entry_becomes_a_part(
    w: &mut RangeWalk,
    key: &DedupRange,
    info: &DedupInfo,
    more: bool,
)
    requires
        old(w).wf(),
        old(w).walk().len > 0,
        info.off + info.len <= u64::MAX,
        call_ensures(RangeWalk::offer, (w, key, info), more),
    ensures
        ({
            let (was, now) = (old(w).walk(), final(w).walk());
            let to = was.off + was.len;
            let end = info.off + info.len;
            &&& now.off + now.len == to
            &&& key.id@ != old(w).id() ==> now == was && !more
            &&& key.id@ == old(w).id() ==> {
                &&& more <==> now.len > 0
                &&& end <= was.off ==> now == was
                &&& info.off <= was.off < end ==> {
                    &&& now.segs.drop_last() == was.segs
                    &&& now.segs.last().0 == *info
                    &&& now.segs.last().1 == now.off - was.off
                    &&& now.off == if end < to {
                        end
                    } else {
                        to as int
                    }
                }
                &&& was.off < info.off < to && info.len > 0 ==> {
                    &&& now.segs.len() == was.segs.len() + 2
                    &&& now.segs.take(was.segs.len() as int) == was.segs
                    &&& !method_known(now.segs[was.segs.len() as int].0.cs)
                    &&& now.segs[was.segs.len() as int].1 == info.off - was.off
                    &&& now.segs.last().0 == *info
                    &&& now.segs.last().1 == now.off - info.off
                }
                &&& info.off >= to && was.off < info.off ==> {
                    &&& now.segs.drop_last() == was.segs
                    &&& !method_known(now.segs.last().0.cs)
                    &&& now.segs.last().1 == was.len
                    &&& !more
                }
            }
        }),
{
    assert(call_requires(RangeWalk::offer, (w, key, info)));
    let (was, now) = (old(w).walk(), final(w).walk());
    if key.id@ == old(w).id() {
        if info.off <= was.off {
            assert(now.segs.len() > was.segs.len() ==> now.segs.drop_last() =~= was.segs);
        } else if was.off < info.off < was.off + was.len && info.len > 0 {
            assert(now.segs.take(was.segs.len() as int) =~= was.segs);
        } else if info.off >= was.off + was.len {
            assert(now.segs.drop_last() =~= was.segs);
        }
    }
}

/// A walk that ends has cut the whole range into parts: those that it found, and one that no chunk
/// holds for what is left.
pub proof fn law_finished_walk_covers_the_range(
    id: [u8; 32],
    off: u64,
    len: usize,
    begun: RangeWalk,
    end: RangeWalk,
    segs: Vec<Segment>,
)
    requires
        off + len <= u64::MAX,
        call_ensures(RangeWalk::new, (id, off, len), begun),
        end.wf(),
        end.start() == begun.start(),
        end.walk().off + end.walk().len == begun.walk().off + begun.walk().len,
        call_ensures(RangeWalk::finish, (end,), segs),
    ensures
        tiles(segs@, off as int, off + len),
        end.walk().segs.is_prefix_of(segs@),
        end.walk().len == 0 ==> segs@ == end.walk().segs,
        end.walk().len > 0 ==> segs@.len() == end.walk().segs.len() + 1 && !method_known(
            segs@.last().0.cs,
        ) && segs@.last().1 == end.walk().len,
{
    assert(call_requires(RangeWalk::finish, (end,)));
}

/// A missing chunk is stored again exactly where all that the index speaks of was read and is what
/// it speaks of, and under the checksum that the index has.
pub proof fn law_missing_chunk_is_stored_as_it_was(
    info: &DedupInfo,
    buf: &[u8],
    n: usize,
    r: Option<CheckSum>,
)
    requires
        buf@.len() == info.len,
        call_ensures(sync_chunk, (info, buf, n), r),
    ensures
        r matches Some(cs) ==> cs == loaded_form(info.cs) && is_checksum_of(cs, buf@, cs.method),
        r is None ==> n != info.len || !is_checksum_of(
            loaded_form(info.cs),
            buf@,
            loaded_form(info.cs).method,
        ),
        n != info.len ==> r is None,
{
    assert(call_requires(sync_chunk, (info, buf, n)));
}

/// The job of a request is for the range that was asked for, of the image that it is made for.
pub proof fn law_job_is_for_the_requested_range(
    off: u64,
    len: u32,
    method: CheckSumMethod,
    request: DedupRequest,
    at: &DedupRequest,
    id: [u8; 32],
    backend_size: u64,
    job: DedupJob,
    task: &mut DedupTask,
    action: DedupAction,
)
    requires
        call_ensures(DedupRequest::new, (off, len, method), request),
        *at == request,
        call_ensures(DedupRequest::job, (at, id, backend_size), job),
        call_ensures(DedupTask::new, (job,), *old(task)),
        call_ensures(DedupTask::on_event, (task, DedupEvent::Start), action),
        0 < len,
        off < backend_size,
        off as int % CHUNK_SIZE as int == 0,
        off + len <= u64::MAX,
        len as int % CHUNK_SIZE as int == 0 || off + len >= backend_size,
    ensures
        action is LookUp,
        action->LookUp_0.id == id,
        action->LookUp_0.start == off,
        action->LookUp_0.end == off + len,
        final(task).job().method == method,
        final(task).job().check_sum is None,
{
    assert(call_requires(DedupTask::on_event, (task, DedupEvent::Start)));
}

/// A read takes the step that its rule says: nothing else is asked for.
pub proof fn law_read_follows_its_rule(task: &mut ReadTask, event: ReadEvent, action: ReadAction)
    requires
        old(task).wf(),
        call_requires(ReadTask::on_event, (task, event)),
        call_ensures(ReadTask::on_event, (task, event), action),
    ensures
        read_rule(
            old(task).plan(),
            old(task).stage(),
            old(task).part(),
            old(task).pos(),
            event,
            final(task).stage(),
            final(task).part(),
            final(task).pos(),
            action,
        ),
        final(task).plan() == old(task).plan(),
{
}

/// Whether an event tells of what a read asked for.
pub open spec fn read_awaits(action: ReadAction, event: ReadEvent) -> bool {
    match action {
        ReadAction::Chunk { .. } => event is Hit || event is Miss || event is ChunkError,
        ReadAction::Prefetch(_) => event is Prefetched,
        ReadAction::Backend { .. } => event is BackendRead,
        ReadAction::Finish(_) => false,
    }
}

/// A read that is told what it did not ask for ends with what it has read; one that is told what
/// it asked for ends only behind its last part. What was read is what was told.
pub proof fn law_read_ends_behind_its_last_part(
    task0: &mut ReadTask,
    before: ReadEvent,
    action: ReadAction,
    task1: &mut ReadTask,
    event: ReadEvent,
    next: ReadAction,
)
    requires
        old(task0).wf(),
        call_requires(ReadTask::on_event, (task0, before)),
        call_ensures(ReadTask::on_event, (task0, before), action),
        *old(task1) == *final(task0),
        call_requires(ReadTask::on_event, (task1, event)),
        call_ensures(ReadTask::on_event, (task1, event), next),
    ensures
        action is Finish ==> action == ReadAction::Finish(final(task0).pos() as usize),
        !read_awaits(action, event) ==> next == ReadAction::Finish(final(task0).pos() as usize),
        read_awaits(action, event) && next is Finish ==> {
            &&& event is Hit || event is BackendRead
            &&& final(task0).part() + 1 == old(task0).plan().segs.len()
        },
        read_awaits(action, event) ==> final(task1).pos() == final(task0).pos() + match event {
            ReadEvent::Hit(n) => n as int,
            ReadEvent::BackendRead(n) => n as int,
            _ => 0,
        },
{
}

/// A job fails only for a reason: its range cannot become a chunk, the index has several parts for
/// it, less was read than there is, or it was told what it did not ask for. It is refused where
/// its range is none that can become a chunk: one that lies in the image, starts where a chunk
/// does, and is as long as some chunks or reaches to the end of the image.
pub proof fn law_job_fails_only_for_a_reason(
    job: DedupJob,
    stage: DedupStage,
    event: DedupEvent,
    next: DedupStage,
    action: DedupAction,
)
    requires
        dedup_rule(job, stage, event, next, action),
    ensures
        ({
            let sound = job.off < job.backend_size && job.off as int % 4194304 == 0 && job.off
                + job.len <= u64::MAX && (job.len as int % 4194304 == 0 || job.off + job.len
                >= job.backend_size);
            match (stage, event) {
                (DedupStage::New, DedupEvent::Start) => action is Fail <==> job.len > 0 && !sound,
                (DedupStage::LookingUp, DedupEvent::Parts(segs)) => action is Fail <==> segs@.len()
                    != 1,
                (DedupStage::Fetching(_), DedupEvent::Fetched { n, .. }) => action is Fail <==> n
                    != job.len && job.off + n != job.backend_size,
                (DedupStage::Checking(_), DedupEvent::Present(_)) => !(action is Fail),
                (DedupStage::Touching(_), DedupEvent::Done) => !(action is Fail),
                (DedupStage::Storing(..), DedupEvent::Done) => !(action is Fail),
                (DedupStage::Recording, DedupEvent::Done) => action is Finish,
                _ => action is Fail,
            }
        }),
{
}

/// A chunk that is known beforehand is looked for in the database and, where it is there, noted as
/// used and not read; where it is not, the whole range is read.
pub proof fn law_known_chunk_is_not_read(
    task0: &mut DedupTask,
    segs: Vec<Segment>,
    check: DedupAction,
    task1: &mut DedupTask,
    there: bool,
    next: DedupAction,
    task2: &mut DedupTask,
    record: DedupAction,
)
    requires
        old(task0).wf(),
        old(task0).stage() is LookingUp,
        segs@.len() == 1,
        !method_known(segs@[0].0.cs),
        call_ensures(DedupTask::on_event, (task0, DedupEvent::Parts(segs)), check),
        *old(task1) == *final(task0),
        call_ensures(DedupTask::on_event, (task1, DedupEvent::Present(there)), next),
        *old(task2) == *final(task1),
        call_ensures(DedupTask::on_event, (task2, DedupEvent::Done), record),
    ensures
        ({
            let job = old(task0).job();
            let whole = DedupAction::Fetch { off: job.off, len: job.len };
            match job.check_sum {
                None => check == whole,
                Some(cs) => {
                    &&& check == DedupAction::Check(cs)
                    &&& !there ==> next == whole
                    &&& there ==> next == DedupAction::Touch(cs)
                    &&& there ==> record is Record && record->info.off == job.off
                        && record->info.len == job.len && loaded_form(record->info.cs) == cs
                        && record->range.start == job.off && record->range.end == job.off + job.len
                        && record->range.id == job.id
                },
            }
        }),
{
    assert(call_requires(DedupTask::on_event, (task0, DedupEvent::Parts(segs))));
    assert(call_requires(DedupTask::on_event, (task1, DedupEvent::Present(there))));
    assert(call_requires(DedupTask::on_event, (task2, DedupEvent::Done)));
    if let Some(cs) = old(task0).job().check_sum {
        crate::checksum::law_stored_checksum_roundtrip(cs);
    }
}

/// The local copy of a chunk is dropped only where every byte that the image has of it is held by a
/// chunk of the database, as the index says; one part that no chunk holds is enough to keep it.
pub proof fn law_local_copy_is_dropped_only_when_kept_elsewhere(
    chunk_id: usize,
    backend_size: u64,
    start: u64,
    len: usize,
    segs: &Vec<Segment>,
    dropped: bool,
    p: int,
    i: int,
)
    requires
        (chunk_id + 1) * CHUNK_SIZE <= usize::MAX,
        backend_size <= usize::MAX,
        call_ensures(gc_chunk_range, (chunk_id, backend_size), Some((start, len))),
        tiles(segs@, start as int, start + len),
        call_ensures(all_parts_known, (segs,), dropped),
        0 <= p < backend_size,
        p / (CHUNK_SIZE as int) == chunk_id,
        0 <= i < segs@.len(),
    ensures
        dropped ==> exists|k: int| 0 <= k < segs@.len() && covers((#[trigger] segs@[k]).0, p),
        !method_known(segs@[i].0.cs) ==> !dropped,
{
    assert(call_requires(gc_chunk_range, (chunk_id, backend_size)));
    if dropped {
        lemma_all_known(segs, i);
        law_known_parts_cover_the_range(segs@, start as int, start + len, p);
    }
}

proof fn lemma_all_known(segs: &Vec<Segment>, i: int)
    requires
        call_ensures(all_parts_known, (segs,), true),
        0 <= i < segs@.len(),
    ensures
        method_known(segs@[i].0.cs),
        forall|k: int| 0 <= k < segs@.len() ==> method_known((#[trigger] segs@[k]).0.cs),
{
    assert(all_known(segs@));
}

/// A range that is one part is known where that part is held by a chunk; a range of several parts,
/// or of none, is refused.
pub proof fn law_only_single_parts_are_told_known(
    segs: &Vec<Segment>,
    r: Result<bool, Error>,
    all: bool,
)
    requires
        call_ensures(single_part_known, (segs,), r),
        call_ensures(all_parts_known, (segs,), all),
    ensures
        r is Ok <==> segs@.len() == 1,
        r matches Ok(known) ==> known == all,
{
    if segs@.len() == 1 {
        if all {
            lemma_all_known(segs, 0);
        } else {
            assert(!all);
            lemma_not_all_known(segs);
        }
    }
}

proof fn lemma_not_all_known(segs: &Vec<Segment>)
    requires
        call_ensures(all_parts_known, (segs,), false),
    ensures
        exists|k: int| 0 <= k < segs@.len() && !method_known((#[trigger] segs@[k]).0.cs),
{
    assert(!all_known(segs@));
}

/// The entries of the index are looked through from the first one on that can hold a byte of the
/// range: every entry of the image that ends behind the start of the range comes there or later.
pub proof fn law_walk_starts_early_enough(
    id: [u8; 32],
    off: u64,
    len: usize,
    w: RangeWalk,
    at: &RangeWalk,
    first: Option<DedupRange>,
    key: DedupRange,
)
    requires
        off + len <= u64::MAX,
        call_ensures(RangeWalk::new, (id, off, len), w),
        *at == w,
        call_ensures(RangeWalk::first_key, (at,), first),
        key.id@ == id@,
    ensures
        first is None <==> len == 0,
        first matches Some(from) ==> from.id@ == id@ && (key.end > off ==> from.end < key.end || (
        from.end == key.end && from.start <= key.start)),
{
    assert(call_requires(RangeWalk::first_key, (at,)));
}

/// Marks are made for every chunk of an image, none of them set; one that is set stays set.
pub proof fn law_marks_have_room_for_the_image(
    size: usize,
    m: &mut DedupMarks,
    p: int,
    idx: usize,
    at: &DedupMarks,
    marked: bool,
)
    requires
        size + CHUNK_SIZE - 1 <= usize::MAX,
        call_ensures(DedupMarks::new, (size,), *old(m)),
        0 <= p < size,
        idx == p / (CHUNK_SIZE as int),
        call_ensures(DedupMarks::mark_chunk_dedup, (m, idx), ()),
        *at == *final(m),
        call_ensures(DedupMarks::chunk_is_dedup, (at, idx), marked),
    ensures
        idx < old(m).capacity(),
        !old(m).marked(idx as int),
        marked,
{
    assert(call_requires(DedupMarks::new, (size,)));
    let unit = CHUNK_SIZE as int;
    let chunks = spec_align_up(size as int, unit) / unit;
    assert(spec_align_up(size as int, unit) == (size + unit - 1) / unit * unit);
    assert(spec_align_up(chunks, 64) == (chunks + 63) / 64 * 64);
    assert(idx < chunks);
    assert(call_requires(DedupMarks::mark_chunk_dedup, (m, idx)));
    assert(call_requires(DedupMarks::chunk_is_dedup, (at, idx)));
    assert(final(m).marked(idx as int));
}

/// An image is known in the index by its name alone.
pub proof fn law_image_id_depends_on_the_name(a: &str, b: &str, of_a: [u8; 32], of_b: [u8; 32])
    requires
        call_ensures(image_id, (a,), of_a),
        call_ensures(image_id, (b,), of_b),
        a@ == b@,
    ensures
        of_a@ == of_b@,
        of_a@ == blake3_digest(vstd::utf8::encode_utf8(a@)),
{
}

} // verus!
