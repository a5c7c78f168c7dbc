//! Where image data comes from and where chunks of it are kept.

use crate::error::Error;
use std::sync::Arc;
use vstd::prelude::*;

pub mod access;
pub mod cache;
pub mod capacity;
pub mod chunkdb;
pub mod dedup;
pub mod indexdb;
pub mod peer;
pub mod writer;

verus! {

/// The unit in which image data is cached, deduplicated and shared: 4 MiB.
pub const CHUNK_SIZE: usize = 4194304;

/// A source of image data.
pub trait Backend {
    /// The number of bytes that the source holds; none unless the source says otherwise.
    open spec fn spec_size(&self) -> u64 {
        0
    }

    /// Whether a read from `off` on can return `n` and leave `after` in a buffer that held
    /// `before`. Anything can happen unless the source says otherwise.
    open spec fn can_read(&self, off: usize, before: Seq<u8>, after: Seq<u8>, n: usize) -> bool {
        true
    }

    /// Whether a read from `off` on can fail with `e` and leave `after` in a buffer that held
    /// `before`. Anything can happen unless the source says otherwise.
    open spec fn can_fail(&self, off: usize, before: Seq<u8>, after: Seq<u8>, e: Error) -> bool {
        true
    }

    /// The number of bytes that the source holds.
    fn size(&self) -> (r: u64)
        ensures
            r == self.spec_size(),
    ;

    /// Reads into `data` what the source holds from `off` on, and returns how many bytes were
    /// read.
    fn fetch(&self, off: usize, data: &mut [u8]) -> (r: Result<usize, Error>)
        ensures
            final(data)@.len() == old(data)@.len(),
            match r {
                Ok(n) => n <= old(data)@.len() && self.can_read(off, old(data)@, final(data)@, n),
                Err(e) => self.can_fail(off, old(data)@, final(data)@, e),
            },
    ;
}

/// Whether a source gives the bytes of `image`: it fills a buffer that lies within the image.
pub open spec fn gives_image<B: Backend>(b: B, image: Seq<u8>) -> bool {
    forall|off: usize, before: Seq<u8>, after: Seq<u8>, n: usize| #[trigger]
        b.can_read(off, before, after, n) && off + before.len() <= image.len() ==> after
            == image.subrange(off as int, off + before.len())
}

/// A source of image data that can drop a chunk which is kept elsewhere.
pub trait BackendEx: Backend {
    /// Whether dropping the local copy of a chunk can end with `r`. Anything can happen unless
    /// the source says otherwise.
    open spec fn can_drop(&self, chunk_id: usize, r: Result<(), Error>) -> bool {
        true
    }

    /// Drops the local copy of a chunk.
    fn invalidate_chunk(&self, chunk_id: usize) -> (r: Result<(), Error>)
        ensures
            self.can_drop(chunk_id, r),
    ;
}

impl<T: Backend> Backend for Arc<T> {
    open spec fn spec_size(&self) -> u64 {
        (**self).spec_size()
    }

    open spec fn can_read(&self, off: usize, before: Seq<u8>, after: Seq<u8>, n: usize) -> bool {
        (**self).can_read(off, before, after, n)
    }

    open spec fn can_fail(&self, off: usize, before: Seq<u8>, after: Seq<u8>, e: Error) -> bool {
        (**self).can_fail(off, before, after, e)
    }

    fn size(&self) -> (r: u64) {
        (**self).size()
    }

    fn fetch(&self, off: usize, data: &mut [u8]) -> (r: Result<usize, Error>) {
        (**self).fetch(off, data)
    }
}

impl<T: BackendEx> BackendEx for Arc<T> {
    open spec fn can_drop(&self, chunk_id: usize, r: Result<(), Error>) -> bool {
        (**self).can_drop(chunk_id, r)
    }

    fn invalidate_chunk(&self, chunk_id: usize) -> (r: Result<(), Error>) {
        (**self).invalidate_chunk(chunk_id)
    }
}

/// How many batches of at most `size` items `len` items make.
pub open spec fn batch_count(len: nat, size: nat) -> nat {
    ((len + size - 1) / size as int) as nat
}

/// The bounds of the batches into which `len` items are cut: `size` items each, what is left
/// in the last.
pub open spec fn spec_batches(len: nat, size: nat) -> Seq<(usize, usize)> {
    Seq::new(
        batch_count(len, size),
        |i: int|
            (
                (i * size) as usize,
                (if (i + 1) * size <= len {
                    (i + 1) * size
                } else {
                    len as int
                }) as usize,
            ),
    )
}

/// Cuts `len` items into batches of at most `size`, and returns the bounds of each.
pub fn batch_ranges(len: usize, size: usize) -> (r: Vec<(usize, usize)>)
    requires
        size > 0,
    ensures
        r@ == spec_batches(len as nat, size as nat),
{
    let mut out: Vec<(usize, usize)> = Vec::new();
    let mut from: usize = 0;
    proof {
        lemma_batch_count(len as nat, size as nat, 0);
    }
    while from < len
        invariant
            size > 0,
            from <= len,
            out@.len() <= batch_count(len as nat, size as nat),
            from < len ==> from == out@.len() * size,
            from < len ==> out@.len() < batch_count(len as nat, size as nat),
            from == len ==> out@.len() == batch_count(len as nat, size as nat),
            forall|i: int|
                0 <= i < out@.len() ==> out@[i] == spec_batches(len as nat, size as nat)[i],
        decreases len - from,
    {
        let ghost n = out@.len();
        let to: usize = if len - from < size {
            len
        } else {
            from + size
        };
        out.push((from, to));
        proof {
            lemma_batch_count(len as nat, size as nat, n + 1);
            assert((n + 1) * size == n * size + size) by (nonlinear_arith);
        }
        from = to;
    }
    assert(out@ =~= spec_batches(len as nat, size as nat));
    out
}

/// `n` batches are needed exactly where one fewer does not hold all items.
proof fn lemma_batch_count(len: nat, size: nat, n: nat)
    requires
        size > 0,
    ensures
        n < batch_count(len, size) <==> n * size < len,
        n == batch_count(len, size) ==> len <= n * size,
        n > 0 && len <= n * size && (n - 1) * size < len ==> n == batch_count(len, size),
        len == 0 ==> batch_count(len, size) == 0,
{
    let c = (len + size - 1) / size as int;
    vstd::arithmetic::div_mod::lemma_fundamental_div_mod(len + size - 1, size as int);
    vstd::arithmetic::div_mod::lemma_mod_bound(len + size - 1, size as int);
    let m = (len + size - 1) % size as int;
    assert(c >= 0) by (nonlinear_arith)
        requires
            len + size - 1 == size * c + m,
            0 <= m < size,
            size > 0,
            len >= 0,
    ;
    assert(len == 0 ==> c == 0) by (nonlinear_arith)
        requires
            len + size - 1 == size * c + m,
            0 <= m < size,
            size > 0,
            c >= 0,
    ;
    assert(n < c <==> n * size < len) by (nonlinear_arith)
        requires
            len + size - 1 == size * c + m,
            0 <= m < size,
            size > 0,
    ;
    assert(n > 0 && len <= n * size && (n - 1) * size < len ==> n == c) by (nonlinear_arith)
        requires
            len + size - 1 == size * c + m,
            0 <= m < size,
            size > 0,
    ;
}

/// The batches follow each other without a gap, from the first item to the last, and none of
/// them is empty or larger than `size`.
pub proof fn law_batches_tile(len: nat, size: nat)
    requires
        size > 0,
        len <= usize::MAX,
    ensures
        ({
            let b = spec_batches(len, size);
            &&& (b.len() == 0 <==> len == 0)
            &&& b.len() > 0 ==> b[0].0 == 0 && b.last().1 == len
            &&& forall|i: int|
                0 <= i < b.len() ==> {
                    &&& b[i].0 < b[i].1 <= len
                    &&& b[i].1 - b[i].0 <= size
                }
            &&& forall|i: int| 0 < i < b.len() ==> b[i].0 == b[i - 1].1
        }),
{
    let b = spec_batches(len, size);
    lemma_batch_count(len, size, 0);
    if b.len() > 0 {
        lemma_batch_count(len, size, (b.len() - 1) as nat);
        lemma_batch_count(len, size, b.len());
        assert(((b.len() - 1) + 1) * size == b.len() * size);
        assert(0 * size == 0);
    }
    assert forall|i: int| 0 <= i < b.len() implies {
        &&& b[i].0 < b[i].1 <= len
        &&& b[i].1 - b[i].0 <= size
    } by {
        lemma_batch_count(len, size, i as nat);
        assert((i + 1) * size == i * size + size) by (nonlinear_arith);
        assert(i * size >= 0) by (nonlinear_arith)
            requires
                i >= 0,
                size > 0,
        ;
    }
    assert forall|i: int| 0 < i < b.len() implies b[i].0 == b[i - 1].1 by {
        lemma_batch_count(len, size, i as nat);
        assert(((i - 1) + 1) * size == i * size);
        assert(i * size >= 0) by (nonlinear_arith)
            requires
                i >= 0,
                size > 0,
        ;
    }
}

/// The batches into which items are cut hold each item once, in order, and none is empty or larger
/// than allowed; all but the last are as large as allowed.
pub proof fn law_batch_ranges_hold_each_item_once(
    len: usize,
    size: usize,
    r: Vec<(usize, usize)>,
    i: int,
)
    requires
        size > 0,
        call_ensures(batch_ranges, (len, size), r),
        0 <= i < r@.len(),
    ensures
        r@[0].0 == 0,
        r@.last().1 == len,
        r@[i].0 < r@[i].1 <= len,
        r@[i].1 - r@[i].0 <= size,
        i > 0 ==> r@[i].0 == r@[i - 1].1,
        i + 1 < r@.len() ==> r@[i].1 - r@[i].0 == size,
{
    assert(call_requires(batch_ranges, (len, size)));
    law_batches_tile(len as nat, size as nat);
    if i + 1 < r@.len() {
        lemma_batch_count(len as nat, size as nat, (i + 1) as nat);
        assert((i + 1) * size == i * size + size) by (nonlinear_arith);
        assert(i * size >= 0) by (nonlinear_arith)
            requires
                i >= 0,
                size > 0,
        ;
        lemma_batch_count(len as nat, size as nat, i as nat);
    }
}

} // verus!
