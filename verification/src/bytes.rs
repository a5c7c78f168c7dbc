//! Big-endian integers and fixed-width byte fields.

use vstd::prelude::*;

verus! {

/// The number that a byte string denotes, most significant byte first.
pub open spec fn be_value(s: Seq<u8>) -> nat
    decreases s.len(),
{
    if s.len() == 0 {
        0
    } else {
        be_value(s.drop_last()) * 256 + s.last() as nat
    }
}

/// `256^n`.
pub open spec fn pow256(n: nat) -> nat
    decreases n,
{
    if n == 0 {
        1
    } else {
        256 * pow256((n - 1) as nat)
    }
}

/// The number that a byte string denotes, least significant byte first.
pub open spec fn le_value(s: Seq<u8>) -> nat {
    be_value(s.reverse())
}

/// Lexicographic order on byte strings, the order in which a store of raw byte keys
/// walks its entries. A proper prefix comes first.
pub open spec fn bytes_less(a: Seq<u8>, b: Seq<u8>) -> bool
    decreases a.len(),
{
    if b.len() == 0 {
        false
    } else if a.len() == 0 {
        true
    } else {
        a[0] < b[0] || (a[0] == b[0] && bytes_less(a.skip(1), b.skip(1)))
    }
}

/// `n` bytes hold less than `256^n`.
pub proof fn lemma_be_value_bound(s: Seq<u8>)
    ensures
        be_value(s) < pow256(s.len()),
    decreases s.len(),
{
    if s.len() > 0 {
        lemma_be_value_bound(s.drop_last());
    }
}

/// Two byte strings of one length that denote the same number are the same.
pub proof fn lemma_be_value_injective(a: Seq<u8>, b: Seq<u8>)
    requires
        a.len() == b.len(),
        be_value(a) == be_value(b),
    ensures
        a == b,
    decreases a.len(),
{
    if a.len() > 0 {
        lemma_be_value_injective(a.drop_last(), b.drop_last());
        assert(a =~= a.drop_last().push(a.last()));
        assert(b =~= b.drop_last().push(b.last()));
    } else {
        assert(a =~= b);
    }
}

/// The first byte counts for `256^(n - 1)`.
pub proof fn lemma_be_value_first(s: Seq<u8>)
    requires
        s.len() > 0,
    ensures
        be_value(s) == s[0] as nat * pow256((s.len() - 1) as nat) + be_value(s.skip(1)),
    decreases s.len(),
{
    if s.len() == 1 {
        assert(s.drop_last() =~= Seq::<u8>::empty());
        assert(s.skip(1) =~= Seq::<u8>::empty());
        assert(be_value(s.drop_last()) == 0);
        assert(s[0] as nat * pow256(0) == s[0] as nat) by (nonlinear_arith)
            requires
                pow256(0) == 1,
        ;
    } else {
        lemma_be_value_first(s.drop_last());
        assert(s.drop_last().skip(1) =~= s.skip(1).drop_last());
        assert(s.skip(1).last() == s.last());
        let n = (s.len() - 2) as nat;
        let f = s[0] as nat;
        assert(f * pow256(n) * 256 == f * (256 * pow256(n))) by (nonlinear_arith);
        assert(pow256((n + 1) as nat) == 256 * pow256(n));
    }
}

/// On byte strings of one length, the lexicographic order is the order of the numbers
/// that they denote.
pub proof fn lemma_be_order(a: Seq<u8>, b: Seq<u8>)
    requires
        a.len() == b.len(),
    ensures
        bytes_less(a, b) == (be_value(a) < be_value(b)),
    decreases a.len(),
{
    if a.len() > 0 {
        lemma_be_value_first(a);
        lemma_be_value_first(b);
        lemma_be_order(a.skip(1), b.skip(1));
        lemma_be_value_bound(a.skip(1));
        lemma_be_value_bound(b.skip(1));
        let p = pow256((a.len() - 1) as nat);
        let x = a[0] as nat;
        let y = b[0] as nat;
        if x < y {
            assert(x * p + p <= y * p) by (nonlinear_arith)
                requires
                    x + 1 <= y,
            ;
        } else if y < x {
            assert(y * p + p <= x * p) by (nonlinear_arith)
                requires
                    y + 1 <= x,
            ;
        }
    }
}

/// The lexicographic order decides on the first differing field of keys that are made of
/// fields of one length.
pub proof fn lemma_bytes_less_concat(a1: Seq<u8>, a2: Seq<u8>, b1: Seq<u8>, b2: Seq<u8>)
    requires
        a1.len() == b1.len(),
    ensures
        bytes_less(a1 + a2, b1 + b2) == (bytes_less(a1, b1) || (a1 == b1 && bytes_less(a2, b2))),
    decreases a1.len(),
{
    if a1.len() == 0 {
        assert(a1 + a2 =~= a2);
        assert(b1 + b2 =~= b2);
        assert(a1 =~= b1);
    } else {
        let a = a1 + a2;
        let b = b1 + b2;
        assert(a.skip(1) =~= a1.skip(1) + a2);
        assert(b.skip(1) =~= b1.skip(1) + b2);
        lemma_bytes_less_concat(a1.skip(1), a2, b1.skip(1), b2);
        if a1[0] == b1[0] {
            assert((a1.skip(1) == b1.skip(1)) == (a1 == b1)) by {
                if a1.skip(1) == b1.skip(1) {
                    assert(a1 =~= seq![a1[0]] + a1.skip(1));
                    assert(b1 =~= seq![b1[0]] + b1.skip(1));
                }
            }
        }
    }
}

/// Writes a number as 8 bytes.
pub fn u64_to_be(v: u64) -> (r: [u8; 8])
    ensures
        be_value(r@) == v,
{
    let hi: [u8; 4] = u32_to_be((v / 0x1_0000_0000) as u32);
    let lo: [u8; 4] = u32_to_be((v % 0x1_0000_0000) as u32);
    let r: [u8; 8] = [hi[0], hi[1], hi[2], hi[3], lo[0], lo[1], lo[2], lo[3]];
    proof {
        reveal_with_fuel(be_value, 9);
        assert(r@.drop_last().drop_last().drop_last().drop_last() =~= hi@);
    }
    r
}

/// Writes a number as 4 bytes.
pub fn u32_to_be(v: u32) -> (r: [u8; 4])
    ensures
        be_value(r@) == v,
{
    let r: [u8; 4] = [
        (v / 0x100_0000) as u8,
        (v / 0x1_0000 % 0x100) as u8,
        (v / 0x100 % 0x100) as u8,
        (v % 0x100) as u8,
    ];
    proof {
        reveal_with_fuel(be_value, 5);
    }
    r
}

/// Reads the number in the 8 bytes from `at` on.
pub fn be_to_u64(s: &[u8], at: usize) -> (r: u64)
    requires
        at + 8 <= s@.len(),
    ensures
        r == be_value(s@.subrange(at as int, at + 8)),
{
    assert(s.len() == s@.len());
    let hi: u32 = be_to_u32(s, at);
    let lo: u32 = be_to_u32(s, at + 4);
    proof {
        let t = s@.subrange(at as int, at + 8);
        reveal_with_fuel(be_value, 9);
        assert(t.drop_last().drop_last().drop_last().drop_last() =~= s@.subrange(
            at as int,
            at + 4,
        ));
    }
    hi as u64 * 0x1_0000_0000 + lo as u64
}

/// Reads the number in the 4 bytes from `at` on.
pub fn be_to_u32(s: &[u8], at: usize) -> (r: u32)
    requires
        at + 4 <= s@.len(),
    ensures
        r == be_value(s@.subrange(at as int, at + 4)),
{
    proof {
        reveal_with_fuel(be_value, 5);
    }
    s[at] as u32 * 0x100_0000 + s[at + 1] as u32 * 0x1_0000 + s[at + 2] as u32 * 0x100
        + s[at + 3] as u32
}

/// Writes a number as 8 bytes, least significant byte first.
pub fn u64_to_le(v: u64) -> (r: [u8; 8])
    ensures
        le_value(r@) == v,
{
    let b: [u8; 8] = u64_to_be(v);
    let r: [u8; 8] = [b[7], b[6], b[5], b[4], b[3], b[2], b[1], b[0]];
    assert(r@.reverse() =~= b@);
    r
}

/// Writes a number as 4 bytes, least significant byte first.
pub fn u32_to_le(v: u32) -> (r: [u8; 4])
    ensures
        le_value(r@) == v,
{
    let b: [u8; 4] = u32_to_be(v);
    let r: [u8; 4] = [b[3], b[2], b[1], b[0]];
    assert(r@.reverse() =~= b@);
    r
}

/// Reads the number in the 8 bytes from `at` on, least significant byte first.
pub fn le_to_u64(s: &[u8], at: usize) -> (r: u64)
    requires
        at + 8 <= s@.len(),
    ensures
        r == le_value(s@.subrange(at as int, at + 8)),
{
    assert(s.len() == s@.len());
    let b: [u8; 8] = [
        s[at + 7],
        s[at + 6],
        s[at + 5],
        s[at + 4],
        s[at + 3],
        s[at + 2],
        s[at + 1],
        s[at],
    ];
    assert(s@.subrange(at as int, at + 8).reverse() =~= b@);
    assert(b@.subrange(0, 8) =~= b@);
    be_to_u64(&b, 0)
}

/// Reads the number in the 4 bytes from `at` on, least significant byte first.
pub fn le_to_u32(s: &[u8], at: usize) -> (r: u32)
    requires
        at + 4 <= s@.len(),
    ensures
        r == le_value(s@.subrange(at as int, at + 4)),
{
    assert(s.len() == s@.len());
    let b: [u8; 4] = [s[at + 3], s[at + 2], s[at + 1], s[at]];
    assert(s@.subrange(at as int, at + 4).reverse() =~= b@);
    assert(b@.subrange(0, 4) =~= b@);
    be_to_u32(&b, 0)
}

/// Reads the 32 bytes from `at` on.
pub fn take32(s: &[u8], at: usize) -> (r: [u8; 32])
    requires
        at + 32 <= s@.len(),
    ensures
        r@ == s@.subrange(at as int, at + 32),
{
    assert(s.len() == s@.len());
    let mut r: [u8; 32] = [0u8;32];
    let mut i: usize = 0;
    while i < 32
        invariant
            i <= 32,
            at + 32 <= s.len() == s@.len(),
            r@.len() == 32,
            forall|j: int| 0 <= j < i ==> r@[j] == s@[at + j],
        decreases 32 - i,
    {
        r[i] = s[at + i];
        i = i + 1;
    }
    assert(r@ =~= s@.subrange(at as int, at + 32));
    r
}

/// Appends bytes to a buffer.
pub fn append_bytes(out: &mut Vec<u8>, s: &[u8])
    ensures
        final(out)@ == old(out)@ + s@,
{
    let mut i: usize = 0;
    while i < s.len()
        invariant
            i <= s@.len(),
            out@ == old(out)@ + s@.take(i as int),
        decreases s@.len() - i,
    {
        out.push(s[i]);
        i = i + 1;
        assert(s@.take(i as int) =~= s@.take(i - 1).push(s@[i - 1]));
    }
    assert(s@.take(i as int) =~= s@);
}

/// Whether two byte strings are equal.
pub fn bytes_equal(a: &[u8], b: &[u8]) -> (r: bool)
    ensures
        r == (a@ == b@),
{
    if a.len() != b.len() {
        return false;
    }
    let mut i: usize = 0;
    while i < a.len()
        invariant
            i <= a@.len() == b@.len(),
            forall|j: int| 0 <= j < i ==> a@[j] == b@[j],
        decreases a@.len() - i,
    {
        if a[i] != b[i] {
            return false;
        }
        i = i + 1;
    }
    assert(a@ =~= b@);
    true
}

/// Whether `a` comes before `b` in lexicographic order.
pub fn bytes_before(a: &[u8], b: &[u8]) -> (r: bool)
    ensures
        r == bytes_less(a@, b@),
{
    let mut i: usize = 0;
    assert(a@.skip(0) =~= a@);
    assert(b@.skip(0) =~= b@);
    while i < a.len() && i < b.len()
        invariant
            i <= a@.len(),
            i <= b@.len(),
            bytes_less(a@, b@) == bytes_less(a@.skip(i as int), b@.skip(i as int)),
        decreases a@.len() - i,
    {
        if a[i] != b[i] {
            return a[i] < b[i];
        }
        assert(a@.skip(i as int).skip(1) =~= a@.skip(i + 1));
        assert(b@.skip(i as int).skip(1) =~= b@.skip(i + 1));
        i = i + 1;
    }
    i < b.len()
}

/// A number that is written is read back, from wherever it stands.
pub proof fn law_numbers_survive_being_written(
    v: u64,
    be: [u8; 8],
    le: [u8; 8],
    s: &[u8],
    t: &[u8],
    at: usize,
    from_be: u64,
    from_le: u64,
)
    requires
        call_ensures(u64_to_be, (v,), be),
        call_ensures(u64_to_le, (v,), le),
        at + 8 <= s@.len() <= usize::MAX,
        at + 8 <= t@.len() <= usize::MAX,
        s@.subrange(at as int, at + 8) == be@,
        t@.subrange(at as int, at + 8) == le@,
        call_ensures(be_to_u64, (s, at), from_be),
        call_ensures(le_to_u64, (t, at), from_le),
    ensures
        from_be == v,
        from_le == v,
        le@ == be@.reverse(),
{
    assert(call_requires(be_to_u64, (s, at)));
    assert(call_requires(le_to_u64, (t, at)));
    lemma_be_value_injective(le@.reverse(), be@);
    assert(le@ =~= le@.reverse().reverse());
}

/// A number of 4 bytes that is written is read back, from wherever it stands.
pub proof fn law_short_numbers_survive_being_written(
    v: u32,
    be: [u8; 4],
    le: [u8; 4],
    s: &[u8],
    t: &[u8],
    at: usize,
    from_be: u32,
    from_le: u32,
)
    requires
        call_ensures(u32_to_be, (v,), be),
        call_ensures(u32_to_le, (v,), le),
        at + 4 <= s@.len() <= usize::MAX,
        at + 4 <= t@.len() <= usize::MAX,
        s@.subrange(at as int, at + 4) == be@,
        t@.subrange(at as int, at + 4) == le@,
        call_ensures(be_to_u32, (s, at), from_be),
        call_ensures(le_to_u32, (t, at), from_le),
    ensures
        from_be == v,
        from_le == v,
        le@ == be@.reverse(),
{
    assert(call_requires(be_to_u32, (s, at)));
    assert(call_requires(le_to_u32, (t, at)));
    lemma_be_value_injective(le@.reverse(), be@);
    assert(le@ =~= le@.reverse().reverse());
}

/// The value of 4 bytes: the first counts most, or the last where the least significant byte comes
/// first.
pub proof fn law_four_bytes_denote_a_number(s: Seq<u8>)
    requires
        s.len() == 4,
    ensures
        be_value(s) == s[0] * 0x100_0000 + s[1] * 0x1_0000 + s[2] * 0x100 + s[3],
        le_value(s) == s[3] * 0x100_0000 + s[2] * 0x1_0000 + s[1] * 0x100 + s[0],
{
    reveal_with_fuel(be_value, 5);
    let t = s.reverse();
    assert(t[0] == s[3] && t[1] == s[2] && t[2] == s[1] && t[3] == s[0]);
}

/// The value of 8 bytes is that of the two halves.
pub proof fn law_eight_bytes_denote_a_number(s: Seq<u8>)
    requires
        s.len() == 8,
    ensures
        be_value(s) == be_value(s.take(4)) * 0x1_0000_0000 + be_value(s.skip(4)),
        le_value(s) == le_value(s.skip(4)) * 0x1_0000_0000 + le_value(s.take(4)),
{
    reveal_with_fuel(be_value, 9);
    let t = s.reverse();
    assert(t.take(4) =~= s.skip(4).reverse());
    assert(t.skip(4) =~= s.take(4).reverse());
    lemma_eight(s);
    lemma_eight(t);
}

proof fn lemma_eight(s: Seq<u8>)
    requires
        s.len() == 8,
    ensures
        be_value(s) == be_value(s.take(4)) * 0x1_0000_0000 + be_value(s.skip(4)),
{
    reveal_with_fuel(be_value, 9);
    let (a, b) = (s.take(4), s.skip(4));
    assert(s.drop_last().drop_last().drop_last().drop_last() =~= a);
    law_four_bytes_denote_a_number(a);
    law_four_bytes_denote_a_number(b);
}

} // verus!
