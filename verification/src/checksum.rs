//! Content checksums and the form in which they are stored.

use crate::bytes::{append_bytes, bytes_before, bytes_equal, bytes_less, take32};
use crate::error::{Error, ErrorKind};
use sha2::Digest;
use std::cmp::Ordering;
use vstd::prelude::*;

verus! {

/// How a checksum was computed.
#[derive(Debug, Copy, Clone, Eq, PartialEq, Ord, PartialOrd, Structural)]
pub enum CheckSumMethod {
    Sha256,
    Blake3,
    Unknown,
}

/// The byte that stands for a method in storage and on the wire.
pub open spec fn method_byte(m: CheckSumMethod) -> u8 {
    match m {
        CheckSumMethod::Sha256 => 0,
        CheckSumMethod::Blake3 => 1,
        CheckSumMethod::Unknown => 2,
    }
}

/// The method that a byte stands for; a byte without a method of its own is unknown.
pub open spec fn byte_method(b: u8) -> CheckSumMethod {
    if b == 0 {
        CheckSumMethod::Sha256
    } else if b == 1 {
        CheckSumMethod::Blake3
    } else {
        CheckSumMethod::Unknown
    }
}

impl From<u8> for CheckSumMethod {
    fn from(value: u8) -> (r: CheckSumMethod) {
        if value == 0 {
            CheckSumMethod::Sha256
        } else if value == 1 {
            CheckSumMethod::Blake3
        } else {
            CheckSumMethod::Unknown
        }
    }
}

impl vstd::std_specs::convert::FromSpecImpl<u8> for CheckSumMethod {
    open spec fn obeys_from_spec() -> bool {
        true
    }

    open spec fn from_spec(value: u8) -> CheckSumMethod {
        byte_method(value)
    }
}

impl From<CheckSumMethod> for u8 {
    fn from(value: CheckSumMethod) -> (r: u8) {
        match value {
            CheckSumMethod::Sha256 => 0,
            CheckSumMethod::Blake3 => 1,
            CheckSumMethod::Unknown => 2,
        }
    }
}

impl vstd::std_specs::convert::FromSpecImpl<CheckSumMethod> for u8 {
    open spec fn obeys_from_spec() -> bool {
        true
    }

    open spec fn from_spec(value: CheckSumMethod) -> u8 {
        method_byte(value)
    }
}

/// A method survives the way through its byte.
pub proof fn law_method_byte_roundtrip(m: CheckSumMethod)
    ensures
        byte_method(method_byte(m)) == m,
{
}

/// The name under which a method appears in texts.
pub open spec fn method_name(m: CheckSumMethod) -> Seq<char> {
    match m {
        CheckSumMethod::Sha256 => "Sha256"@,
        CheckSumMethod::Blake3 => "Blake3"@,
        CheckSumMethod::Unknown => "Unknown"@,
    }
}

/// The SHA-256 digest of a byte string.
pub uninterp spec fn sha256_digest(data: Seq<u8>) -> Seq<u8>;

/// The BLAKE3 digest of a byte string.
pub uninterp spec fn blake3_digest(data: Seq<u8>) -> Seq<u8>;

/// The digest that a method gives for a byte string. BLAKE3 stands in where the method is
/// unknown.
pub open spec fn digest(method: CheckSumMethod, data: Seq<u8>) -> Seq<u8> {
    match method {
        CheckSumMethod::Sha256 => sha256_digest(data),
        _ => blake3_digest(data),
    }
}

/// `sha2::Sha256`, fed with `data` alone: its digest, which depends on `data` only.
#[verifier::external_body]
fn sha256(data: &[u8]) -> (r: [u8; 32])
    ensures
        r@ == sha256_digest(data@),
{
    sha2::Sha256::new().chain_update(data).finalize().into()
}

/// `blake3::hash`: the digest of `data`, which depends on `data` only.
#[verifier::external_body]
pub(crate) fn blake3_hash(data: &[u8]) -> (r: [u8; 32])
    ensures
        r@ == blake3_digest(data@),
{
    blake3::hash(data).into()
}

/// The digit for a number below 16.
pub open spec fn hex_digit(n: int) -> char {
    "0123456789abcdef"@[n]
}

/// Two lower case hexadecimal digits for each byte, the high half first.
pub open spec fn hex_text(s: Seq<u8>) -> Seq<char> {
    Seq::new(
        2 * s.len(),
        |i: int|
            if i % 2 == 0 {
                hex_digit(s[i / 2] as int / 16)
            } else {
                hex_digit(s[i / 2] as int % 16)
            },
    )
}

/// `hex::encode`: two lower case hexadecimal digits for each byte, in the order of the bytes,
/// the high half of a byte first.
#[verifier::external_body]
fn hex_encode(s: &[u8]) -> (r: String)
    ensures
        r@ == hex_text(s@),
{
    hex::encode(s)
}

/// A content checksum. Checksums are ordered by method, then by digest.
#[derive(Debug, Copy, Clone, Eq, PartialEq, Ord, PartialOrd)]
pub struct CheckSum {
    pub method: CheckSumMethod,
    pub raw: [u8; 32],
}

/// The checksum of nothing: all zero, by no known method.
pub open spec fn empty_checksum() -> CheckSum {
    CheckSum {
        method: CheckSumMethod::Unknown,
        raw: vstd::array::spec_array_fill_for_copy_type::<u8, 32>(0),
    }
}

/// The checksum that a method gives for a byte string.
pub open spec fn is_checksum_of(cs: CheckSum, data: Seq<u8>, method: CheckSumMethod) -> bool {
    cs.method == method && cs.raw@ == digest(method, data)
}

/// The text form of a checksum: its method's name, a colon and the digest in hexadecimal.
pub open spec fn checksum_text(cs: CheckSum) -> Seq<char> {
    method_name(cs.method) + ":"@ + hex_text(cs.raw@)
}

/// Two checksums agree in their method and in every byte of their digests only where they are
/// the same.
pub proof fn lemma_checksum_ext(a: CheckSum, b: CheckSum)
    requires
        a.method == b.method,
        a.raw@ == b.raw@,
    ensures
        a == b,
{
    assert(a.raw =~= b.raw);
}

impl CheckSum {
    /// The checksum of nothing: all zero, by no known method.
    pub fn empty() -> (r: CheckSum)
        ensures
            r == empty_checksum(),
            r.raw@ == Seq::new(32, |i: int| 0u8),
    {
        let r: CheckSum = CheckSum { raw: [0u8;32], method: CheckSumMethod::Unknown };
        assert(r.raw@ =~= Seq::new(32, |i: int| 0u8));
        r
    }

    /// The checksum with the given digest, which has to have 32 bytes.
    pub fn new(raw: &[u8], method: CheckSumMethod) -> (r: Result<CheckSum, Error>)
        ensures
            match r {
                Ok(cs) => raw@.len() == 32 && cs.raw@ == raw@ && cs.method == method,
                Err(e) => raw@.len() != 32 && e.kind == ErrorKind::InvalidInput && e.message@
                    == "Invalid checksum data len"@,
            },
    {
        if raw.len() != 32 {
            return Err(Error::new(ErrorKind::InvalidInput, "Invalid checksum data len"));
        }
        let bytes: [u8; 32] = take32(raw, 0);
        assert(raw@.subrange(0, 32) =~= raw@);
        Ok(CheckSum { raw: bytes, method })
    }

    /// The checksum of `data`.
    pub fn from_data(data: &[u8], method: CheckSumMethod) -> (r: CheckSum)
        ensures
            is_checksum_of(r, data@, method),
    {
        let raw: [u8; 32] = match method {
            CheckSumMethod::Sha256 => sha256(data),
            _ => blake3_hash(data),
        };
        CheckSum { raw, method }
    }

    /// The text form, such as `Blake3:af13...`.
    pub fn to_text(&self) -> (r: String)
        ensures
            r@ == checksum_text(*self),
    {
        let name: &str = match self.method {
            CheckSumMethod::Sha256 => "Sha256",
            CheckSumMethod::Blake3 => "Blake3",
            CheckSumMethod::Unknown => "Unknown",
        };
        let mut text: String = name.to_owned();
        text.append(":");
        let digits: String = hex_encode(&self.raw);
        text.append(digits.as_str());
        text
    }

    /// Whether two checksums are the same.
    pub fn same(&self, other: &CheckSum) -> (r: bool)
        ensures
            r == (*self == *other),
    {
        if self.method != other.method {
            return false;
        }
        let r: bool = bytes_equal(&self.raw, &other.raw);
        proof {
            if r {
                lemma_checksum_ext(*self, *other);
            }
        }
        r
    }
}

/// A checksum as the databases store it. The method is a plain byte, and the bytes behind it
/// are kept for later use.
#[derive(Debug, Copy, Clone, Eq, PartialEq, Hash)]
pub struct CheckSumOnDisk {
    pub raw: [u8; 32],
    pub method: u8,
    pub reserved: [u8; 7],
}

/// Stored checksums are ordered by method, then by digest.
pub open spec fn stored_order(a: CheckSumOnDisk, b: CheckSumOnDisk) -> Ordering {
    if a.method != b.method {
        if a.method < b.method {
            Ordering::Less
        } else {
            Ordering::Greater
        }
    } else if a.raw@ != b.raw@ {
        if bytes_less(a.raw@, b.raw@) {
            Ordering::Less
        } else {
            Ordering::Greater
        }
    } else {
        Ordering::Equal
    }
}

impl PartialOrd for CheckSumOnDisk {
    fn partial_cmp(&self, other: &CheckSumOnDisk) -> (r: Option<Ordering>) {
        if self.method != other.method {
            if self.method < other.method {
                Some(Ordering::Less)
            } else {
                Some(Ordering::Greater)
            }
        } else if !bytes_equal(&self.raw, &other.raw) {
            if bytes_before(&self.raw, &other.raw) {
                Some(Ordering::Less)
            } else {
                Some(Ordering::Greater)
            }
        } else {
            Some(Ordering::Equal)
        }
    }
}

impl vstd::std_specs::cmp::PartialOrdSpecImpl for CheckSumOnDisk {
    open spec fn obeys_partial_cmp_spec() -> bool {
        true
    }

    open spec fn partial_cmp_spec(&self, other: &CheckSumOnDisk) -> Option<Ordering> {
        Some(stored_order(*self, *other))
    }
}

/// The 40 bytes of a stored checksum: the digest, the method and what is reserved.
pub open spec fn on_disk_bytes(cs: CheckSumOnDisk) -> Seq<u8> {
    cs.raw@ + seq![cs.method] + cs.reserved@
}

/// The stored form of a checksum: nothing in the reserved bytes.
pub open spec fn stored_form(cs: CheckSum) -> CheckSumOnDisk {
    CheckSumOnDisk {
        raw: cs.raw,
        method: method_byte(cs.method),
        reserved: vstd::array::spec_array_fill_for_copy_type::<u8, 7>(0),
    }
}

/// The checksum that a stored one stands for.
pub open spec fn loaded_form(cs: CheckSumOnDisk) -> CheckSum {
    CheckSum { raw: cs.raw, method: byte_method(cs.method) }
}

/// Whether a stored checksum was computed by a known method.
pub open spec fn method_known(cs: CheckSumOnDisk) -> bool {
    cs.method < 2
}

/// Storing a checksum and loading it gives it back.
pub proof fn law_stored_checksum_roundtrip(cs: CheckSum)
    ensures
        loaded_form(stored_form(cs)) == cs,
{
}

/// Two checksums are stored alike only where they are the same.
pub proof fn law_stored_form_injective(a: CheckSum, b: CheckSum)
    requires
        stored_form(a) == stored_form(b),
    ensures
        a == b,
{
    law_stored_checksum_roundtrip(a);
    law_stored_checksum_roundtrip(b);
}

/// Two stored checksums have the same bytes only where they are the same.
pub proof fn law_on_disk_bytes_injective(a: CheckSumOnDisk, b: CheckSumOnDisk)
    requires
        on_disk_bytes(a) == on_disk_bytes(b),
    ensures
        a == b,
{
    let s = on_disk_bytes(a);
    let t = on_disk_bytes(b);
    assert(a.raw@ =~= s.subrange(0, 32));
    assert(b.raw@ =~= t.subrange(0, 32));
    assert(a.method == s[32]);
    assert(b.method == t[32]);
    assert(a.reserved@ =~= s.subrange(33, 40));
    assert(b.reserved@ =~= t.subrange(33, 40));
    assert(a.raw =~= b.raw);
    assert(a.reserved =~= b.reserved);
}

impl CheckSumOnDisk {
    /// Whether the checksum was computed by a known method.
    pub fn is_valid(&self) -> (r: bool)
        ensures
            r == method_known(*self),
    {
        self.method < 2
    }

    /// The bytes under which the checksum is stored.
    pub fn to_bytes(&self) -> (r: Vec<u8>)
        ensures
            r@ == on_disk_bytes(*self),
    {
        let mut out: Vec<u8> = Vec::with_capacity(40);
        append_bytes(&mut out, &self.raw);
        out.push(self.method);
        append_bytes(&mut out, &self.reserved);
        assert(out@ =~= on_disk_bytes(*self));
        out
    }

    /// The checksum that is stored in the 40 bytes from `at` on.
    pub fn from_bytes(s: &[u8], at: usize) -> (r: CheckSumOnDisk)
        requires
            at + 40 <= s@.len(),
        ensures
            on_disk_bytes(r) == s@.subrange(at as int, at + 40),
    {
        assert(s.len() == s@.len());
        let raw: [u8; 32] = take32(s, at);
        let reserved: [u8; 7] = [
            s[at + 33],
            s[at + 34],
            s[at + 35],
            s[at + 36],
            s[at + 37],
            s[at + 38],
            s[at + 39],
        ];
        let r: CheckSumOnDisk = CheckSumOnDisk { raw, method: s[at + 32], reserved };
        assert(on_disk_bytes(r) =~= s@.subrange(at as int, at + 40));
        r
    }

    /// Whether two stored checksums are the same.
    pub fn same(&self, other: &CheckSumOnDisk) -> (r: bool)
        ensures
            r == (*self == *other),
    {
        if self.method != other.method {
            return false;
        }
        let r: bool = bytes_equal(&self.raw, &other.raw) && bytes_equal(
            &self.reserved,
            &other.reserved,
        );
        proof {
            if r {
                assert(self.raw =~= other.raw);
                assert(self.reserved =~= other.reserved);
            }
        }
        r
    }
}

impl From<CheckSum> for CheckSumOnDisk {
    fn from(value: CheckSum) -> (r: CheckSumOnDisk) {
        let method: u8 = u8::from(value.method);
        CheckSumOnDisk { raw: value.raw, method, reserved: [0u8;7] }
    }
}

impl vstd::std_specs::convert::FromSpecImpl<CheckSum> for CheckSumOnDisk {
    open spec fn obeys_from_spec() -> bool {
        true
    }

    open spec fn from_spec(value: CheckSum) -> CheckSumOnDisk {
        stored_form(value)
    }
}

impl From<CheckSumOnDisk> for CheckSum {
    fn from(value: CheckSumOnDisk) -> (r: CheckSum) {
        CheckSum { raw: value.raw, method: CheckSumMethod::from(value.method) }
    }
}

impl vstd::std_specs::convert::FromSpecImpl<CheckSumOnDisk> for CheckSum {
    open spec fn obeys_from_spec() -> bool {
        true
    }

    open spec fn from_spec(value: CheckSumOnDisk) -> CheckSum {
        loaded_form(value)
    }
}

/// The checksum of data is the digest that its method names, and it is the same whenever it is
/// computed of the same data.
pub proof fn law_checksum_is_the_digest_of_its_method(
    a: &[u8],
    b: &[u8],
    method: CheckSumMethod,
    of_a: CheckSum,
    of_b: CheckSum,
    at: &CheckSum,
    other: &CheckSum,
    alike: bool,
)
    requires
        call_ensures(CheckSum::from_data, (a, method), of_a),
        call_ensures(CheckSum::from_data, (b, method), of_b),
        *at == of_a,
        *other == of_b,
        call_ensures(CheckSum::same, (at, other), alike),
    ensures
        of_a.method == method,
        method is Sha256 ==> of_a.raw@ == sha256_digest(a@),
        method is Blake3 ==> of_a.raw@ == blake3_digest(a@),
        a@ == b@ ==> alike,
        alike <==> of_a.raw@ == of_b.raw@,
{
    if of_a.raw@ == of_b.raw@ {
        lemma_checksum_ext(of_a, of_b);
    }
}

/// A checksum is loaded as it was stored, from wherever its bytes stand, and counts as valid there
/// exactly where its method is known.
pub proof fn law_checksum_survives_storage(
    cs: CheckSum,
    stored: &CheckSumOnDisk,
    valid: bool,
    bytes: Vec<u8>,
    s: &[u8],
    at: usize,
    read: CheckSumOnDisk,
)
    requires
        *stored == stored_form(cs),
        call_ensures(CheckSumOnDisk::is_valid, (stored,), valid),
        call_ensures(CheckSumOnDisk::to_bytes, (stored,), bytes),
        at + 40 <= s@.len() <= usize::MAX,
        s@.subrange(at as int, at + 40) == bytes@,
        call_ensures(CheckSumOnDisk::from_bytes, (s, at), read),
    ensures
        bytes@.len() == 40,
        read == *stored,
        loaded_form(read) == cs,
        valid <==> !(cs.method is Unknown),
{
    assert(call_requires(CheckSumOnDisk::from_bytes, (s, at)));
    law_on_disk_bytes_injective(read, *stored);
    law_stored_checksum_roundtrip(cs);
}

proof fn lemma_hex_digit(a: int, b: int)
    requires
        0 <= a < 16,
        0 <= b < 16,
        hex_digit(a) == hex_digit(b),
    ensures
        a == b,
{
    reveal_strlit("0123456789abcdef");
}

/// Checksums of one method are told apart by their texts.
pub proof fn law_checksums_are_told_apart_by_their_text(
    a: &CheckSum,
    b: &CheckSum,
    of_a: String,
    of_b: String,
)
    requires
        a.method == b.method,
        call_ensures(CheckSum::to_text, (a,), of_a),
        call_ensures(CheckSum::to_text, (b,), of_b),
    ensures
        of_a@ == of_b@ <==> *a == *b,
        of_a@.len() == method_name(a.method).len() + 65,
{
    reveal_strlit(":");
    let n = method_name(a.method).len() + 1;
    let (s, t) = (hex_text(a.raw@), hex_text(b.raw@));
    assert(of_a@.skip(n as int) =~= s);
    assert(of_b@.skip(n as int) =~= t);
    if of_a@ == of_b@ {
        assert forall|i: int| 0 <= i < 32 implies a.raw@[i] == b.raw@[i] by {
            let (x, y) = (a.raw@[i] as int, b.raw@[i] as int);
            assert(s[2 * i] == hex_digit(x / 16));
            assert(t[2 * i] == hex_digit(y / 16));
            assert(s[2 * i + 1] == hex_digit(x % 16));
            assert(t[2 * i + 1] == hex_digit(y % 16));
            lemma_hex_digit(x / 16, y / 16);
            lemma_hex_digit(x % 16, y % 16);
        }
        assert(a.raw@ =~= b.raw@);
        lemma_checksum_ext(*a, *b);
    }
}

} // verus!
