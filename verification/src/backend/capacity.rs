//! The size of the chunk database, as it is configured.

use crate::text::{decimal, to_decimal};
use vstd::prelude::*;

verus! {

/// Whether a character is a decimal digit.
pub open spec fn is_digit(c: char) -> bool {
    '0' <= c && c <= '9'
}

/// How many digits a text starts with.
pub open spec fn leading_digits(s: Seq<char>) -> nat
    decreases s.len(),
{
    if s.len() == 0 || !is_digit(s[0]) {
        0
    } else {
        1 + leading_digits(s.skip(1))
    }
}

/// The number that decimal digits denote.
pub open spec fn digits_value(s: Seq<char>) -> nat
    decreases s.len(),
{
    if s.len() == 0 {
        0
    } else {
        digits_value(s.drop_last()) * 10 + (s.last() as nat - '0' as nat) as nat
    }
}

/// The number of bytes that a unit stands for; no unit stands for bytes.
pub open spec fn unit_bytes(unit: Seq<char>) -> Option<nat> {
    if unit == ""@ || unit == "B"@ {
        Some(1)
    } else if unit == "KiB"@ {
        Some(0x400)
    } else if unit == "MiB"@ {
        Some(0x10_0000)
    } else if unit == "GiB"@ {
        Some(0x4000_0000)
    } else if unit == "TiB"@ {
        Some(0x100_0000_0000)
    } else {
        None
    }
}

/// Why a size is refused; `None` where it is accepted.
pub open spec fn size_fault(size: nat, page_size: int) -> Option<Seq<char>> {
    if page_size <= 0 {
        Some("cannot determine system page size"@)
    } else if size < 0x10_0000 {
        Some("ChunkDB size must be at least 1MiB"@)
    } else if size > isize::MAX {
        Some("ChunkDB size exceeds addressable range"@)
    } else if size as int % page_size != 0 {
        Some(
            "ChunkDB size must be a multiple of the system page size ("@ + decimal(page_size as nat)
                + " bytes)"@,
        )
    } else {
        None
    }
}

/// The size that a text denotes, or why it denotes none.
pub open spec fn spec_parse_size(s: Seq<char>, page_size: int) -> Result<nat, Seq<char>> {
    let d = leading_digits(s) as int;
    match unit_bytes(s.skip(d)) {
        None => Err("use whole bytes or an integer with B, KiB, MiB, GiB, TiB"@),
        Some(unit) => {
            let size = digits_value(s.take(d)) * unit;
            if d == 0 || size > usize::MAX {
                Err("invalid or overflowing ChunkDB size"@)
            } else {
                match size_fault(size, page_size) {
                    Some(fault) => Err(fault),
                    None => Ok(size),
                }
            }
        },
    }
}

/// Checks that the chunk database can have a size: at least 1 MiB, within the address space,
/// and a multiple of the page size that the system reports.
pub fn validate_size(size: usize, page_size: i64) -> (r: Result<(), String>)
    ensures
        match r {
            Ok(_) => size_fault(size as nat, page_size as int) is None,
            Err(e) => size_fault(size as nat, page_size as int) == Some(e@),
        },
{
    if page_size <= 0 {
        return Err("cannot determine system page size".to_owned());
    }
    if size < 0x10_0000 {
        return Err("ChunkDB size must be at least 1MiB".to_owned());
    }
    if size > isize::MAX as usize {
        return Err("ChunkDB size exceeds addressable range".to_owned());
    }
    if size as u64 % page_size as u64 != 0 {
        let mut text: String =
            "ChunkDB size must be a multiple of the system page size (".to_owned();
        let n: String = to_decimal(page_size as u64);
        text.append(n.as_str());
        text.append(" bytes)");
        return Err(text);
    }
    Ok(())
}

/// Parses whole bytes or an integer followed by B, KiB, MiB, GiB, or TiB.
pub fn parse_chunk_db_size(value: &str, page_size: i64) -> (r: Result<usize, String>)
    ensures
        match r {
            Ok(size) => spec_parse_size(value@, page_size as int) == Ok::<nat, Seq<char>>(
                size as nat,
            ),
            Err(e) => spec_parse_size(value@, page_size as int) == Err::<nat, Seq<char>>(e@),
        },
{
    let len: usize = value.unicode_len();
    let mut split: usize = 0;
    let mut number: Option<u64> = Some(0);
    let ghost s = value@;
    assert(s.skip(0) =~= s);
    assert(s.take(0) =~= Seq::<char>::empty());
    while split < len && value.get_char(split) >= '0' && value.get_char(split) <= '9'
        invariant
            s == value@,
            len == s.len(),
            split <= len,
            leading_digits(s) == split + leading_digits(s.skip(split as int)),
            match number {
                Some(n) => digits_value(s.take(split as int)) == n,
                None => digits_value(s.take(split as int)) > u64::MAX,
            },
        decreases len - split,
    {
        let c: char = value.get_char(split);
        let d: u64 = c as u64 - '0' as u64;
        number = match number {
            Some(n) => match n.checked_mul(10) {
                Some(tens) => tens.checked_add(d),
                None => None,
            },
            None => None,
        };
        proof {
            let t = s.take(split + 1);
            assert(t.drop_last() =~= s.take(split as int));
            assert(t.last() == c);
            assert(s.skip(split as int).skip(1) =~= s.skip(split + 1));
            assert(s.skip(split as int)[0] == c);
        }
        split = split + 1;
    }
    assert(leading_digits(s.skip(split as int)) == 0) by {
        if split < len {
            assert(s.skip(split as int)[0] == s[split as int]);
        }
    }
    let unit: String = value.substring_char(split, len).to_owned();
    assert(unit@ =~= s.skip(split as int));
    let factor: u64 = if unit == "".to_owned() || unit == "B".to_owned() {
        1
    } else if unit == "KiB".to_owned() {
        0x400
    } else if unit == "MiB".to_owned() {
        0x10_0000
    } else if unit == "GiB".to_owned() {
        0x4000_0000
    } else if unit == "TiB".to_owned() {
        0x100_0000_0000
    } else {
        return Err("use whole bytes or an integer with B, KiB, MiB, GiB, TiB".to_owned());
    };
    let ghost n = digits_value(s.take(split as int));
    let size: Option<u64> = match number {
        Some(v) => v.checked_mul(factor),
        None => None,
    };
    proof {
        assert(number is None ==> n * factor > u64::MAX) by (nonlinear_arith)
            requires
                number is None ==> n > u64::MAX,
                factor >= 1,
        ;
    }
    let size: usize = match size {
        Some(v) => {
            if split == 0 || v > usize::MAX as u64 {
                return Err("invalid or overflowing ChunkDB size".to_owned());
            }
            v as usize
        },
        None => {
            return Err("invalid or overflowing ChunkDB size".to_owned());
        },
    };
    match validate_size(size, page_size) {
        Ok(_) => Ok(size),
        Err(e) => Err(e),
    }
}

/// An accepted size is taken as it is written: it is the number times the unit, without
/// rounding, and the store can have it.
pub proof fn law_sizes_are_not_rounded(s: Seq<char>, page_size: int, size: nat)
    requires
        spec_parse_size(s, page_size) == Ok::<nat, Seq<char>>(size),
    ensures
        size == digits_value(s.take(leading_digits(s) as int)) * unit_bytes(
            s.skip(leading_digits(s) as int),
        )->0,
        0x10_0000 <= size <= isize::MAX,
        page_size > 0,
        size as int % page_size == 0,
{
}

proof fn lemma_decimal_digits(n: nat)
    ensures
        digits_value(decimal(n)) == n,
        decimal(n).len() > 0,
        forall|i: int| 0 <= i < decimal(n).len() ==> is_digit(#[trigger] decimal(n)[i]),
    decreases n,
{
    reveal_strlit("0123456789");
    let s = decimal(n);
    if n < 10 {
        reveal_with_fuel(digits_value, 2);
        assert(s.drop_last() =~= Seq::<char>::empty());
        lemma_digit(n as int);
    } else {
        lemma_decimal_digits(n / 10);
        lemma_digit((n % 10) as int);
        assert(s.drop_last() =~= decimal(n / 10));
    }
}

proof fn lemma_digit(n: int)
    requires
        0 <= n < 10,
    ensures
        is_digit(crate::text::decimal_digit(n)),
        crate::text::decimal_digit(n) as nat - '0' as nat == n,
{
    reveal_strlit("0123456789");
}

proof fn lemma_leading(a: Seq<char>, b: Seq<char>)
    requires
        forall|i: int| 0 <= i < a.len() ==> is_digit(#[trigger] a[i]),
        b.len() == 0 || !is_digit(b[0]),
    ensures
        leading_digits(a + b) == a.len(),
    decreases a.len(),
{
    let s = a + b;
    if a.len() == 0 {
        assert(s =~= b);
    } else {
        assert(s[0] == a[0]);
        assert(s.skip(1) =~= a.skip(1) + b);
        lemma_leading(a.skip(1), b);
    }
}

/// A size that is written as a whole number with a unit is read as that number of units, and is
/// taken where the store can have it: at least a MiB, within the address space, in whole pages.
/// The units are bytes and powers of 1024 of them.
pub proof fn law_written_size_is_read_back(
    text: &str,
    n: nat,
    unit: Seq<char>,
    bytes: nat,
    page_size: i64,
    r: Result<usize, String>,
)
    requires
        text@ == decimal(n) + unit,
        (unit == ""@ && bytes == 1) || (unit == "B"@ && bytes == 1) || (unit == "KiB"@ && bytes
            == 1024) || (unit == "MiB"@ && bytes == 1024 * 1024) || (unit == "GiB"@ && bytes == 1024
            * 1024 * 1024) || (unit == "TiB"@ && bytes == 1024 * 1024 * 1024 * 1024),
        call_ensures(parse_chunk_db_size, (text, page_size), r),
    ensures
        r matches Ok(size) ==> size == n * bytes,
        r is Ok <==> page_size > 0 && 1024 * 1024 <= n * bytes <= isize::MAX && (n * bytes) as int
            % page_size as int == 0,
{
    reveal_strlit("");
    reveal_strlit("B");
    reveal_strlit("KiB");
    reveal_strlit("MiB");
    reveal_strlit("GiB");
    reveal_strlit("TiB");
    let d = decimal(n);
    lemma_decimal_digits(n);
    assert(unit.len() == 0 || !is_digit(unit[0]));
    assert(unit_bytes(unit) == Some(bytes)) by {
        assert("KiB"@[0] == 'K' && "MiB"@[0] == 'M' && "GiB"@[0] == 'G' && "TiB"@[0] == 'T');
        assert(unit.len() == ""@.len() ==> unit =~= ""@);
    }
    lemma_leading(d, unit);
    assert(text@.take(d.len() as int) =~= d);
    assert(text@.skip(d.len() as int) =~= unit);
}

/// A size that is checked is accepted exactly where the store can have it.
pub proof fn law_size_is_checked(size: usize, page_size: i64, r: Result<(), String>)
    requires
        call_ensures(validate_size, (size, page_size), r),
    ensures
        r is Ok <==> page_size > 0 && 1024 * 1024 <= size <= isize::MAX && size as int
            % page_size as int == 0,
{
}

/// A number that is written in decimal digits denotes itself.
pub proof fn law_decimal_digits_denote_the_number(n: u64, text: String)
    requires
        call_ensures(to_decimal, (n,), text),
    ensures
        digits_value(text@) == n,
        leading_digits(text@) == text@.len(),
        text@.len() > 0,
        n > 0 ==> text@[0] != '0',
{
    lemma_decimal_digits(n as nat);
    lemma_leading(text@, Seq::empty());
    assert(text@ + Seq::<char>::empty() =~= text@);
    lemma_no_leading_zero(n as nat);
}

proof fn lemma_no_leading_zero(n: nat)
    ensures
        n > 0 ==> decimal(n)[0] != '0',
    decreases n,
{
    reveal_strlit("0123456789");
    if n >= 10 {
        lemma_no_leading_zero(n / 10);
        lemma_decimal_digits(n / 10);
    }
}

} // verus!
