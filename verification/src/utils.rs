//! Alignment, log rate limiting and the clock.

use crate::error::{Error, ErrorKind};
use std::time::{Duration, SystemTime, SystemTimeError, UNIX_EPOCH};
use vstd::prelude::*;

verus! {

/// The smallest multiple of `align` that is not below `v`, for a positive `align`.
pub open spec fn spec_align_up(v: int, align: int) -> int {
    (v + align - 1) / align * align
}

/// Rounding up gives a multiple of the alignment, not below the value and less than one
/// alignment above it.
pub proof fn lemma_align_up_is_least_multiple(v: int, align: int)
    requires
        align > 0,
    ensures
        spec_align_up(v, align) % align == 0,
        v <= spec_align_up(v, align) < v + align,
{
    let n = v + align - 1;
    vstd::arithmetic::div_mod::lemma_fundamental_div_mod(n, align);
    vstd::arithmetic::div_mod::lemma_mod_bound(n, align);
    vstd::arithmetic::mul::lemma_mul_is_commutative(align, n / align);
    vstd::arithmetic::div_mod::lemma_mod_multiples_basic(n / align, align);
}

/// A multiple of the alignment that lies less than one alignment above a value is the value
/// rounded up.
pub proof fn lemma_align_up_unique(v: int, align: int, r: int)
    requires
        align > 0,
        r % align == 0,
        v <= r < v + align,
    ensures
        r == spec_align_up(v, align),
{
    lemma_align_up_is_least_multiple(v, align);
    let s = spec_align_up(v, align);
    vstd::arithmetic::div_mod::lemma_fundamental_div_mod(r, align);
    vstd::arithmetic::div_mod::lemma_fundamental_div_mod(s, align);
    let a = r / align;
    let b = s / align;
    assert(a == b) by (nonlinear_arith)
        requires
            r == align * a,
            s == align * b,
            align > 0,
            -align < r - s < align,
    ;
}

/// Adding what a value lacks to a multiple of the alignment rounds it up.
proof fn lemma_align_up_by_remainder(v: int, align: int)
    requires
        align > 0,
    ensures
        v % align == 0 ==> spec_align_up(v, align) == v,
        v % align != 0 ==> spec_align_up(v, align) == v + (align - v % align),
        0 <= v % align < align,
{
    vstd::arithmetic::div_mod::lemma_mod_bound(v, align);
    if v % align == 0 {
        lemma_align_up_unique(v, align, v);
    } else {
        let r = v + (align - v % align);
        let q = v / align;
        vstd::arithmetic::div_mod::lemma_fundamental_div_mod(v, align);
        assert(r == (q + 1) * align) by (nonlinear_arith)
            requires
                v == align * q + v % align,
                r == v + (align - v % align),
        ;
        vstd::arithmetic::div_mod::lemma_mod_multiples_basic(q + 1, align);
        lemma_align_up_unique(v, align, r);
    }
}

/// The multiples of an alignment are those of its magnitude.
pub open spec fn magnitude(align: int) -> int {
    if align < 0 {
        -align
    } else {
        align
    }
}

/// Whether `v` can be aligned in a type that holds the numbers from `min` to `max`: the alignment
/// is not zero, and neither one less than the alignment, nor `v` with that added, nor the largest
/// number that rounding up can lead to is out of range.
pub open spec fn alignable(v: int, align: int, min: int, max: int) -> bool {
    &&& align != 0
    &&& min <= align - 1
    &&& min <= v + align - 1 <= max
    &&& v + magnitude(align) - 1 <= max
}

/// An integer type that values can be aligned in.
pub trait AlignInt: Copy + Sized {
    /// The number that a value stands for.
    spec fn as_int(self) -> int;

    /// The smallest number that the type holds.
    spec fn min_int() -> int;

    /// The largest number that the type holds.
    spec fn max_int() -> int;

    /// Rounds up to the next multiple of `align`.
    fn round_up(self, align: Self) -> (r: Self)
        requires
            alignable(self.as_int(), align.as_int(), Self::min_int(), Self::max_int()),
        ensures
            r.as_int() == spec_align_up(self.as_int(), magnitude(align.as_int())),
    ;
}

impl AlignInt for u8 {
    open spec fn as_int(self) -> int {
        self as int
    }

    open spec fn min_int() -> int {
        0
    }

    open spec fn max_int() -> int {
        u8::MAX as int
    }

    fn round_up(self, align: u8) -> (r: u8) {
        proof {
            lemma_align_up_by_remainder(self as int, align as int);
        }
        let rem: u8 = self % align;
        if rem == 0 {
            self
        } else {
            self + (align - rem)
        }
    }
}

impl AlignInt for u16 {
    open spec fn as_int(self) -> int {
        self as int
    }

    open spec fn min_int() -> int {
        0
    }

    open spec fn max_int() -> int {
        u16::MAX as int
    }

    fn round_up(self, align: u16) -> (r: u16) {
        proof {
            lemma_align_up_by_remainder(self as int, align as int);
        }
        let rem: u16 = self % align;
        if rem == 0 {
            self
        } else {
            self + (align - rem)
        }
    }
}

impl AlignInt for u32 {
    open spec fn as_int(self) -> int {
        self as int
    }

    open spec fn min_int() -> int {
        0
    }

    open spec fn max_int() -> int {
        u32::MAX as int
    }

    fn round_up(self, align: u32) -> (r: u32) {
        proof {
            lemma_align_up_by_remainder(self as int, align as int);
        }
        let rem: u32 = self % align;
        if rem == 0 {
            self
        } else {
            self + (align - rem)
        }
    }
}

impl AlignInt for u64 {
    open spec fn as_int(self) -> int {
        self as int
    }

    open spec fn min_int() -> int {
        0
    }

    open spec fn max_int() -> int {
        u64::MAX as int
    }

    fn round_up(self, align: u64) -> (r: u64) {
        proof {
            lemma_align_up_by_remainder(self as int, align as int);
        }
        let rem: u64 = self % align;
        if rem == 0 {
            self
        } else {
            self + (align - rem)
        }
    }
}

impl AlignInt for u128 {
    open spec fn as_int(self) -> int {
        self as int
    }

    open spec fn min_int() -> int {
        0
    }

    open spec fn max_int() -> int {
        u128::MAX as int
    }

    fn round_up(self, align: u128) -> (r: u128) {
        proof {
            lemma_align_up_by_remainder(self as int, align as int);
        }
        let rem: u128 = self % align;
        if rem == 0 {
            self
        } else {
            self + (align - rem)
        }
    }
}

impl AlignInt for usize {
    open spec fn as_int(self) -> int {
        self as int
    }

    open spec fn min_int() -> int {
        0
    }

    open spec fn max_int() -> int {
        usize::MAX as int
    }

    fn round_up(self, align: usize) -> (r: usize) {
        proof {
            lemma_align_up_by_remainder(self as int, align as int);
        }
        let rem: usize = self % align;
        if rem == 0 {
            self
        } else {
            self + (align - rem)
        }
    }
}

impl AlignInt for i8 {
    open spec fn as_int(self) -> int {
        self as int
    }

    open spec fn min_int() -> int {
        i8::MIN as int
    }

    open spec fn max_int() -> int {
        i8::MAX as int
    }

    fn round_up(self, align: i8) -> (r: i8) {
        let step: i8 = if align < 0 {
            -align
        } else {
            align
        };
        proof {
            lemma_align_up_by_remainder(self as int, step as int);
        }
        match self.checked_rem_euclid(step) {
            Some(rem) if rem != 0 => self + (step - rem),
            _ => self,
        }
    }
}

impl AlignInt for i16 {
    open spec fn as_int(self) -> int {
        self as int
    }

    open spec fn min_int() -> int {
        i16::MIN as int
    }

    open spec fn max_int() -> int {
        i16::MAX as int
    }

    fn round_up(self, align: i16) -> (r: i16) {
        let step: i16 = if align < 0 {
            -align
        } else {
            align
        };
        proof {
            lemma_align_up_by_remainder(self as int, step as int);
        }
        match self.checked_rem_euclid(step) {
            Some(rem) if rem != 0 => self + (step - rem),
            _ => self,
        }
    }
}

impl AlignInt for i32 {
    open spec fn as_int(self) -> int {
        self as int
    }

    open spec fn min_int() -> int {
        i32::MIN as int
    }

    open spec fn max_int() -> int {
        i32::MAX as int
    }

    fn round_up(self, align: i32) -> (r: i32) {
        let step: i32 = if align < 0 {
            -align
        } else {
            align
        };
        proof {
            lemma_align_up_by_remainder(self as int, step as int);
        }
        match self.checked_rem_euclid(step) {
            Some(rem) if rem != 0 => self + (step - rem),
            _ => self,
        }
    }
}

impl AlignInt for i64 {
    open spec fn as_int(self) -> int {
        self as int
    }

    open spec fn min_int() -> int {
        i64::MIN as int
    }

    open spec fn max_int() -> int {
        i64::MAX as int
    }

    fn round_up(self, align: i64) -> (r: i64) {
        let step: i64 = if align < 0 {
            -align
        } else {
            align
        };
        proof {
            lemma_align_up_by_remainder(self as int, step as int);
        }
        match self.checked_rem_euclid(step) {
            Some(rem) if rem != 0 => self + (step - rem),
            _ => self,
        }
    }
}

impl AlignInt for i128 {
    open spec fn as_int(self) -> int {
        self as int
    }

    open spec fn min_int() -> int {
        i128::MIN as int
    }

    open spec fn max_int() -> int {
        i128::MAX as int
    }

    fn round_up(self, align: i128) -> (r: i128) {
        let step: i128 = if align < 0 {
            -align
        } else {
            align
        };
        proof {
            lemma_align_up_by_remainder(self as int, step as int);
        }
        match self.checked_rem_euclid(step) {
            Some(rem) if rem != 0 => self + (step - rem),
            _ => self,
        }
    }
}

impl AlignInt for isize {
    open spec fn as_int(self) -> int {
        self as int
    }

    open spec fn min_int() -> int {
        isize::MIN as int
    }

    open spec fn max_int() -> int {
        isize::MAX as int
    }

    fn round_up(self, align: isize) -> (r: isize) {
        let step: isize = if align < 0 {
            -align
        } else {
            align
        };
        proof {
            lemma_align_up_by_remainder(self as int, step as int);
        }
        match self.checked_rem_euclid(step) {
            Some(rem) if rem != 0 => self + (step - rem),
            _ => self,
        }
    }
}

/// Aligns a value `v` up to the next multiple of `align`.
pub fn align_up<T: AlignInt>(v: T, align: T) -> (r: T)
    requires
        alignable(v.as_int(), align.as_int(), T::min_int(), T::max_int()),
    ensures
        r.as_int() == spec_align_up(v.as_int(), magnitude(align.as_int())),
        r.as_int() % align.as_int() == 0,
        v.as_int() <= r.as_int() < v.as_int() + magnitude(align.as_int()),
{
    proof {
        law_aligned_is_next_multiple(v.as_int(), align.as_int());
    }
    v.round_up(align)
}

/// What a value is aligned to is a multiple of the alignment, and no other one lies between them:
/// it is not below the value, and less than the magnitude of the alignment above it.
pub proof fn law_aligned_is_next_multiple(v: int, align: int)
    requires
        align != 0,
    ensures
        spec_align_up(v, magnitude(align)) % align == 0,
        v <= spec_align_up(v, magnitude(align)) < v + magnitude(align),
{
    let m = magnitude(align);
    let r = spec_align_up(v, m);
    lemma_align_up_is_least_multiple(v, m);
    vstd::arithmetic::div_mod::lemma_fundamental_div_mod(r, m);
    let q = r / m;
    if align < 0 {
        assert(r == align * (-q)) by (nonlinear_arith)
            requires
                r == m * q,
                m == -align,
        ;
        assert(r % align == 0) by (nonlinear_arith)
            requires
                r == align * (-q),
                align < 0,
        ;
    }
}

/// An error of no particular kind whose message is the text form of `t`.
pub fn new_std_io_error<T: std::fmt::Display>(t: T) -> (r: Error)
    ensures
        r.kind == ErrorKind::Other,
        vstd::string::to_string_from_display_ensures(&t, r.message),
{
    Error { kind: ErrorKind::Other, message: t.to_string() }
}

/// The page size to work with, from what the system reports: a system that reports none
/// (zero or a negative number) has pages of 4096 bytes.
pub fn page_size(reported: i64) -> (r: u64)
    ensures
        r == if reported <= 0 {
            4096
        } else {
            reported as int
        },
{
    if reported <= 0 {
        4096
    } else {
        reported as u64
    }
}

/// The rule of a rate limit: a call at second `now` is let through, as `r` says, where the
/// interval has passed since the last one that was, and is then the new last one.
pub open spec fn log_rule(
    before: RateLimitedLog,
    now: u64,
    after: RateLimitedLog,
    r: bool,
) -> bool {
    &&& r == (now >= before.last() + before.interval())
    &&& after.last() == if r {
        now as nat
    } else {
        before.last()
    }
    &&& after.interval() == before.interval()
}

/// Suppresses repeated log calls within a configurable time interval.
#[derive(Debug)]
pub struct RateLimitedLog {
    last_epoch_secs: u64,
    interval_secs: u64,
}

impl RateLimitedLog {
    /// The second at which the last call was let through; 0 before the first.
    pub closed spec fn last(self) -> nat {
        self.last_epoch_secs as nat
    }

    /// The seconds that have to pass between two calls that are let through.
    pub closed spec fn interval(self) -> nat {
        self.interval_secs as nat
    }

    /// A limiter that lets one call through per `interval_secs`.
    pub fn new(interval_secs: u64) -> (r: RateLimitedLog)
        ensures
            r.last() == 0,
            r.interval() == interval_secs,
    {
        RateLimitedLog { last_epoch_secs: 0, interval_secs }
    }

    /// Whether a call at the current time is let through. The clock decides; see
    /// [`RateLimitedLog::should_log_at`] for what follows from its reading.
    pub fn should_log(&mut self) -> (r: bool)
        ensures
            exists|now: u64|
                clock_shows(now) && #[trigger] log_rule(*old(self), now, *final(self), r),
            final(self).interval() == old(self).interval(),
            final(self).last() >= old(self).last(),
            !r ==> final(self).last() == old(self).last(),
            r ==> final(self).last() >= old(self).last() + old(self).interval(),
    {
        let now: u64 = now_epoch_secs();
        let r: bool = self.should_log_at(now);
        assert(log_rule(*old(self), now, *self, r));
        r
    }

    /// Whether a call at second `now` is let through: the interval has passed since the
    /// last one that was. A call that is let through is the new last one.
    pub fn should_log_at(&mut self, now: u64) -> (r: bool)
        ensures
            log_rule(*old(self), now, *final(self), r),
    {
        let due: bool = now >= self.last_epoch_secs && now - self.last_epoch_secs
            >= self.interval_secs;
        if due {
            self.last_epoch_secs = now;
        }
        due
    }
}

#[verifier::external_type_specification]
#[verifier::external_body]
pub struct ExSystemTime(SystemTime);

#[verifier::external_type_specification]
#[verifier::external_body]
pub struct ExSystemTimeError(SystemTimeError);

/// `SystemTime::now`: the current reading of the system's clock. Nothing is claimed of it.
#[verifier::external_body]
fn system_clock() -> SystemTime {
    SystemTime::now()
}

/// `SystemTime::duration_since` from the Unix epoch on: the time that passed since then, or
/// an error where `now` lies before it. Nothing is claimed of the amount.
#[verifier::external_body]
fn since_unix_epoch(now: SystemTime) -> Result<Duration, SystemTimeError> {
    now.duration_since(UNIX_EPOCH)
}

/// `Duration::as_secs`: the whole seconds of a duration. Nothing is claimed of the amount.
#[verifier::external_body]
fn whole_secs(d: &Duration) -> u64 {
    d.as_secs()
}

/// Seconds since the Unix epoch for a clock that shows this many whole seconds since then; 0
/// where the clock stands before it and shows none.
pub fn epoch_secs(shown: Option<u64>) -> (r: u64)
    ensures
        r == match shown {
            Some(secs) => secs,
            None => 0,
        },
{
    match shown {
        Some(secs) => secs,
        None => 0,
    }
}

/// Whether a reading of the system's clock can give this many seconds since the Unix epoch: the
/// whole seconds of what passed from then to the reading, or 0 where it lies before.
pub closed spec fn clock_shows(secs: u64) -> bool {
    exists|t: SystemTime, since: Result<Duration, SystemTimeError>|
        #![auto]
        call_ensures(system_clock, (), t) && call_ensures(since_unix_epoch, (t,), since)
            && match since {
            Ok(d) => call_ensures(whole_secs, (&d,), secs),
            Err(_) => secs == 0,
        }
}

/// Seconds since the Unix epoch by the system's clock; 0 where the clock stands before it.
pub fn now_epoch_secs() -> (r: u64)
    ensures
        clock_shows(r),
{
    let t: SystemTime = system_clock();
    let since: Result<Duration, SystemTimeError> = since_unix_epoch(t);
    match since {
        Ok(d) => epoch_secs(Some(whole_secs(&d))),
        Err(_) => epoch_secs(None),
    }
}

/// Two calls that are let through lie at least one interval apart.
pub proof fn law_logged_calls_are_spaced(
    start: RateLimitedLog,
    first: RateLimitedLog,
    second: RateLimitedLog,
    t1: u64,
    t2: u64,
)
    requires
        t1 >= start.last() + start.interval(),
        first.last() == t1,
        first.interval() == start.interval(),
        t2 >= first.last() + first.interval(),
        second.last() == t2,
    ensures
        t2 >= t1 + start.interval(),
{
}

/// Of two calls that are let through, the second comes an interval after the first or later; a call
/// that comes later than that, with none let through in between, is let through.
pub proof fn law_calls_are_let_through_once_per_interval(
    log0: &mut RateLimitedLog,
    t1: u64,
    first: bool,
    log1: &mut RateLimitedLog,
    t2: u64,
    second: bool,
)
    requires
        call_ensures(RateLimitedLog::should_log_at, (log0, t1), first),
        *old(log1) == *final(log0),
        call_ensures(RateLimitedLog::should_log_at, (log1, t2), second),
        first,
    ensures
        second <==> t2 >= t1 + old(log0).interval(),
        final(log1).interval() == old(log0).interval(),
        !second ==> *final(log1) == *final(log0) || final(log1).last() == t1,
{
}

/// A new limiter lets a call through from the end of its first interval on.
pub proof fn law_new_limiter_waits_for_its_interval(
    interval_secs: u64,
    log: &mut RateLimitedLog,
    now: u64,
    r: bool,
)
    requires
        call_ensures(RateLimitedLog::new, (interval_secs,), *old(log)),
        call_ensures(RateLimitedLog::should_log_at, (log, now), r),
    ensures
        r <==> now >= interval_secs,
{
}

} // verus!
