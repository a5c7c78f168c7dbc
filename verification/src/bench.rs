//! The arithmetic of the benchmarks: what they read and write, and what they count.

use crate::backend::CHUNK_SIZE;
use crate::bytes::{le_value, u64_to_le};
use crate::checksum::{is_checksum_of, CheckSum, CheckSumMethod};
use crate::error::{Error, ErrorKind};
use crate::text::{decimal, to_decimal};
use vstd::prelude::*;

verus! {

/// At most this many latencies are kept.
pub const LATENCY_SAMPLE_CAP: usize = 50000;

/// What a benchmark does.
#[derive(Debug, Clone, Copy, Eq, PartialEq, Structural)]
pub enum Scenario {
    Write,
    Read,
    Mixed,
}

/// `a + b`, or the largest number where that is larger still.
pub open spec fn plus(a: u64, b: u64) -> u64 {
    if a + b <= u64::MAX {
        (a + b) as u64
    } else {
        u64::MAX
    }
}

/// One step of a shift register.
pub open spec fn xorshift(x: u64) -> u64 {
    let a = x ^ (x >> 12u64);
    let b = a ^ (a << 25u64);
    b ^ (b >> 27u64)
}

/// A generator of numbers that look random.
#[derive(Debug, Clone, Copy, Eq, PartialEq, Structural)]
pub struct Lcg {
    pub state: u64,
}

impl Lcg {
    /// A generator that starts at a seed.
    pub fn new(seed: u64) -> (r: Lcg)
        ensures
            r.state == if seed == 0 {
                0x9E3779B97F4A7C15
            } else {
                seed
            },
    {
        Lcg {
            state: if seed == 0 {
                0x9E3779B97F4A7C15
            } else {
                seed
            },
        }
    }

    /// The next number.
    pub fn next_u64(&mut self) -> (r: u64)
        ensures
            final(self).state == xorshift(old(self).state),
            r == final(self).state.wrapping_mul(0x2545F4914F6CDD1D),
    {
        let mut x: u64 = self.state;
        x = x ^ (x >> 12u64);
        x = x ^ (x << 25u64);
        x = x ^ (x >> 27u64);
        self.state = x;
        x.wrapping_mul(0x2545F4914F6CDD1D)
    }
}

/// The generator never runs dry: a state that is not zero is followed by one that is not.
pub proof fn law_generator_never_stops(x: u64)
    requires
        x != 0,
    ensures
        xorshift(x) != 0,
{
    assert(x != 0 ==> x ^ (x >> 12u64) != 0) by (bit_vector);
    let a = x ^ (x >> 12u64);
    assert(a != 0 ==> a ^ (a << 25u64) != 0) by (bit_vector);
    let b = a ^ (a << 25u64);
    assert(b != 0 ==> b ^ (b >> 27u64) != 0) by (bit_vector);
}

/// Keeps some of the latencies that it sees, each with the same chance.
#[derive(Debug)]
pub struct LatencySampler {
    cap: usize,
    seen: u64,
    samples: Vec<u64>,
    rng: Lcg,
}

impl LatencySampler {
    /// How many are kept at most.
    pub closed spec fn cap(self) -> nat {
        self.cap as nat
    }

    /// How many were seen.
    pub closed spec fn spec_seen(self) -> u64 {
        self.seen
    }

    /// Those that are kept.
    pub closed spec fn spec_samples(self) -> Seq<u64> {
        self.samples@
    }

    /// Where the numbers come from that look random.
    pub closed spec fn rng(self) -> Lcg {
        self.rng
    }

    pub open spec fn wf(self) -> bool {
        self.spec_samples().len() <= self.cap()
    }

    /// A sampler that has seen nothing.
    pub fn new(cap: usize, seed: u64) -> (r: LatencySampler)
        ensures
            r.wf(),
            r.cap() == cap,
            r.spec_seen() == 0,
            r.spec_samples() == Seq::<u64>::empty(),
            r.rng().state == if seed == 0 {
                0x9E3779B97F4A7C15
            } else {
                seed
            },
    {
        LatencySampler { cap, seen: 0, samples: Vec::new(), rng: Lcg::new(seed) }
    }

    /// Takes a latency.
    pub fn observe(&mut self, ns: u64)
        requires
            old(self).wf(),
        ensures
            final(self).wf(),
            final(self).cap() == old(self).cap(),
            final(self).spec_seen() == plus(old(self).spec_seen(), 1),
            if old(self).spec_samples().len() < old(self).cap() {
                &&& final(self).spec_samples() == old(self).spec_samples().push(ns)
                &&& final(self).rng() == old(self).rng()
            } else {
                let state = xorshift(old(self).rng().state);
                let slot = state.wrapping_mul(0x2545F4914F6CDD1D) as int % final(
                    self).spec_seen() as int;
                &&& final(self).rng().state == state
                &&& final(self).spec_samples() == if slot < old(self).cap() {
                    old(self).spec_samples().update(slot, ns)
                } else {
                    old(self).spec_samples()
                }
            },
    {
        self.seen = self.seen.saturating_add(1);
        if self.samples.len() < self.cap {
            self.samples.push(ns);
            return;
        }
        let slot: u64 = self.rng.next_u64() % self.seen;
        if slot < self.cap as u64 {
            self.samples.set(slot as usize, ns);
        }
    }

    /// How many were seen.
    pub fn seen(&self) -> (r: u64)
        ensures
            r == self.spec_seen(),
    {
        self.seen
    }

    /// Hands out those that are kept.
    pub fn into_samples(self) -> (r: Vec<u64>)
        ensures
            r@ == self.spec_samples(),
    {
        self.samples
    }
}

/// The data that is written: a pattern that depends on a number.
pub fn prepare_data(chunk_size: usize, index: u64) -> (r: Vec<u8>)
    ensures
        r@.len() == chunk_size,
        forall|i: int| 0 <= i < chunk_size ==> #[trigger] r@[i] == (index % 251 + i % 251) % 256,
{
    let base: u64 = index % 251;
    let mut buf: Vec<u8> = Vec::new();
    let mut i: usize = 0;
    while i < chunk_size
        invariant
            i <= chunk_size,
            base == index % 251,
            buf@.len() == i,
            forall|j: int| 0 <= j < i ==> #[trigger] buf@[j] == (index % 251 + j % 251) % 256,
        decreases chunk_size - i,
    {
        let v: u64 = (base + (i % 251) as u64) % 256;
        buf.push(v as u8);
        i = i + 1;
    }
    buf
}

/// Whether `s` holds a salt and a number, the lowest byte of each first.
pub open spec fn is_key_seed(s: Seq<u8>, salt: u64, key_idx: u64) -> bool {
    &&& s.len() == 16
    &&& le_value(s.take(8)) == salt
    &&& le_value(s.skip(8)) == key_idx
}

/// The checksum under which the data of a number is kept.
pub fn checksum_for_key(salt: u64, key_idx: u64, method: CheckSumMethod) -> (r: CheckSum)
    ensures
        exists|seed: Seq<u8>| #[trigger]
            is_key_seed(seed, salt, key_idx) && is_checksum_of(r, seed, method),
{
    let a: [u8; 8] = u64_to_le(salt);
    let b: [u8; 8] = u64_to_le(key_idx);
    let seed: [u8; 16] = [
        a[0],
        a[1],
        a[2],
        a[3],
        a[4],
        a[5],
        a[6],
        a[7],
        b[0],
        b[1],
        b[2],
        b[3],
        b[4],
        b[5],
        b[6],
        b[7],
    ];
    assert(seed@.take(8) =~= a@);
    assert(seed@.skip(8) =~= b@);
    assert(is_key_seed(seed@, salt, key_idx));
    CheckSum::from_data(&seed, method)
}

/// The seed of a worker's generator.
pub fn worker_seed(salt: u64, worker_index: u32) -> (r: u64)
    ensures
        r == salt ^ ((worker_index as u64) << 32u64),
{
    salt ^ ((worker_index as u64) << 32u64)
}

/// The seed of a thread's generator; readers and writers have different ones.
pub fn thread_seed(salt: u64, worker_index: u32, thread: u32, writes: bool) -> (r: u64)
    ensures
        r == salt ^ ((worker_index as u64) << 32u64) ^ ((thread as u64) << 8u64) ^ (if writes {
            0x5A5A_5A5Au64
        } else {
            0xA5A5_A5A5u64
        }),
{
    let tag: u64 = if writes {
        0x5A5A_5A5A
    } else {
        0xA5A5_A5A5
    };
    salt ^ ((worker_index as u64) << 32u64) ^ ((thread as u64) << 8u64) ^ tag
}

/// The first number that a worker writes; it lies behind those that are read.
pub fn write_base(preload_chunks: u64, worker_index: u32, thread: Option<u32>) -> (r: u64)
    ensures
        r == match thread {
            None => plus(plus(preload_chunks, (worker_index as u64) << 40u64), 1),
            Some(t) => plus(
                plus(
                    plus(preload_chunks, (worker_index as u64) << 40u64),
                    (t as u64) << 24u64,
                ),
                1,
            ),
        },
{
    let base: u64 = preload_chunks.saturating_add((worker_index as u64) << 40u64);
    match thread {
        None => base.saturating_add(1),
        Some(t) => base.saturating_add((t as u64) << 24u64).saturating_add(1),
    }
}

/// The number that is written next: those of the worker in turn, over and over where their
/// number is limited.
pub fn write_key(base: u64, write_seq: u64, keyspace: u64) -> (r: u64)
    ensures
        r == if keyspace == 0 {
            plus(base, write_seq)
        } else {
            plus(base, write_seq % keyspace)
        },
{
    if keyspace == 0 {
        base.saturating_add(write_seq)
    } else {
        base.saturating_add(write_seq % keyspace)
    }
}

/// The number that is read for a random one: one of those that were written at the start.
pub fn read_key(random: u64, preload_chunks: u64) -> (r: u64)
    ensures
        r == random % (if preload_chunks >= 1 {
            preload_chunks
        } else {
            1
        }),
{
    let span: u64 = if preload_chunks >= 1 {
        preload_chunks
    } else {
        1
    };
    random % span
}

/// Decides whether the next operation writes.
pub fn next_op_writes(scenario: Scenario, rng: &mut Lcg, write_percent: u8) -> (r: bool)
    ensures
        match scenario {
            Scenario::Write => r && *final(rng) == *old(rng),
            Scenario::Read => !r && *final(rng) == *old(rng),
            Scenario::Mixed => {
                &&& final(rng).state == xorshift(old(rng).state)
                &&& r == (final(rng).state.wrapping_mul(0x2545F4914F6CDD1D) % 100 < write_percent)
            },
        },
{
    match scenario {
        Scenario::Write => true,
        Scenario::Read => false,
        Scenario::Mixed => rng.next_u64() % 100 < write_percent as u64,
    }
}

/// A read never meets what a worker writes while the numbers do not run out: what is read lies
/// below what is written.
pub proof fn law_reads_and_writes_are_apart(preload_chunks: u64, random: u64, base: u64, seq: u64)
    requires
        preload_chunks > 0,
        base > preload_chunks,
    ensures
        random % preload_chunks < preload_chunks,
        preload_chunks < plus(base, seq),
{
}

/// What a worker or a thread has done. Counts that would be too large stay at the largest.
#[derive(Debug)]
pub struct OpCounts {
    pub ops_total: u64,
    pub read_ops: u64,
    pub write_ops: u64,
    pub read_misses: u64,
    pub bytes_read: u64,
    pub bytes_written: u64,
    pub latency_seen: u64,
    pub latency_samples: Vec<u64>,
}

impl OpCounts {
    /// Nothing was done.
    pub fn new() -> (r: OpCounts)
        ensures
            r.ops_total == 0,
            r.read_ops == 0,
            r.write_ops == 0,
            r.read_misses == 0,
            r.bytes_read == 0,
            r.bytes_written == 0,
            r.latency_seen == 0,
            r.latency_samples@ == Seq::<u64>::empty(),
    {
        OpCounts {
            ops_total: 0,
            read_ops: 0,
            write_ops: 0,
            read_misses: 0,
            bytes_read: 0,
            bytes_written: 0,
            latency_seen: 0,
            latency_samples: Vec::new(),
        }
    }

    /// Counts a read.
    pub fn count_read(&mut self, hit: bool, chunk_size: usize)
        ensures
            final(self).ops_total == plus(old(self).ops_total, 1),
            final(self).read_ops == plus(old(self).read_ops, 1),
            final(self).write_ops == old(self).write_ops,
            final(self).read_misses == if hit {
                old(self).read_misses
            } else {
                plus(old(self).read_misses, 1)
            },
            final(self).bytes_read == if hit {
                plus(old(self).bytes_read, chunk_size as u64)
            } else {
                old(self).bytes_read
            },
            final(self).bytes_written == old(self).bytes_written,
            final(self).latency_seen == old(self).latency_seen,
            final(self).latency_samples == old(self).latency_samples,
    {
        self.read_ops = self.read_ops.saturating_add(1);
        if hit {
            self.bytes_read = self.bytes_read.saturating_add(chunk_size as u64);
        } else {
            self.read_misses = self.read_misses.saturating_add(1);
        }
        self.ops_total = self.ops_total.saturating_add(1);
    }

    /// Counts a write.
    pub fn count_write(&mut self, chunk_size: usize)
        ensures
            final(self).ops_total == plus(old(self).ops_total, 1),
            final(self).read_ops == old(self).read_ops,
            final(self).write_ops == plus(old(self).write_ops, 1),
            final(self).read_misses == old(self).read_misses,
            final(self).bytes_read == old(self).bytes_read,
            final(self).bytes_written == plus(old(self).bytes_written, chunk_size as u64),
            final(self).latency_seen == old(self).latency_seen,
            final(self).latency_samples == old(self).latency_samples,
    {
        self.write_ops = self.write_ops.saturating_add(1);
        self.bytes_written = self.bytes_written.saturating_add(chunk_size as u64);
        self.ops_total = self.ops_total.saturating_add(1);
    }

    /// Adds what another has done.
    pub fn merge(&mut self, other: OpCounts)
        ensures
            final(self).ops_total == plus(old(self).ops_total, other.ops_total),
            final(self).read_ops == plus(old(self).read_ops, other.read_ops),
            final(self).write_ops == plus(old(self).write_ops, other.write_ops),
            final(self).read_misses == plus(old(self).read_misses, other.read_misses),
            final(self).bytes_read == plus(old(self).bytes_read, other.bytes_read),
            final(self).bytes_written == plus(old(self).bytes_written, other.bytes_written),
            final(self).latency_seen == plus(old(self).latency_seen, other.latency_seen),
            final(self).latency_samples@ == old(self).latency_samples@ + other.latency_samples@,
    {
        self.ops_total = self.ops_total.saturating_add(other.ops_total);
        self.read_ops = self.read_ops.saturating_add(other.read_ops);
        self.write_ops = self.write_ops.saturating_add(other.write_ops);
        self.read_misses = self.read_misses.saturating_add(other.read_misses);
        self.bytes_read = self.bytes_read.saturating_add(other.bytes_read);
        self.bytes_written = self.bytes_written.saturating_add(other.bytes_written);
        self.latency_seen = self.latency_seen.saturating_add(other.latency_seen);
        let mut samples: Vec<u64> = other.latency_samples;
        self.latency_samples.append(&mut samples);
    }
}

/// Checks how the database is to be measured.
pub fn check_db_bench(
    processes: u32,
    chunk_size: usize,
    scenario: Scenario,
    mixed_concurrent: bool,
    reader_threads: u32,
    writer_threads: u32,
) -> (r: Result<(), Error>)
    ensures
        match r {
            Ok(_) => {
                &&& processes > 0
                &&& chunk_size > 0
                &&& mixed_concurrent ==> scenario is Mixed && reader_threads > 0 && writer_threads > 0
            },
            Err(e) => {
                &&& e.kind == ErrorKind::Other
                &&& if processes == 0 {
                    e.message@ == "processes must be >= 1"@
                } else if chunk_size == 0 {
                    e.message@ == "chunk_size must be > 0"@
                } else if mixed_concurrent && !(scenario is Mixed) {
                    e.message@ == "mixed_concurrent is only valid when scenario is mixed"@
                } else {
                    &&& mixed_concurrent && (reader_threads == 0 || writer_threads == 0)
                    &&& e.message@
                        == "mixed concurrent mode requires reader/writer threads > 0"@
                }
            },
        },
{
    if processes == 0 {
        return Err(Error::new(ErrorKind::Other, "processes must be >= 1"));
    }
    if chunk_size == 0 {
        return Err(Error::new(ErrorKind::Other, "chunk_size must be > 0"));
    }
    if mixed_concurrent && scenario != Scenario::Mixed {
        return Err(
            Error::new(
                ErrorKind::Other,
                "mixed_concurrent is only valid when scenario is mixed",
            ),
        );
    }
    if mixed_concurrent && (reader_threads == 0 || writer_threads == 0) {
        return Err(
            Error::new(
                ErrorKind::Other,
                "mixed concurrent mode requires reader/writer threads > 0",
            ),
        );
    }
    Ok(())
}

/// Checks the share of writes in a mixed run.
pub fn check_write_percent(write_percent: u8) -> (r: Result<(), Error>)
    ensures
        match r {
            Ok(_) => write_percent <= 100,
            Err(e) => {
                &&& write_percent > 100
                &&& e.kind == ErrorKind::Other
                &&& e.message@ == "write_percent must be in [0, 100]"@
            },
        },
{
    if write_percent > 100 {
        return Err(Error::new(ErrorKind::Other, "write_percent must be in [0, 100]"));
    }
    Ok(())
}

/// Checks how the exchange between peers is to be measured.
pub fn check_peer_bench(chunk_size: usize, unique_chunks: u64, workers: usize) -> (r: Result<
    (),
    Error,
>)
    ensures
        match r {
            Ok(_) => 0 < chunk_size <= CHUNK_SIZE && unique_chunks > 0 && workers > 0,
            Err(e) => {
                &&& e.kind == ErrorKind::Other
                &&& if chunk_size == 0 {
                    e.message@ == "chunk_size must be > 0"@
                } else if chunk_size > CHUNK_SIZE {
                    e.message@ == "chunk_size must be <= "@ + decimal(CHUNK_SIZE as nat)
                        + " bytes"@
                } else if unique_chunks == 0 {
                    e.message@ == "unique_chunks must be > 0"@
                } else {
                    workers == 0 && e.message@ == "workers must be > 0"@
                }
            },
        },
{
    if chunk_size == 0 {
        return Err(Error::new(ErrorKind::Other, "chunk_size must be > 0"));
    }
    if chunk_size > CHUNK_SIZE {
        let mut text: String = "chunk_size must be <= ".to_owned();
        let n: String = to_decimal(CHUNK_SIZE as u64);
        text.append(n.as_str());
        text.append(" bytes");
        return Err(Error { kind: ErrorKind::Other, message: text });
    }
    if unique_chunks == 0 {
        return Err(Error::new(ErrorKind::Other, "unique_chunks must be > 0"));
    }
    if workers == 0 {
        return Err(Error::new(ErrorKind::Other, "workers must be > 0"));
    }
    Ok(())
}

/// What a worker that fetches chunks from a peer has counted.
#[derive(Debug)]
pub struct FetchCounts {
    pub ops_total: u64,
    pub bytes_read: u64,
    pub misses: u64,
    pub verify_failures: u64,
}

impl FetchCounts {
    /// Nothing was fetched.
    pub fn new() -> (r: FetchCounts)
        ensures
            r == (FetchCounts { ops_total: 0, bytes_read: 0, misses: 0, verify_failures: 0 }),
    {
        FetchCounts { ops_total: 0, bytes_read: 0, misses: 0, verify_failures: 0 }
    }

    /// Counts a chunk that was fetched, or was not to be had. `expected` is what it should
    /// hold, where that is checked.
    pub fn count(&mut self, data: Option<&[u8]>, chunk_size: usize, expected: Option<&[u8]>)
        ensures
            final(self).ops_total == plus(old(self).ops_total, 1),
            final(self).misses == if data is None {
                plus(old(self).misses, 1)
            } else {
                old(self).misses
            },
            final(self).bytes_read == match data {
                Some(d) if d@.len() == chunk_size => plus(old(self).bytes_read, chunk_size as u64),
                _ => old(self).bytes_read,
            },
            final(self).verify_failures == match data {
                None => old(self).verify_failures,
                Some(d) => {
                    let short = if d@.len() == chunk_size {
                        old(self).verify_failures
                    } else {
                        plus(old(self).verify_failures, 1)
                    };
                    match expected {
                        Some(e) if e@ != d@ => plus(short, 1),
                        _ => short,
                    }
                },
            },
    {
        match data {
            Some(d) => {
                if d.len() == chunk_size {
                    self.bytes_read = self.bytes_read.saturating_add(d.len() as u64);
                } else {
                    self.verify_failures = self.verify_failures.saturating_add(1);
                }
                if let Some(e) = expected {
                    if !crate::bytes::bytes_equal(d, e) {
                        self.verify_failures = self.verify_failures.saturating_add(1);
                    }
                }
            },
            None => {
                self.misses = self.misses.saturating_add(1);
            },
        }
        self.ops_total = self.ops_total.saturating_add(1);
    }

    /// Adds what another worker has counted.
    pub fn merge(&mut self, other: &FetchCounts)
        ensures
            final(self).ops_total == plus(old(self).ops_total, other.ops_total),
            final(self).bytes_read == plus(old(self).bytes_read, other.bytes_read),
            final(self).misses == plus(old(self).misses, other.misses),
            final(self).verify_failures == plus(old(self).verify_failures, other.verify_failures),
    {
        self.ops_total = self.ops_total.saturating_add(other.ops_total);
        self.bytes_read = self.bytes_read.saturating_add(other.bytes_read);
        self.misses = self.misses.saturating_add(other.misses);
        self.verify_failures = self.verify_failures.saturating_add(other.verify_failures);
    }
}

/// While numbers do not run out, a read asks for a number that was written at the start and a write
/// never writes one of those; a worker that writes writes a new number each time, or, where their
/// number is limited, goes through them in turn.
pub proof fn law_writes_leave_the_preloaded_alone(
    preload_chunks: u64,
    worker_index: u32,
    thread: Option<u32>,
    base: u64,
    random: u64,
    read: u64,
    seq: u64,
    keyspace: u64,
    written: u64,
    next: u64,
)
    requires
        0 < preload_chunks < u64::MAX,
        call_ensures(write_base, (preload_chunks, worker_index, thread), base),
        call_ensures(read_key, (random, preload_chunks), read),
        call_ensures(write_key, (base, seq, keyspace), written),
        seq < u64::MAX,
        call_ensures(write_key, (base, (seq + 1) as u64, keyspace), next),
    ensures
        read < preload_chunks,
        written > preload_chunks,
        written >= base,
        base + seq < u64::MAX && keyspace == 0 ==> next == written + 1,
        keyspace > 0 ==> written < base + keyspace,
        keyspace > 0 && base + keyspace <= u64::MAX ==> (next == written + 1 || (next == base
            && written == base + keyspace - 1)),
{
    if keyspace > 0 {
        let k = keyspace as int;
        let n = seq as int;
        assert((n + 1) % k == if n % k + 1 == k {
            0
        } else {
            n % k + 1
        }) by (nonlinear_arith)
            requires
                k > 0,
                n >= 0,
        ;
    }
}

/// Workers do not write the same numbers, as long as each writes less than is set apart for it.
pub proof fn law_workers_write_apart(
    preload_chunks: u64,
    a: u32,
    b: u32,
    base_a: u64,
    base_b: u64,
    seq: u64,
    written: u64,
)
    requires
        a < b < 0x10_0000,
        preload_chunks < 0x1000_0000_0000,
        call_ensures(write_base, (preload_chunks, a, None), base_a),
        call_ensures(write_base, (preload_chunks, b, None), base_b),
        seq < 0x100_0000_0000,
        call_ensures(write_key, (base_a, seq, 0u64), written),
    ensures
        written < base_b,
        base_b == base_a + (b - a) * 0x100_0000_0000,
{
    let (wa, wb) = (a as u64, b as u64);
    assert(wa << 40u64 == wa * 0x100_0000_0000) by (bit_vector)
        requires
            wa < 0x10_0000u64,
    ;
    assert(wb << 40u64 == wb * 0x100_0000_0000) by (bit_vector)
        requires
            wb < 0x10_0000u64,
    ;
}

/// In a mixed run a share of nothing never writes and a share of all always does; other runs only
/// read or only write, whatever the share is.
pub proof fn law_share_of_writes_is_kept(
    scenario: Scenario,
    rng: &mut Lcg,
    write_percent: u8,
    writes: bool,
)
    requires
        call_ensures(next_op_writes, (scenario, rng, write_percent), writes),
    ensures
        scenario is Mixed && write_percent == 0 ==> !writes,
        scenario is Mixed && write_percent >= 100 ==> writes,
        scenario is Read ==> !writes,
        scenario is Write ==> writes,
{
}

/// Every operation is counted once, as a read or as a write, and its bytes where it moved any; a
/// read that found nothing is counted as a miss. Merging adds up.
pub proof fn law_operations_add_up(
    c0: &mut OpCounts,
    hit: bool,
    chunk_size: usize,
    c1: &mut OpCounts,
    c2: &mut OpCounts,
    other: OpCounts,
)
    requires
        old(c0).ops_total == old(c0).read_ops + old(c0).write_ops,
        old(c0).read_misses <= old(c0).read_ops,
        old(c0).ops_total < 0x1000_0000_0000_0000,
        call_ensures(OpCounts::count_read, (c0, hit, chunk_size), ()),
        *old(c1) == *final(c0),
        call_ensures(OpCounts::count_write, (c1, chunk_size), ()),
        *old(c2) == *final(c1),
        other.ops_total == other.read_ops + other.write_ops,
        other.read_misses <= other.read_ops,
        other.ops_total < 0x1000_0000_0000_0000,
        call_ensures(OpCounts::merge, (c2, other), ()),
    ensures
        final(c1).ops_total == old(c0).ops_total + 2,
        final(c1).read_ops == old(c0).read_ops + 1,
        final(c1).write_ops == old(c0).write_ops + 1,
        final(c1).read_misses == old(c0).read_misses + if hit {
            0int
        } else {
            1
        },
        final(c2).ops_total == final(c1).ops_total + other.ops_total,
        final(c2).ops_total == final(c2).read_ops + final(c2).write_ops,
        final(c2).read_misses == final(c1).read_misses + other.read_misses,
        final(c2).read_misses <= final(c2).read_ops,
        old(c0).bytes_read + chunk_size <= u64::MAX ==> final(c0).bytes_read == old(
            c0,
        ).bytes_read + if hit {
            chunk_size as int
        } else {
            0
        },
        !hit ==> final(c0).bytes_read == old(c0).bytes_read,
        final(c0).bytes_written == old(c0).bytes_written,
        final(c1).bytes_read == final(c0).bytes_read,
        old(c0).bytes_written + chunk_size <= u64::MAX ==> final(c1).bytes_written == old(
            c0,
        ).bytes_written + chunk_size,
        final(c2).latency_samples@ == final(c1).latency_samples@ + other.latency_samples@,
{
}

/// A chunk that was fetched whole and as expected is no failure and counts with its bytes; one of
/// another length counts no bytes and is a failure, one with other bytes is a failure too; one
/// that was not to be had is a miss and no failure.
pub proof fn law_fetched_chunks_are_judged(
    c: &mut FetchCounts,
    data: Option<&[u8]>,
    chunk_size: usize,
    expected: Option<&[u8]>,
)
    requires
        old(c).ops_total < u64::MAX,
        old(c).misses < u64::MAX,
        old(c).verify_failures < u64::MAX - 1,
        old(c).bytes_read + chunk_size <= u64::MAX,
        call_ensures(FetchCounts::count, (c, data, chunk_size, expected), ()),
    ensures
        final(c).ops_total == old(c).ops_total + 1,
        data is None <==> final(c).misses == old(c).misses + 1,
        data is Some <==> final(c).misses == old(c).misses,
        data is None ==> final(c).bytes_read == old(c).bytes_read && final(c).verify_failures
            == old(c).verify_failures,
        data matches Some(d) ==> {
            let whole = d@.len() == chunk_size;
            let right = expected is None || expected->Some_0@ == d@;
            &&& final(c).bytes_read == old(c).bytes_read + if whole {
                d@.len() as int
            } else {
                0
            }
            &&& final(c).verify_failures == old(c).verify_failures + (if whole {
                0int
            } else {
                1
            }) + (if right {
                0int
            } else {
                1
            })
        },
{
}

/// A sampler counts everything that it sees, and keeps all of it until it is full; then it keeps as
/// many, of which one at most is new.
pub proof fn law_sampler_stays_within_its_size(
    s: &mut LatencySampler,
    ns: u64,
    i: int,
)
    requires
        old(s).wf(),
        old(s).spec_seen() < u64::MAX,
        call_ensures(LatencySampler::observe, (s, ns), ()),
    ensures
        final(s).spec_seen() == old(s).spec_seen() + 1,
        final(s).cap() == old(s).cap(),
        old(s).spec_samples().len() < old(s).cap() ==> final(s).spec_samples() == old(
            s,
        ).spec_samples().push(ns),
        old(s).spec_samples().len() == old(s).cap() ==> {
            &&& final(s).spec_samples().len() == old(s).spec_samples().len()
            &&& 0 <= i < old(s).spec_samples().len() ==> final(s).spec_samples()[i] == old(
                s,
            ).spec_samples()[i] || final(s).spec_samples()[i] == ns
        },
{
    assert(call_requires(LatencySampler::observe, (s, ns)));
}

/// The data of two numbers differs from its first byte on, unless they are alike modulo 251; the
/// data of one number is the same at any size, as far as it goes.
pub proof fn law_data_depends_on_its_number(
    size_a: usize,
    a: u64,
    data_a: Vec<u8>,
    size_b: usize,
    b: u64,
    data_b: Vec<u8>,
    i: int,
)
    requires
        call_ensures(prepare_data, (size_a, a), data_a),
        call_ensures(prepare_data, (size_b, b), data_b),
        0 <= i < size_a,
        i < size_b,
    ensures
        data_a@.len() == size_a,
        a % 251 == b % 251 <==> data_a@[i] == data_b@[i],
{
    assert(data_a@[i] == (a % 251 + i % 251) % 256);
    assert(data_b@[i] == (b % 251 + i % 251) % 256);
    let (x, y, z) = (a as int % 251, b as int % 251, i % 251);
    assert(0 <= x < 251 && 0 <= y < 251 && 0 <= z < 251);
    assert((x + z) % 256 == (y + z) % 256 ==> x == y);
}

/// A configuration is accepted where everything in it makes sense.
pub proof fn law_senseless_runs_are_refused(
    processes: u32,
    chunk_size: usize,
    scenario: Scenario,
    concurrent: bool,
    readers: u32,
    writers: u32,
    db: Result<(), Error>,
    percent: u8,
    share: Result<(), Error>,
    unique_chunks: u64,
    workers: usize,
    peer: Result<(), Error>,
)
    requires
        call_ensures(
            check_db_bench,
            (processes, chunk_size, scenario, concurrent, readers, writers),
            db,
        ),
        call_ensures(check_write_percent, (percent,), share),
        call_ensures(check_peer_bench, (chunk_size, unique_chunks, workers), peer),
    ensures
        db is Ok <==> processes > 0 && chunk_size > 0 && (concurrent ==> scenario is Mixed
            && readers > 0 && writers > 0),
        share is Ok <==> percent <= 100,
        peer is Ok <==> 0 < chunk_size <= CHUNK_SIZE && unique_chunks > 0 && workers > 0,
{
}

/// The readers and the writers of one thread, and different threads of one worker, do not start
/// alike.
pub proof fn law_threads_start_apart(
    salt: u64,
    worker: u32,
    a: u32,
    b: u32,
    reads_a: u64,
    writes_a: u64,
    reads_b: u64,
)
    requires
        call_ensures(thread_seed, (salt, worker, a, false), reads_a),
        call_ensures(thread_seed, (salt, worker, a, true), writes_a),
        call_ensures(thread_seed, (salt, worker, b, false), reads_b),
    ensures
        reads_a != writes_a,
        reads_a == reads_b <==> a == b,
{
    let w = (worker as u64) << 32u64;
    let (x, y) = (a as u64, b as u64);
    assert(salt ^ w ^ (x << 8u64) ^ 0xA5A5_A5A5u64 != salt ^ w ^ (x << 8u64) ^ 0x5A5A_5A5Au64)
        by (bit_vector);
    assert((salt ^ w ^ (x << 8u64) ^ 0xA5A5_A5A5u64 == salt ^ w ^ (y << 8u64) ^ 0xA5A5_A5A5u64)
        == (x == y)) by (bit_vector)
        requires
            x <= 0xffff_ffffu64,
            y <= 0xffff_ffffu64,
    ;
}

/// What workers have counted adds up, and generators that start alike give the same numbers.
pub proof fn law_worker_counts_add_up(
    c: &mut FetchCounts,
    other: &FetchCounts,
    seed: u64,
    a: &mut Lcg,
    b: &mut Lcg,
    from_a: u64,
    from_b: u64,
)
    requires
        old(c).ops_total + other.ops_total <= u64::MAX,
        old(c).bytes_read + other.bytes_read <= u64::MAX,
        old(c).misses + other.misses <= u64::MAX,
        old(c).verify_failures + other.verify_failures <= u64::MAX,
        call_ensures(FetchCounts::merge, (c, other), ()),
        call_ensures(Lcg::new, (seed,), *old(a)),
        call_ensures(Lcg::new, (seed,), *old(b)),
        call_ensures(Lcg::next_u64, (a,), from_a),
        call_ensures(Lcg::next_u64, (b,), from_b),
    ensures
        final(c).ops_total == old(c).ops_total + other.ops_total,
        final(c).bytes_read == old(c).bytes_read + other.bytes_read,
        final(c).misses == old(c).misses + other.misses,
        final(c).verify_failures == old(c).verify_failures + other.verify_failures,
        from_a == from_b,
        old(a).state != 0,
        final(a).state != 0,
{
    law_generator_never_stops(old(a).state);
}

/// Counts never go back, however large they are.
pub proof fn law_counts_never_go_back(
    c0: &mut OpCounts,
    hit: bool,
    chunk_size: usize,
    c1: &mut OpCounts,
    other: OpCounts,
    f: &mut FetchCounts,
    more: &FetchCounts,
)
    requires
        call_ensures(OpCounts::count_read, (c0, hit, chunk_size), ()),
        *old(c1) == *final(c0),
        call_ensures(OpCounts::merge, (c1, other), ()),
        call_ensures(FetchCounts::merge, (f, more), ()),
    ensures
        final(c1).ops_total >= final(c0).ops_total >= old(c0).ops_total,
        final(c1).bytes_read >= final(c0).bytes_read >= old(c0).bytes_read,
        final(c1).ops_total >= other.ops_total,
        final(f).ops_total >= old(f).ops_total && final(f).ops_total >= more.ops_total,
        final(f).bytes_read >= old(f).bytes_read && final(f).bytes_read >= more.bytes_read,
{
}

} // verus!
