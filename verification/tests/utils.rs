use distill_fs::bench::{
    check_db_bench, check_peer_bench, check_write_percent, checksum_for_key, next_op_writes,
    prepare_data, read_key, thread_seed, worker_seed, write_base, write_key, FetchCounts,
    LatencySampler, Lcg, OpCounts, Scenario,
};
use distill_fs::checksum::{CheckSum, CheckSumMethod};
use distill_fs::error::ErrorKind;
use distill_fs::log_rotation::{
    rotated_name, rotation_steps, LogSize, RotateStep, MAX_LOG_SIZE,
};
use distill_fs::text::to_decimal;
use distill_fs::utils::{
    align_up, epoch_secs, new_std_io_error, now_epoch_secs, page_size, RateLimitedLog,
};
use std::collections::BTreeMap;

#[test]
fn test_align_up_unsigned() {
    assert_eq!(align_up(0u32, 8), 0);
    assert_eq!(align_up(1u32, 8), 8);
    assert_eq!(align_up(7u32, 8), 8);
    assert_eq!(align_up(8u32, 8), 8);
    assert_eq!(align_up(9u32, 8), 16);
    assert_eq!(align_up(16u64, 4096), 4096);
}

#[test]
fn signed_numbers_are_aligned_upward() {
    assert_eq!(align_up(-5i32, 4), -4);
    assert_eq!(align_up(-4i64, 4), -4);
    assert_eq!(align_up(-1i8, 8), 0);
    assert_eq!(align_up(5i16, 4), 8);
    assert_eq!(align_up(i128::MIN, 2), i128::MIN);
    assert_eq!(align_up(5isize, -4), 8);
    assert_eq!(align_up(-5i32, -4), -4);
}

#[test]
#[should_panic]
fn test_align_up_zero_alignment() {
    align_up(10u32, 0);
}

#[test]
fn errors_carry_the_text() {
    let e = new_std_io_error("boom");
    assert_eq!(e.kind, ErrorKind::Other);
    assert_eq!(e.message, "boom");
    assert_eq!(new_std_io_error(42).message, "42");
}

#[test]
fn pages_have_a_size() {
    assert_eq!(page_size(16384), 16384);
    assert_eq!(page_size(0), 4096);
    assert_eq!(page_size(-1), 4096);
}

#[test]
fn logs_are_spaced() {
    let mut log = RateLimitedLog::new(30);
    assert!(log.should_log_at(100));
    assert!(!log.should_log_at(129));
    assert!(log.should_log_at(130));
    let mut log = RateLimitedLog::new(3600);
    assert!(log.should_log());
    assert!(!log.should_log());
    assert!(now_epoch_secs() > 1_500_000_000);
}

#[test]
fn a_clock_before_the_epoch_shows_no_seconds() {
    assert_eq!(epoch_secs(Some(1_707_500_000)), 1_707_500_000);
    assert_eq!(epoch_secs(None), 0);
}

#[test]
fn numbers_are_written_in_decimal() {
    assert_eq!(to_decimal(0), "0");
    assert_eq!(to_decimal(9876), "9876");
    assert_eq!(to_decimal(u64::MAX), u64::MAX.to_string());
}

fn rotate(files: &mut BTreeMap<usize, u64>) {
    for step in rotation_steps() {
        match step {
            RotateStep::Remove(i) => {
                files.remove(&i);
            }
            RotateStep::Rename(i, j) => {
                if let Some(held) = files.remove(&i) {
                    files.insert(j, held);
                }
            }
        }
    }
}

/// Writes `writes` pieces of `len` bytes, and returns the sizes of the files by number.
fn write_log(writes: usize, len: usize) -> BTreeMap<usize, u64> {
    let mut files = BTreeMap::from([(0, 0)]);
    let mut size = LogSize::opened(0);
    for _ in 0..writes {
        if size.needs_rotation(len) {
            rotate(&mut files);
            files.insert(0, 0);
            size = LogSize::opened(0);
        }
        size.wrote(len);
        files.insert(0, size.current);
    }
    files
}

#[test]
fn test_multiple_rotations() {
    let files = write_log(35, 1024 * 1024);

    assert!(files.contains_key(&0));
    assert!(files.contains_key(&1));
    assert!(files.contains_key(&2));
    assert!(!files.contains_key(&3));
    assert_eq!(rotated_name("test.log", 1), "test.log.1");
}

#[test]
fn test_rotation_on_size_limit() {
    let files = write_log(11, 1024 * 1024);
    assert!(files.contains_key(&1));
    assert!(files.contains_key(&0));
    assert!(files[&0] < MAX_LOG_SIZE);
    assert_eq!(files, BTreeMap::from([(0, 1 << 20), (1, MAX_LOG_SIZE)]));
}

#[test]
fn a_full_log_gives_way() {
    assert!(!LogSize::opened(0).needs_rotation(MAX_LOG_SIZE as usize));
    assert!(LogSize::opened(1).needs_rotation(MAX_LOG_SIZE as usize));
    assert!(LogSize::opened(u64::MAX).needs_rotation(0));
    let mut three = BTreeMap::from([(0, 10), (1, 11), (2, 12)]);
    rotate(&mut three);
    assert_eq!(three, BTreeMap::from([(1, 10), (2, 11)]));
}

#[test]
fn the_generator_is_deterministic() {
    let mut a = Lcg::new(0);
    let mut b = Lcg::new(0x9E3779B97F4A7C15);
    assert_eq!(a.next_u64(), b.next_u64());
    let mut one = Lcg::new(1);
    let mut x: u64 = 1;
    x ^= x >> 12;
    x ^= x << 25;
    x ^= x >> 27;
    assert_eq!(one.next_u64(), x.wrapping_mul(0x2545F4914F6CDD1D));
}

#[test]
fn the_sampler_keeps_what_it_can() {
    let mut lat = LatencySampler::new(3, 9);
    for ns in 0..100 {
        lat.observe(ns);
    }
    assert_eq!(lat.seen(), 100);
    let samples = lat.into_samples();
    assert_eq!(samples.len(), 3);
    assert!(samples.iter().all(|s| *s < 100));
    let mut none = LatencySampler::new(0, 9);
    none.observe(1);
    assert!(none.into_samples().is_empty());
}

#[test]
fn benchmark_data_follows_a_pattern() {
    let data = prepare_data(600, 252);
    assert_eq!(data.len(), 600);
    assert_eq!((data[0], data[250], data[251]), (1, 251, 1));
    assert_eq!(prepare_data(7, 250)[6], 0);
    let mut seed = 5u64.to_le_bytes().to_vec();
    seed.extend(6u64.to_le_bytes());
    assert_eq!(
        checksum_for_key(5, 6, CheckSumMethod::Sha256),
        CheckSum::from_data(&seed, CheckSumMethod::Sha256)
    );
}

#[test]
fn benchmark_keys_do_not_meet() {
    assert_eq!(worker_seed(3, 1), 3 ^ (1 << 32));
    assert_eq!(thread_seed(0, 0, 1, false), (1 << 8) ^ 0xA5A5_A5A5);
    assert_eq!(thread_seed(0, 0, 1, true), (1 << 8) ^ 0x5A5A_5A5A);
    assert_eq!(write_base(1000, 0, None), 1001);
    assert_eq!(write_base(1000, 1, Some(1)), 1001 + (1 << 40) + (1 << 24));
    assert_eq!(write_key(10, 7, 5), 12);
    assert_eq!(write_key(10, 7, 0), 17);
    assert_eq!(write_key(u64::MAX, 7, 0), u64::MAX);
    assert_eq!(read_key(1005, 1000), 5);
    assert_eq!(read_key(1005, 0), 0);
}

#[test]
fn mixed_runs_write_their_share() {
    let mut rng = Lcg::new(1);
    assert!(next_op_writes(Scenario::Write, &mut rng, 0));
    assert!(!next_op_writes(Scenario::Read, &mut rng, 100));
    assert_eq!(rng, Lcg::new(1));
    assert!(next_op_writes(Scenario::Mixed, &mut rng, 100));
    assert!(!next_op_writes(Scenario::Mixed, &mut rng, 0));
}

#[test]
fn operations_are_counted() {
    let mut a = OpCounts::new();
    a.count_read(true, 10);
    a.count_read(false, 10);
    a.count_write(7);
    assert_eq!((a.ops_total, a.read_ops, a.write_ops), (3, 2, 1));
    assert_eq!((a.read_misses, a.bytes_read, a.bytes_written), (1, 10, 7));
    let mut b = OpCounts::new();
    b.latency_samples = vec![5];
    b.ops_total = u64::MAX;
    a.latency_samples = vec![4];
    b.merge(a);
    assert_eq!(b.ops_total, u64::MAX);
    assert_eq!(b.latency_samples, vec![5, 4]);
    let mut f = FetchCounts::new();
    f.count(Some(&[1, 2]), 2, Some(&[1, 2]));
    f.count(Some(&[1]), 2, Some(&[1, 2]));
    f.count(None, 2, None);
    assert_eq!((f.ops_total, f.bytes_read), (3, 2));
    assert_eq!((f.misses, f.verify_failures), (1, 2));
    let mut all = FetchCounts::new();
    all.misses = u64::MAX;
    all.ops_total = 4;
    all.merge(&f);
    assert_eq!((all.ops_total, all.bytes_read), (7, 2));
    assert_eq!((all.misses, all.verify_failures), (u64::MAX, 2));
}

#[test]
fn benchmarks_are_checked_before_they_run() {
    let message = |r: Result<(), distill_fs::error::Error>| r.unwrap_err().message;
    assert!(check_db_bench(1, 1, Scenario::Read, false, 0, 0).is_ok());
    assert!(check_db_bench(1, 1, Scenario::Mixed, true, 1, 1).is_ok());
    assert_eq!(
        message(check_db_bench(0, 1, Scenario::Read, false, 0, 0)),
        "processes must be >= 1"
    );
    assert_eq!(
        message(check_db_bench(1, 0, Scenario::Read, false, 0, 0)),
        "chunk_size must be > 0"
    );
    assert_eq!(
        message(check_db_bench(1, 1, Scenario::Read, true, 1, 1)),
        "mixed_concurrent is only valid when scenario is mixed"
    );
    assert_eq!(
        message(check_db_bench(1, 1, Scenario::Mixed, true, 0, 1)),
        "mixed concurrent mode requires reader/writer threads > 0"
    );
    assert!(check_write_percent(100).is_ok());
    assert_eq!(
        message(check_write_percent(101)),
        "write_percent must be in [0, 100]"
    );
    assert!(check_peer_bench(4194304, 1, 1).is_ok());
    assert_eq!(
        message(check_peer_bench(4194305, 1, 1)),
        "chunk_size must be <= 4194304 bytes"
    );
    assert_eq!(message(check_peer_bench(0, 1, 1)), "chunk_size must be > 0");
    assert_eq!(
        message(check_peer_bench(1, 0, 1)),
        "unique_chunks must be > 0"
    );
    assert_eq!(message(check_peer_bench(1, 1, 0)), "workers must be > 0");
}
