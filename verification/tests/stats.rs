use http3bench::stats::{mem_string, summarize, time_string, Latencies};
use std::time::Duration;

#[test]
fn percentiles() {
    let mut l = Latencies::default();
    for i in (1..=100).rev() {
        l.ok(Duration::from_nanos(i));
    }
    l.fail("x");
    let s = summarize(&mut l, Duration::from_secs(2));
    assert_eq!((s.min, s.max, s.avg), (1, 100, 50));
    assert_eq!((s.tp50, s.tp90, s.tp99), (51, 91, 100));
    assert_eq!(s.tps, 50);
    assert_eq!(l.errors.count("x"), 1);
}

#[test]
fn strings() {
    assert_eq!(time_string(1_500_000_000), "1.50s");
    assert_eq!(time_string(2_500_000), "2.50ms");
    assert_eq!(time_string(9_040), "9.04us");
    assert_eq!(time_string(12), "12ns");
    assert_eq!(mem_string(193 * 1024 * 1024), "193.00M");
}

#[test]
fn written_numbers_are_those_of_doubles() {
    for ns in [1_000i64, 1_005, 999_995, 1_234_567, 1_115_000, 1_000_000_000, 2_675_000_000, 59_999_999_999] {
        let want = if ns >= 1_000_000_000 {
            format!("{:.2}s", ns as f64 / 1e9)
        } else if ns >= 1_000_000 {
            format!("{:.2}ms", ns as f64 / 1e6)
        } else {
            format!("{:.2}us", ns as f64 / 1e3)
        };
        assert_eq!(time_string(ns), want);
    }
    assert_eq!(time_string(-5), "-5ns");
    for b in [0u64, 5, 512, 1023, 1024, 1_048_575, 1_048_576, 1_073_741_823, 1_073_741_824, u64::MAX] {
        let want = if b >= 1 << 30 {
            format!("{:.2}G", b as f64 / (1u64 << 30) as f64)
        } else if b >= 1 << 20 {
            format!("{:.2}M", b as f64 / (1u64 << 20) as f64)
        } else {
            format!("{:.2}K", b as f64 / 1024.0)
        };
        assert_eq!(mem_string(b), want);
    }
}

#[test]
fn nothing_comes_to_nothing() {
    let mut l = Latencies::default();
    let s = summarize(&mut l, Duration::from_secs(0));
    assert_eq!((s.tps, s.min, s.avg, s.max, s.tp50, s.tp99), (0, 0, 0, 0, 0, 0));
    assert!(l.errors.is_empty());
}

#[test]
fn merging_gathers_costs_counts_and_errors() {
    let mut a = Latencies::default();
    a.ok(Duration::from_nanos(30));
    a.fail("x");
    a.fail("y");
    let mut b = Latencies::default();
    b.ok(Duration::from_nanos(10));
    b.ok(Duration::from_nanos(20));
    b.fail("y");
    a.merge(b);
    assert_eq!((a.success, a.failed), (3, 3));
    assert_eq!((a.errors.count("x"), a.errors.count("y"), a.errors.count("z")), (1, 2, 0));
    let mut list = a.errors.list();
    list.sort();
    assert_eq!(list, vec![("x".to_string(), 1), ("y".to_string(), 2)]);
    assert_eq!(list.iter().map(|e| e.1 as i64).sum::<i64>(), a.failed);
    assert_eq!(a.costs.len() as i64, a.success);
    let s = summarize(&mut a, Duration::from_millis(280));
    assert_eq!((s.min, s.avg, s.max), (10, 20, 30));
    assert_eq!(s.tps, 10);
    assert_eq!(a.costs, vec![10, 20, 30]);
}

#[test]
fn columns_rise() {
    let mut l = Latencies::default();
    for i in [9u64, 1, 7, 3, 5] {
        l.ok(Duration::from_nanos(i));
    }
    let s = summarize(&mut l, Duration::from_secs(1));
    let c = [s.min, s.tp50, s.tp75, s.tp90, s.tp95, s.tp99, s.max];
    assert!(c.windows(2).all(|w| w[0] <= w[1]));
    assert_eq!((s.tp50, s.tp75, s.tp90, s.tp95), (5, 7, 9, 9));
    // Longer than 2^63 nanoseconds, which counts as less than nothing.
    l.ok(Duration::from_secs(10_000_000_000));
    let s = summarize(&mut l, Duration::from_secs(1));
    let c = [s.min, s.tp50, s.tp75, s.tp90, s.tp95, s.tp99, s.max];
    assert!(s.min < 0 && c.windows(2).all(|w| w[0] <= w[1]));
    assert!(s.min <= s.avg && s.avg <= s.max);
}
