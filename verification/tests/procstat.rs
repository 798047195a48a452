use http3bench::procstat::{
    basename, cpu_and_rss, fits, name_of_cmdline, name_of_comm, processes_listed, processes_named, Listed,
    Reading, Sampler, Usage,
};
use std::time::Duration;

fn linux(stat: &str, statm: &str) -> Reading {
    Reading::Linux {
        stat: Ok(stat.to_string()),
        statm: Ok(statm.to_string()),
        ticks_per_second: 100,
        page_size: 4096,
    }
}

#[test]
fn names_of_processes() {
    assert_eq!(basename("/usr/bin/fib.server"), "fib.server");
    assert_eq!(basename("fib"), "fib");
    assert_eq!(basename("a/"), "");
    assert_eq!(name_of_cmdline(&b"/a/b\0-c\0".to_vec()).unwrap(), "b");
    assert_eq!(name_of_cmdline(&b"b".to_vec()).unwrap(), "b");
    assert_eq!(name_of_cmdline(&b"/x\xff".to_vec()).unwrap(), "x\u{fffd}");
    assert!(name_of_cmdline(&b"\0x".to_vec()).is_none());
    assert!(name_of_cmdline(&b"".to_vec()).is_none());
    assert_eq!(name_of_comm(&b" /a/c d \n".to_vec()).unwrap(), "c d");
    assert!(name_of_comm(&b" \n".to_vec()).is_none());
}

#[test]
fn pids_by_name() {
    let listed = |entry: &str, name: Option<&str>| Listed {
        entry: entry.to_string(),
        name: name.map(|n| n.to_string()),
    };
    let list = vec![
        listed("1", Some("init")),
        listed("self", Some("fib.server")),
        listed("20", Some("fib.server")),
        listed("21", None),
        listed("+22", Some("fib.server")),
    ];
    assert_eq!(processes_named(&list, "fib.server"), vec![20, 22]);
    assert!(processes_named(&list, "no-such-process-name").is_empty());
    let out = b"    1 /sbin/init\n   20 /opt/my dir/fib.server\nx fib.server\n   30 fib.server \n  40\n".to_vec();
    assert_eq!(processes_listed(&out, "fib.server"), vec![20, 30]);
}

#[test]
fn linux_readings() {
    let stat = "12 (a b) c) S 1 2 3 4 5 6 7 8 9 10 150 250 0 0";
    let (cpu, rss) = cpu_and_rss(&linux(stat, "100 7 3")).unwrap();
    assert_eq!((cpu, rss), (Duration::from_secs(4), 7 * 4096));
    let e = |r: Reading| cpu_and_rss(&r).unwrap_err();
    assert_eq!(e(linux("12 a S", "1 2")), "malformed stat");
    assert_eq!(e(linux("12 (a) S 1 2", "1 2")), "malformed stat");
    assert_eq!(e(linux("1 (a) S 1 2 3 4 5 6 7 8 9 10 x 2", "1 2")), "malformed stat");
    assert_eq!(e(linux(stat, "100")), "malformed statm");
    assert_eq!(
        e(Reading::Linux {
            stat: Err("no stat".to_string()),
            statm: Err("no statm".to_string()),
            ticks_per_second: 100,
            page_size: 4096,
        }),
        "no stat"
    );
    assert_eq!(
        e(Reading::Linux {
            stat: Ok(stat.to_string()),
            statm: Err("no statm".to_string()),
            ticks_per_second: 100,
            page_size: 4096,
        }),
        "no statm"
    );
    let (cpu, rss) = cpu_and_rss(&Reading::Linux {
        stat: Ok(stat.to_string()),
        statm: Ok("1 2".to_string()),
        ticks_per_second: -1,
        page_size: 0,
    })
    .unwrap();
    assert_eq!((cpu, rss), (Duration::from_secs(400), 2));
}

#[test]
fn other_readings() {
    let r = Reading::Mach { user: 300, system: 60, numer: 125, denom: 3, resident: 77 };
    assert_eq!(cpu_and_rss(&r).unwrap(), (Duration::from_nanos(15_000), 77));
    let r = Reading::Mach { user: 5, system: 6, numer: 0, denom: 0, resident: 1 };
    assert_eq!(cpu_and_rss(&r).unwrap(), (Duration::from_nanos(11), 1));
    assert_eq!(cpu_and_rss(&Reading::Failed("gone".to_string())).unwrap_err(), "gone");
    assert_eq!(
        cpu_and_rss(&Reading::Unsupported).unwrap_err(),
        "sampling a process is only supported on Linux and macOS"
    );
}

#[test]
fn readings_that_are_too_large() {
    assert!(fits(&linux("1 (a) S 1 2 3 4 5 6 7 8 9 10 150 250", "1 2")));
    assert!(fits(&linux("nothing", "nothing")));
    assert!(!fits(&linux("1 (a) S 1 2 3 4 5 6 7 8 9 10 18446744073709551615 1", "1 2")));
    assert!(!fits(&linux("1 (a) S 1 2 3 4 5 6 7 8 9 10 18446744074 0", "1 2")));
    assert!(!fits(&linux("", "1 18446744073709551615")));
    assert!(!fits(&Reading::Mach { user: u64::MAX, system: 1, numer: 1, denom: 1, resident: 0 }));
    assert!(fits(&Reading::Unsupported));
}

fn reading(cpu: u64, rss: u64) -> Result<(Duration, u64), String> {
    Ok((Duration::from_nanos(cpu), rss))
}

fn pairs(v: &[Usage]) -> Vec<(u128, u128)> {
    v.iter().map(|u| (u.cpu, u.wall)).collect()
}

#[test]
fn a_sampler_keeps_a_series() {
    assert_eq!(
        Sampler::start(3, Duration::from_millis(50), Err("gone".to_string()), 0).err().unwrap(),
        "pid 3: gone"
    );
    let mut s = Sampler::start(3, Duration::from_millis(50), reading(100, 1), 1_000).ok().unwrap();
    assert_eq!((s.pid(), s.len(), s.next()), (3, (0, 0), Some(50_001_000)));
    assert!(s.sampled(reading(400, 10), 2_000).is_none());
    assert!(s.sampled(reading(350, 20), 4_000).is_none());
    assert!(s.sampled(reading(500, 30), 5_000).is_none());
    assert_eq!(s.len(), (3, 3));
    let (cpu, rss) = s.since(0, 0);
    assert_eq!(pairs(&cpu), vec![(300, 1_000), (0, 2_000), (150, 1_000)]);
    assert_eq!(rss, vec![10, 20, 30]);
    let (cpu, rss) = s.since(2, 1);
    assert_eq!((pairs(&cpu), rss), (vec![(150, 1_000)], vec![20, 30]));
    let (cpu, rss) = s.since(9, 9);
    assert!(cpu.is_empty() && rss.is_empty());
    let s = Sampler::start(3, Duration::ZERO, reading(0, 0), 7).ok().unwrap();
    assert_eq!(s.next(), Some(1_000_000_007));
}

#[test]
fn five_failures_in_a_row_end_the_sampling() {
    let mut s = Sampler::start(3, Duration::from_millis(50), reading(0, 1), 0).ok().unwrap();
    for i in 1..=4 {
        assert!(s.sampled(Err("gone".to_string()), i).is_none());
    }
    assert!(s.sampled(reading(10, 2), 5).is_none());
    for i in 6..=9 {
        assert!(s.sampled(Err("gone".to_string()), i).is_none());
    }
    assert_eq!(
        s.sampled(Err("gone".to_string()), 10).unwrap(),
        "sampling pid 3 stopped after 5 failures: gone"
    );
    let (cpu, rss) = s.since(0, 0);
    assert_eq!((pairs(&cpu), rss), (vec![(10, 5)], vec![2]));
}

#[test]
fn a_failed_reading_keeps_the_interval() {
    // A steady half of a core, with one reading missed.
    let second = Duration::from_secs(1);
    let half = |n: u64| Ok((Duration::from_millis(500 * n), 1));
    let mut s = Sampler::start(3, second, half(0), 0).ok().unwrap();
    assert!(s.sampled(half(1), 1_000_000_000).is_none());
    assert!(s.sampled(Err("busy".to_string()), 2_000_000_000).is_none());
    assert_eq!((s.len(), s.next()), ((1, 1), Some(3_000_000_000)));
    assert!(s.sampled(half(3), 3_000_000_000).is_none());
    assert!(s.sampled(half(4), 4_000_000_000).is_none());
    let (cpu, rss) = s.since(0, 0);
    assert_eq!(
        pairs(&cpu),
        vec![
            (500_000_000, 1_000_000_000),
            (1_000_000_000, 2_000_000_000),
            (500_000_000, 1_000_000_000)
        ]
    );
    assert_eq!(rss, vec![1, 1, 1]);
}
