use http3bench::config::Address;
use http3bench::ps::{
    after_mark, find_server_process, init_body, init_pid, pprof_cpu_path, pprof_timeout,
    remote_problem, samples, stats, validate_mode, Mark, PsBody, PsSamples, PsSource, PsStats, Setup,
    SetupDo, Since, PPROF_HEAP_PATH,
};
use std::time::Duration;

fn bits(v: &[f64]) -> Vec<u64> {
    v.iter().map(|x| x.to_bits()).collect()
}

fn average(p: &PsStats, cpu: &[f64]) -> f64 {
    let counted = &cpu[p.cpu_from..];
    if counted.is_empty() {
        0.0
    } else {
        counted.iter().sum::<f64>() / counted.len() as f64
    }
}

fn addr() -> Address {
    Address { ip: "10.0.0.2".to_string(), port: 3351 }
}

#[test]
fn perf_statistics() {
    let cpu = [500.0, 100.0, 300.0];
    let s = stats(&bits(&cpu), &[10, 30, 20]);
    assert_eq!(
        (f64::from_bits(s.cpu_min), average(&s, &cpu), f64::from_bits(s.cpu_max)),
        (100.0, 200.0, 500.0)
    );
    assert_eq!((s.mem_min, s.mem_avg, s.mem_max), (20, 25, 30));
    let one = stats(&bits(&[7.0]), &[9]);
    assert_eq!((f64::from_bits(one.cpu_min), average(&one, &[7.0]), one.mem_min), (7.0, 7.0, 9));
    assert_eq!(average(&stats(&[], &[]), &[]), 0.0);
}

#[test]
fn missing_server() {
    assert!(find_server_process("no-such-framework", Ok(vec![])).is_err());
}

#[test]
fn statistics_agree_with_folds_over_doubles() {
    let cpu = [3.0, -1.5, f64::NAN, 0.0, 12.25, 1e-310, f64::INFINITY];
    let p = stats(&bits(&cpu), &[5, 5]);
    assert_eq!(f64::from_bits(p.cpu_min), cpu[1..].iter().copied().fold(f64::MAX, f64::min));
    assert_eq!(f64::from_bits(p.cpu_max), cpu.iter().copied().fold(0.0, f64::max));
    let p = stats(&bits(&[1.0, f64::INFINITY]), &[]);
    assert_eq!(f64::from_bits(p.cpu_min), f64::MAX);
    let p = stats(&bits(&[-1.0, -2.0]), &[]);
    assert_eq!(f64::from_bits(p.cpu_max), 0.0);
    assert_eq!((p.mem_min, p.mem_avg, p.mem_max), (0, 0, 0));
    let p = stats(&[], &[7, 3, 3, 9]);
    assert_eq!((p.mem_min, p.mem_avg, p.mem_max), (3, 5, 9));
    let p = stats(&[], &[1, 8]);
    assert_eq!((p.mem_min, p.mem_avg, p.mem_max), (8, 8, 8));
}

#[test]
fn modes() {
    for m in ["auto", "local", "remote"] {
        assert_eq!(validate_mode(m), Ok(()));
    }
    assert_eq!(
        validate_mode("here\n").unwrap_err(),
        "unsupported -ps value \"here\\n\" (want auto, local or remote)"
    );
}

#[test]
fn one_server_process_or_an_error() {
    assert_eq!(find_server_process("fib", Ok(vec![42])), Ok(42));
    assert_eq!(find_server_process("fib", Ok(vec![])).unwrap_err(), "no fib.server process on this machine");
    assert_eq!(
        find_server_process("fib", Ok(vec![3, -4, 5])).unwrap_err(),
        "3 fib.server processes on this machine ([3, -4, 5]): stop the leftovers of earlier runs, e.g. with script/killall.sh"
    );
    assert_eq!(find_server_process("fib", Err("ps: no".to_string())).unwrap_err(), "ps: no");
}

#[test]
fn the_init_exchange() {
    assert_eq!(init_body(Duration::from_millis(1500)), "{\"PsInterval\":1500000000}");
    assert_eq!(init_pid("a:1", &b" 4711\n".to_vec()), Ok(4711));
    assert_eq!(init_pid("a:1", &b"-7".to_vec()), Ok(-7));
    let want = "x".parse::<i32>().unwrap_err();
    assert_eq!(
        init_pid("a:1", &b"x ".to_vec()).unwrap_err(),
        format!("http://a:1/init answered \"x \": {want}")
    );
    assert!(init_pid("a:1", &b"".to_vec()).is_err());
    assert!(init_pid("a:1", &b"99999999999".to_vec()).is_err());
}

#[test]
fn what_ps_answers_with() {
    let body = PsBody { cpu: Some(vec![1, 2]), mem: None };
    let s = samples("a:1", Ok(body)).ok().unwrap();
    assert_eq!((s.cpu, s.rss), (vec![1, 2], vec![]));
    assert_eq!(samples("a:1", Err("bad".to_string())).err().unwrap(), "http://a:1/ps: bad");
}

#[test]
fn sources() {
    let here = PsSource::Local { pid: 12, fallback: None };
    let both = PsSource::Local { pid: 12, fallback: Some(addr()) };
    let there = PsSource::Remote(addr());
    assert_eq!(here.describe(), "sampled here, from pid 12");
    assert_eq!(both.describe(), "sampled here, from pid 12, with the server's own /ps as the fallback");
    assert_eq!(there.describe(), "sampled by the server, read from 10.0.0.2:3351 over /ps");

    let read = Ok(PsSamples { cpu: vec![1, 2, 3], rss: vec![4] });
    let m = here.mark((7, 8), &read);
    assert_eq!((m.cpu, m.mem), (7, 8));
    let m = there.mark((7, 8), &read);
    assert_eq!((m.cpu, m.mem), (3, 1));
    let m = both.mark((7, 8), &read);
    assert_eq!((m.cpu, m.mem, m.server_cpu, m.server_mem), (7, 8, 3, 1));
    assert!(here.asks().is_none());
    assert_eq!(both.asks().unwrap().text(), "10.0.0.2:3351");
    assert_eq!(there.asks().unwrap().text(), "10.0.0.2:3351");

    let some = || PsSamples { cpu: vec![5], rss: vec![6] };
    let none = || PsSamples { cpu: vec![], rss: vec![6] };
    let mark = Mark { cpu: 2, mem: 1, server_cpu: 5, server_mem: 4 };
    assert!(matches!(here.stats_since(mark, some()), Since::Here(s, None) if s.cpu == vec![5]));
    match here.stats_since(mark, none()) {
        Since::Here(s, Some(e)) => {
            assert_eq!(s.rss, vec![6]);
            assert_eq!(
                e,
                "pid 12: no CPU samples in this benchmark, so it was shorter than the -pi sampling interval"
            );
        }
        _ => panic!("not here"),
    }
    match both.stats_since(mark, none()) {
        Since::Ask(a, m) => assert_eq!((a.text(), m.cpu, m.mem), ("10.0.0.2:3351".to_string(), 5, 4)),
        _ => panic!("not asked"),
    }
    match there.stats_since(mark, some()) {
        Since::Ask(a, m) => assert_eq!((a.text(), m.cpu, m.mem), ("10.0.0.2:3351".to_string(), 2, 1)),
        _ => panic!("not asked"),
    }
    let all = PsSamples { cpu: vec![1, 2, 3], rss: vec![4] };
    let s = after_mark(&all, mark);
    assert_eq!((s.cpu, s.rss), (vec![3], vec![]));
    let s = after_mark(&all, Mark { cpu: 9, mem: 9, ..mark });
    assert_eq!((s.cpu, s.rss), (vec![], vec![]));
}

#[test]
fn a_benchmark_reads_only_its_own_samples() {
    let before = || PsSamples { cpu: vec![1, 2, 3], rss: vec![4, 5] };
    let later = PsSamples { cpu: vec![1, 2, 3, 8, 9], rss: vec![4, 5, 7] };
    let none = || PsSamples { cpu: vec![], rss: vec![] };
    for source in
        [PsSource::Local { pid: 12, fallback: Some(addr()) }, PsSource::Remote(addr())]
    {
        let mark = source.mark((6, 6), &Ok(before()));
        match source.stats_since(mark, none()) {
            Since::Ask(_, m) => {
                let s = after_mark(&later, m);
                assert_eq!((s.cpu, s.rss), (vec![8, 9], vec![7]));
            }
            _ => panic!("not asked"),
        }
        let mark = source.mark((6, 6), &Err("refused".to_string()));
        match source.stats_since(mark, none()) {
            Since::Ask(_, m) => {
                let s = after_mark(&later, m);
                assert!(s.cpu.is_empty() && s.rss.is_empty());
            }
            _ => panic!("not asked"),
        }
    }
    let m = Mark::default();
    assert_eq!(after_mark(&later, m).cpu.len(), 5);
}

#[test]
fn an_average_of_nothing_is_a_problem() {
    let problem = "http://a:1/ps answered with no CPU samples, so either /init did not reach it or the benchmark was shorter than the -pi sampling interval";
    assert_eq!(remote_problem("a:1", 0f64.to_bits()).unwrap(), problem);
    assert_eq!(remote_problem("a:1", (-0.0f64).to_bits()).unwrap(), problem);
    assert_eq!(remote_problem("a:1", (-3.0f64).to_bits()).unwrap(), problem);
    assert!(remote_problem("a:1", 1e-300f64.to_bits()).is_none());
    assert!(remote_problem("a:1", f64::NAN.to_bits()).is_none());
}

#[test]
fn setting_a_source_up() {
    let (s, next) = Setup::begin("fib", Ok(addr()), "auto", true);
    assert!(matches!(next, SetupDo::FindHere));
    let (next, note) = s.found_here(Ok(5));
    assert!(matches!(
        next,
        SetupDo::Done { source: PsSource::Local { pid: 5, fallback: None }, error: None }
    ));
    assert_eq!(note, "fib: sampled here, from pid 5, so it is not asked to sample itself");
    let (next, note) = s.found_here(Err("gone".to_string()));
    assert!(matches!(next, SetupDo::Init));
    assert_eq!(note, "fib: cannot sample the server from this machine, asking it over HTTP instead: gone");
    let server = Some("fib.server".to_string());
    assert!(matches!(s.initialized(Ok(9), &server), SetupDo::StartHere(9)));
    assert!(matches!(
        s.initialized(Ok(9), &Some("other".to_string())),
        SetupDo::Done { source: PsSource::Remote(_), error: None }
    ));
    assert!(matches!(
        s.initialized(Err("refused".to_string()), &server),
        SetupDo::Done { source: PsSource::Remote(_), error: Some(e) } if e == "refused"
    ));
    let source = s.started_here(9, true);
    assert_eq!(
        s.note(&source),
        "fib: sampled here, from pid 9, with the server's own /ps as the fallback"
    );
    assert!(matches!(s.started_here(9, false), PsSource::Remote(_)));

    let (s, next) = Setup::begin("fib", Ok(addr()), "auto", false);
    assert!(matches!(next, SetupDo::Init));
    assert!(matches!(s.initialized(Ok(9), &server), SetupDo::Done { source: PsSource::Remote(_), .. }));
    assert!(matches!(Setup::begin("fib", Ok(addr()), "local", false).1, SetupDo::FindHere));
    assert!(matches!(Setup::begin("fib", Ok(addr()), "remote", true).1, SetupDo::Init));
    match Setup::begin("fib", Err("resolve".to_string()), "local", true).1 {
        SetupDo::Done { source: PsSource::Remote(a), error: Some(e) } => {
            assert_eq!((a.text(), e), ("127.0.0.1:0".to_string(), "resolve".to_string()));
        }
        _ => panic!("not done"),
    }
}

#[test]
fn profile_routes() {
    assert_eq!(pprof_cpu_path(5), "/debug/pprof/profile?seconds=5");
    assert_eq!(PPROF_HEAP_PATH, "/debug/pprof/heap");
    assert_eq!(pprof_timeout(5), 35);
    assert_eq!(pprof_timeout(-31), u64::MAX);
    assert_eq!(pprof_timeout(i64::MIN), (i64::MIN as u64) + 30);
}
