use http3bench::engine::model::RateCounts;
use http3bench::logging::{line_at, log_line, now_string, section, LONG_LINE, SHORT_LINE};
use http3bench::report::{
    client_name, filename, report_files, report_name, BenchEchoReport, BenchRateReport,
    ConnectionsReport, EchoRun, PsColumns, RateRun, CLIENT_NAME,
};
use http3bench::stats::Summary;
use std::time::Duration;

fn summary() -> Summary {
    Summary {
        tps: 50,
        min: 1_000,
        avg: 2_500_000,
        max: 1_500_000_000,
        tp50: 1,
        tp75: 2,
        tp90: 3,
        tp95: 4,
        tp99: 5,
    }
}

fn ps() -> PsColumns {
    PsColumns {
        cpu_avg: "12.50".to_string(),
        cpu_max: "99.99".to_string(),
        mem_avg: 1024,
        mem_max: 193 * 1024 * 1024,
    }
}

#[test]
fn a_connections_report() {
    let s = summary();
    let r = ConnectionsReport::new("fib", 4, &s, true, Duration::from_millis(1500), 10, 9, 1, 2);
    assert_eq!((r.used, r.tp99, r.bench_client.as_str()), (1_500_000_000, 5, CLIENT_NAME));
    assert_eq!(
        r.console(&s, true),
        "BenchType  : Connections\nFramework  : fib\nClient     : rust\nThreads    : 4\nTPS        : 50\nMin        : 1.00us\nAvg        : 2.50ms\nMax        : 1.50s\nTP95       : 4ns\nTP99       : 5ns\nUsed       : 1.50s\nTotal      : 10\nSuccess    : 9\nFailed     : 1\nConcurrency: 2"
    );
    let r = ConnectionsReport::new("fib", 4, &s, false, Duration::from_millis(1500), 10, 9, 1, 2);
    assert_eq!((r.tp50, r.tp75, r.tp90, r.tp95, r.tp99, r.min), (0, 0, 0, 0, 0, 1_000));
    assert_eq!(
        r.console(&s, false),
        "BenchType  : Connections\nFramework  : fib\nClient     : rust\nThreads    : 4\nTPS        : 50\nUsed       : 1.50s\nTotal      : 10\nSuccess    : 9\nFailed     : 1\nConcurrency: 2"
    );
}

#[test]
fn an_echo_report() {
    let s = summary();
    let run = EchoRun {
        threads: 4,
        tpn: false,
        used: Duration::from_nanos(12),
        total: 100,
        success: 99,
        failed: 1,
        connections: 7,
        concurrency: 5,
        payload: 1024,
        pprof_on: true,
    };
    let r = BenchEchoReport::new("fib", &run, &s, "2.50".to_string(), "1.50".to_string(), ps());
    assert!(r.pprof_on);
    assert_eq!(
        r.console(&s, false),
        "BenchType  : BenchEcho\nFramework  : fib\nClient     : rust\nThreads    : 4\nTPS        : 50\nCPU EER    : 2.50\nMEM EER    : 1.50\nUsed       : 12ns\nTotal      : 100\nSuccess    : 99\nFailed     : 1\nConns      : 7\nConcurrency: 5\nPayload    : 1024\nCPU Avg    : 12.50%\nCPU Max    : 99.99%\nMEM Avg    : 1.00K\nMEM Max    : 193.00M"
    );
}

#[test]
fn a_rate_report() {
    let run = RateRun {
        threads: 4,
        duration: Duration::from_secs(10),
        connections: 7,
        send_rate: 200,
        batch: 10,
        payload: 1024,
        pprof_on: false,
    };
    let counts = RateCounts { send_times: 30, send_bytes: 2048, recv_times: 29, recv_bytes: 1024, answered: 29 };
    let r = BenchRateReport::new("fib", &run, &counts, "2.50".to_string(), "1.50".to_string(), ps());
    assert_eq!((r.tps, r.duration), (2, 10_000_000_000));
    assert_eq!(
        r.console(),
        "BenchType : BenchMultiplex\nFramework : fib\nClient    : rust\nThreads   : 4\nDuration  : 10.00s\nTPS       : 2\nCPU EER   : 2.50\nMEM EER   : 1.50\nReq Sent  : 30\nBytes Sent: 2.00K\nResp Recv : 29\nBytes Recv: 1.00K\nConns     : 7\nSendRate  : 200\nBatch     : 10\nPayload   : 1024\nCPU Avg   : 12.50%\nCPU Max   : 99.99%\nMEM Avg   : 1.00K\nMEM Max   : 193.00M"
    );
}

#[test]
fn report_file_names() {
    assert_eq!(filename("fib-Connections", "1m_", "_x"), "./output/report/1m_fib-Connections_x");
    assert_eq!(report_name("fib", "BenchEcho"), "fib-BenchEcho");
    assert_eq!(client_name(), "rust");
    let f = report_files("fib-BenchEcho", &Some((vec![1], vec![])), "p_", "_s");
    assert_eq!(f.cpu_profile.unwrap(), "./output/report/p_fib-BenchEcho_s.pprof.cpu");
    assert!(f.mem_profile.is_none());
    assert_eq!(f.json, "./output/report/p_fib-BenchEcho_s.json");
    let f = report_files("n", &Some((vec![], vec![1])), "", "");
    assert!(f.cpu_profile.is_none());
    assert_eq!(f.mem_profile.unwrap(), "./output/report/n.pprof.mem");
    let f = report_files("n", &None, "", "");
    assert!(f.cpu_profile.is_none() && f.mem_profile.is_none());
}

#[test]
fn log_lines() {
    assert_eq!(line_at("20060102 15:04.05.000", "pwd: /"), "20060102 15:04.05.000 pwd: /\n");
    let now = now_string();
    assert_eq!(now.len(), 21);
    let shape: String = now.chars().map(|c| if c.is_ascii_digit() { '0' } else { c }).collect();
    assert_eq!(shape, "00000000 00:00.00.000");
    let line = log_line("x y");
    assert_eq!(line.len(), 26);
    assert!(line.ends_with(" x y\n"));
    assert_eq!((SHORT_LINE.len(), LONG_LINE.len()), (63, 101));
    assert_eq!(section("b"), format!("{SHORT_LINE}b\n\n{SHORT_LINE}"));
}
