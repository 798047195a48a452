use http3bench::flags::FlagSet;
use http3bench::settings::{define_flags, settings, Settings};
use std::time::Duration;

fn parsed(v: &[&str]) -> FlagSet {
    let mut f = define_flags();
    let args: Vec<String> = v.iter().map(|s| s.to_string()).collect();
    f.parse(&args).unwrap();
    f
}

fn read(v: &[&str]) -> Result<Settings, String> {
    settings(&parsed(v), 6)
}

#[test]
fn default_settings() {
    let s = read(&[]).ok().unwrap();
    assert_eq!((s.framework.as_str(), s.ip.as_str(), s.ps_mode.as_str()), ("quicgo", "127.0.0.1", "auto"));
    assert_eq!((s.preffix.as_str(), s.suffix.as_str()), ("", ""));
    assert_eq!((s.threads, s.connections, s.dial_concurrency, s.dial_retries), (6, 10_000, 2_000, 5));
    assert_eq!(s.dial_timeout, Duration::from_secs(5));
    assert_eq!(s.dial_retry_interval, Duration::from_millis(100));
    assert_eq!(s.idle_timeout, Duration::from_secs(120));
    assert_eq!((s.check, s.tpn, s.payload), (false, true, 1024));
    assert_eq!(s.ps_interval, Duration::from_secs(1));
    assert_eq!((s.echo_concurrency, s.echo_times, s.echo_limit), (10_000, 2_000_000, 0));
    assert_eq!((s.echo_pprof, s.echo_pprof_seconds), (false, 5));
    assert_eq!(s.rate_plan, None);
    assert_eq!((s.rate_send, s.rate_limit), (200, 0));
    assert_eq!(s.rate_duration, Duration::from_secs(10));
    assert_eq!((s.rate_pprof, s.rate_pprof_seconds), (false, 5));
}

#[test]
fn given_settings() {
    let s = read(&["-t=3", "-c=5", "-dc=9", "-rate", "-rr=100", "-rb=20", "-b=-4", "-en=-1", "-pi=0", "-rd=-2", "-f", "quiche"])
        .ok()
        .unwrap();
    assert_eq!((s.threads, s.connections, s.dial_concurrency), (3, 5, 5));
    assert_eq!(s.rate_plan, Some((20, 5)));
    assert_eq!((s.payload, s.echo_times), (1, 0));
    assert_eq!((s.ps_interval, s.rate_duration), (Duration::from_millis(1), Duration::from_secs(1)));
    assert_eq!(s.framework, "quiche");
    assert_eq!(read(&["-rate"]).ok().unwrap().rate_plan, Some((10, 20)));
}

#[test]
fn settings_errors() {
    let e = |v: &[&str]| read(v).err().unwrap();
    assert_eq!(e(&["-sort=x", "-ps=y"]), "report: unknown sort order \"x\", want one of [result framework]");
    assert_eq!(e(&["-ps=y", "-r"]), "unsupported -ps value \"y\" (want auto, local or remote)");
    assert_eq!(
        e(&["-r", "-rate", "-rb=30"]),
        "-r: the report tables are written by benchreport; run script/report.sh"
    );
    assert_eq!(
        e(&["-rate", "-rb=30", "-f=x"]),
        "-rb=30: batch 30 does not divide the send rate 200, so no whole number of bursts a second sends it; pick a divisor of 200"
    );
    assert_eq!(
        e(&["-rb=-2", "-f=x"]),
        "-rb=-2: want 0, which fits as many requests as -rbs holds, or more"
    );
    assert_eq!(
        e(&["-rate", "-rb=-2"]),
        format!("-rb=-2: batch {} does not divide the send rate 200, so no whole number of bursts a second sends it; pick a divisor of 200", usize::MAX)
    );
    assert_eq!(
        e(&["-f=x"]),
        "-f=x: unknown framework \"x\", want one of [\"fib\", \"gin\", \"quicgo\", \"quiche\"]"
    );
    assert!(read(&["-rb=30"]).is_ok());
    assert!(read(&["-sort=framework"]).is_ok());
}
