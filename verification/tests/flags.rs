use http3bench::duration::parse_duration;
use http3bench::flags::FlagSet;
use std::time::Duration;

fn set() -> FlagSet {
    let mut f = FlagSet::new();
    f.integer("c", 10, "");
    f.bool("check", false, "");
    f.string("f", "quicgo", "");
    f.duration("dt", "5s", "");
    f
}

fn args(v: &[&str]) -> Vec<String> {
    v.iter().map(|s| s.to_string()).collect()
}

#[test]
fn go_style() {
    let mut f = set();
    f.parse(&args(&["-c=3", "--f", "fib", "-check", "-dt=1m30s", "-c=4"])).unwrap();
    assert_eq!(f.get_int("c"), 4);
    assert_eq!(f.get_str("f"), "fib");
    assert!(f.get_bool("check"));
    assert_eq!(f.get_duration("dt"), Duration::from_secs(90));
}

#[test]
fn defaults_and_errors() {
    let mut f = set();
    f.parse(&[]).unwrap();
    assert_eq!(f.get_int("c"), 10);
    assert_eq!(f.get_duration("dt"), Duration::from_secs(5));
    assert!(set().parse(&args(&["-nope=1"])).is_err());
    assert!(set().parse(&args(&["-c=x"])).is_err());
    assert!(set().parse(&args(&["-check=maybe"])).is_err());
    assert_eq!(parse_duration("100ms"), Some(Duration::from_millis(100)));
    assert_eq!(parse_duration("1.5s"), Some(Duration::from_millis(1500)));
    assert_eq!(parse_duration("5"), None);
}

#[test]
fn durations() {
    let ns = Duration::from_nanos;
    for (s, want) in [
        ("0", Some(ns(0))),
        ("1ns", Some(ns(1))),
        ("2us", Some(ns(2_000))),
        ("3h", Some(Duration::from_secs(10_800))),
        ("1h2m3s", Some(Duration::from_secs(3_723))),
        (".5s", Some(Duration::from_millis(500))),
        ("", None),
        ("s", None),
        ("1x", None),
        ("1.2.3s", None),
        ("1s2", None),
    ] {
        assert_eq!(parse_duration(s), want, "{s}");
    }
}

#[test]
fn flag_errors_say_what_is_wrong() {
    for (a, want) in [
        (vec!["-nope=1"], "flag provided but not defined: -nope"),
        (vec!["-c=x"], "invalid value \"x\" for flag -c"),
        (vec!["-c"], "flag needs an argument: -c"),
        (vec!["-check=maybe"], "invalid value \"maybe\" for flag -check"),
        (vec!["-dt", "5"], "invalid value \"5\" for flag -dt"),
        (vec!["x"], "unexpected argument \"x\""),
        (vec!["-"], "unexpected argument \"-\""),
        (vec!["--", "y"], "unexpected argument \"y\""),
        (vec!["---c=3"], "bad flag syntax: ---c=3"),
        (vec!["-c=4", "---"], "bad flag syntax: ---"),
        (vec!["----h"], "bad flag syntax: ----h"),
        (vec!["-h"], ""),
        (vec!["--help"], ""),
    ] {
        assert_eq!(set().parse(&args(&a)).unwrap_err(), want, "{a:?}");
    }
    assert!(set().parse(&args(&["--"])).is_ok());
    let mut f = set();
    assert!(f.parse(&args(&["---c=3"])).is_err());
    assert_eq!(f.get_int("c"), 10);
}

#[test]
fn every_form_of_a_flag_sets_it() {
    for a in [vec!["-c=7"], vec!["--c=7"], vec!["-c", "7"], vec!["--c", "7"], vec!["-c=+7"], vec!["-c=1", "-c=7"]] {
        let mut f = set();
        f.parse(&args(&a)).unwrap();
        assert_eq!(f.get_int("c"), 7, "{a:?}");
    }
    for (v, want) in [("1", true), ("T", true), ("True", true), ("0", false), ("FALSE", false)] {
        let mut f = set();
        f.parse(&args(&[&format!("-check={v}")])).unwrap();
        assert_eq!(f.get_bool("check"), want, "{v}");
    }
    let mut f = set();
    f.parse(&args(&["-f=", "-c=-12"])).unwrap();
    assert_eq!(f.get_str("f"), "");
    assert_eq!(f.get_int("c"), -12);
}

#[test]
fn usage_lists_the_flags_in_order() {
    let mut f = FlagSet::new();
    f.string("z", "a\"b", "last");
    f.integer("b", -3, "first");
    f.bool("m", true, "middle");
    f.duration("n", "1s", "after");
    assert_eq!(
        f.usage("prog"),
        "Usage of prog:\n  -b int\n    \tfirst (default \"-3\")\n  -m\n    \tmiddle (default \"true\")\n  -n duration\n    \tafter (default \"1s\")\n  -z string\n    \tlast (default \"a\\\"b\")\n"
    );
}
