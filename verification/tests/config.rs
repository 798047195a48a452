use http3bench::config::{
    authority, bare_host, benchmark_addrs, benchmark_target, control_addr, control_target,
    framework_names, is_framework, is_local_host, ports, serves_pprof, Found, Probe,
};

fn at(ip: &str) -> Found {
    Found::Address(ip.to_string())
}

fn probe(loopback: bool, unspecified: bool, bindable: bool) -> Option<Vec<Probe>> {
    Some(vec![Probe { loopback, unspecified, bindable }])
}

#[test]
fn addrs() {
    let a = benchmark_addrs("quicgo", "::1", at("::1")).unwrap();
    assert_eq!(a.len(), 50);
    assert_eq!(a[0].text(), "[::1]:3201");
    assert_eq!(a[49].text(), "[::1]:3250");
    assert_eq!(benchmark_addrs("quiche", "::1", at("::1")).unwrap()[0].text(), "[::1]:3301");
    assert!(serves_pprof("fib") && !serves_pprof("quiche"));
    assert_eq!(benchmark_addrs("fib", "[::1]", at("::1")).unwrap()[0].text(), "[::1]:3001");
    assert_eq!(control_addr("fib", "127.0.0.1", at("127.0.0.1")).unwrap().text(), "127.0.0.1:3051");
    assert!(benchmark_addrs("gorilla", "127.0.0.1", at("127.0.0.1")).is_err());
    assert_eq!(authority("::1"), "[::1]");
    assert_eq!(authority("10.0.0.2"), "10.0.0.2");
}

#[test]
fn local() {
    for h in ["127.0.0.1", "::1", "[::1]", "localhost"] {
        assert!(is_local_host(h, &probe(true, false, true)), "{h}");
    }
    assert!(is_local_host("0.0.0.0", &probe(false, true, true)));
    assert!(!is_local_host("", &probe(true, true, true)));
    for h in ["192.0.2.10", "198.51.100.7", "2001:db8::1"] {
        assert!(!is_local_host(h, &probe(false, false, false)), "{h}");
    }
}

#[test]
fn sorted() {
    let names = framework_names();
    let mut sorted = names.clone();
    sorted.sort();
    assert_eq!(names, sorted);
}

#[test]
fn no_two_frameworks_share_a_port() {
    let names = framework_names();
    for (i, a) in names.iter().enumerate() {
        let (first, last) = ports(a).unwrap();
        assert_eq!(last - first, 49);
        for b in &names[i + 1..] {
            let (lo, hi) = ports(b).unwrap();
            assert!(last + 1 < lo || hi + 1 < first, "{a} and {b}");
        }
    }
    assert_eq!(ports("gorilla"), None);
    assert!(is_framework("gin") && !is_framework("gorilla"));
}

#[test]
fn a_host_that_is_one_of_several_addresses_here_is_local() {
    let found = Some(vec![
        Probe { loopback: false, unspecified: false, bindable: false },
        Probe { loopback: false, unspecified: false, bindable: true },
    ]);
    assert!(is_local_host("host", &found));
    assert!(!is_local_host("host", &None));
    assert!(!is_local_host("host", &Some(vec![])));
}

#[test]
fn lookup_errors() {
    let failed = |e: &str| Found::Failed(e.to_string());
    assert_eq!(
        benchmark_addrs("fib", "[::1]", failed("no route")).err().unwrap(),
        "resolve ::1: no route"
    );
    assert_eq!(
        benchmark_addrs("fib", "host", Found::Nothing).err().unwrap(),
        "resolve host: no address"
    );
    assert_eq!(
        benchmark_addrs("gorilla", "host", Found::Nothing).err().unwrap(),
        "unknown framework \"gorilla\""
    );
    assert_eq!(control_addr("fib", "host", Found::Nothing).err().unwrap(), "resolve host: no address");
    assert_eq!(control_addr("fib", "host", failed("x")).err().unwrap(), "resolve host: x");
    assert_eq!(
        control_addr("gorilla", "host", at("1.2.3.4")).err().unwrap(),
        "unknown framework \"gorilla\""
    );
    assert_eq!(benchmark_target("quiche", "[::1]").unwrap(), ("::1".to_string(), 3301));
    assert_eq!(control_target("quiche", "[::1]").unwrap(), ("::1".to_string(), 3351));
    assert!(benchmark_target("x", "::1").is_err());
    assert!(control_target("x", "::1").is_err());
}

#[test]
fn brackets_come_off() {
    assert_eq!(bare_host("[::1]"), "::1");
    assert_eq!(bare_host("[[a]]"), "a");
    assert_eq!(bare_host(""), "");
    assert_eq!(bare_host("host"), "host");
    assert_eq!(authority("[::1]"), "[::1]");
}
