//! How a server is set up: its flags, its ports, its transport settings and its
//! certificate.

use std::time::Duration;
use vstd::prelude::*;

use crate::clock;
use crate::config;
use crate::engine::setup;
use crate::engine::setup::{millis_of, Transport, MAX_DATAGRAM_SIZE};
use crate::flags;
use crate::flags::{size, FlagMap, FlagSet, FlagView};
use crate::text;
use crate::text::{u64_text, usize_text};

verus! {

pub const FRAMEWORK: &'static str = "quiche";

/// The benchmark ports, as the client lists them; the control port is the one
/// after the last.
pub const PORTS: (u16, u16) = (3301, 3350);

pub const PORT_COUNT: usize = 50;

pub fn control_port() -> (p: u16)
    ensures
        p == PORTS.1 + 1,
{
    PORTS.1 + 1
}

/// The server listens where the client dials it.
pub proof fn ports_are_those_that_are_dialed()
    ensures
        config::known(FRAMEWORK@),
        config::FRAMEWORKS@[config::row(FRAMEWORK@)].1 == PORTS.0,
        config::FRAMEWORKS@[config::row(FRAMEWORK@)].2 == PORTS.1,
        PORTS.1 - PORTS.0 + 1 == PORT_COUNT,
{
    assert(config::framework_at(FRAMEWORK@, 3));
    config::lemma_row(FRAMEWORK@, 3);
}

pub struct Settings {
    pub payload: usize,
    pub streams: u64,
    pub idle: Duration,
}

/// The flags that are forwarded to every server.
pub open spec fn server_flags() -> FlagMap {
    Map::<Seq<char>, FlagView>::empty().insert(
        "b"@,
        flags::int_flag(1024, "expected request body size, which sizes the servers' read buffers"@),
    ).insert(
        "m"@,
        flags::int_flag(
            0x8000_0000,
            "memory limit: the Go servers' GOMEMLIMIT, which a Rust server has no counterpart of"@,
        ),
    ).insert("streams"@, flags::int_flag(100, "max concurrent request streams per connection"@)).insert(
        "idle"@,
        flags::duration_flag("120s"@, "QUIC max idle timeout"@),
    ).insert(
        "t"@,
        flags::int_flag(0, "worker threads, 0 for one per CPU this process may run on"@),
    )
}

pub fn define_flags() -> (f: FlagSet)
    ensures
        f.wf(),
        f@ == server_flags(),
{
    let mut f = FlagSet::new();
    f.integer("b", 1024, "expected request body size, which sizes the servers' read buffers");
    f.integer(
        "m",
        0x8000_0000,
        "memory limit: the Go servers' GOMEMLIMIT, which a Rust server has no counterpart of",
    );
    f.integer("streams", 100, "max concurrent request streams per connection");
    f.duration("idle", "120s", "QUIC max idle timeout");
    f.integer("t", 0, "worker threads, 0 for one per CPU this process may run on");
    f
}

/// Whether the flags that a server reads are there.
pub open spec fn has_server_flags(f: FlagMap) -> bool {
    f.contains_key("b"@) && f.contains_key("streams"@) && f.contains_key("idle"@) && f.contains_key(
        "t"@,
    )
}

/// Every command line leaves the server's flags there.
pub proof fn server_flags_are_there(args: Seq<Seq<char>>)
    ensures
        has_server_flags(flags::parse_args(server_flags(), args).0),
{
    flags::parsing_keeps_the_flags(server_flags(), args);
}

/// How many request streams a connection may have that was given so many.
pub open spec fn streams_for(n: int) -> int {
    if n < 1 {
        1
    } else {
        n
    }
}

/// A connection may have as many request streams as it is given, and always one.
pub proof fn there_is_always_a_stream(n: int)
    ensures
        streams_for(n) >= 1,
        n >= 1 ==> streams_for(n) == n,
        n <= 1 ==> streams_for(n) == 1,
{
}

pub fn settings(f: &FlagSet) -> (s: Settings)
    requires
        f.wf(),
        has_server_flags(f@),
    ensures
        s.payload == flags::size_of(flags::int_of(f@, "b"@), 1),
        s.streams == streams_for(flags::int_of(f@, "streams"@)),
        clock::duration_nanos(s.idle) == flags::nanos_of(f@, "idle"@),
{
    let streams: i64 = f.get_int("streams");
    Settings {
        payload: size(f.get_int("b"), 1),
        streams: if streams < 1 {
            1
        } else {
            streams as u64
        },
        idle: f.get_duration("idle"),
    }
}

/// How many workers a server runs that was asked for so many.
pub open spec fn workers_for(t: int, cpus: int) -> int {
    let wanted = if t > 0 {
        t
    } else {
        cpus
    };
    if wanted < PORT_COUNT {
        wanted
    } else {
        PORT_COUNT as int
    }
}

/// As many workers run as are asked for, or one for each CPU where none are, but
/// never more than fifty, which is how many ports there are for them, and never none.
pub proof fn as_many_workers_as_asked_for(t: int, cpus: int)
    requires
        cpus > 0,
    ensures
        1 <= workers_for(t, cpus) <= 50,
        1 <= t <= 50 ==> workers_for(t, cpus) == t,
        t >= 50 ==> workers_for(t, cpus) == 50,
        t <= 0 && cpus <= 50 ==> workers_for(t, cpus) == cpus,
        t <= 0 && cpus >= 50 ==> workers_for(t, cpus) == 50,
{
}

/// How many workers a server runs: as many as -t asks for, or one per CPU, and
/// no more than there are ports.
pub fn worker_count(f: &FlagSet, cpus: usize) -> (n: usize)
    requires
        f.wf(),
        has_server_flags(f@),
        cpus > 0,
    ensures
        0 < n <= PORT_COUNT,
        n == workers_for(flags::int_of(f@, "t"@), cpus as int),
{
    let t: i64 = f.get_int("t");
    if t > 0 {
        if t < 50 {
            t as usize
        } else {
            PORT_COUNT
        }
    } else if cpus < PORT_COUNT {
        cpus
    } else {
        PORT_COUNT
    }
}

/// Whether a port is one of a worker's.
pub open spec fn serves(worker: nat, workers: nat, port: int) -> bool {
    PORTS.0 <= port <= PORTS.1 && (port - PORTS.0) % (workers as int) == worker
}

/// The ports of one of some workers: of ports t, t + workers and so on.
pub fn worker_ports(worker: usize, workers: usize) -> (v: Vec<u16>)
    requires
        worker < workers <= PORT_COUNT,
    ensures
        v@.len() > 0,
        PORT_COUNT / workers <= v@.len() <= PORT_COUNT / workers + 1,
        forall|i: int|
            0 <= i < v@.len() ==> #[trigger] v@[i] == PORTS.0 + worker + i * workers,
        forall|p: u16| #[trigger]
            v@.contains(p) <==> serves(worker as nat, workers as nat, p as int),
{
    let mut v: Vec<u16> = Vec::new();
    let mut at: usize = worker;
    while at < PORT_COUNT
        invariant
            worker < workers <= PORT_COUNT,
            at == worker + v@.len() * workers,
            at < PORT_COUNT || v@.len() > 0,
            forall|i: int|
                0 <= i < v@.len() ==> #[trigger] v@[i] == PORTS.0 + worker + i * workers && v@[i]
                    <= PORTS.1,
        decreases PORT_COUNT + PORT_COUNT - at,
    {
        let ghost n = v@.len();
        v.push(PORTS.0 + at as u16);
        at += workers;
        assert((n + 1) * workers == n * workers + workers) by (nonlinear_arith);
    }
    proof {
        let w = workers as int;
        let n = v@.len() as int;
        let q = PORT_COUNT as int / w;
        vstd::arithmetic::div_mod::lemma_fundamental_div_mod(PORT_COUNT as int, w);
        assert(v@[n - 1] == PORTS.0 + worker + (n - 1) * w);
        assert(q <= n <= q + 1) by (nonlinear_arith)
            requires
                w > 0,
                0 <= worker < w,
                PORT_COUNT as int == w * q + PORT_COUNT as int % w,
                0 <= PORT_COUNT as int % w < w,
                worker + n * w >= PORT_COUNT,
                worker + (n - 1) * w < PORT_COUNT,
        ;
        assert forall|p: u16| #[trigger] v@.contains(p) <==> serves(
            worker as nat,
            workers as nat,
            p as int,
        ) by {
            if v@.contains(p) {
                let i = choose|i: int| 0 <= i < v@.len() && v@[i] == p;
                assert(v@[i] == PORTS.0 + worker + i * workers);
                vstd::arithmetic::div_mod::lemma_fundamental_div_mod_converse(
                    p - PORTS.0,
                    w,
                    i,
                    worker as int,
                );
            }
            if serves(worker as nat, workers as nat, p as int) {
                let i = (p - PORTS.0) / w;
                vstd::arithmetic::div_mod::lemma_fundamental_div_mod(p - PORTS.0, w);
                assert(w * i == i * w) by (nonlinear_arith);
                assert(i >= 0) by (nonlinear_arith)
                    requires
                        i == (p - PORTS.0) / w,
                        p >= PORTS.0,
                        w > 0,
                ;
                assert(i < n) by (nonlinear_arith)
                    requires
                        i * w + worker < PORT_COUNT,
                        worker + n * w >= PORT_COUNT,
                        w > 0,
                ;
                assert(v@[i] == p);
            }
        }
    }
    v
}

/// Each port is served by one worker and no other.
pub proof fn every_port_has_its_worker(workers: nat, port: int)
    requires
        workers > 0,
        PORTS.0 <= port <= PORTS.1,
    ensures
        exists|t: nat| t < workers && #[trigger] serves(t, workers, port),
        forall|a: nat, b: nat|
            #[trigger] serves(a, workers, port) && #[trigger] serves(b, workers, port) ==> a == b,
{
    let t = ((port - PORTS.0) % (workers as int)) as nat;
    vstd::arithmetic::div_mod::lemma_mod_bound(port - PORTS.0, workers as int);
    assert(serves(t, workers, port));
}

/// The ports are handed out in turn: the first to the first worker, the next to the
/// next, and after the last it is the first one's turn again. So no worker has two
/// ports more than another.
pub proof fn ports_go_round_the_workers(worker: nat, workers: nat, port: int)
    requires
        worker < workers <= 50,
    ensures
        serves(worker, workers, 3301 + worker as int),
        3301 <= port && port + workers <= 3350 ==> (serves(worker, workers, port) <==> serves(
            worker,
            workers,
            port + workers,
        )),
        3301 <= port < 3350 && worker + 1 < workers ==> (serves(worker, workers, port) <==> serves(
            worker + 1,
            workers,
            port + 1,
        )),
        port < 3301 || port > 3350 ==> !serves(worker, workers, port),
{
    let w = workers as int;
    let d = port - 3301;
    vstd::arithmetic::div_mod::lemma_small_mod(worker, workers);
    if d >= 0 {
        vstd::arithmetic::div_mod::lemma_mod_add_multiples_vanish(d, w);
        assert((w + d) % w == d % w);
        assert(d + w == w + d);
        vstd::arithmetic::div_mod::lemma_fundamental_div_mod(d, w);
        vstd::arithmetic::div_mod::lemma_fundamental_div_mod(d + 1, w);
        vstd::arithmetic::div_mod::lemma_mod_bound(d, w);
        vstd::arithmetic::div_mod::lemma_mod_bound(d + 1, w);
        let (q, r) = (d / w, d % w);
        assert(d == q * w + r) by {
            vstd::arithmetic::mul::lemma_mul_is_commutative(w, q);
        }
        if r + 1 < w {
            vstd::arithmetic::div_mod::lemma_fundamental_div_mod_converse(d + 1, w, q, r + 1);
        } else {
            assert((q + 1) * w == q * w + w) by (nonlinear_arith);
            vstd::arithmetic::div_mod::lemma_fundamental_div_mod_converse(d + 1, w, q + 1, 0);
        }
    }
}

/// Where to listen on a port: every interface, both families where the kernel
/// has IPv6, or IPv4 alone.
pub fn listen_addresses(port: u16) -> (r: (String, String))
    ensures
        r.0@ == "[::]:"@ + text::decimal(port as nat),
        r.1@ == "0.0.0.0:"@ + text::decimal(port as nat),
{
    let mut a = "[::]:".to_owned();
    a.append(usize_text(port as usize).as_str());
    let mut b = "0.0.0.0:".to_owned();
    b.append(usize_text(port as usize).as_str());
    (a, b)
}

/// The transport settings: -streams request streams per connection, -idle idle
/// timeout, and receive windows that let a request body in without waiting for
/// flow control.
pub fn quiche_config(s: &Settings) -> (t: Transport)
    ensures
        t == (Transport {
            verify_peer: false,
            max_idle_millis: setup::idle_millis(clock::duration_nanos(s.idle)) as u64,
            max_recv_udp_payload_size: 1350,
            max_send_udp_payload_size: 1350,
            initial_max_data: 0x100_0000,
            initial_max_stream_data_bidi_local: 0x10_0000,
            initial_max_stream_data_bidi_remote: 0x10_0000,
            initial_max_stream_data_uni: 0x4_0000,
            initial_max_streams_bidi: s.streams,
            initial_max_streams_uni: 16,
            disable_active_migration: true,
            grease: false,
        }),
{
    Transport {
        verify_peer: false,
        max_idle_millis: millis_of(s.idle),
        max_recv_udp_payload_size: MAX_DATAGRAM_SIZE,
        max_send_udp_payload_size: MAX_DATAGRAM_SIZE,
        initial_max_data: 16 * 1024 * 1024,
        initial_max_stream_data_bidi_local: 1024 * 1024,
        initial_max_stream_data_bidi_remote: 1024 * 1024,
        initial_max_stream_data_uni: 256 * 1024,
        initial_max_streams_bidi: s.streams,
        // The client's control and QPACK streams, with room to spare.
        initial_max_streams_uni: 16,
        disable_active_migration: true,
        grease: false,
    }
}

// ---------------------------------------------------------------------------
// The certificate.

/// A certificate and its key, in PEM, and the names of the files they are
/// written to for the transport to load.
pub struct CertificateFiles {
    pub cert_name: String,
    pub key_name: String,
    pub cert: String,
    pub key: String,
}

/// Whom the certificate is for.
pub fn subject_names() -> (v: Vec<String>)
    ensures
        text::texts(v@) == seq!["localhost"@, "127.0.0.1"@, "::1"@],
{
    let mut v: Vec<String> = Vec::new();
    v.push("localhost".to_owned());
    v.push("127.0.0.1".to_owned());
    v.push("::1".to_owned());
    assert(text::texts(v@) =~= seq!["localhost"@, "127.0.0.1"@, "::1"@]);
    v
}

/// Whether a text begins as PEM with that label does.
pub open spec fn is_pem(s: Seq<char>, label: Seq<char>) -> bool {
    ("-----BEGIN "@ + label + "-----"@).is_prefix_of(s)
}

/// `rcgen::generate_simple_self_signed` makes a key and a certificate for the
/// names that it signs with that key; `Certificate::pem` and
/// `KeyPair::serialize_pem` write them down as PEM, each with its label. The key
/// is a new one each time, so nothing more is said of what they write, nor of
/// when making one fails.
#[verifier::external_body]
fn self_signed(names: Vec<String>) -> (r: Result<(String, String), String>)
    ensures
        r matches Ok(pair) ==> is_pem(pair.0@, "CERTIFICATE"@) && is_pem(
            pair.1@,
            "PRIVATE KEY"@,
        ),
{
    rcgen::generate_simple_self_signed(names).map(
        |c| (c.cert.pem(), c.signing_key.serialize_pem()),
    ).map_err(|e| e.to_string())
}

pub open spec fn file_name(pid: nat, extension: Seq<char>) -> Seq<char> {
    "go-http3-benchmark-quiche-"@ + text::decimal(pid) + extension
}

/// The files for a certificate and a key that were made, or were not.
pub fn files_for(made: Result<(String, String), String>, pid: u32) -> (r: Result<
    CertificateFiles,
    String,
>)
    ensures
        match r {
            Ok(f) => {
                &&& made matches Ok(pair) && f.cert@ == pair.0@ && f.key@ == pair.1@
                &&& f.cert_name@ == file_name(pid as nat, ".crt"@)
                &&& f.key_name@ == file_name(pid as nat, ".key"@)
            },
            Err(e) => made matches Err(why) && e@ == why@,
        },
{
    match made {
        Ok((cert, key)) => {
            let mut cert_name = "go-http3-benchmark-quiche-".to_owned();
            cert_name.append(u64_text(pid as u64).as_str());
            cert_name.append(".crt");
            let mut key_name = "go-http3-benchmark-quiche-".to_owned();
            key_name.append(u64_text(pid as u64).as_str());
            key_name.append(".key");
            Ok(CertificateFiles { cert_name, key_name, cert, key })
        },
        Err(e) => Err(e),
    }
}

/// A self-signed certificate for localhost, for the process of that pid to write
/// to two temporary files. The client does not verify it. Whether one can be made
/// is up to the machine's source of randomness.
pub fn certificate_files(pid: u32) -> (r: Result<CertificateFiles, String>)
    ensures
        r matches Ok(f) ==> {
            &&& f.cert_name@ == file_name(pid as nat, ".crt"@)
            &&& f.key_name@ == file_name(pid as nat, ".key"@)
            &&& is_pem(f.cert@, "CERTIFICATE"@)
            &&& is_pem(f.key@, "PRIVATE KEY"@)
        },
{
    files_for(self_signed(subject_names()), pid)
}

/// Each process has files of its own, and its certificate and its key are in two: two
/// that are called the same are of the same process and of one ending.
pub proof fn each_process_has_its_files(a: nat, b: nat, x: Seq<char>, y: Seq<char>)
    requires
        x == ".crt"@ || x == ".key"@,
        y == ".crt"@ || y == ".key"@,
    ensures
        file_name(a, x) == file_name(b, y) ==> a == b && x == y,
        x.is_suffix_of(file_name(a, x)),
{
    reveal_strlit("go-http3-benchmark-quiche-");
    reveal_strlit(".crt");
    reveal_strlit(".key");
    let (f, g) = (file_name(a, x), file_name(b, y));
    let n = "go-http3-benchmark-quiche-"@.len() as int;
    assert(f.subrange(n, f.len() - 4) =~= text::decimal(a));
    assert(g.subrange(n, g.len() - 4) =~= text::decimal(b));
    assert(f.skip(f.len() - 4) =~= x);
    assert(g.skip(g.len() - 4) =~= y);
    text::lemma_decimal_digits(a);
    text::lemma_decimal_digits(b);
}

} // verus!
