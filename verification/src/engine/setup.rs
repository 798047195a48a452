//! What the workers' connections are made with.

use std::time::Duration;
use vstd::prelude::*;

use crate::clock;
use crate::config::{Address, ECHO_PATH};
use crate::engine::model::Limits;
use crate::engine::worker;
use crate::text;
use crate::text::{chars_of, usize_text};

verus! {

pub const MAX_DATAGRAM_SIZE: usize = 1350;

/// H3_NO_ERROR, what the client closes its connections with at the end.
pub const H3_NO_ERROR: u64 = 0x100;

/// H3_INTERNAL_ERROR, what it closes a connection with that cannot carry a
/// request.
pub const H3_INTERNAL_ERROR: u64 = 0x102;

/// H3_GENERAL_PROTOCOL_ERROR.
pub const H3_GENERAL_PROTOCOL_ERROR: u64 = 0x101;

/// INTERNAL_ERROR of the transport, what it closes one with whose socket
/// failed.
pub const TRANSPORT_INTERNAL_ERROR: u64 = 0x1;

pub struct EngineConfig {
    pub addrs: Vec<Address>,
    pub authority: String,
    pub dial_timeout: Duration,
    pub dial_retries: usize,
    pub dial_retry_interval: Duration,
    pub idle_timeout: Duration,
    pub check: bool,
}

/// How long a connection may be quiet before it is sent a PING: a quarter of
/// the idle timeout, and at least a second.
pub open spec fn keepalive_nanos(idle: nat) -> nat {
    if idle / 4 < 1_000_000_000 {
        1_000_000_000
    } else {
        idle / 4
    }
}

impl EngineConfig {
    /// What the workers go by.
    pub fn limits(&self) -> (l: Limits)
        ensures
            l.dial_timeout == clock::duration_nanos(self.dial_timeout),
            l.dial_retries == self.dial_retries,
            l.dial_retry_interval == clock::duration_nanos(self.dial_retry_interval),
            l.keepalive == keepalive_nanos(clock::duration_nanos(self.idle_timeout)),
            l.check == self.check,
            worker::limits_fit(l),
    {
        let quarter: u128 = self.idle_timeout.as_nanos() / 4;
        Limits {
            dial_timeout: self.dial_timeout.as_nanos(),
            dial_retries: self.dial_retries,
            dial_retry_interval: self.dial_retry_interval.as_nanos(),
            keepalive: if quarter < 1_000_000_000 {
                1_000_000_000
            } else {
                quarter
            },
            check: self.check,
        }
    }

    /// The address of the nth dial: they are taken in turn.
    pub fn address(&self, n: usize) -> (a: &Address)
        requires
            self.addrs@.len() > 0,
        ensures
            *a == self.addrs@[(n as int) % (self.addrs@.len() as int)],
    {
        &self.addrs[n % self.addrs.len()]
    }

    /// The name to ask for in the handshake: only a host name, which an address
    /// is not. `is_ip` says whether the authority reads as an IP address.
    pub fn server_name(&self, is_ip: bool) -> (r: Option<String>)
        ensures
            match r {
                Some(s) => s@ == self.authority@ && !is_ip && !(self.authority@.len() > 0
                    && self.authority@[0] == '['),
                None => is_ip || (self.authority@.len() > 0 && self.authority@[0] == '['),
            },
    {
        let v = chars_of(self.authority.as_str());
        if !is_ip && !(v.len() > 0 && v[0] == '[') {
            Some(self.authority.as_str().to_owned())
        } else {
            None
        }
    }
}

/// How many of the first `n` dials go to the address in place `a` of `len`.
pub open spec fn dials_to(n: nat, len: nat, a: int) -> nat
    decreases n,
{
    if n == 0 {
        0
    } else {
        dials_to((n - 1) as nat, len, a) + (if (n - 1) % (len as int) == a {
            1nat
        } else {
            0nat
        })
    }
}

proof fn lemma_dials_to(n: nat, len: nat, a: int)
    requires
        0 <= a < len,
    ensures
        dials_to(n, len, a) == n / len + (if a < n % len {
            1int
        } else {
            0int
        }),
    decreases n,
{
    let d = len as int;
    if n == 0 {
        vstd::arithmetic::div_mod::lemma_fundamental_div_mod_converse(0, d, 0, 0);
    } else {
        lemma_dials_to((n - 1) as nat, len, a);
        let q = (n - 1) / d;
        let r = (n - 1) % d;
        vstd::arithmetic::div_mod::lemma_fundamental_div_mod(n - 1, d);
        vstd::arithmetic::div_mod::lemma_mod_bound(n - 1, d);
        assert((q + 1) * d == d * q + d) by (nonlinear_arith);
        if r + 1 < d {
            vstd::arithmetic::div_mod::lemma_fundamental_div_mod_converse(n as int, d, q, r + 1);
        } else {
            vstd::arithmetic::div_mod::lemma_fundamental_div_mod_converse(n as int, d, q + 1, 0);
        }
    }
}

/// The dials are spread evenly: after any number of them, no address has had two
/// more than another.
pub proof fn dials_are_spread_evenly(n: nat, len: nat, a: int, b: int)
    requires
        0 <= a < len,
        0 <= b < len,
    ensures
        dials_to(n, len, a) <= dials_to(n, len, b) + 1,
        n / len <= dials_to(n, len, a) <= n / len + 1,
{
    lemma_dials_to(n, len, a);
    lemma_dials_to(n, len, b);
}

/// Every address is dialed in its turn: of as many dials in a row as there are
/// addresses, one goes to each.
pub proof fn addresses_take_turns(n: nat, len: nat, a: int)
    requires
        len > 0,
        0 <= a < len,
    ensures
        exists|k: int| n <= k < n + len && #[trigger] (k % (len as int)) == a,
{
    let d = len as int;
    let q = n as int / d;
    let r = n as int % d;
    vstd::arithmetic::div_mod::lemma_fundamental_div_mod(n as int, d);
    let k = if r <= a {
        d * q + a
    } else {
        d * (q + 1) + a
    };
    assert(d * (q + 1) == d * q + d) by (nonlinear_arith);
    if r <= a {
        vstd::arithmetic::div_mod::lemma_fundamental_div_mod_converse(k, d, q, a);
    } else {
        vstd::arithmetic::div_mod::lemma_fundamental_div_mod_converse(k, d, q + 1, a);
    }
}

/// A connection is sent a PING after a quarter of the idle timeout, to the
/// nanosecond, or after a second where that is longer.
pub proof fn a_quarter_of_the_idle_timeout(idle: nat)
    ensures
        keepalive_nanos(idle) >= 1_000_000_000,
        idle >= 4_000_000_000 ==> 4 * keepalive_nanos(idle) <= idle < 4 * keepalive_nanos(idle) + 4,
        idle < 4_000_000_000 ==> keepalive_nanos(idle) == 1_000_000_000,
{
}

// ---------------------------------------------------------------------------
// Headers.

pub struct Header {
    pub name: String,
    pub value: String,
}

pub struct HeaderView {
    pub name: Seq<char>,
    pub value: Seq<char>,
}

impl View for Header {
    type V = HeaderView;

    open spec fn view(&self) -> HeaderView {
        HeaderView { name: self.name@, value: self.value@ }
    }
}

pub fn header(name: &str, value: &str) -> (h: Header)
    ensures
        h@ == (HeaderView { name: name@, value: value@ }),
{
    Header { name: name.to_owned(), value: value.to_owned() }
}

pub open spec fn request_header_list(method: Seq<char>, authority: Seq<char>, len: Option<usize>) -> Seq<
    HeaderView,
> {
    let h = seq![
        HeaderView { name: ":method"@, value: method },
        HeaderView { name: ":scheme"@, value: "https"@ },
        HeaderView { name: ":authority"@, value: authority },
        HeaderView { name: ":path"@, value: "/echo"@ },
    ];
    match len {
        Some(n) => h.push(
            HeaderView { name: "content-type"@, value: "application/octet-stream"@ },
        ).push(HeaderView { name: "content-length"@, value: text::decimal(n as nat) }),
        None => h,
    }
}

/// Whether a list has a header of that name and value, and none else of the name.
pub open spec fn says(list: Seq<HeaderView>, name: Seq<char>, value: Seq<char>) -> bool {
    exists|k: int|
        0 <= k < list.len() && (#[trigger] list[k]).name == name && list[k].value == value
            && forall|j: int| 0 <= j < list.len() && (#[trigger] list[j]).name == name ==> j == k
}

/// A request asks for the echo route over https by its method, of the authority that
/// is benchmarked; with a body, it says how long that is, in decimal, and without
/// one, it says nothing of a body.
pub proof fn a_request_says_what_it_is(
    method: Seq<char>,
    authority: Seq<char>,
    len: Option<usize>,
)
    ensures
        ({
            let list = request_header_list(method, authority, len);
            &&& says(list, ":method"@, method)
            &&& says(list, ":scheme"@, "https"@)
            &&& says(list, ":authority"@, authority)
            &&& says(list, ":path"@, "/echo"@)
            &&& len matches Some(n) ==> says(list, "content-length"@, text::decimal(n as nat))
                && says(list, "content-type"@, "application/octet-stream"@) && list.len() == 6
            &&& len is None ==> list.len() == 4
            &&& forall|i: int, j: int|
                0 <= i < j < list.len() && "content-"@.is_prefix_of((#[trigger] list[i]).name)
                    ==> "content-"@.is_prefix_of((#[trigger] list[j]).name)
        }),
{
    lemma_header_names();
    let list = request_header_list(method, authority, len);
    assert(list[0].name == ":method"@ && list[0].value == method);
    assert(list[1].name == ":scheme"@ && list[1].value == "https"@);
    assert(list[2].name == ":authority"@ && list[2].value == authority);
    assert(list[3].name == ":path"@ && list[3].value == "/echo"@);
    if len is Some {
        let n = len->Some_0;
        assert(list[4].name == "content-type"@ && list[4].value == "application/octet-stream"@);
        assert(list[5].name == "content-length"@ && list[5].value == text::decimal(n as nat));
    }
}

proof fn lemma_header_names()
    ensures
        ":method"@.len() == 7,
        ":scheme"@.len() == 7,
        ":method"@[1] != ":scheme"@[1],
        ":authority"@.len() == 10,
        ":path"@.len() == 5,
        "content-type"@.len() == 12,
        "content-length"@.len() == 14,
        !"content-"@.is_prefix_of(":method"@),
        !"content-"@.is_prefix_of(":scheme"@),
        !"content-"@.is_prefix_of(":authority"@),
        !"content-"@.is_prefix_of(":path"@),
        "content-"@.is_prefix_of("content-type"@),
        "content-"@.is_prefix_of("content-length"@),
{
    reveal_strlit(":method");
    reveal_strlit(":scheme");
    reveal_strlit(":authority");
    reveal_strlit(":path");
    reveal_strlit("content-type");
    reveal_strlit("content-length");
    reveal_strlit("content-");
    assert("content-"@[0] == 'c');
    assert(":authority"@[0] == ':');
    assert("content-"@ =~= "content-type"@.subrange(0, 8));
    assert("content-"@ =~= "content-length"@.subrange(0, 8));
}

/// The headers of a request for the echo route, with those of its body if it
/// has one.
pub fn request_headers(method: &str, authority: &str, len: Option<usize>) -> (h: Vec<Header>)
    ensures
        h@.map_values(|x: Header| x@) == request_header_list(method@, authority@, len),
{
    let mut h: Vec<Header> = Vec::new();
    h.push(header(":method", method));
    h.push(header(":scheme", "https"));
    h.push(header(":authority", authority));
    h.push(header(":path", ECHO_PATH));
    match len {
        Some(n) => {
            h.push(header("content-type", "application/octet-stream"));
            h.push(header("content-length", usize_text(n).as_str()));
        },
        None => {},
    }
    assert(h@.map_values(|x: Header| x@) =~= request_header_list(method@, authority@, len));
    h
}

// ---------------------------------------------------------------------------
// The transport.

/// The settings of a QUIC endpoint.
#[derive(Clone, Copy)]
pub struct Transport {
    pub verify_peer: bool,
    pub max_idle_millis: u64,
    pub max_recv_udp_payload_size: usize,
    pub max_send_udp_payload_size: usize,
    pub initial_max_data: u64,
    pub initial_max_stream_data_bidi_local: u64,
    pub initial_max_stream_data_bidi_remote: u64,
    pub initial_max_stream_data_uni: u64,
    pub initial_max_streams_bidi: u64,
    pub initial_max_streams_uni: u64,
    pub disable_active_migration: bool,
    pub grease: bool,
}

/// The idle timeout in milliseconds, in 64 bits.
pub open spec fn idle_millis(idle: nat) -> nat {
    idle / 1_000_000 % 0x1_0000_0000_0000_0000
}

pub fn millis_of(idle: Duration) -> (n: u64)
    ensures
        n == idle_millis(clock::duration_nanos(idle)),
{
    (idle.as_nanos() / 1_000_000 % 0x1_0000_0000_0000_0000) as u64
}

/// The idle timeout is told to the transport in whole milliseconds.
pub proof fn the_idle_timeout_is_in_milliseconds(idle: nat)
    requires
        idle < 1_000_000 * 0x1_0000_0000_0000_0000,
    ensures
        idle_millis(idle) * 1_000_000 <= idle < (idle_millis(idle) + 1) * 1_000_000,
{
}

/// The settings the client dials with.
pub fn new_quiche_config(idle: Duration) -> (t: Transport)
    ensures
        t == (Transport {
            verify_peer: false,
            max_idle_millis: idle_millis(clock::duration_nanos(idle)) as u64,
            max_recv_udp_payload_size: 1350,
            max_send_udp_payload_size: 1350,
            initial_max_data: 0x100_0000,
            initial_max_stream_data_bidi_local: 0x10_0000,
            initial_max_stream_data_bidi_remote: 0x4_0000,
            initial_max_stream_data_uni: 0x4_0000,
            initial_max_streams_bidi: 16,
            initial_max_streams_uni: 16,
            disable_active_migration: true,
            grease: false,
        }),
{
    Transport {
        verify_peer: false,
        max_idle_millis: millis_of(idle),
        max_recv_udp_payload_size: MAX_DATAGRAM_SIZE,
        max_send_udp_payload_size: MAX_DATAGRAM_SIZE,
        // Receive windows for the responses, which the transport only allocates
        // as data arrives: generous next to what a batch of echoes needs, so
        // that flow control never paces a server.
        initial_max_data: 16 * 1024 * 1024,
        initial_max_stream_data_bidi_local: 1024 * 1024,
        initial_max_stream_data_bidi_remote: 256 * 1024,
        initial_max_stream_data_uni: 256 * 1024,
        // The server opens no request streams, only its control and QPACK ones.
        initial_max_streams_bidi: 16,
        initial_max_streams_uni: 16,
        disable_active_migration: true,
        // No GREASE: the extra stream, settings and frames it adds to every
        // connection are work for the server that measures nothing.
        grease: false,
    }
}

/// Why a connection could not be opened.
pub enum OpenError {
    Bind(String),
    Connect { peer: String, error: String },
    Local(String),
    Transport(String),
    Register(String),
}

pub open spec fn open_error_text(e: OpenError) -> Seq<char> {
    match e {
        OpenError::Bind(e) => "bind: "@ + e@,
        OpenError::Connect { peer, error } => "connect "@ + peer@ + ": "@ + error@,
        OpenError::Local(e) => e@,
        OpenError::Transport(e) => "quiche connect: "@ + e@,
        OpenError::Register(e) => "register: "@ + e@,
    }
}

impl OpenError {
    pub fn text(&self) -> (s: String)
        ensures
            s@ == open_error_text(*self),
    {
        match self {
            OpenError::Bind(e) => {
                let mut s = "bind: ".to_owned();
                s.append(e.as_str());
                s
            },
            OpenError::Connect { peer, error } => {
                let mut s = "connect ".to_owned();
                s.append(peer.as_str());
                s.append(": ");
                s.append(error.as_str());
                s
            },
            OpenError::Local(e) => e.as_str().to_owned(),
            OpenError::Transport(e) => {
                let mut s = "quiche connect: ".to_owned();
                s.append(e.as_str());
                s
            },
            OpenError::Register(e) => {
                let mut s = "register: ".to_owned();
                s.append(e.as_str());
                s
            },
        }
    }
}

/// Where a socket binds to that is to reach a peer: any port of any address of
/// its family.
pub fn bind_address(ipv4: bool) -> (s: &'static str)
    ensures
        s@ == (if ipv4 {
            "0.0.0.0:0"@
        } else {
            "[::]:0"@
        }),
{
    if ipv4 {
        "0.0.0.0:0"
    } else {
        "[::]:0"
    }
}

} // verus!
