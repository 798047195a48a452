//! The frameworks and their ports, in framework-name order, and the addresses
//! the client reaches them at.

use vstd::prelude::*;

use crate::text;
use crate::text::{chars_of, debug_string, index_from, lead, same, string_of, usize_text};

verus! {

/// Name, first and last benchmark port, and whether the server is a Go
/// program with pprof routes on its control port.
pub const FRAMEWORKS: [(&'static str, u16, u16, bool); 4] = [
    ("fib", 3001, 3050, true),
    ("gin", 3101, 3150, true),
    ("quicgo", 3201, 3250, true),
    ("quiche", 3301, 3350, false),
];

pub const ECHO_PATH: &'static str = "/echo";

/// The framework of that name in the table.
pub open spec fn framework_at(name: Seq<char>, i: int) -> bool {
    0 <= i < 4 && FRAMEWORKS@[i].0@ == name
}

pub open spec fn known(name: Seq<char>) -> bool {
    exists|i: int| framework_at(name, i)
}

/// Where a framework stands in the table.
pub open spec fn row(name: Seq<char>) -> int {
    choose|i: int| framework_at(name, i)
}

proof fn lemma_names_differ()
    ensures
        forall|i: int, j: int|
            0 <= i < j < 4 ==> (#[trigger] FRAMEWORKS@[i]).0@ != (#[trigger] FRAMEWORKS@[j]).0@,
{
    reveal_strlit("fib");
    reveal_strlit("gin");
    reveal_strlit("quicgo");
    reveal_strlit("quiche");
    assert("fib"@[0] != "gin"@[0]);
    assert("quicgo"@[4] != "quiche"@[4]);
}

/// A name stands in one row of the table.
pub proof fn lemma_row(name: Seq<char>, i: int)
    requires
        framework_at(name, i),
    ensures
        known(name),
        row(name) == i,
{
    lemma_names_differ();
    let j = row(name);
    assert(framework_at(name, j));
    assert(FRAMEWORKS@[i].0@ == FRAMEWORKS@[j].0@);
}

fn find(framework: &str) -> (r: Option<usize>)
    ensures
        match r {
            Some(i) => i < 4 && known(framework@) && i == row(framework@),
            None => !known(framework@),
        },
{
    let mut i: usize = 0;
    while i < 4
        invariant
            i <= 4,
            forall|k: int| 0 <= k < i ==> !#[trigger] framework_at(framework@, k),
        decreases 4 - i,
    {
        if same(FRAMEWORKS[i].0, framework) {
            proof {
                assert(framework_at(framework@, i as int));
                lemma_row(framework@, i as int);
            }
            return Some(i);
        }
        i += 1;
    }
    None
}

pub fn framework_names() -> (names: Vec<&'static str>)
    ensures
        names@.len() == 4,
        forall|i: int| 0 <= i < 4 ==> (#[trigger] names@[i])@ == FRAMEWORKS@[i].0@,
{
    let mut names: Vec<&'static str> = Vec::new();
    let mut i: usize = 0;
    while i < 4
        invariant
            i <= 4,
            names@.len() == i,
            forall|k: int| 0 <= k < i ==> (#[trigger] names@[k])@ == FRAMEWORKS@[k].0@,
        decreases 4 - i,
    {
        names.push(FRAMEWORKS[i].0);
        i += 1;
    }
    names
}

/// The names stand in order.
pub proof fn frameworks_are_in_order(i: int, j: int)
    requires
        0 <= i < j < 4,
    ensures
        crate::order::precedes(
            crate::order::codes(FRAMEWORKS@[i].0@),
            crate::order::codes(FRAMEWORKS@[j].0@),
        ),
{
    reveal_strlit("fib");
    reveal_strlit("gin");
    reveal_strlit("quicgo");
    reveal_strlit("quiche");
    let a = crate::order::codes(FRAMEWORKS@[i].0@);
    let b = crate::order::codes(FRAMEWORKS@[j].0@);
    if i == 2 {
        assert(crate::order::parts_at(a, b, 4));
    } else {
        assert(crate::order::parts_at(a, b, 0));
    }
}

/// No two frameworks share a port, the control port after the last one
/// included.
pub proof fn frameworks_share_no_port(i: int, j: int)
    requires
        0 <= i < j < 4,
    ensures
        FRAMEWORKS@[i].1 <= FRAMEWORKS@[i].2,
        FRAMEWORKS@[i].2 + 1 < FRAMEWORKS@[j].1,
        FRAMEWORKS@[j].2 < u16::MAX,
{
}

/// The first and the last benchmark port of a framework.
pub fn ports(framework: &str) -> (r: Option<(u16, u16)>)
    ensures
        match r {
            Some(p) => known(framework@) && p.0 == FRAMEWORKS@[row(framework@)].1 && p.1
                == FRAMEWORKS@[row(framework@)].2,
            None => !known(framework@),
        },
{
    match find(framework) {
        Some(i) => Some((FRAMEWORKS[i].1, FRAMEWORKS[i].2)),
        None => None,
    }
}

pub fn is_framework(framework: &str) -> (r: bool)
    ensures
        r == known(framework@),
{
    find(framework).is_some()
}

/// Whether the framework's server serves Go's pprof routes, which the client
/// profiles it through with -ep and -rp.
pub fn serves_pprof(framework: &str) -> (r: bool)
    ensures
        r == (known(framework@) && FRAMEWORKS@[row(framework@)].3),
{
    match find(framework) {
        Some(i) => FRAMEWORKS[i].3,
        None => false,
    }
}

// ---------------------------------------------------------------------------
// Addresses.

/// How many `c`s stand at the end of a text.
pub open spec fn tail_len(s: Seq<char>, c: char) -> nat
    decreases s.len(),
{
    if s.len() > 0 && s.last() == c {
        1 + tail_len(s.drop_last(), c)
    } else {
        0
    }
}

/// A host without the brackets around it.
pub open spec fn bare(ip: Seq<char>) -> Seq<char> {
    let s = text::trim_lead(ip, '[');
    s.take(s.len() - tail_len(s, ']'))
}

pub fn bare_host(ip: &str) -> (host: String)
    ensures
        host@ == bare(ip@),
{
    let v = chars_of(ip);
    let from: usize = lead(&v, '[');
    let mut to: usize = v.len();
    let ghost s = v@.skip(from as int);
    assert(s.take(s.len() as int) =~= s);
    while to > from && v[to - 1] == ']'
        invariant
            from <= to <= v@.len(),
            s == v@.skip(from as int),
            tail_len(s, ']') == tail_len(s.take(to - from), ']') + (v@.len() - to),
        decreases to,
    {
        assert(s.take(to - from).last() == v@[to - 1]);
        assert(s.take(to - from).drop_last() =~= s.take(to - from - 1));
        to -= 1;
    }
    proof {
        let t = s.take(to - from);
        if to > from {
            assert(t.last() == v@[to - 1]);
        }
        assert(tail_len(t, ']') == 0);
        assert(v@.subrange(from as int, to as int) =~= s.take(to - from));
    }
    string_of(&v, from, to)
}

/// An IP address, as text, and a port.
pub struct Address {
    pub ip: String,
    pub port: u16,
}

pub open spec fn address_text(ip: Seq<char>, port: u16) -> Seq<char> {
    if ip.contains(':') {
        "["@ + ip + "]:"@ + text::decimal(port as nat)
    } else {
        ip + ":"@ + text::decimal(port as nat)
    }
}

fn has_colon(s: &str) -> (r: bool)
    ensures
        r == s@.contains(':'),
{
    let v = chars_of(s);
    let k: usize = index_from(&v, 0, ':');
    proof {
        assert(v@.skip(0) =~= v@);
        text::lemma_first_index(v@, ':');
        if k < v@.len() {
            assert(v@[k as int] == ':');
        }
    }
    k < v.len()
}

impl Address {
    /// An address in the form it is dialed by, an IPv6 one in brackets.
    pub fn text(&self) -> (s: String)
        ensures
            s@ == address_text(self.ip@, self.port),
    {
        if has_colon(self.ip.as_str()) {
            let mut s = "[".to_owned();
            s.append(self.ip.as_str());
            s.append("]:");
            s.append(usize_text(self.port as usize).as_str());
            s
        } else {
            let mut s = self.ip.as_str().to_owned();
            s.append(":");
            s.append(usize_text(self.port as usize).as_str());
            s
        }
    }
}

/// What looking a host up gave: its first address, none, or an error.
pub enum Found {
    Address(String),
    Nothing,
    Failed(String),
}

pub open spec fn unknown_error(framework: Seq<char>) -> Seq<char> {
    "unknown framework "@ + text::debug_text(framework)
}

pub open spec fn resolve_error(ip: Seq<char>, found: Found) -> Option<Seq<char>> {
    match found {
        Found::Address(_) => None,
        Found::Nothing => Some("resolve "@ + bare(ip) + ": no address"@),
        Found::Failed(e) => Some("resolve "@ + bare(ip) + ": "@ + e@),
    }
}

fn unknown_framework(framework: &str) -> (e: String)
    ensures
        e@ == unknown_error(framework@),
{
    let mut e = "unknown framework ".to_owned();
    e.append(debug_string(framework).as_str());
    e
}

fn resolve_failed(ip: &str, why: &str) -> (e: String)
    ensures
        e@ == "resolve "@ + bare(ip@) + ": "@ + why@,
{
    let mut e = "resolve ".to_owned();
    e.append(bare_host(ip).as_str());
    e.append(": ");
    e.append(why);
    e
}

/// The host and the port to look up for a framework's benchmark ports.
pub fn benchmark_target(framework: &str, ip: &str) -> (r: Result<(String, u16), String>)
    ensures
        match r {
            Ok(t) => known(framework@) && t.0@ == bare(ip@) && t.1 == FRAMEWORKS@[row(
                framework@,
            )].1,
            Err(e) => !known(framework@) && e@ == unknown_error(framework@),
        },
{
    match ports(framework) {
        Some(p) => Ok((bare_host(ip), p.0)),
        None => Err(unknown_framework(framework)),
    }
}

/// The UDP addresses the client dials for each of the framework's benchmark
/// ports, at the address that was found once.
pub fn benchmark_addrs(framework: &str, ip: &str, found: Found) -> (r: Result<Vec<Address>, String>)
    ensures
        match r {
            Ok(v) => {
                let f = FRAMEWORKS@[row(framework@)];
                &&& known(framework@)
                &&& v@.len() == f.2 - f.1 + 1
                &&& found matches Found::Address(a) && forall|i: int|
                    0 <= i < v@.len() ==> (#[trigger] v@[i]).ip@ == a@ && v@[i].port == f.1 + i
            },
            Err(e) => if !known(framework@) {
                e@ == unknown_error(framework@)
            } else {
                resolve_error(ip@, found) == Some(e@)
            },
        },
{
    let (min, max): (u16, u16) = match find(framework) {
        Some(i) => (FRAMEWORKS[i].1, FRAMEWORKS[i].2),
        None => {
            return Err(unknown_framework(framework));
        },
    };
    match &found {
        Found::Failed(e) => Err(resolve_failed(ip, e.as_str())),
        Found::Nothing => {
            let e = resolve_failed(ip, "no address");
            proof {
                reveal_strlit(": no address");
                reveal_strlit(": ");
                reveal_strlit("no address");
                assert(": no address"@ =~= ": "@ + "no address"@);
                assert(e@ =~= "resolve "@ + bare(ip@) + ": no address"@);
            }
            Err(e)
        },
        Found::Address(a) => {
            let mut v: Vec<Address> = Vec::new();
            let mut port: u16 = min;
            while port <= max
                invariant
                    min <= port <= max + 1,
                    max < u16::MAX,
                    v@.len() == port - min,
                    forall|i: int|
                        0 <= i < v@.len() ==> (#[trigger] v@[i]).ip@ == a@ && v@[i].port == min + i,
                decreases max + 1 - port,
            {
                v.push(Address { ip: a.as_str().to_owned(), port });
                port += 1;
            }
            Ok(v)
        },
    }
}

/// The host and the port to look up for a framework's control routes.
pub fn control_target(framework: &str, ip: &str) -> (r: Result<(String, u16), String>)
    ensures
        match r {
            Ok(t) => known(framework@) && t.0@ == bare(ip@) && t.1 == FRAMEWORKS@[row(
                framework@,
            )].2 + 1,
            Err(e) => !known(framework@) && e@ == unknown_error(framework@),
        },
{
    match find(framework) {
        Some(i) => Ok((bare_host(ip), FRAMEWORKS[i].2 + 1)),
        None => Err(unknown_framework(framework)),
    }
}

/// Where the framework's control routes - /init, /ps and pprof - are: TCP, on
/// the port after its last benchmark port.
pub fn control_addr(framework: &str, ip: &str, found: Found) -> (r: Result<Address, String>)
    ensures
        match r {
            Ok(a) => {
                &&& known(framework@)
                &&& found matches Found::Address(x) && a.ip@ == x@
                &&& a.port == FRAMEWORKS@[row(framework@)].2 + 1
            },
            Err(e) => if !known(framework@) {
                e@ == unknown_error(framework@)
            } else {
                resolve_error(ip@, found) == Some(e@)
            },
        },
{
    let max: u16 = match find(framework) {
        Some(i) => FRAMEWORKS[i].2,
        None => {
            return Err(unknown_framework(framework));
        },
    };
    match &found {
        Found::Failed(e) => Err(resolve_failed(ip, e.as_str())),
        Found::Nothing => {
            let e = resolve_failed(ip, "no address");
            proof {
                reveal_strlit(": no address");
                reveal_strlit(": ");
                reveal_strlit("no address");
                assert(": no address"@ =~= ": "@ + "no address"@);
                assert(e@ =~= "resolve "@ + bare(ip@) + ": no address"@);
            }
            Err(e)
        },
        Found::Address(a) => Ok(Address { ip: a.as_str().to_owned(), port: max + 1 }),
    }
}

pub open spec fn authority_text(ip: Seq<char>) -> Seq<char> {
    if ip.contains(':') && !(ip.len() > 0 && ip[0] == '[') {
        "["@ + ip + "]"@
    } else {
        ip
    }
}

/// The :authority the client sends, for a server reached as ip: an IPv6
/// address in brackets, as it would be in a URL.
pub fn authority(ip: &str) -> (s: String)
    ensures
        s@ == authority_text(ip@),
{
    let v = chars_of(ip);
    let bracket: bool = v.len() > 0 && v[0] == '[';
    if has_colon(ip) && !bracket {
        let mut s = "[".to_owned();
        s.append(ip);
        s.append("]");
        s
    } else {
        ip.to_owned()
    }
}

/// What trying an address out showed.
pub struct Probe {
    pub loopback: bool,
    pub unspecified: bool,
    /// Whether a socket can bind to it, which it can to an address that one of
    /// this machine's interfaces carries.
    pub bindable: bool,
}

pub open spec fn is_here(p: Probe) -> bool {
    p.loopback || p.unspecified || p.bindable
}

/// Whether a host the client dials is this machine: loopback, unspecified,
/// or an address one of this machine's interfaces carries, which is the one
/// kind of address a socket can bind to. `found` are the host's addresses, if
/// it has any that could be looked up.
pub fn is_local_host(ip: &str, found: &Option<Vec<Probe>>) -> (r: bool)
    ensures
        r == (bare(ip@).len() > 0 && (found matches Some(v) && exists|i: int|
            0 <= i < v@.len() && is_here(#[trigger] v@[i]))),
{
    let host = bare_host(ip);
    if chars_of(host.as_str()).len() == 0 {
        return false;
    }
    match found {
        None => false,
        Some(v) => {
            let mut here = false;
            let mut i: usize = 0;
            while i < v.len()
                invariant
                    i <= v@.len(),
                    here == exists|k: int| 0 <= k < i && is_here(#[trigger] v@[k]),
                decreases v@.len() - i,
            {
                if v[i].loopback || v[i].unspecified || v[i].bindable {
                    assert(is_here(v@[i as int]));
                    here = true;
                }
                i += 1;
            }
            here
        },
    }
}

// ---------------------------------------------------------------------------
// What that comes to.

/// Every framework has fifty benchmark ports.
pub proof fn fifty_ports_each(i: int)
    requires
        0 <= i < 4,
    ensures
        FRAMEWORKS@[i].2 - FRAMEWORKS@[i].1 + 1 == 50,
{
}

proof fn lemma_tail_len(s: Seq<char>, c: char)
    requires
        s.len() > 0 ==> s.last() != c,
    ensures
        tail_len(s, c) == 0,
        tail_len(s.push(c), c) == 1,
{
    assert(s.push(c).drop_last() =~= s);
    reveal_with_fuel(tail_len, 2);
}

/// A host is looked up without the brackets around it, and as it is where it has
/// none.
pub proof fn brackets_are_taken_off(host: Seq<char>)
    requires
        host.len() > 0,
        host[0] != '[',
        host.last() != ']',
    ensures
        bare(host) == host,
        bare(seq!['['] + host + seq![']']) == host,
{
    reveal_with_fuel(text::lead_len, 3);
    lemma_tail_len(host, ']');
    assert(text::trim_lead(host, '[') =~= host);
    assert(bare(host) =~= host);
    let s = seq!['['] + host + seq![']'];
    assert(s.skip(1) =~= host.push(']'));
    assert(text::trim_lead(s, '[') =~= host.push(']'));
    assert(bare(s) =~= host);
}

/// An address is written with its port in decimal behind a colon, and in brackets
/// exactly if it has colons itself; the authority is written so without a port, and
/// one that is in brackets already stays as it is.
pub proof fn only_addresses_with_colons_are_in_brackets(ip: Seq<char>, port: u16)
    ensures
        !ip.contains(':') ==> address_text(ip, port) == ip + seq![':'] + text::decimal(port as nat),
        ip.contains(':') ==> address_text(ip, port) == seq!['['] + ip + seq![']', ':']
            + text::decimal(port as nat),
        !ip.contains(':') ==> authority_text(ip) == ip,
        ip.contains(':') && ip[0] != '[' ==> authority_text(ip) == seq!['['] + ip + seq![']'],
        authority_text(authority_text(ip)) == authority_text(ip),
{
    reveal_strlit("[");
    reveal_strlit("]:");
    reveal_strlit("]");
    reveal_strlit(":");
    assert("["@ =~= seq!['[']);
    assert("]"@ =~= seq![']']);
    assert(":"@ =~= seq![':']);
    assert("]:"@ =~= seq![']', ':']);
    if ip.contains(':') && ip[0] != '[' {
        assert(authority_text(ip)[0] == '[');
    }
}

/// Why an address is not found is told with the host that was looked up.
pub proof fn a_failed_lookup_names_its_host(ip: Seq<char>, e: String)
    ensures
        resolve_error(ip, Found::Nothing) == Some("resolve "@ + bare(ip) + ": no address"@),
        resolve_error(ip, Found::Failed(e)) == Some("resolve "@ + bare(ip) + ": "@ + e@),
        resolve_error(ip, Found::Address(e)) is None,
{
}

/// An address is this machine's if it is loopback, unspecified, or one that a socket
/// can bind to, and only then.
pub proof fn any_of_three_is_here(p: Probe)
    ensures
        p.loopback ==> is_here(p),
        p.unspecified ==> is_here(p),
        p.bindable ==> is_here(p),
        is_here(p) ==> p.loopback || p.unspecified || p.bindable,
{
}

} // verus!
