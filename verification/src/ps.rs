//! Where a report's CPU and MEM columns come from.
//!
//! The server is sampled from this machine when it runs here: the process is
//! found by the name it was built under, <framework>.server, and its CPU time
//! and resident memory are read straight from the operating system. Nothing is
//! asked of the server, so nothing fails because it is busy. A server on another
//! machine samples itself: /init starts that on its control port and answers
//! with its pid, and /ps answers with the samples.
//!
//! Each benchmark reads only the samples taken while it ran.

use std::time::Duration;
use vstd::prelude::*;

use crate::clock;
use crate::config;
use crate::config::Address;
use crate::engine::conn;
use crate::engine::conn::lossy_string;
use crate::procstat;
use crate::procstat::rest_of;
use crate::text;
use crate::text::{debug_string, i64_text, same, u128_text, usize_text};
use crate::words;
use crate::words::trim_text;

verus! {

pub const MODE_AUTO: &'static str = "auto";

pub const MODE_LOCAL: &'static str = "local";

pub const MODE_REMOTE: &'static str = "remote";

pub open spec fn is_mode(mode: Seq<char>) -> bool {
    mode == MODE_AUTO@ || mode == MODE_LOCAL@ || mode == MODE_REMOTE@
}

pub open spec fn mode_error(mode: Seq<char>) -> Seq<char> {
    "unsupported -ps value "@ + text::debug_text(mode) + " (want auto, local or remote)"@
}

pub fn validate_mode(mode: &str) -> (r: Result<(), String>)
    ensures
        match r {
            Ok(_) => is_mode(mode@),
            Err(e) => !is_mode(mode@) && e@ == mode_error(mode@),
        },
{
    if same(mode, MODE_AUTO) || same(mode, MODE_LOCAL) || same(mode, MODE_REMOTE) {
        return Ok(());
    }
    let mut e = "unsupported -ps value ".to_owned();
    e.append(debug_string(mode).as_str());
    e.append(" (want auto, local or remote)");
    Err(e)
}

// ---------------------------------------------------------------------------
// Statistics.

/// Where a double's bits stand among all doubles, from the least to the
/// greatest, with zero at zero. Bits that are no number have no place.
pub open spec fn rank(bits: u64) -> Option<int> {
    let magnitude: int = if bits >= 0x8000_0000_0000_0000 {
        bits - 0x8000_0000_0000_0000
    } else {
        bits as int
    };
    if magnitude > 0x7ff0_0000_0000_0000 {
        None
    } else if bits >= 0x8000_0000_0000_0000 {
        Some(-magnitude)
    } else {
        Some(magnitude)
    }
}

/// The bits of the largest finite double.
pub const LARGEST: u64 = 0x7fef_ffff_ffff_ffff;

fn rank_of(bits: u64) -> (r: Option<i64>)
    ensures
        r is Some == rank(bits) is Some,
        r matches Some(k) ==> rank(bits) == Some(k as int),
{
    let negative: bool = bits >= 0x8000_0000_0000_0000;
    let magnitude: u64 = if negative {
        bits - 0x8000_0000_0000_0000
    } else {
        bits
    };
    if magnitude > 0x7ff0_0000_0000_0000 {
        None
    } else if negative {
        Some(-(magnitude as i64))
    } else {
        Some(magnitude as i64)
    }
}

/// The samples of a process: the bits of each CPU percent, a double, and the
/// resident memory in bytes.
pub struct PsSamples {
    pub cpu: Vec<u64>,
    pub rss: Vec<u64>,
}

/// What samples come to. The CPU columns are the bits of doubles.
#[derive(Clone, Copy)]
pub struct PsStats {
    pub cpu_min: u64,
    pub cpu_max: u64,
    /// The samples from here on are the ones that are averaged.
    pub cpu_from: usize,
    pub mem_min: u64,
    pub mem_avg: u64,
    pub mem_max: u64,
}

/// Whether bits are the least of some doubles, those that are no number apart,
/// or of the largest finite one.
pub open spec fn is_least(m: u64, s: Seq<u64>) -> bool {
    &&& rank(m) matches Some(r) && r <= LARGEST && forall|i: int|
        0 <= i < s.len() ==> (rank(#[trigger] s[i]) matches Some(k) ==> r <= k)
    &&& m == LARGEST || s.contains(m)
}

/// Whether bits are the greatest of zero and some doubles, those that are no
/// number apart.
pub open spec fn is_greatest(m: u64, s: Seq<u64>) -> bool {
    &&& rank(m) matches Some(r) && r >= 0 && forall|i: int|
        0 <= i < s.len() ==> (rank(#[trigger] s[i]) matches Some(k) ==> k <= r)
    &&& m == 0 || s.contains(m)
}

/// How many of some numbers are below one.
pub open spec fn below(s: Seq<u64>, m: int) -> nat
    decreases s.len(),
{
    if s.len() == 0 {
        0
    } else {
        below(s.drop_last(), m) + (if s.last() < m {
            1nat
        } else {
            0nat
        })
    }
}

/// Whether a number is the second smallest of some, counting equal ones each.
pub open spec fn is_second(m: u64, s: Seq<u64>) -> bool {
    below(s, m as int) <= 1 && below(s, m + 1) >= 2
}

pub open spec fn total(s: Seq<u64>) -> nat
    decreases s.len(),
{
    if s.len() == 0 {
        0
    } else {
        total(s.drop_last()) + s.last() as nat
    }
}

pub open spec fn is_largest(m: u64, s: Seq<u64>) -> bool {
    s.contains(m) && forall|i: int| 0 <= i < s.len() ==> #[trigger] s[i] <= m
}

/// Whether the CPU columns are those of the samples. The first sample is left
/// out of the minimum and the average: it covers the interval in which sampling
/// started rather than one the benchmark filled.
pub open spec fn cpu_columns(p: PsStats, cpu: Seq<u64>) -> bool {
    if cpu.len() == 0 {
        p.cpu_min == 0 && p.cpu_max == 0 && p.cpu_from == 0
    } else if cpu.len() == 1 {
        p.cpu_min == cpu[0] && p.cpu_max == cpu[0] && p.cpu_from == 0
    } else {
        is_least(p.cpu_min, cpu.skip(1)) && is_greatest(p.cpu_max, cpu) && p.cpu_from == 1
    }
}

/// Whether the memory columns are those of the samples: the minimum is the
/// second smallest sample, and the average leaves the first out.
pub open spec fn mem_columns(p: PsStats, rss: Seq<u64>) -> bool {
    if rss.len() == 0 {
        p.mem_min == 0 && p.mem_avg == 0 && p.mem_max == 0
    } else if rss.len() == 1 {
        p.mem_min == rss[0] && p.mem_avg == rss[0] && p.mem_max == rss[0]
    } else {
        &&& is_second(p.mem_min, rss)
        &&& p.mem_avg == total(rss.skip(1)) / (rss.len() - 1) as nat
        &&& is_largest(p.mem_max, rss)
    }
}

proof fn lemma_below_mono(s: Seq<u64>, a: int, b: int)
    requires
        a <= b,
    ensures
        below(s, a) <= below(s, b),
    decreases s.len(),
{
    if s.len() > 0 {
        lemma_below_mono(s.drop_last(), a, b);
    }
}

/// There is no other second smallest number of some than the one.
pub proof fn one_is_the_second_smallest(s: Seq<u64>, a: u64, b: u64)
    requires
        is_second(a, s),
        is_second(b, s),
    ensures
        a == b,
{
    if a < b {
        lemma_below_mono(s, a + 1, b as int);
    } else if b < a {
        lemma_below_mono(s, b + 1, a as int);
    }
}

proof fn lemma_total_mono(s: Seq<u64>, k: int)
    requires
        0 <= k <= s.len(),
    ensures
        total(s.take(k)) <= total(s),
    decreases s.len() - k,
{
    if k == s.len() {
        assert(s.take(k) =~= s);
    } else {
        lemma_total_mono(s, k + 1);
        assert(s.take(k + 1).drop_last() =~= s.take(k));
    }
}

fn least(cpu: &[u64], from: usize) -> (m: u64)
    requires
        from <= cpu@.len(),
    ensures
        is_least(m, cpu@.skip(from as int)),
{
    let ghost all = cpu@.skip(from as int);
    let mut m: u64 = LARGEST;
    let mut r: i64 = LARGEST as i64;
    let mut i: usize = from;
    while i < cpu.len()
        invariant
            from <= i <= cpu@.len(),
            all == cpu@.skip(from as int),
            rank(m) == Some(r as int),
            r <= LARGEST,
            forall|k: int|
                0 <= k < i - from ==> (rank(#[trigger] all[k]) matches Some(x) ==> r <= x),
            m == LARGEST || all.contains(m),
        decreases cpu@.len() - i,
    {
        assert(all[i - from] == cpu@[i as int]);
        match rank_of(cpu[i]) {
            Some(k) => {
                if k < r {
                    m = cpu[i];
                    r = k;
                }
            },
            None => {},
        }
        i += 1;
    }
    m
}

fn greatest(cpu: &[u64]) -> (m: u64)
    ensures
        is_greatest(m, cpu@),
{
    let mut m: u64 = 0;
    let mut r: i64 = 0;
    let mut i: usize = 0;
    while i < cpu.len()
        invariant
            i <= cpu@.len(),
            rank(m) == Some(r as int),
            r >= 0,
            forall|k: int| 0 <= k < i ==> (rank(#[trigger] cpu@[k]) matches Some(x) ==> x <= r),
            m == 0 || cpu@.contains(m),
        decreases cpu@.len() - i,
    {
        match rank_of(cpu[i]) {
            Some(k) => {
                if k > r {
                    m = cpu[i];
                    r = k;
                }
            },
            None => {},
        }
        i += 1;
    }
    m
}

fn second_smallest(rss: &[u64]) -> (m: u64)
    requires
        rss@.len() >= 2,
    ensures
        is_second(m, rss@),
{
    let mut low: u64 = rss[0];
    let mut next: u64 = rss[1];
    if next < low {
        low = rss[1];
        next = rss[0];
    }
    let mut i: usize = 2;
    proof {
        reveal_with_fuel(below, 3);
        let t = rss@.take(2);
        assert(t.drop_last().drop_last() =~= Seq::<u64>::empty());
        assert(t.last() == rss@[1]);
        assert(t.drop_last().last() == rss@[0]);
        assert(is_second(next, t));
        assert(below(t, low as int) == 0 && below(t, low + 1) >= 1);
    }
    while i < rss.len()
        invariant
            2 <= i <= rss@.len(),
            low <= next,
            below(rss@.take(i as int), low as int) == 0,
            below(rss@.take(i as int), low + 1) >= 1,
            is_second(next, rss@.take(i as int)),
        decreases rss@.len() - i,
    {
        let x: u64 = rss[i];
        let ghost t = rss@.take(i as int);
        proof {
            assert(rss@.take(i + 1).drop_last() =~= t);
            assert(rss@.take(i + 1).last() == x);
            if x < low {
                lemma_below_mono(t, x as int, low as int);
            } else if x < next {
                lemma_below_mono(t, x as int, next as int);
                lemma_below_mono(t, low + 1, x + 1);
            }
        }
        if x < low {
            next = low;
            low = x;
        } else if x < next {
            next = x;
        }
        i += 1;
    }
    assert(rss@.take(i as int) =~= rss@);
    next
}

fn largest(rss: &[u64]) -> (m: u64)
    requires
        rss@.len() > 0,
    ensures
        is_largest(m, rss@),
{
    let mut m: u64 = rss[0];
    let mut i: usize = 1;
    while i < rss.len()
        invariant
            1 <= i <= rss@.len(),
            rss@.contains(m),
            forall|k: int| 0 <= k < i ==> #[trigger] rss@[k] <= m,
        decreases rss@.len() - i,
    {
        if rss[i] > m {
            m = rss[i];
        }
        i += 1;
    }
    m
}

fn average(rss: &[u64]) -> (m: u64)
    requires
        rss@.len() >= 2,
        total(rss@.skip(1)) <= u64::MAX,
    ensures
        m == total(rss@.skip(1)) / (rss@.len() - 1) as nat,
{
    let ghost all = rss@.skip(1);
    let mut sum: u64 = 0;
    let mut i: usize = 1;
    assert(all.take(0) =~= Seq::empty());
    while i < rss.len()
        invariant
            1 <= i <= rss@.len(),
            all == rss@.skip(1),
            total(all) <= u64::MAX,
            sum == total(all.take(i - 1)),
        decreases rss@.len() - i,
    {
        proof {
            assert(all.take(i as int).drop_last() =~= all.take(i - 1));
            assert(all.take(i as int).last() == rss@[i as int]);
            lemma_total_mono(all, i as int);
        }
        sum += rss[i];
        i += 1;
    }
    assert(all.take(i - 1) =~= all);
    sum / (rss.len() as u64 - 1)
}

/// The statistics of a process' samples, but for the average of the CPU ones,
/// which is that of the samples from `cpu_from` on.
pub fn stats(cpu: &[u64], rss: &[u64]) -> (p: PsStats)
    requires
        rss@.len() > 0 ==> total(rss@.skip(1)) <= u64::MAX,
    ensures
        cpu_columns(p, cpu@),
        mem_columns(p, rss@),
{
    let mut p = PsStats {
        cpu_min: 0,
        cpu_max: 0,
        cpu_from: 0,
        mem_min: 0,
        mem_avg: 0,
        mem_max: 0,
    };
    if cpu.len() == 1 {
        p.cpu_min = cpu[0];
        p.cpu_max = cpu[0];
    } else if cpu.len() > 1 {
        p.cpu_min = least(cpu, 1);
        p.cpu_max = greatest(cpu);
        p.cpu_from = 1;
    }
    if rss.len() == 1 {
        p.mem_min = rss[0];
        p.mem_avg = rss[0];
        p.mem_max = rss[0];
    } else if rss.len() > 1 {
        p.mem_min = second_smallest(rss);
        p.mem_avg = average(rss);
        p.mem_max = largest(rss);
    }
    p
}

/// The memory columns are in order, and none lies outside what was sampled.
pub proof fn memory_is_in_order(p: PsStats, rss: Seq<u64>)
    requires
        mem_columns(p, rss),
        rss.len() > 0,
    ensures
        p.mem_min <= p.mem_max,
        p.mem_avg <= p.mem_max,
        rss.contains(p.mem_min),
        rss.contains(p.mem_max),
{
    if rss.len() == 1 {
        assert(rss.contains(rss[0]));
    } else {
        lemma_second_is_in(rss, p.mem_min);
        let k = choose|k: int| 0 <= k < rss.len() && rss[k] == p.mem_min;
        assert(rss[k] <= p.mem_max);
        let rest = rss.skip(1);
        assert forall|i: int| 0 <= i < rest.len() implies #[trigger] rest[i] <= p.mem_max by {
            assert(rest[i] == rss[i + 1]);
        }
        lemma_total_bound(rest, p.mem_max as nat);
        let n: int = rest.len() as int;
        assert(n * p.mem_max / n == p.mem_max) by (nonlinear_arith)
            requires
                n > 0,
        ;
        vstd::arithmetic::div_mod::lemma_div_is_ordered(
            total(rest) as int,
            n * p.mem_max,
            n,
        );
    }
}

proof fn lemma_total_bound(s: Seq<u64>, m: nat)
    requires
        forall|i: int| 0 <= i < s.len() ==> #[trigger] s[i] <= m,
    ensures
        total(s) <= s.len() * m,
    decreases s.len(),
{
    if s.len() > 0 {
        let t = s.drop_last();
        assert forall|i: int| 0 <= i < t.len() implies #[trigger] t[i] <= m by {
            assert(s[i] == t[i]);
        }
        lemma_total_bound(t, m);
        assert(s[s.len() - 1] <= m);
        assert(s.len() * m == t.len() * m + m) by (nonlinear_arith)
            requires
                s.len() == t.len() + 1,
        ;
    }
}

proof fn lemma_second_is_in(s: Seq<u64>, m: u64)
    requires
        below(s, m + 1) > below(s, m as int),
    ensures
        s.contains(m),
    decreases s.len(),
{
    if s.len() > 0 {
        if s.last() == m {
            assert(s[s.len() - 1] == m);
        } else {
            lemma_second_is_in(s.drop_last(), m);
            let k = choose|k: int| 0 <= k < s.len() - 1 && s.drop_last()[k] == m;
            assert(s[k] == m);
        }
    }
}

/// The least CPU sample that counts is no greater than the greatest.
pub proof fn processor_is_in_order(p: PsStats, cpu: Seq<u64>)
    requires
        cpu_columns(p, cpu),
        cpu.len() > 1,
        rank(cpu[1]) is Some,
    ensures
        rank(p.cpu_min)->0 <= rank(p.cpu_max)->0,
{
    let rest = cpu.skip(1);
    assert(rest[0] == cpu[1]);
}

// ---------------------------------------------------------------------------
// The server's own sampling, read over its control port.

pub open spec fn init_body_text(interval: nat) -> Seq<char> {
    "{\"PsInterval\":"@ + text::decimal(interval) + "}"@
}

/// The body of /init, which starts the server sampling itself.
pub fn init_body(interval: Duration) -> (s: String)
    ensures
        s@ == init_body_text(clock::duration_nanos(interval)),
{
    let mut s = "{\"PsInterval\":".to_owned();
    s.append(u128_text(interval.as_nanos()).as_str());
    s.append("}");
    s
}

/// What `str::parse::<i32>` says is wrong with a text.
pub uninterp spec fn number_problem(s: Seq<char>) -> Seq<char>;

/// `str::parse::<i32>` reads an optional sign and digits that an `i32` holds,
/// and refuses every other text. The words it refuses a text with are a function
/// of the text alone; which they are is not said here.
#[verifier::external_body]
fn read_number(s: &str) -> (r: Result<i32, String>)
    ensures
        match r {
            Ok(n) => text::signed_number(s@, i32::MIN as int, i32::MAX as int) == Some(n as int),
            Err(e) => {
                &&& text::signed_number(s@, i32::MIN as int, i32::MAX as int) is None
                &&& e@ == number_problem(s@)
            },
        },
{
    s.parse::<i32>().map_err(|e| e.to_string())
}

pub open spec fn init_error(addr: Seq<char>, answer: Seq<char>) -> Seq<char> {
    "http://"@ + addr + "/init answered "@ + text::debug_text(answer) + ": "@ + number_problem(
        words::trimmed(answer),
    )
}

/// The pid that /init answered with.
pub fn init_pid(addr: &str, resp: &Vec<u8>) -> (r: Result<i32, String>)
    ensures
        match r {
            Ok(pid) => procstat::pid_of(words::trimmed(conn::lossy(resp@))) == Some(pid),
            Err(e) => {
                &&& procstat::pid_of(words::trimmed(conn::lossy(resp@))) is None
                &&& e@ == init_error(addr@, conn::lossy(resp@))
            },
        },
{
    let answer = lossy_string(resp);
    match read_number(trim_text(answer.as_str()).as_str()) {
        Ok(pid) => Ok(pid),
        Err(why) => {
            let mut e = "http://".to_owned();
            e.append(addr);
            e.append("/init answered ");
            e.append(debug_string(answer.as_str()).as_str());
            e.append(": ");
            e.append(why.as_str());
            Err(e)
        },
    }
}

/// The pid that a server answers /init with is the one the client reads.
pub proof fn a_pid_reads_back(pid: i32)
    ensures
        procstat::pid_of(
            words::trimmed(
                conn::lossy(vstd::utf8::encode_utf8(text::signed_decimal(pid as int))),
            ),
        ) == Some(pid),
{
    let s = text::signed_decimal(pid as int);
    vstd::utf8::encode_utf8_valid_utf8(s);
    vstd::utf8::encode_utf8_decode_utf8(s);
    let n: nat = (if pid < 0 {
        -pid
    } else {
        pid as int
    }) as nat;
    text::lemma_decimal_digits(n);
    assert(text::is_digit(text::decimal(n)[0]));
    assert(text::is_digit(text::decimal(n).last()));
    assert(s.last() == text::decimal(n).last());
    words::trims_to(Seq::empty(), s, Seq::empty());
    assert(Seq::<char>::empty() + s + Seq::<char>::empty() =~= s);
    text::signed_decimal_reads_back(pid as int, i32::MIN as int, i32::MAX as int);
}

/// What the JSON of /ps holds.
pub struct PsBody {
    pub cpu: Option<Vec<u64>>,
    pub mem: Option<Vec<u64>>,
}

pub open spec fn or_none(v: Option<Vec<u64>>) -> Seq<u64> {
    match v {
        Some(x) => x@,
        None => Seq::empty(),
    }
}

/// The samples that /ps answered with, or what is wrong with its answer.
pub fn samples(addr: &str, body: Result<PsBody, String>) -> (r: Result<PsSamples, String>)
    ensures
        match r {
            Ok(s) => body matches Ok(b) && s.cpu@ == or_none(b.cpu) && s.rss@ == or_none(b.mem),
            Err(e) => body matches Err(why) && e@ == "http://"@ + addr@ + "/ps: "@ + why@,
        },
{
    match body {
        Ok(b) => Ok(
            PsSamples {
                cpu: match b.cpu {
                    Some(v) => v,
                    None => Vec::new(),
                },
                rss: match b.mem {
                    Some(v) => v,
                    None => Vec::new(),
                },
            },
        ),
        Err(why) => {
            let mut e = "http://".to_owned();
            e.append(addr);
            e.append("/ps: ");
            e.append(why.as_str());
            Err(e)
        },
    }
}

// ---------------------------------------------------------------------------
// Sampling from this machine.

/// The name a framework's server is built under.
pub open spec fn server_name(framework: Seq<char>) -> Seq<char> {
    framework + ".server"@
}

fn server_name_of(framework: &str) -> (s: String)
    ensures
        s@ == server_name(framework@),
{
    let mut s = framework.to_owned();
    s.append(".server");
    s
}

/// Numbers one after another, with commas between.
pub open spec fn listed(pids: Seq<i32>) -> Seq<char>
    decreases pids.len(),
{
    if pids.len() == 0 {
        Seq::empty()
    } else if pids.len() == 1 {
        text::signed_decimal(pids[0] as int)
    } else {
        listed(pids.drop_last()) + ", "@ + text::signed_decimal(pids.last() as int)
    }
}

fn list_text(pids: &Vec<i32>) -> (s: String)
    ensures
        s@ == listed(pids@),
{
    let mut s = String::new();
    let mut i: usize = 0;
    assert(pids@.take(0) =~= Seq::empty());
    while i < pids.len()
        invariant
            i <= pids@.len(),
            s@ == listed(pids@.take(i as int)),
        decreases pids@.len() - i,
    {
        proof {
            assert(pids@.take(i + 1).drop_last() =~= pids@.take(i as int));
            assert(pids@.take(i + 1).last() == pids@[i as int]);
            reveal_strlit("");
        }
        if i > 0 {
            s.append(", ");
        }
        s.append(i64_text(pids[i] as i64).as_str());
        proof {
            if i == 0 {
                assert(s@ =~= text::signed_decimal(pids@[0] as int));
            }
        }
        i += 1;
    }
    assert(pids@.take(i as int) =~= pids@);
    s
}

pub open spec fn process_error(framework: Seq<char>, pids: Seq<i32>) -> Seq<char> {
    if pids.len() == 0 {
        "no "@ + server_name(framework) + " process on this machine"@
    } else {
        text::decimal(pids.len()) + " "@ + server_name(framework) + " processes on this machine (["@
            + listed(pids)
            + "]): stop the leftovers of earlier runs, e.g. with script/killall.sh"@
    }
}

/// The pid of the framework's server on this machine, among the processes of
/// the name it was built under. Two of them is an error rather than a guess - a
/// leftover from an earlier run - and so is none, which is what a server on
/// another machine or in another container looks like from here.
pub fn find_server_process(framework: &str, named: Result<Vec<i32>, String>) -> (r: Result<
    i32,
    String,
>)
    ensures
        match r {
            Ok(pid) => named matches Ok(v) && v@ == seq![pid],
            Err(e) => match named {
                Ok(v) => v@.len() != 1 && e@ == process_error(framework@, v@),
                Err(why) => e@ == why@,
            },
        },
{
    let pids = match named {
        Ok(v) => v,
        Err(e) => {
            return Err(e);
        },
    };
    if pids.len() == 1 {
        assert(pids@ =~= seq![pids@[0]]);
        return Ok(pids[0]);
    }
    let name = server_name_of(framework);
    if pids.len() == 0 {
        let mut e = "no ".to_owned();
        e.append(name.as_str());
        e.append(" process on this machine");
        return Err(e);
    }
    let mut e = usize_text(pids.len());
    e.append(" ");
    e.append(name.as_str());
    e.append(" processes on this machine ([");
    e.append(list_text(&pids).as_str());
    e.append("]): stop the leftovers of earlier runs, e.g. with script/killall.sh");
    Err(e)
}

// ---------------------------------------------------------------------------

/// Where a run reads the server's samples from, set up once after the
/// connections are up and shared by the benchmarks that follow.
pub enum PsSource {
    /// From this machine, and from the control port where that has nothing.
    Local { pid: i32, fallback: Option<Address> },
    Remote(Address),
}

/// How many samples there were when a benchmark started, so that its report
/// reads only the ones taken while it ran: those of the source itself, and those
/// of the server where it is asked when the source has nothing.
#[derive(Clone, Copy)]
pub struct Mark {
    pub cpu: usize,
    pub mem: usize,
    pub server_cpu: usize,
    pub server_mem: usize,
}

impl Default for Mark {
    fn default() -> (m: Self)
        ensures
            m == marked(0, 0, 0, 0),
    {
        Mark { cpu: 0, mem: 0, server_cpu: 0, server_mem: 0 }
    }
}

pub open spec fn marked(cpu: usize, mem: usize, server_cpu: usize, server_mem: usize) -> Mark {
    Mark { cpu, mem, server_cpu, server_mem }
}

pub open spec fn source_text(s: PsSource) -> Seq<char> {
    match s {
        PsSource::Local { pid, fallback } => "sampled here, from pid "@ + text::signed_decimal(
            pid as int,
        ) + (if fallback is Some {
            ", with the server's own /ps as the fallback"@
        } else {
            Seq::empty()
        }),
        PsSource::Remote(a) => "sampled by the server, read from "@ + config::address_text(
            a.ip@,
            a.port,
        ) + " over /ps"@,
    }
}

/// How many samples a server answered with. One that could not be asked may have
/// any number of them, so the mark is past them all: what cannot be told from an
/// earlier benchmark's is not read.
pub open spec fn read_mark(read: Result<PsSamples, String>) -> (usize, usize) {
    match read {
        Ok(s) => (s.cpu@.len() as usize, s.rss@.len() as usize),
        Err(_) => (usize::MAX, usize::MAX),
    }
}

fn count_read(read: &Result<PsSamples, String>) -> (m: (usize, usize))
    ensures
        m == read_mark(*read),
{
    match read {
        Ok(s) => (s.cpu.len(), s.rss.len()),
        Err(_) => (usize::MAX, usize::MAX),
    }
}

/// How many samples there are, of `here` that were taken here and those that the
/// server answered with, if it is asked.
pub open spec fn mark_at(
    source: PsSource,
    here: (usize, usize),
    read: Result<PsSamples, String>,
) -> Mark {
    let (cpu, mem) = read_mark(read);
    match source {
        PsSource::Local { pid, fallback: Some(_) } => marked(here.0, here.1, cpu, mem),
        PsSource::Local { pid, fallback: None } => marked(here.0, here.1, 0, 0),
        PsSource::Remote(_) => marked(cpu, mem, 0, 0),
    }
}

/// The mark after which the server's samples since a mark come.
pub open spec fn server_mark(source: PsSource, mark: Mark) -> Mark {
    match source {
        PsSource::Local { .. } => marked(mark.server_cpu, mark.server_mem, 0, 0),
        PsSource::Remote(_) => mark,
    }
}

/// Where to read the samples of a benchmark.
pub enum Since {
    /// They are these; the text says what is missing.
    Here(PsSamples, Option<String>),
    /// From that control port, after the mark.
    Ask(Address, Mark),
}

pub open spec fn no_samples(pid: i32) -> Seq<char> {
    "pid "@ + text::signed_decimal(pid as int)
        + ": no CPU samples in this benchmark, so it was shorter than the -pi sampling interval"@
}

fn copy_address(a: &Address) -> (r: Address)
    ensures
        r.ip@ == a.ip@,
        r.port == a.port,
{
    Address { ip: a.ip.as_str().to_owned(), port: a.port }
}

pub open spec fn same_address(a: Address, b: Address) -> bool {
    a.ip@ == b.ip@ && a.port == b.port
}

impl PsSource {
    pub fn describe(&self) -> (s: String)
        ensures
            s@ == source_text(*self),
    {
        match self {
            PsSource::Local { pid, fallback } => {
                let mut s = "sampled here, from pid ".to_owned();
                s.append(i64_text(*pid as i64).as_str());
                if fallback.is_some() {
                    s.append(", with the server's own /ps as the fallback");
                }
                assert(s@ =~= source_text(*self));
                s
            },
            PsSource::Remote(a) => {
                let mut s = "sampled by the server, read from ".to_owned();
                s.append(a.text().as_str());
                s.append(" over /ps");
                s
            },
        }
    }

    /// The control port to ask for the server's own samples, if they count.
    pub fn asks(&self) -> (a: Option<Address>)
        ensures
            match *self {
                PsSource::Local { pid, fallback: Some(b) } => a matches Some(x) && same_address(x, b),
                PsSource::Local { pid, fallback: None } => a is None,
                PsSource::Remote(b) => a matches Some(x) && same_address(x, b),
            },
    {
        match self {
            PsSource::Local { pid: _, fallback } => match fallback {
                Some(b) => Some(copy_address(b)),
                None => None,
            },
            PsSource::Remote(b) => Some(copy_address(b)),
        }
    }

    /// How many samples there are by now: `here` are how many were taken here,
    /// `read` those that the server answered with, if it is asked.
    pub fn mark(&self, here: (usize, usize), read: &Result<PsSamples, String>) -> (m: Mark)
        ensures
            m == mark_at(*self, here, *read),
    {
        let (cpu, mem): (usize, usize) = count_read(read);
        match self {
            PsSource::Local { pid: _, fallback } => if fallback.is_some() {
                Mark { cpu: here.0, mem: here.1, server_cpu: cpu, server_mem: mem }
            } else {
                Mark { cpu: here.0, mem: here.1, server_cpu: 0, server_mem: 0 }
            },
            PsSource::Remote(_) => Mark { cpu, mem, server_cpu: 0, server_mem: 0 },
        }
    }

    /// Where the samples since a mark are to be had. `here` are those that were
    /// taken here since then.
    pub fn stats_since(&self, mark: Mark, here: PsSamples) -> (r: Since)
        ensures
            match *self {
                PsSource::Local { pid, fallback } => if here.cpu@.len() > 0 {
                    r == Since::Here(here, None)
                } else {
                    match fallback {
                        Some(a) => r matches Since::Ask(b, m) && same_address(a, b) && m
                            == server_mark(*self, mark),
                        None => r matches Since::Here(s, Some(e)) && s == here && e@ == no_samples(
                            pid,
                        ),
                    }
                },
                PsSource::Remote(a) => r matches Since::Ask(b, m) && same_address(a, b) && m
                    == server_mark(*self, mark),
            },
    {
        match self {
            PsSource::Local { pid, fallback } => {
                if here.cpu.len() > 0 {
                    return Since::Here(here, None);
                }
                match fallback {
                    Some(a) => Since::Ask(
                        copy_address(a),
                        Mark {
                            cpu: mark.server_cpu,
                            mem: mark.server_mem,
                            server_cpu: 0,
                            server_mem: 0,
                        },
                    ),
                    None => {
                        let mut e = "pid ".to_owned();
                        e.append(i64_text(*pid as i64).as_str());
                        e.append(
                            ": no CPU samples in this benchmark, so it was shorter than the -pi sampling interval",
                        );
                        Since::Here(here, Some(e))
                    },
                }
            },
            PsSource::Remote(a) => Since::Ask(copy_address(a), mark),
        }
    }
}

/// The samples after the first so many of a mark, of all that there are.
pub fn after_mark(all: &PsSamples, mark: Mark) -> (s: PsSamples)
    ensures
        s.cpu@ == procstat::after(all.cpu@, mark.cpu),
        s.rss@ == procstat::after(all.rss@, mark.mem),
{
    PsSamples { cpu: rest_of(&all.cpu, mark.cpu), rss: rest_of(&all.rss, mark.mem) }
}

/// Whether the server is asked for samples.
pub open spec fn asks_server(source: PsSource) -> bool {
    match source {
        PsSource::Local { pid, fallback } => fallback is Some,
        PsSource::Remote(_) => true,
    }
}

/// A benchmark reads of the server's samples only those taken since its mark,
/// all of them, and none where the server could not be asked at the mark,
/// whether it is the source or what the source falls back on.
pub proof fn only_the_samples_of_a_benchmark(
    source: PsSource,
    here: (usize, usize),
    read: Result<PsSamples, String>,
    cpu: Seq<u64>,
    rss: Seq<u64>,
)
    requires
        asks_server(source),
        cpu.len() <= usize::MAX,
        rss.len() <= usize::MAX,
    ensures
        ({
            let m = server_mark(source, mark_at(source, here, read));
            match read {
                Ok(s) => s.cpu@.len() <= usize::MAX && s.rss@.len() <= usize::MAX ==> {
                    &&& procstat::after(s.cpu@ + cpu, m.cpu) == cpu
                    &&& procstat::after(s.rss@ + rss, m.mem) == rss
                },
                Err(_) => procstat::after(cpu, m.cpu).len() == 0 && procstat::after(rss, m.mem).len()
                    == 0,
            }
        }),
{
    match read {
        Ok(s) => {
            if s.cpu@.len() <= usize::MAX && s.rss@.len() <= usize::MAX {
                procstat::only_later_samples(s.cpu@, cpu);
                procstat::only_later_samples(s.rss@, rss);
            }
        },
        Err(_) => {},
    }
}

pub open spec fn no_answer(addr: Seq<char>) -> Seq<char> {
    "http://"@ + addr
        + "/ps answered with no CPU samples, so either /init did not reach it or the benchmark was shorter than the -pi sampling interval"@
}

/// What is wrong with the samples that a server answered with, by the bits of
/// their CPU average.
pub fn remote_problem(addr: &str, average: u64) -> (e: Option<String>)
    ensures
        conn::text_view(e) == (if rank(average) matches Some(k) && k <= 0 {
            Some(no_answer(addr@))
        } else {
            None
        }),
{
    match rank_of(average) {
        Some(k) => {
            if k > 0 {
                return None;
            }
            let mut e = "http://".to_owned();
            e.append(addr);
            e.append(
                "/ps answered with no CPU samples, so either /init did not reach it or the benchmark was shorter than the -pi sampling interval",
            );
            Some(e)
        },
        None => None,
    }
}

// ---------------------------------------------------------------------------
// Deciding on a source.

/// What to do next to set the source up.
pub enum SetupDo {
    /// Find the server among this machine's processes, and start to sample it.
    FindHere,
    /// Ask the server to sample itself.
    Init,
    /// Start to sample the process of that pid.
    StartHere(i32),
    /// The source is there. It is usable whatever happened; the error says what
    /// went wrong on the way.
    Done { source: PsSource, error: Option<String> },
}

/// How a run decides to read the server's CPU and memory.
pub struct Setup {
    framework: String,
    addr: Address,
    local: bool,
}

/// Whether the server is to be sampled from here: always, or if it runs here.
pub open spec fn wants_local(mode: Seq<char>, here: bool) -> bool {
    mode == MODE_LOCAL@ || (mode == MODE_AUTO@ && here)
}

impl Setup {
    pub closed spec fn spec_framework(&self) -> Seq<char> {
        self.framework@
    }

    pub closed spec fn spec_addr(&self) -> Address {
        self.addr
    }

    pub closed spec fn spec_local(&self) -> bool {
        self.local
    }

    /// Begins with the control port's address, if it could be found, and whether
    /// the server's host is this machine.
    pub fn begin(framework: &str, addr: Result<Address, String>, mode: &str, here: bool) -> (r: (
        Setup,
        SetupDo,
    ))
        ensures
            r.0.spec_framework() == framework@,
            match addr {
                Ok(a) => {
                    &&& same_address(r.0.spec_addr(), a)
                    &&& r.0.spec_local() == wants_local(mode@, here)
                    &&& r.1 == (if wants_local(mode@, here) {
                        SetupDo::FindHere
                    } else {
                        SetupDo::Init
                    })
                },
                Err(e) => {
                    &&& r.1 matches SetupDo::Done { source, error: Some(f) }
                    &&& source matches PsSource::Remote(b)
                    &&& b.ip@ == "127.0.0.1"@
                    &&& b.port == 0
                    &&& f@ == e@
                },
            },
    {
        match addr {
            Ok(a) => {
                let local: bool = same(mode, MODE_LOCAL) || (same(mode, MODE_AUTO) && here);
                let next = if local {
                    SetupDo::FindHere
                } else {
                    SetupDo::Init
                };
                (Setup { framework: framework.to_owned(), addr: a, local }, next)
            },
            Err(e) => {
                let nowhere = Address { ip: "127.0.0.1".to_owned(), port: 0 };
                let source = PsSource::Remote(copy_address(&nowhere));
                (
                    Setup { framework: framework.to_owned(), addr: nowhere, local: false },
                    SetupDo::Done { source, error: Some(e) },
                )
            },
        }
    }

    /// The server was found here and is sampled, or not. The text is to be
    /// logged.
    pub fn found_here(&self, started: Result<i32, String>) -> (r: (SetupDo, String))
        ensures
            match started {
                Ok(pid) => {
                    &&& r.0 == (SetupDo::Done {
                        source: PsSource::Local { pid, fallback: None },
                        error: None,
                    })
                    &&& r.1@ == self.spec_framework() + ": "@ + source_text(
                        PsSource::Local { pid, fallback: None },
                    ) + ", so it is not asked to sample itself"@
                },
                Err(e) => {
                    &&& r.0 == SetupDo::Init
                    &&& r.1@ == self.spec_framework()
                        + ": cannot sample the server from this machine, asking it over HTTP instead: "@
                        + e@
                },
            },
    {
        let mut s = self.framework.as_str().to_owned();
        match started {
            Ok(pid) => {
                let source = PsSource::Local { pid, fallback: None };
                s.append(": ");
                s.append(source.describe().as_str());
                s.append(", so it is not asked to sample itself");
                (SetupDo::Done { source, error: None }, s)
            },
            Err(e) => {
                s.append(
                    ": cannot sample the server from this machine, asking it over HTTP instead: ",
                );
                s.append(e.as_str());
                (SetupDo::Init, s)
            },
        }
    }

    /// The server answered /init with its pid, or did not. The pid is from the
    /// server's own namespace, so it names the server here only when the two
    /// share one, which `name`, that of this machine's process of that pid,
    /// shows. Where they do, it is sampled from here as well, and /ps kept for
    /// when that has nothing.
    pub fn initialized(&self, answer: Result<i32, String>, name: &Option<String>) -> (r: SetupDo)
        ensures
            match answer {
                Err(e) => {
                    &&& r matches SetupDo::Done { source: PsSource::Remote(b), error: Some(f) }
                    &&& same_address(b, self.spec_addr())
                    &&& f@ == e@
                },
                Ok(pid) => if self.spec_local() && conn::text_view(*name) == Some(
                    server_name(self.spec_framework()),
                ) {
                    r == SetupDo::StartHere(pid)
                } else {
                    &&& r matches SetupDo::Done { source: PsSource::Remote(b), error: None }
                    &&& same_address(b, self.spec_addr())
                },
            },
    {
        let remote = PsSource::Remote(copy_address(&self.addr));
        match answer {
            Err(e) => SetupDo::Done { source: remote, error: Some(e) },
            Ok(pid) => {
                let named: bool = match name {
                    Some(n) => same(
                        n.as_str(),
                        server_name_of(self.framework.as_str()).as_str(),
                    ),
                    None => false,
                };
                if self.local && named {
                    SetupDo::StartHere(pid)
                } else {
                    SetupDo::Done { source: remote, error: None }
                }
            },
        }
    }

    /// The process of the pid that the server answered with is sampled, or not.
    pub fn started_here(&self, pid: i32, started: bool) -> (r: PsSource)
        ensures
            if started {
                &&& r matches PsSource::Local { pid: p, fallback: Some(b) }
                &&& p == pid
                &&& same_address(b, self.spec_addr())
            } else {
                r matches PsSource::Remote(b) && same_address(b, self.spec_addr())
            },
    {
        let a = copy_address(&self.addr);
        if started {
            PsSource::Local { pid, fallback: Some(a) }
        } else {
            PsSource::Remote(a)
        }
    }

    /// What to log of the source that asking the server came to.
    pub fn note(&self, source: &PsSource) -> (s: String)
        ensures
            s@ == self.spec_framework() + ": "@ + source_text(*source),
    {
        let mut s = self.framework.as_str().to_owned();
        s.append(": ");
        s.append(source.describe().as_str());
        s
    }
}

// ---------------------------------------------------------------------------
// Profiles.

pub const PPROF_HEAP_PATH: &'static str = "/debug/pprof/heap";

/// The route of a CPU profile over that many seconds.
pub fn pprof_cpu_path(seconds: i64) -> (s: String)
    ensures
        s@ == "/debug/pprof/profile?seconds="@ + text::signed_decimal(seconds as int),
{
    let mut s = "/debug/pprof/profile?seconds=".to_owned();
    s.append(i64_text(seconds).as_str());
    s
}

/// How many seconds a profile over that many may take to arrive, in 64 bits.
pub fn pprof_timeout(seconds: i64) -> (t: u64)
    requires
        seconds >= 0 || seconds < -30,
    ensures
        t == (if seconds >= 0 {
            seconds + 30
        } else {
            0x1_0000_0000_0000_0000 + seconds + 30
        }),
{
    if seconds >= 0 {
        seconds as u64 + 30
    } else {
        u64::MAX - ((-31 - seconds) as u64)
    }
}

// ---------------------------------------------------------------------------
// What that comes to.

/// The bits of doubles have the places of the numbers that they are: the larger the bits
/// of a positive one the later it comes, the larger those of a negative one the earlier,
/// the negative ones before the positive, both zeros in one place, and bits that are no
/// number in none.
pub proof fn bits_stand_in_order(a: u64, b: u64)
    ensures
        a <= 0x7ff0_0000_0000_0000 && b <= 0x7ff0_0000_0000_0000 ==> {
            &&& rank(a) is Some && rank(b) is Some
            &&& rank(a)->0 < rank(b)->0 <==> a < b
            &&& rank(a)->0 >= 0
        },
        0x8000_0000_0000_0000 <= a <= 0xfff0_0000_0000_0000 && 0x8000_0000_0000_0000 <= b
            <= 0xfff0_0000_0000_0000 ==> {
            &&& rank(a) is Some && rank(b) is Some
            &&& rank(a)->0 < rank(b)->0 <==> b < a
            &&& rank(a)->0 <= 0
        },
        rank(0) == Some(0int) && rank(0x8000_0000_0000_0000) == Some(0int),
        0x7ff0_0000_0000_0000 < a < 0x8000_0000_0000_0000 ==> rank(a) is None,
        a > 0xfff0_0000_0000_0000 ==> rank(a) is None,
{
}

proof fn lemma_total_is_sum(s: Seq<u64>)
    ensures
        total(s) == s.fold_left(0int, |t: int, x: u64| t + x),
    decreases s.len(),
{
    reveal_with_fuel(Seq::fold_left, 2);
    if s.len() > 0 {
        lemma_total_is_sum(s.drop_last());
    }
}

proof fn lemma_below_is_filter(s: Seq<u64>, m: int)
    ensures
        below(s, m) == s.filter(|x: u64| x < m).len(),
    decreases s.len(),
{
    reveal(Seq::filter);
    if s.len() > 0 {
        lemma_below_is_filter(s.drop_last(), m);
    }
}

/// With two samples or more, the average of the memory is the sum of all but the first,
/// divided by how many those are; its least is the second smallest sample: no more than
/// one is smaller, and two or more are no larger; and its most is a sample that none is
/// above. One sample is all of them, and without any they read nought.
pub proof fn memory_is_of_its_samples(p: PsStats, rss: Seq<u64>)
    requires
        mem_columns(p, rss),
    ensures
        rss.len() >= 2 ==> {
            let sum = rss.skip(1).fold_left(0int, |t: int, x: u64| t + x);
            let n = rss.len() - 1;
            &&& p.mem_avg * n <= sum < (p.mem_avg + 1) * n
            &&& rss.filter(|x: u64| x < p.mem_min).len() <= 1
            &&& rss.filter(|x: u64| x < p.mem_min + 1).len() >= 2
            &&& rss.contains(p.mem_max)
            &&& forall|i: int| 0 <= i < rss.len() ==> #[trigger] rss[i] <= p.mem_max
        },
        rss.len() == 1 ==> p.mem_min == rss[0] && p.mem_avg == rss[0] && p.mem_max == rss[0],
        rss.len() == 0 ==> p.mem_min == 0 && p.mem_avg == 0 && p.mem_max == 0,
{
    if rss.len() >= 2 {
        let sum = total(rss.skip(1)) as int;
        let n = rss.len() - 1;
        let a = p.mem_avg as int;
        lemma_total_is_sum(rss.skip(1));
        assert(a * n <= sum < (a + 1) * n) by (nonlinear_arith)
            requires
                n > 0,
                sum >= 0,
                a == sum / n,
        ;
        let m = p.mem_min as int;
        lemma_below_is_filter(rss, m);
        lemma_below_is_filter(rss, m + 1);
        assert((|x: u64| x < m) =~= |x: u64| x < p.mem_min);
        assert((|x: u64| x < m + 1) =~= |x: u64| x < p.mem_min + 1);
    }
}

/// With two samples or more of which those behind the first are numbers, the least of the
/// processor is one of those that none of them is below, and the most is a sample that
/// none is above, or nought; those behind the first are averaged. One sample is all of
/// them, and without any they read nought.
pub proof fn processor_is_of_its_samples(p: PsStats, cpu: Seq<u64>, i: int)
    requires
        cpu_columns(p, cpu),
        0 <= i < cpu.len(),
        rank(cpu[i]) is Some,
    ensures
        cpu.len() >= 2 ==> {
            &&& p.cpu_from == 1
            &&& i >= 1 ==> rank(p.cpu_min)->0 <= rank(cpu[i])->0
            &&& i >= 1 && rank(cpu[i])->0 < LARGEST ==> cpu.skip(1).contains(p.cpu_min)
            &&& rank(cpu[i])->0 <= rank(p.cpu_max)->0
            &&& rank(cpu[i])->0 > 0 ==> cpu.contains(p.cpu_max)
        },
        cpu.len() == 1 ==> p.cpu_min == cpu[0] && p.cpu_max == cpu[0] && p.cpu_from == 0,
        LARGEST == 0x7fef_ffff_ffff_ffff,
{
    if cpu.len() >= 2 && i >= 1 {
        assert(cpu.skip(1)[i - 1] == cpu[i]);
    }
}

/// There are three modes: the server is sampled here always, never, or if it runs here.
pub proof fn a_mode_says_where_to_sample(mode: Seq<char>, here: bool)
    ensures
        is_mode(mode) <==> mode == "auto"@ || mode == "local"@ || mode == "remote"@,
        wants_local("local"@, here),
        !wants_local("remote"@, here),
        wants_local("auto"@, here) <==> here,
{
    reveal_strlit("auto");
    reveal_strlit("local");
    reveal_strlit("remote");
    assert("auto"@.len() == 4 && "local"@.len() == 5 && "remote"@.len() == 6);
}

/// A server's process is called by its framework, with ".server" behind it, and the
/// numbers of several are listed with commas between.
pub proof fn servers_are_called_by_their_frameworks(framework: Seq<char>, pids: Seq<i32>, pid: i32)
    ensures
        server_name(framework) == framework + ".server"@,
        listed(Seq::empty()) == Seq::<char>::empty(),
        listed(seq![pid]) == text::signed_decimal(pid as int),
        pids.len() > 0 ==> listed(pids.push(pid)) == listed(pids) + ", "@ + text::signed_decimal(
            pid as int,
        ),
        process_error(framework, Seq::empty()) == "no "@ + framework + ".server"@
            + " process on this machine"@,
{
    assert(pids.push(pid).drop_last() =~= pids);
    assert(process_error(framework, Seq::empty()) =~= "no "@ + framework + ".server"@
        + " process on this machine"@);
}

/// A mark has as many samples as there were: those taken here where the server is sampled
/// here, and those it answered with where it is asked.
pub proof fn a_mark_counts_what_was_there(
    pid: i32,
    a: Address,
    here: (usize, usize),
    s: PsSamples,
)
    requires
        s.cpu@.len() <= usize::MAX,
        s.rss@.len() <= usize::MAX,
    ensures
        ({
            let alone = mark_at(PsSource::Local { pid, fallback: None }, here, Ok(s));
            let both = mark_at(PsSource::Local { pid, fallback: Some(a) }, here, Ok(s));
            let there = mark_at(PsSource::Remote(a), here, Ok(s));
            &&& alone.cpu == here.0 && alone.mem == here.1
            &&& both.cpu == here.0 && both.mem == here.1
            &&& both.server_cpu == s.cpu@.len() && both.server_mem == s.rss@.len()
            &&& there.cpu == s.cpu@.len() && there.mem == s.rss@.len()
        }),
{
}

/// An address has one host and one port number: two are the same only if both are.
pub proof fn an_address_is_a_host_and_a_number(a: Address, b: Address)
    ensures
        same_address(a, b) ==> a.ip@ == b.ip@,
        same_address(a, b) ==> a.port == b.port,
        same_address(a, a),
        same_address(a, b) ==> same_address(b, a),
{
}

} // verus!
