//! A process' CPU time and resident memory, out of what the operating system
//! says of it, and the series a sampler keeps of them.

use std::time::Duration;
use vstd::prelude::*;

use crate::clock;
use crate::clock::duration_of;
use crate::engine::conn;
use crate::engine::conn::{lossy_string, Nanos};
use crate::text;
use crate::text::{chars_of, i64_text, parse_i32, parse_u64, same, string_of};
use crate::words;
use crate::words::{split_lines, split_words, trim_text};

verus! {

// ---------------------------------------------------------------------------
// Names.

/// What follows the last `/` of a path.
pub open spec fn base_name(path: Seq<char>) -> Seq<char>
    decreases path.len(),
{
    if path.len() == 0 || path.last() == '/' {
        Seq::empty()
    } else {
        base_name(path.drop_last()).push(path.last())
    }
}

pub fn basename(path: &str) -> (name: String)
    ensures
        name@ == base_name(path@),
{
    let v = chars_of(path);
    let mut from: usize = v.len();
    assert(v@.take(v@.len() as int) =~= v@);
    assert(base_name(v@) =~= base_name(v@) + Seq::empty());
    while from > 0 && v[from - 1] != '/'
        invariant
            from <= v@.len(),
            base_name(v@) == base_name(v@.take(from as int)) + v@.skip(from as int),
        decreases from,
    {
        proof {
            let t = v@.take(from as int);
            assert(t.last() == v@[from - 1]);
            assert(t.drop_last() =~= v@.take(from - 1));
            assert(base_name(t) + v@.skip(from as int) =~= base_name(v@.take(from - 1)) + v@.skip(
                from - 1,
            ));
        }
        from -= 1;
    }
    proof {
        let t = v@.take(from as int);
        if from > 0 {
            assert(t.last() == v@[from - 1]);
        }
        assert(base_name(t) =~= Seq::<char>::empty());
        assert(v@.subrange(from as int, v@.len() as int) =~= v@.skip(from as int));
        assert(base_name(v@) =~= v@.skip(from as int));
    }
    string_of(&v, from, v.len())
}

/// The bytes before the first zero.
pub open spec fn before_zero(b: Seq<u8>) -> Seq<u8>
    decreases b.len(),
{
    if b.len() == 0 || b[0] == 0 {
        Seq::empty()
    } else {
        seq![b[0]] + before_zero(b.skip(1))
    }
}

proof fn lemma_before_zero(b: Seq<u8>, k: int)
    requires
        0 <= k <= b.len(),
        k < b.len() ==> b[k] == 0,
        forall|i: int| 0 <= i < k ==> b[i] != 0,
    ensures
        before_zero(b) == b.take(k),
    decreases b.len(),
{
    if k == 0 {
        assert(b.take(0) =~= Seq::<u8>::empty());
    } else {
        assert forall|i: int| 0 <= i < k - 1 implies b.skip(1)[i] != 0 by {
            assert(b[i + 1] != 0);
        }
        lemma_before_zero(b.skip(1), k - 1);
        assert(b.take(k) =~= seq![b[0]] + b.skip(1).take(k - 1));
    }
}

/// The base name of the program in a command line whose arguments end in zeros,
/// if it names one.
pub open spec fn cmdline_name(b: Seq<u8>) -> Option<Seq<char>> {
    if before_zero(b).len() == 0 {
        None
    } else {
        Some(base_name(conn::lossy(before_zero(b))))
    }
}

pub fn name_of_cmdline(b: &Vec<u8>) -> (r: Option<String>)
    ensures
        conn::text_view(r) == cmdline_name(b@),
{
    let mut argv0: Vec<u8> = Vec::new();
    let mut i: usize = 0;
    while i < b.len() && b[i] != 0
        invariant
            i <= b@.len(),
            argv0@ == b@.take(i as int),
            forall|k: int| 0 <= k < i ==> b@[k] != 0,
        decreases b@.len() - i,
    {
        argv0.push(b[i]);
        i += 1;
        assert(argv0@ =~= b@.take(i as int));
    }
    proof {
        lemma_before_zero(b@, i as int);
    }
    if argv0.len() == 0 {
        return None;
    }
    Some(basename(lossy_string(&argv0).as_str()))
}

/// The base name of the program in what `ps` says of one process, if it says
/// anything.
pub open spec fn comm_name(b: Seq<u8>) -> Option<Seq<char>> {
    let s = words::trimmed(conn::lossy(b));
    if s.len() == 0 {
        None
    } else {
        Some(base_name(s))
    }
}

pub fn name_of_comm(b: &Vec<u8>) -> (r: Option<String>)
    ensures
        conn::text_view(r) == comm_name(b@),
{
    let s = trim_text(lossy_string(b).as_str());
    if chars_of(s.as_str()).len() == 0 {
        return None;
    }
    Some(basename(s.as_str()))
}

/// A process, as a directory listing has it: the entry's name, and the name of
/// the process if there is one.
pub struct Listed {
    pub entry: String,
    pub name: Option<String>,
}

/// The pids among the entries whose process has a name.
pub open spec fn pids_in(list: Seq<Listed>, name: Seq<char>) -> Seq<i32>
    decreases list.len(),
{
    if list.len() == 0 {
        Seq::empty()
    } else {
        let rest = pids_in(list.drop_last(), name);
        let last = list.last();
        match pid_of(last.entry@) {
            Some(pid) => if conn::text_view(last.name) == Some(name) {
                rest.push(pid)
            } else {
                rest
            },
            None => rest,
        }
    }
}

pub open spec fn pid_of(s: Seq<char>) -> Option<i32> {
    match text::signed_number(s, i32::MIN as int, i32::MAX as int) {
        Some(n) => Some(n as i32),
        None => None,
    }
}

/// The pids whose argv[0] has this base name, among the entries of /proc.
pub fn processes_named(list: &Vec<Listed>, name: &str) -> (pids: Vec<i32>)
    ensures
        pids@ == pids_in(list@, name@),
{
    let mut pids: Vec<i32> = Vec::new();
    let mut i: usize = 0;
    assert(list@.take(0) =~= Seq::empty());
    while i < list.len()
        invariant
            i <= list@.len(),
            pids@ == pids_in(list@.take(i as int), name@),
        decreases list@.len() - i,
    {
        proof {
            assert(list@.take(i + 1).drop_last() =~= list@.take(i as int));
            assert(list@.take(i + 1).last() == list@[i as int]);
        }
        let is: bool = match &list[i].name {
            Some(n) => same(n.as_str(), name),
            None => false,
        };
        match parse_i32(list[i].entry.as_str()) {
            Some(pid) => {
                if is {
                    pids.push(pid);
                }
            },
            None => {},
        }
        i += 1;
    }
    assert(list@.take(i as int) =~= list@);
    pids
}

/// The pid on a line of `ps`' listing if the rest of it, which may hold spaces,
/// has the base name.
pub open spec fn line_pid(line: Seq<char>, name: Seq<char>) -> Option<i32> {
    let s = words::trim_start(line);
    let n = words::run(s, false);
    if n < s.len() && base_name(words::trimmed(s.skip(n as int + 1))) == name {
        pid_of(s.take(n as int))
    } else {
        None
    }
}

pub open spec fn pids_on(lines: Seq<Seq<char>>, name: Seq<char>) -> Seq<i32>
    decreases lines.len(),
{
    if lines.len() == 0 {
        Seq::empty()
    } else {
        let rest = pids_on(lines.drop_last(), name);
        match line_pid(lines.last(), name) {
            Some(pid) => rest.push(pid),
            None => rest,
        }
    }
}

fn pid_on_line(line: &str, name: &str) -> (r: Option<i32>)
    ensures
        r == line_pid(line@, name@),
{
    let v = chars_of(line);
    assert(v@.skip(0) =~= v@);
    let from: usize = words::run_from(&v, 0, true);
    let to: usize = words::run_from(&v, from, false);
    let ghost s = v@.skip(from as int);
    let ghost n = to - from;
    assert(words::trim_start(line@) =~= s);
    if to >= v.len() {
        return None;
    }
    let pid = string_of(&v, from, to);
    let comm = trim_text(string_of(&v, to + 1, v.len()).as_str());
    proof {
        assert(v@.subrange(from as int, to as int) =~= s.take(n));
        assert(v@.subrange(to + 1, v@.len() as int) =~= s.skip(n + 1));
    }
    if !same(basename(comm.as_str()).as_str(), name) {
        return None;
    }
    parse_i32(pid.as_str())
}

/// The pids whose program has this base name, in `ps`' listing of every
/// process: its pid, and its path.
pub fn processes_listed(out: &Vec<u8>, name: &str) -> (pids: Vec<i32>)
    ensures
        pids@ == pids_on(words::lines(conn::lossy(out@)), name@),
{
    let list = split_lines(lossy_string(out).as_str());
    let ghost all = text::texts(list@);
    let mut pids: Vec<i32> = Vec::new();
    let mut i: usize = 0;
    assert(all.take(0) =~= Seq::empty());
    while i < list.len()
        invariant
            i <= list@.len(),
            all == text::texts(list@),
            pids@ == pids_on(all.take(i as int), name@),
        decreases list@.len() - i,
    {
        proof {
            assert(all.take(i + 1).drop_last() =~= all.take(i as int));
            assert(all.take(i + 1).last() == list@[i as int]@);
        }
        match pid_on_line(list[i].as_str(), name) {
            Some(pid) => {
                pids.push(pid);
            },
            None => {},
        }
        i += 1;
    }
    assert(all.take(i as int) =~= all);
    pids
}

// ---------------------------------------------------------------------------
// CPU time and resident memory.

/// What an operating system says of a process.
pub enum Reading {
    /// /proc's stat and statm, with what the system says a second has ticks and
    /// a page has bytes.
    Linux {
        stat: Result<String, String>,
        statm: Result<String, String>,
        ticks_per_second: i64,
        page_size: i64,
    },
    /// A task's times, in units of the Mach clock, how many nanoseconds these
    /// are, and its resident size.
    Mach { user: u64, system: u64, numer: u32, denom: u32, resident: u64 },
    /// The process could not be read.
    Failed(String),
    /// The system is none of these.
    Unsupported,
}

/// What follows the last `)` of a text, if it has one.
pub open spec fn after_paren(s: Seq<char>) -> Option<Seq<char>>
    decreases s.len(),
{
    if s.len() == 0 {
        None
    } else if s.last() == ')' {
        Some(Seq::empty())
    } else {
        match after_paren(s.drop_last()) {
            Some(t) => Some(t.push(s.last())),
            None => None,
        }
    }
}

fn behind_paren(s: &str) -> (r: Option<String>)
    ensures
        conn::text_view(r) == after_paren(s@),
{
    let v = chars_of(s);
    let mut k: usize = v.len();
    assert(v@.take(v@.len() as int) =~= v@);
    proof {
        match after_paren(v@) {
            Some(t) => {
                assert(t + v@.skip(v@.len() as int) =~= t);
            },
            None => {},
        }
    }
    while k > 0 && v[k - 1] != ')'
        invariant
            v@ == s@,
            k <= v@.len(),
            after_paren(v@) == (match after_paren(v@.take(k as int)) {
                Some(t) => Some(t + v@.skip(k as int)),
                None => None,
            }),
        decreases k,
    {
        proof {
            let t = v@.take(k as int);
            assert(t.last() == v@[k - 1]);
            assert(t.drop_last() =~= v@.take(k - 1));
            match after_paren(v@.take(k - 1)) {
                Some(u) => {
                    assert(u.push(v@[k - 1]) + v@.skip(k as int) =~= u + v@.skip(k - 1));
                },
                None => {},
            }
        }
        k -= 1;
    }
    if k == 0 {
        return None;
    }
    proof {
        let t = v@.take(k as int);
        assert(t.last() == v@[k - 1]);
        assert(Seq::<char>::empty() + v@.skip(k as int) =~= v@.skip(k as int));
        assert(v@.subrange(k as int, v@.len() as int) =~= v@.skip(k as int));
    }
    Some(string_of(&v, k, v.len()))
}

pub open spec fn u64_of(s: Seq<char>) -> Option<u64> {
    match text::unsigned_number(s, u64::MAX as nat) {
        Some(n) => Some(n as u64),
        None => None,
    }
}

pub open spec fn word_number(s: Seq<char>, i: int) -> Option<u64> {
    if i < words::words(s).len() {
        u64_of(words::words(s)[i])
    } else {
        None
    }
}

fn number_at(w: &Vec<String>, i: usize) -> (r: Option<u64>)
    ensures
        r == (if i < w@.len() {
            u64_of(w@[i as int]@)
        } else {
            None
        }),
{
    if i < w.len() {
        parse_u64(w[i].as_str())
    } else {
        None
    }
}

/// The ticks that a process ran in its own code and in the system's. The command
/// name is in parentheses and may hold spaces; the fields that follow the last
/// ')' start with the state.
pub open spec fn stat_ticks(stat: Seq<char>) -> Option<(u64, u64)> {
    match after_paren(stat) {
        Some(rest) => match (word_number(rest, 11), word_number(rest, 12)) {
            (Some(a), Some(b)) => Some((a, b)),
            _ => None,
        },
        None => None,
    }
}

fn read_ticks(stat: &str) -> (r: Option<(u64, u64)>)
    ensures
        r == stat_ticks(stat@),
{
    let rest = match behind_paren(stat) {
        Some(s) => s,
        None => {
            return None;
        },
    };
    let w = split_words(rest.as_str());
    proof {
        assert forall|i: int| 0 <= i < w@.len() implies words::words(rest@)[i] == (
        #[trigger] w@[i])@ by {
            assert(text::texts(w@)[i] == w@[i]@);
        }
        assert(text::texts(w@).len() == w@.len());
    }
    match number_at(&w, 11) {
        Some(a) => match number_at(&w, 12) {
            Some(b) => Some((a, b)),
            None => None,
        },
        None => None,
    }
}

fn read_pages(statm: &str) -> (r: Option<u64>)
    ensures
        r == word_number(statm@, 1),
{
    let w = split_words(statm);
    proof {
        assert(text::texts(w@).len() == w@.len());
        if w@.len() > 1 {
            assert(text::texts(w@)[1] == w@[1]@);
        }
    }
    number_at(&w, 1)
}

/// At least one.
pub open spec fn one_or_more(n: i64) -> nat {
    if n < 1 {
        1
    } else {
        n as nat
    }
}

fn at_least_one(n: i64) -> (r: u64)
    ensures
        r == one_or_more(n),
{
    if n < 1 {
        1
    } else {
        n as u64
    }
}

/// How many nanoseconds ticks are.
pub open spec fn tick_nanos(ticks: nat, per_second: nat) -> nat {
    ticks * 1_000_000_000 / per_second
}

/// How many nanoseconds units of the Mach clock are.
pub open spec fn mach_nanos(units: nat, numer: u32, denom: u32) -> nat {
    let n: nat = if numer == 0 {
        1
    } else {
        numer as nat
    };
    let d: nat = if denom == 0 {
        1
    } else {
        denom as nat
    };
    units * n / d
}

/// What a reading comes to: the CPU time so far, in nanoseconds, and the
/// resident memory, or what is wrong with it.
pub open spec fn reading_value(r: Reading) -> Result<(nat, nat), Seq<char>> {
    match r {
        Reading::Linux { stat, statm, ticks_per_second, page_size } => match stat {
            Err(e) => Err(e@),
            Ok(s) => match stat_ticks(s@) {
                None => Err("malformed stat"@),
                Some(t) => match statm {
                    Err(e) => Err(e@),
                    Ok(m) => match word_number(m@, 1) {
                        None => Err("malformed statm"@),
                        Some(p) => Ok(
                            (
                                tick_nanos((t.0 + t.1) as nat, one_or_more(ticks_per_second)),
                                (p * one_or_more(page_size)) as nat,
                            ),
                        ),
                    },
                },
            },
        },
        Reading::Mach { user, system, numer, denom, resident } => Ok(
            (
                mach_nanos((user + system) as nat, numer, denom) % 0x1_0000_0000_0000_0000,
                resident as nat,
            ),
        ),
        Reading::Failed(e) => Err(e@),
        Reading::Unsupported => Err("sampling a process is only supported on Linux and macOS"@),
    }
}

/// Whether what is reckoned of a reading stays within 64 bits.
pub open spec fn reading_fits(r: Reading) -> bool {
    match r {
        Reading::Linux { stat, statm, ticks_per_second, page_size } => {
            &&& stat matches Ok(s) ==> (stat_ticks(s@) matches Some(t) ==> (t.0 + t.1)
                * 1_000_000_000 <= u64::MAX)
            &&& statm matches Ok(m) ==> (word_number(m@, 1) matches Some(p) ==> p * one_or_more(
                page_size,
            ) <= u64::MAX)
        },
        Reading::Mach { user, system, numer, denom, resident } => user + system <= u64::MAX,
        _ => true,
    }
}

fn fits_64(a: u64, b: u64) -> (r: bool)
    ensures
        r == (a * b <= u64::MAX),
{
    a.checked_mul(b).is_some()
}

/// Whether what is reckoned of a reading stays within 64 bits.
pub fn fits(r: &Reading) -> (ok: bool)
    ensures
        ok == reading_fits(*r),
{
    match r {
        Reading::Linux { stat, statm, ticks_per_second, page_size } => {
            let ticks_fit: bool = match stat {
                Ok(s) => match read_ticks(s.as_str()) {
                    Some((a, b)) => match a.checked_add(b) {
                        Some(n) => fits_64(n, 1_000_000_000),
                        None => false,
                    },
                    None => true,
                },
                Err(_) => true,
            };
            let pages_fit: bool = match statm {
                Ok(m) => match read_pages(m.as_str()) {
                    Some(p) => fits_64(p, at_least_one(*page_size)),
                    None => true,
                },
                Err(_) => true,
            };
            ticks_fit && pages_fit
        },
        Reading::Mach { user, system, numer, denom, resident } => user.checked_add(
            *system,
        ).is_some(),
        _ => true,
    }
}

/// A process' CPU time so far, user and system, and its resident memory.
pub fn cpu_and_rss(r: &Reading) -> (res: Result<(Duration, u64), String>)
    requires
        reading_fits(*r),
    ensures
        match res {
            Ok(v) => reading_value(*r) == Ok::<(nat, nat), Seq<char>>(
                (clock::duration_nanos(v.0), v.1 as nat),
            ),
            Err(e) => reading_value(*r) == Err::<(nat, nat), Seq<char>>(e@),
        },
{
    match r {
        Reading::Linux { stat, statm, ticks_per_second, page_size } => {
            let s: &String = match stat {
                Ok(s) => s,
                Err(e) => {
                    return Err(e.as_str().to_owned());
                },
            };
            let (a, b): (u64, u64) = match read_ticks(s.as_str()) {
                Some(t) => t,
                None => {
                    return Err("malformed stat".to_owned());
                },
            };
            let m: &String = match statm {
                Ok(m) => m,
                Err(e) => {
                    return Err(e.as_str().to_owned());
                },
            };
            let pages: u64 = match read_pages(m.as_str()) {
                Some(p) => p,
                None => {
                    return Err("malformed statm".to_owned());
                },
            };
            let hz: u64 = at_least_one(*ticks_per_second);
            let page: u64 = at_least_one(*page_size);
            let ns: u64 = (a + b) * 1_000_000_000 / hz;
            Ok((duration_of(ns as u128), pages * page))
        },
        Reading::Mach { user, system, numer, denom, resident } => {
            let n: u128 = if *numer == 0 {
                1
            } else {
                *numer as u128
            };
            let d: u128 = if *denom == 0 {
                1
            } else {
                *denom as u128
            };
            let units: u128 = (*user + *system) as u128;
            assert(units * n <= 0xffff_ffff_ffff_ffff * 0xffff_ffff) by (nonlinear_arith)
                requires
                    units <= 0xffff_ffff_ffff_ffff,
                    n <= 0xffff_ffff,
            ;
            let ns: u128 = units * n / d;
            Ok((duration_of(ns % 0x1_0000_0000_0000_0000), *resident))
        },
        Reading::Failed(e) => Err(e.as_str().to_owned()),
        Reading::Unsupported => Err(
            "sampling a process is only supported on Linux and macOS".to_owned(),
        ),
    }
}

// ---------------------------------------------------------------------------
// Sampling.

/// The CPU time a process used over an interval, and how long that was, both in
/// nanoseconds.
#[derive(Clone, Copy)]
pub struct Usage {
    pub cpu: Nanos,
    pub wall: Nanos,
}

/// What is sampled of a process: the CPU it used over each interval, and its
/// resident memory at the end of it.
pub struct Samples {
    pub cpu: Vec<Usage>,
    pub rss: Vec<u64>,
}

#[verifier::ext_equal]
pub struct SamplerView {
    pub cpu: Seq<Usage>,
    pub rss: Seq<u64>,
    /// The CPU time the process had used when the interval began.
    pub last_cpu: Nanos,
    /// When the interval began: when the process was last read.
    pub begun: Nanos,
    /// When reading it was last tried.
    pub last: Nanos,
    pub failures: nat,
}

/// Samples a process every interval.
pub struct Sampler {
    pid: i32,
    interval: Nanos,
    samples: Samples,
    last_cpu: Nanos,
    begun: Nanos,
    last: Nanos,
    failures: u32,
}

impl View for Sampler {
    type V = SamplerView;

    closed spec fn view(&self) -> SamplerView {
        SamplerView {
            cpu: self.samples.cpu@,
            rss: self.samples.rss@,
            last_cpu: self.last_cpu,
            begun: self.begun,
            last: self.last,
            failures: self.failures as nat,
        }
    }
}

/// The later of two readings less the earlier, or nothing where the clock ran
/// back.
pub open spec fn difference(a: Nanos, b: Nanos) -> Nanos {
    if a > b {
        (a - b) as Nanos
    } else {
        0
    }
}

fn less(a: Nanos, b: Nanos) -> (r: Nanos)
    ensures
        r == difference(a, b),
{
    if a > b {
        a - b
    } else {
        0
    }
}

/// A sampler that has only just started.
pub open spec fn started(cpu: nat, now: Nanos) -> SamplerView {
    SamplerView {
        cpu: Seq::empty(),
        rss: Seq::empty(),
        last_cpu: cpu as Nanos,
        begun: now,
        last: now,
        failures: 0,
    }
}

impl SamplerView {
    /// The process was read at the end of an interval.
    pub open spec fn with_reading(self, cpu: Nanos, rss: u64, now: Nanos) -> SamplerView {
        SamplerView {
            cpu: self.cpu.push(
                Usage { cpu: difference(cpu, self.last_cpu), wall: difference(now, self.begun) },
            ),
            rss: self.rss.push(rss),
            last_cpu: cpu,
            begun: now,
            last: now,
            failures: 0,
        }
    }

    /// The process could not be read: the interval goes on, unless the sampling
    /// ends.
    pub open spec fn with_failure(self, now: Nanos) -> SamplerView {
        SamplerView {
            failures: self.failures + 1,
            last: if self.failures + 1 >= MAX_FAILURES {
                self.last
            } else {
                now
            },
            ..self
        }
    }
}

/// The interval to sample at: a second where none is given.
pub open spec fn interval_of(d: Duration) -> nat {
    if clock::duration_nanos(d) == 0 {
        1_000_000_000
    } else {
        clock::duration_nanos(d)
    }
}

pub open spec fn start_error(pid: i32, why: Seq<char>) -> Seq<char> {
    "pid "@ + text::signed_decimal(pid as int) + ": "@ + why
}

/// How many failures in a row end the sampling.
pub const MAX_FAILURES: u32 = 5;

impl Sampler {
    pub closed spec fn spec_pid(&self) -> i32 {
        self.pid
    }

    pub closed spec fn spec_interval(&self) -> Nanos {
        self.interval
    }

    /// Whether the sampling goes on.
    pub closed spec fn wf(&self) -> bool {
        &&& self.failures < MAX_FAILURES
        &&& self.interval > 0
        &&& self.samples.cpu@.len() == self.samples.rss@.len()
    }

    /// Starts sampling, after one reading that proves the process can be sampled
    /// at all. An interval of nothing is a second.
    pub fn start(
        pid: i32,
        interval: Duration,
        first: Result<(Duration, u64), String>,
        now: Nanos,
    ) -> (r: Result<Sampler, String>)
        ensures
            match r {
                Ok(s) => {
                    &&& s.wf()
                    &&& first matches Ok(f) && s@ == started(clock::duration_nanos(f.0), now)
                    &&& s.spec_pid() == pid
                    &&& s.spec_interval() == interval_of(interval)
                },
                Err(e) => first matches Err(why) && e@ == start_error(pid, why@),
            },
    {
        match first {
            Ok((cpu, _)) => {
                let every: Nanos = interval.as_nanos();
                Ok(
                    Sampler {
                        pid,
                        interval: if every == 0 {
                            1_000_000_000
                        } else {
                            every
                        },
                        samples: Samples { cpu: Vec::new(), rss: Vec::new() },
                        last_cpu: cpu.as_nanos(),
                        begun: now,
                        last: now,
                        failures: 0,
                    },
                )
            },
            Err(why) => {
                let mut e = "pid ".to_owned();
                e.append(i64_text(pid as i64).as_str());
                e.append(": ");
                e.append(why.as_str());
                Err(e)
            },
        }
    }

    /// When the next sample is due.
    pub fn next(&self) -> (t: Option<Nanos>)
        ensures
            t == (if self@.last + self.spec_interval() <= u128::MAX {
                Some((self@.last + self.spec_interval()) as Nanos)
            } else {
                None
            }),
    {
        self.last.checked_add(self.interval)
    }

    /// A reading came in at the end of an interval, or failed. A process that
    /// cannot be read has almost always exited: after five failures in a row the
    /// sampling ends, and what was sampled before that is kept.
    pub fn sampled(&mut self, reading: Result<(Duration, u64), String>, now: Nanos) -> (ended: Option<
        String,
    >)
        requires
            old(self).wf(),
        ensures
            final(self).spec_pid() == old(self).spec_pid(),
            final(self).spec_interval() == old(self).spec_interval(),
            ended is None ==> final(self).wf(),
            match reading {
                Ok(v) => {
                    &&& ended is None
                    &&& final(self)@ == old(self)@.with_reading(
                        clock::duration_nanos(v.0) as Nanos,
                        v.1,
                        now,
                    )
                },
                Err(e) => {
                    &&& final(self)@ == old(self)@.with_failure(now)
                    &&& ended is Some <==> old(self)@.failures + 1 >= MAX_FAILURES
                    &&& ended matches Some(m) ==> m@ == "sampling pid "@ + text::signed_decimal(
                        old(self).spec_pid() as int,
                    ) + " stopped after "@ + text::decimal(old(self)@.failures + 1) + " failures: "@
                        + e@
                },
            },
    {
        match reading {
            Ok((cpu, rss)) => {
                self.failures = 0;
                let cpu: Nanos = cpu.as_nanos();
                self.samples.cpu.push(
                    Usage { cpu: less(cpu, self.last_cpu), wall: less(now, self.begun) },
                );
                self.samples.rss.push(rss);
                self.last_cpu = cpu;
                self.begun = now;
                self.last = now;
                None
            },
            Err(e) => {
                self.failures += 1;
                if self.failures >= MAX_FAILURES {
                    let mut m = "sampling pid ".to_owned();
                    m.append(i64_text(self.pid as i64).as_str());
                    m.append(" stopped after ");
                    m.append(text::u64_text(self.failures as u64).as_str());
                    m.append(" failures: ");
                    m.append(e.as_str());
                    return Some(m);
                }
                self.last = now;
                None
            },
        }
    }

    pub fn pid(&self) -> (p: i32)
        ensures
            p == self.spec_pid(),
    {
        self.pid
    }

    /// How many CPU and memory samples there are so far.
    pub fn len(&self) -> (n: (usize, usize))
        ensures
            n.0 == self@.cpu.len(),
            n.1 == self@.rss.len(),
    {
        (self.samples.cpu.len(), self.samples.rss.len())
    }

    /// The samples after the first cpu and mem of each series.
    pub fn since(&self, cpu: usize, mem: usize) -> (r: (Vec<Usage>, Vec<u64>))
        ensures
            r.0@ == after(self@.cpu, cpu),
            r.1@ == after(self@.rss, mem),
    {
        (rest_of(&self.samples.cpu, cpu), rest_of(&self.samples.rss, mem))
    }
}

/// What follows the first `n` of a series.
pub open spec fn after<A>(s: Seq<A>, n: usize) -> Seq<A> {
    if n < s.len() {
        s.skip(n as int)
    } else {
        Seq::empty()
    }
}

/// What was read of a process at a moment: its CPU time and its resident memory,
/// or nothing.
pub struct Moment {
    pub read: Option<(Nanos, u64)>,
    pub now: Nanos,
}

/// A sampler after some moments.
pub open spec fn sampled_at(s: SamplerView, xs: Seq<Moment>) -> SamplerView
    decreases xs.len(),
{
    if xs.len() == 0 {
        s
    } else {
        let before = sampled_at(s, xs.drop_last());
        match xs.last().read {
            Some((cpu, rss)) => before.with_reading(cpu, rss, xs.last().now),
            None => before.with_failure(xs.last().now),
        }
    }
}

pub open spec fn total_cpu(s: Seq<Usage>) -> nat
    decreases s.len(),
{
    if s.len() == 0 {
        0
    } else {
        total_cpu(s.drop_last()) + s.last().cpu as nat
    }
}

pub open spec fn total_wall(s: Seq<Usage>) -> nat
    decreases s.len(),
{
    if s.len() == 0 {
        0
    } else {
        total_wall(s.drop_last()) + s.last().wall as nat
    }
}

/// Whether neither the clock nor the CPU time of the process runs back.
pub open spec fn runs_on(cpu: Nanos, now: Nanos, xs: Seq<Moment>) -> bool {
    &&& forall|i: int| 0 <= i < xs.len() ==> now <= (#[trigger] xs[i]).now
    &&& forall|i: int, j: int|
        0 <= i <= j < xs.len() ==> (#[trigger] xs[i]).now <= (#[trigger] xs[j]).now
    &&& forall|i: int|
        0 <= i < xs.len() ==> ((#[trigger] xs[i]).read matches Some(r) ==> cpu <= r.0)
    &&& forall|i: int, j: int|
        0 <= i <= j < xs.len() ==> ((#[trigger] xs[i]).read matches Some(a) ==> (
        (#[trigger] xs[j]).read matches Some(b) ==> a.0 <= b.0))
}

/// A failed reading leaves the interval as it was, so that the next sample is
/// over all the time that its CPU was used in.
pub proof fn a_failed_reading_keeps_the_interval(
    s: SamplerView,
    failed: Nanos,
    cpu: Nanos,
    rss: u64,
    now: Nanos,
)
    ensures
        s.with_failure(failed).cpu == s.cpu,
        s.with_failure(failed).rss == s.rss,
        s.with_failure(failed).with_reading(cpu, rss, now) == s.with_reading(cpu, rss, now),
{
}

proof fn lemma_no_later(cpu: Nanos, now: Nanos, xs: Seq<Moment>, c: Nanos, t: Nanos)
    requires
        now <= t,
        cpu <= c,
        forall|i: int| 0 <= i < xs.len() ==> (#[trigger] xs[i]).now <= t,
        forall|i: int| 0 <= i < xs.len() ==> ((#[trigger] xs[i]).read matches Some(r) ==> r.0 <= c),
    ensures
        sampled_at(started(cpu as nat, now), xs).begun <= t,
        sampled_at(started(cpu as nat, now), xs).last_cpu <= c,
    decreases xs.len(),
{
    if xs.len() > 0 {
        let less = xs.drop_last();
        assert forall|i: int| 0 <= i < less.len() implies #[trigger] less[i] == xs[i] by {}
        lemma_no_later(cpu, now, less, c, t);
        assert(xs[xs.len() - 1] == xs.last());
    }
}

/// Whatever readings fail, the samples together are the CPU that the process used
/// and the time that went by between the first reading and the last that came in:
/// none of either is left out or counted twice.
pub proof fn samples_add_up(cpu: Nanos, now: Nanos, xs: Seq<Moment>)
    requires
        runs_on(cpu, now, xs),
    ensures
        ({
            let v = sampled_at(started(cpu as nat, now), xs);
            &&& cpu + total_cpu(v.cpu) == v.last_cpu
            &&& now + total_wall(v.cpu) == v.begun
        }),
    decreases xs.len(),
{
    if xs.len() > 0 {
        let less = xs.drop_last();
        assert forall|i: int| 0 <= i < less.len() implies #[trigger] less[i] == xs[i] by {}
        assert(runs_on(cpu, now, less));
        samples_add_up(cpu, now, less);
        let v = sampled_at(started(cpu as nat, now), less);
        let x = xs[xs.len() - 1];
        match x.read {
            Some((c, rss)) => {
                assert(v.with_reading(c, rss, x.now).cpu.drop_last() =~= v.cpu);
                lemma_no_later(cpu, now, less, c, x.now);
            },
            None => {},
        }
    }
}

/// The samples after as many as there were at a moment are those that were taken
/// since, all of them and no others.
pub proof fn only_later_samples<A>(before: Seq<A>, later: Seq<A>)
    requires
        before.len() <= usize::MAX,
    ensures
        after(before + later, before.len() as usize) == later,
{
    assert((before + later).skip(before.len() as int) =~= later);
}

/// What follows the first `n` of a series.
pub fn rest_of<A: Copy>(v: &Vec<A>, n: usize) -> (r: Vec<A>)
    ensures
        r@ == after(v@, n),
{
    let mut r: Vec<A> = Vec::new();
    let mut i: usize = n;
    while i < v.len()
        invariant
            n <= i,
            i <= v@.len() || i == n,
            n <= v@.len() ==> r@ == v@.subrange(n as int, i as int),
            n > v@.len() ==> r@.len() == 0,
        decreases v@.len() - i,
    {
        r.push(v[i]);
        i += 1;
        assert(r@ =~= v@.subrange(n as int, i as int));
    }
    assert(r@ =~= after(v@, n));
    r
}

// ---------------------------------------------------------------------------
// What that comes to.

/// A name is what stands behind the last slash of its path, and all of it where there
/// is none.
pub proof fn a_name_is_behind_the_last_slash(dir: Seq<char>, name: Seq<char>)
    requires
        forall|i: int| 0 <= i < name.len() ==> name[i] != '/',
    ensures
        base_name(name) == name,
        base_name(dir + seq!['/'] + name) == name,
    decreases name.len(),
{
    let path = dir + seq!['/'] + name;
    if name.len() == 0 {
        assert(path.last() == '/');
        assert(name =~= Seq::<char>::empty());
    } else {
        let less = name.drop_last();
        assert forall|i: int| 0 <= i < less.len() implies less[i] != '/' by {
            assert(less[i] == name[i]);
        }
        a_name_is_behind_the_last_slash(dir, less);
        assert(path.drop_last() =~= dir + seq!['/'] + less);
        assert(path.last() == name.last());
        assert(less.push(name.last()) =~= name);
    }
}

/// A process is called by its first argument: what stands before the first zero byte,
/// without the directories.
pub proof fn a_process_is_called_by_its_first_argument(arg: Seq<u8>, rest: Seq<u8>)
    requires
        arg.len() > 0,
        forall|i: int| 0 <= i < arg.len() ==> arg[i] != 0,
    ensures
        cmdline_name(arg + seq![0u8] + rest) == Some(base_name(conn::lossy(arg))),
        cmdline_name(arg) == Some(base_name(conn::lossy(arg))),
        cmdline_name(seq![0u8] + rest) is None,
        cmdline_name(Seq::empty()) is None,
{
    let b = arg + seq![0u8] + rest;
    lemma_before_zero(b, arg.len() as int);
    assert(b.take(arg.len() as int) =~= arg);
    lemma_before_zero(arg, arg.len() as int);
    assert(arg.take(arg.len() as int) =~= arg);
}

/// The processes of a name are those that are listed under a number, with that name,
/// and no others, in the order of the list.
pub proof fn processes_are_found_by_name(list: Seq<Listed>, x: Listed, name: Seq<char>, pid: i32)
    ensures
        pids_in(Seq::empty(), name) == Seq::<i32>::empty(),
        x.entry@ == text::signed_decimal(pid as int) && conn::text_view(x.name) == Some(name)
            ==> pids_in(list.push(x), name) == pids_in(list, name).push(pid),
        conn::text_view(x.name) != Some(name) ==> pids_in(list.push(x), name) == pids_in(
            list,
            name,
        ),
        text::signed_number(x.entry@, i32::MIN as int, i32::MAX as int) is None ==> pids_in(
            list.push(x),
            name,
        ) == pids_in(list, name),
{
    text::signed_decimal_reads_back(pid as int, i32::MIN as int, i32::MAX as int);
    assert(list.push(x).drop_last() =~= list);
}

proof fn lemma_after_paren(a: Seq<char>, t: Seq<char>)
    requires
        forall|i: int| 0 <= i < t.len() ==> t[i] != ')',
    ensures
        after_paren(a + seq![')'] + t) == Some(t),
        after_paren(t) is None,
    decreases t.len(),
{
    let s = a + seq![')'] + t;
    if t.len() == 0 {
        assert(s.last() == ')');
        assert(t =~= Seq::<char>::empty());
    } else {
        let less = t.drop_last();
        assert forall|i: int| 0 <= i < less.len() implies less[i] != ')' by {
            assert(less[i] == t[i]);
        }
        lemma_after_paren(a, less);
        assert(s.drop_last() =~= a + seq![')'] + less);
        assert(s.last() == t.last());
        assert(t[t.len() - 1] != ')');
        assert(less.push(t.last()) =~= t);
    }
}

/// The CPU time of a process stands in the twelfth and the thirteenth word behind the
/// last closing bracket of its stat, however it is called, in user mode and in the
/// system's.
pub proof fn cpu_time_is_behind_the_name(a: Seq<char>, rest: Seq<char>, user: u64, system: u64)
    requires
        forall|i: int| 0 <= i < rest.len() ==> rest[i] != ')',
        words::words(rest).len() > 12,
        words::words(rest)[11] == text::decimal(user as nat),
        words::words(rest)[12] == text::decimal(system as nat),
    ensures
        stat_ticks(a + seq![')'] + rest) == Some((user, system)),
        stat_ticks(rest) is None,
{
    lemma_after_paren(a, rest);
    text::decimal_reads_back(user as nat, u64::MAX as nat);
    text::decimal_reads_back(system as nat, u64::MAX as nat);
}

/// What is read of a process on Linux is the CPU time that it used, in user mode and in
/// the system's together, as whole nanoseconds of clock ticks, and its resident pages
/// times their size.
pub proof fn a_reading_is_time_and_memory(
    stat: String,
    statm: String,
    hz: i64,
    page: i64,
    user: u64,
    system: u64,
    pages: u64,
)
    requires
        stat_ticks(stat@) == Some((user, system)),
        words::words(statm@).len() > 1,
        words::words(statm@)[1] == text::decimal(pages as nat),
        hz > 0,
        page > 0,
    ensures
        reading_value(
            Reading::Linux { stat: Ok(stat), statm: Ok(statm), ticks_per_second: hz, page_size: page },
        ) matches Ok(v) && v.0 * hz <= (user + system) * 1_000_000_000 < (v.0 + 1) * hz && v.1
            == pages * page,
{
    text::decimal_reads_back(pages as nat, u64::MAX as nat);
    let t = (user + system) * 1_000_000_000;
    let h = hz as int;
    let q = t / h;
    assert(q * h <= t < (q + 1) * h && q >= 0) by (nonlinear_arith)
        requires
            h > 0,
            t >= 0,
            q == t / h,
    ;
    assert(pages * page >= 0) by (nonlinear_arith)
        requires
            page > 0,
            pages >= 0,
    ;
}

/// Ticks of a clock are nanoseconds by how many there are a second, and a clock of the
/// Mach kernel's by its ratio, both without what a division leaves over.
pub proof fn ticks_are_nanoseconds(ticks: nat, hz: nat, units: nat, numer: u32, denom: u32)
    requires
        hz > 0,
        numer > 0,
        denom > 0,
    ensures
        tick_nanos(ticks, hz) * hz <= ticks * 1_000_000_000 < (tick_nanos(ticks, hz) + 1) * hz,
        mach_nanos(units, numer, denom) * denom <= units * numer < (mach_nanos(units, numer, denom)
            + 1) * denom,
{
    let t = ticks * 1_000_000_000;
    let q = t / hz;
    assert(q * hz <= t < (q + 1) * hz) by (nonlinear_arith)
        requires
            hz > 0,
            q == t / hz,
    ;
    let u = units * (numer as nat);
    let d = denom as nat;
    let r = u / d;
    assert(r * d <= u < (r + 1) * d) by (nonlinear_arith)
        requires
            d > 0,
            r == u / d,
    ;
}

/// A sample is the CPU time that the process used and the time that went by since it was
/// last read, and the memory that it holds now; the failures before it are forgotten.
pub proof fn a_sample_is_of_its_interval(s: SamplerView, cpu: Nanos, rss: u64, now: Nanos)
    requires
        s.last_cpu <= cpu,
        s.begun <= now,
    ensures
        ({
            let v = s.with_reading(cpu, rss, now);
            &&& v.cpu.drop_last() == s.cpu
            &&& v.cpu.last().cpu == cpu - s.last_cpu
            &&& v.cpu.last().wall == now - s.begun
            &&& v.rss == s.rss.push(rss)
            &&& v.last_cpu == cpu
            &&& v.begun == now && v.last == now
            &&& v.failures == 0
        }),
{
    assert(s.with_reading(cpu, rss, now).cpu.drop_last() =~= s.cpu);
}

/// Five failures in a row end the sampling; until then a failure only puts it off, and
/// what was sampled is kept.
pub proof fn five_failures_end_the_sampling(s: SamplerView, now: Nanos, then: Nanos)
    requires
        s.failures == 0,
    ensures
        MAX_FAILURES == 5,
        ({
            let one = s.with_failure(now);
            let two = one.with_failure(then);
            &&& one.failures == 1 && two.failures == 2
            &&& one.cpu == s.cpu && one.rss == s.rss && one.begun == s.begun
            &&& one.last == now && two.last == then
        }),
{
}

/// A process is sampled at the interval that is asked for, and every second where none
/// is.
pub proof fn an_interval_of_nothing_is_a_second(d: Duration)
    ensures
        clock::duration_nanos(d) > 0 ==> interval_of(d) == clock::duration_nanos(d),
        clock::duration_nanos(d) == 0 ==> interval_of(d) == 1000 * 1000 * 1000,
{
}

/// What follows the first so many of a series has as many fewer, in their order, and
/// nothing is left where there are no more than those.
pub proof fn what_follows_is_in_order<A>(s: Seq<A>, n: usize, i: int)
    ensures
        n <= s.len() ==> after(s, n).len() == s.len() - n,
        n >= s.len() ==> after(s, n).len() == 0,
        0 <= i && i + n < s.len() ==> after(s, n)[i] == s[i + n],
{
}

proof fn lemma_number_is_a_word(pid: i32)
    ensures
        text::signed_decimal(pid as int).len() > 0,
        forall|i: int|
            0 <= i < text::signed_decimal(pid as int).len() ==> !words::is_white(
                #[trigger] text::signed_decimal(pid as int)[i],
            ),
{
    let d = text::signed_decimal(pid as int);
    let n: nat = (if pid < 0 {
        -pid
    } else {
        pid as int
    }) as nat;
    text::lemma_decimal_digits(n);
    assert forall|i: int| 0 <= i < d.len() implies !words::is_white(#[trigger] d[i]) by {
        if pid < 0 {
            if i > 0 {
                assert(d[i] == text::decimal(n)[i - 1]);
                assert(text::is_digit(text::decimal(n)[i - 1]));
            }
        } else {
            assert(text::is_digit(text::decimal(n)[i]));
        }
    }
}

/// A line of a listing of processes names the one of its number, if the path behind that
/// ends in the name.
pub proof fn a_line_names_its_process(pid: i32, dir: Seq<char>, name: Seq<char>, other: Seq<char>)
    requires
        name.len() > 0,
        forall|i: int| 0 <= i < name.len() ==> name[i] != '/',
        !words::is_white(name.last()),
        dir.len() > 0,
        !words::is_white(dir[0]),
        other != name,
    ensures
        line_pid(
            text::signed_decimal(pid as int) + seq![' '] + (dir + seq!['/'] + name),
            name,
        ) == Some(pid),
        line_pid(
            text::signed_decimal(pid as int) + seq![' '] + (dir + seq!['/'] + name),
            other,
        ) is None,
{
    let d = text::signed_decimal(pid as int);
    let path = dir + seq!['/'] + name;
    let line = d + seq![' '] + path;
    assert(words::trim_start(line) == line && words::run(line, false) == d.len()) by {
        lemma_number_is_a_word(pid);
        words::lemma_leading_word(d, ' ', path);
    }
    assert(line.take(d.len() as int) =~= d);
    assert(line.skip(d.len() as int + 1) =~= path);
    assert(words::trimmed(path) == path) by {
        words::trims_to(Seq::empty(), path, Seq::empty());
        assert(Seq::<char>::empty() + path + Seq::<char>::empty() =~= path);
    }
    assert(base_name(path) == name) by {
        a_name_is_behind_the_last_slash(dir, name);
    }
    assert(pid_of(d) == Some(pid)) by {
        text::signed_decimal_reads_back(pid as int, i32::MIN as int, i32::MAX as int);
    }
}

/// The processes of a listing are those that its lines name, in their order.
pub proof fn lines_name_processes_in_turn(
    lines: Seq<Seq<char>>,
    pid: i32,
    dir: Seq<char>,
    name: Seq<char>,
    other: Seq<char>,
)
    requires
        name.len() > 0,
        forall|i: int| 0 <= i < name.len() ==> name[i] != '/',
        !words::is_white(name.last()),
        dir.len() > 0,
        !words::is_white(dir[0]),
        other != name,
    ensures
        ({
            let line = text::signed_decimal(pid as int) + seq![' '] + (dir + seq!['/'] + name);
            &&& pids_on(Seq::empty(), name) == Seq::<i32>::empty()
            &&& pids_on(lines.push(line), name) == pids_on(lines, name).push(pid)
            &&& pids_on(lines.push(line), other) == pids_on(lines, other)
        }),
{
    let line = text::signed_decimal(pid as int) + seq![' '] + (dir + seq!['/'] + name);
    a_line_names_its_process(pid, dir, name, other);
    assert(lines.push(line).drop_last() =~= lines);
}

/// A process's own name for itself counts without the white space around it and
/// without the directories before it.
pub proof fn white_space_is_no_part_of_a_name(
    b: Seq<u8>,
    before: Seq<char>,
    name: Seq<char>,
    after: Seq<char>,
)
    requires
        forall|i: int| 0 <= i < before.len() ==> words::is_white(#[trigger] before[i]),
        forall|i: int| 0 <= i < after.len() ==> words::is_white(#[trigger] after[i]),
        forall|i: int| 0 <= i < name.len() ==> name[i] != '/',
        name.len() > 0,
        !words::is_white(name[0]),
        !words::is_white(name.last()),
        conn::lossy(b) == before + name + after,
    ensures
        comm_name(b) == Some(name),
{
    words::trims_to(before, name, after);
    a_name_is_behind_the_last_slash(Seq::empty(), name);
}

} // verus!
