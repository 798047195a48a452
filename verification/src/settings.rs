//! What the client is run with: its flags, and what they come to.

use std::time::Duration;
use vstd::prelude::*;

use crate::clock;
use crate::clock::duration_of;
use crate::config;
use crate::config::{is_framework, FRAMEWORKS};
use crate::flags;
use crate::flags::{size, FlagMap, FlagSet, FlagView};
use crate::plan;
use crate::plan::{rate_batch, split};
use crate::ps;
use crate::ps::{validate_mode, MODE_AUTO};
use crate::text;
use crate::text::{debug_string, i64_text, same};

verus! {

// ---------------------------------------------------------------------------
// Flags.

/// The flags of the server, and of the connections to it.
pub open spec fn dial_flags() -> FlagMap {
    Map::<Seq<char>, FlagView>::empty().insert(
        "m"@,
        flags::int_flag(0x1_0000_0000, "accepted for the servers' sake: their memory limit"@),
    ).insert(
        "streams"@,
        flags::int_flag(
            100,
            "accepted for the servers' sake: their max concurrent request streams per connection"@,
        ),
    ).insert(
        "idle"@,
        flags::duration_flag(
            "120s"@,
            "QUIC max idle timeout; a connection quiet for a quarter of it is sent a PING"@,
        ),
    ).insert("f"@, flags::text_flag("quicgo"@, "framework, e.g. \"quicgo\""@)).insert(
        "ip"@,
        flags::text_flag("127.0.0.1"@, "ip, e.g. \"127.0.0.1\""@),
    ).insert(
        "t"@,
        flags::int_flag(0, "client: event-loop threads, 0 for one per CPU this process may run on"@),
    ).insert("c"@, flags::int_flag(10000, "client: num of connections"@)).insert(
        "dc"@,
        flags::int_flag(2000, "client: dial concurrency: how many handshakes are in progress at once"@),
    ).insert(
        "dt"@,
        flags::duration_flag(
            "5s"@,
            "client: dial timeout, which also bounds the first request on a connection"@,
        ),
    ).insert("dr"@, flags::int_flag(5, "client: dial retry times"@)).insert(
        "dri"@,
        flags::duration_flag("100ms"@, "client: dial retry interval"@),
    )
}

/// The flags of both benchmarks, and of BenchEcho.
pub open spec fn echo_flags(f: FlagMap) -> FlagMap {
    f.insert(
        "b"@,
        flags::int_flag(
            1024,
            "benchmark: request body size of benchecho and benchrate, which the server echoes back"@,
        ),
    ).insert(
        "check"@,
        flags::bool_flag(false, "benchmark: whether to check the validity of the response data"@),
    ).insert(
        "pi"@,
        flags::int_flag(1000, "benchmark: ps interval of benchecho and benchrate, 1000 ms by default"@),
    ).insert(
        "ps"@,
        flags::text_flag(
            MODE_AUTO@,
            "benchmark: where the server's CPU and MEM samples come from: \"auto\" samples the server here when it runs on this machine and asks it over HTTP when it does not, \"local\" always samples here, \"remote\" always asks"@,
        ),
    ).insert("tpn"@, flags::bool_flag(true, "benchmark: whether enable TPN caculation"@)).insert(
        "ec"@,
        flags::int_flag(
            10000,
            "benchecho: concurrency: how many connections have a request in flight at once"@,
        ),
    ).insert("en"@, flags::int_flag(2000000, "benchecho: benchmark times"@)).insert(
        "el"@,
        flags::int_flag(0, "benchecho: TPS limitation per second"@),
    ).insert("ep"@, flags::bool_flag(false, "benchecho: generate pprof report"@)).insert(
        "epd"@,
        flags::int_flag(5, "benchecho: pprof duration"@),
    )
}

/// The flags of BenchMultiplex, and of the report files.
pub open spec fn rate_flags(f: FlagMap) -> FlagMap {
    f.insert("rate"@, flags::bool_flag(false, "benchrate: whether run BenchMultiplex"@)).insert(
        "rd"@,
        flags::int_flag(10, "benchrate: how long to spend to do the test, in seconds"@),
    ).insert(
        "rr"@,
        flags::int_flag(200, "benchrate: how many requests are sent on 1 conn every second"@),
    ).insert(
        "rbs"@,
        flags::int_flag(
            16384,
            "benchrate: how many bytes of request bodies are sent on 1 conn at a time, when -rb is 0"@,
        ),
    ).insert(
        "rb"@,
        flags::int_flag(
            0,
            "benchrate: batch: how many request streams are opened together on 1 conn, which must divide -rr; 0 takes as many as fit in -rbs bytes"@,
        ),
    ).insert("rl"@, flags::int_flag(0, "benchrate: request sending limitation per second"@)).insert(
        "rp"@,
        flags::bool_flag(false, "benchrate: generate pprof report"@),
    ).insert("rpd"@, flags::int_flag(5, "benchrate: pprof duration"@)).insert(
        "r"@,
        flags::bool_flag(
            false,
            "make report: done by benchreport (output/bin/bench.report), which script/report.sh runs"@,
        ),
    ).insert("preffix"@, flags::text_flag(""@, "report file preffix, e.g. \"1m_connections_\""@)).insert(
        "suffix"@,
        flags::text_flag(""@, "report file suffix, e.g. \"_20060102150405\""@),
    ).insert(
        "sort"@,
        flags::text_flag(
            "result"@,
            "accepted for benchreport's sake: report row order, \"result\" or \"framework\""@,
        ),
    )
}

/// Every flag of the client.
pub open spec fn client_flags() -> FlagMap {
    rate_flags(echo_flags(dial_flags()))
}

fn define_dial_flags() -> (f: FlagSet)
    ensures
        f.wf(),
        f@ == dial_flags(),
{
    let mut f = FlagSet::new();
    // The servers' flags, which the drivers hand the client as well.
    f.integer("m", 0x1_0000_0000, "accepted for the servers' sake: their memory limit");
    f.integer(
        "streams",
        100,
        "accepted for the servers' sake: their max concurrent request streams per connection",
    );
    f.duration(
        "idle",
        "120s",
        "QUIC max idle timeout; a connection quiet for a quarter of it is sent a PING",
    );
    // Server side
    f.string("f", "quicgo", "framework, e.g. \"quicgo\"");
    f.string("ip", "127.0.0.1", "ip, e.g. \"127.0.0.1\"");
    f.integer("t", 0, "client: event-loop threads, 0 for one per CPU this process may run on");
    // Connections
    f.integer("c", 10000, "client: num of connections");
    f.integer("dc", 2000, "client: dial concurrency: how many handshakes are in progress at once");
    f.duration(
        "dt",
        "5s",
        "client: dial timeout, which also bounds the first request on a connection",
    );
    f.integer("dr", 5, "client: dial retry times");
    f.duration("dri", "100ms", "client: dial retry interval");
    f
}

fn define_echo_flags(f: &mut FlagSet)
    requires
        old(f).wf(),
    ensures
        final(f).wf(),
        final(f)@ == echo_flags(old(f)@),
{
    // BenchEcho && BenchMultiplex
    f.integer(
        "b",
        1024,
        "benchmark: request body size of benchecho and benchrate, which the server echoes back",
    );
    f.bool("check", false, "benchmark: whether to check the validity of the response data");
    f.integer("pi", 1000, "benchmark: ps interval of benchecho and benchrate, 1000 ms by default");
    f.string(
        "ps",
        MODE_AUTO,
        "benchmark: where the server's CPU and MEM samples come from: \"auto\" samples the server here when it runs on this machine and asks it over HTTP when it does not, \"local\" always samples here, \"remote\" always asks",
    );
    f.bool("tpn", true, "benchmark: whether enable TPN caculation");
    // BenchEcho
    f.integer(
        "ec",
        10000,
        "benchecho: concurrency: how many connections have a request in flight at once",
    );
    f.integer("en", 2000000, "benchecho: benchmark times");
    f.integer("el", 0, "benchecho: TPS limitation per second");
    f.bool("ep", false, "benchecho: generate pprof report");
    f.integer("epd", 5, "benchecho: pprof duration");
}

fn define_rate_flags(f: &mut FlagSet)
    requires
        old(f).wf(),
    ensures
        final(f).wf(),
        final(f)@ == rate_flags(old(f)@),
{
    // BenchMultiplex
    f.bool("rate", false, "benchrate: whether run BenchMultiplex");
    f.integer("rd", 10, "benchrate: how long to spend to do the test, in seconds");
    f.integer("rr", 200, "benchrate: how many requests are sent on 1 conn every second");
    f.integer(
        "rbs",
        16 * 1024,
        "benchrate: how many bytes of request bodies are sent on 1 conn at a time, when -rb is 0",
    );
    f.integer(
        "rb",
        0,
        "benchrate: batch: how many request streams are opened together on 1 conn, which must divide -rr; 0 takes as many as fit in -rbs bytes",
    );
    f.integer("rl", 0, "benchrate: request sending limitation per second");
    f.bool("rp", false, "benchrate: generate pprof report");
    f.integer("rpd", 5, "benchrate: pprof duration");
    // Report files
    f.bool(
        "r",
        false,
        "make report: done by benchreport (output/bin/bench.report), which script/report.sh runs",
    );
    f.string("preffix", "", "report file preffix, e.g. \"1m_connections_\"");
    f.string("suffix", "", "report file suffix, e.g. \"_20060102150405\"");
    f.string(
        "sort",
        "result",
        "accepted for benchreport's sake: report row order, \"result\" or \"framework\"",
    );
}

pub fn define_flags() -> (f: FlagSet)
    ensures
        f.wf(),
        f@ == client_flags(),
{
    let mut f = define_dial_flags();
    define_echo_flags(&mut f);
    define_rate_flags(&mut f);
    f
}

/// Whether the flags that the client reads are there.
pub open spec fn has_client_flags(f: FlagMap) -> bool {
    client_flags().dom().subset_of(f.dom())
}

/// Every command line leaves the client's flags there.
pub proof fn client_flags_are_there(args: Seq<Seq<char>>)
    ensures
        has_client_flags(flags::parse_args(client_flags(), args).0),
{
    flags::parsing_keeps_the_flags(client_flags(), args);
}

// ---------------------------------------------------------------------------
// Settings.

pub struct Settings {
    pub framework: String,
    pub ip: String,
    pub ps_mode: String,
    pub preffix: String,
    pub suffix: String,
    pub threads: usize,
    pub connections: usize,
    pub dial_concurrency: usize,
    pub dial_timeout: Duration,
    pub dial_retries: usize,
    pub dial_retry_interval: Duration,
    pub idle_timeout: Duration,
    pub check: bool,
    pub payload: usize,
    pub ps_interval: Duration,
    pub tpn: bool,
    pub echo_concurrency: usize,
    pub echo_times: u64,
    pub echo_limit: usize,
    pub echo_pprof: bool,
    pub echo_pprof_seconds: i64,
    /// The batch and how many times a second it is sent, if BenchMultiplex runs.
    pub rate_plan: Option<(usize, usize)>,
    pub rate_duration: Duration,
    pub rate_send: usize,
    pub rate_limit: usize,
    pub rate_pprof: bool,
    pub rate_pprof_seconds: i64,
}

/// A number that is no less than the least.
pub open spec fn at_least(n: int, least: int) -> int {
    if n < least {
        least
    } else {
        n
    }
}

/// The batch that -rb asks for; one less than none is a batch no rate has.
pub open spec fn asked_batch(rb: int) -> usize {
    if rb < 0 {
        usize::MAX
    } else {
        flags::size_of(rb, 0)
    }
}

/// Whether a batch and how often it is sent are the ones to run BenchMultiplex
/// with.
pub open spec fn is_plan(f: FlagMap, v: (usize, usize)) -> bool {
    let rb = asked_batch(flags::int_of(f, "rb"@));
    let rate = flags::size_of(flags::int_of(f, "rr"@), 1) as nat;
    let most = plan::most_that_fit(
        flags::size_of(flags::int_of(f, "rbs"@), 1) as nat,
        flags::size_of(flags::int_of(f, "b"@), 1) as nat,
    );
    &&& plan::divides(v.0 as nat, rate)
    &&& v.0 * v.1 == rate
    &&& rb > 0 ==> v.0 == rb
    &&& rb == 0 ==> v.0 <= most && forall|b: nat|
        v.0 < b <= most ==> !#[trigger] plan::divides(b, rate)
}

/// What the names of the frameworks are listed as.
pub open spec fn names_text() -> Seq<char> {
    "["@ + text::debug_text(FRAMEWORKS@[0].0@) + ", "@ + text::debug_text(FRAMEWORKS@[1].0@) + ", "@
        + text::debug_text(FRAMEWORKS@[2].0@) + ", "@ + text::debug_text(FRAMEWORKS@[3].0@) + "]"@
}

/// What is wrong with the flags: the first of what there may be.
pub open spec fn settings_error(f: FlagMap) -> Option<Seq<char>> {
    let sort = f["sort"@].raw();
    let mode = f["ps"@].raw();
    let framework = f["f"@].raw();
    let rb = flags::int_of(f, "rb"@);
    let rate = flags::size_of(flags::int_of(f, "rr"@), 1) as nat;
    if sort != "result"@ && sort != "framework"@ {
        Some(
            "report: unknown sort order "@ + text::debug_text(sort)
                + ", want one of [result framework]"@,
        )
    } else if !ps::is_mode(mode) {
        Some(ps::mode_error(mode))
    } else if flags::bool_of(f, "r"@) {
        Some("-r: the report tables are written by benchreport; run script/report.sh"@)
    } else if flags::bool_of(f, "rate"@) && asked_batch(rb) > 0 && !plan::divides(
        asked_batch(rb) as nat,
        rate,
    ) {
        Some(
            "-rb="@ + text::signed_decimal(rb) + ": "@ + plan::batch_error(
                asked_batch(rb) as nat,
                rate,
            ),
        )
    } else if rb < 0 {
        Some(
            "-rb="@ + text::signed_decimal(rb)
                + ": want 0, which fits as many requests as -rbs holds, or more"@,
        )
    } else if !config::known(framework) {
        Some(
            "-f="@ + framework + ": unknown framework "@ + text::debug_text(framework)
                + ", want one of "@ + names_text(),
        )
    } else {
        None
    }
}

impl Settings {
    /// Whether these are the settings of some flags on a machine of that many
    /// CPUs.
    pub open spec fn are_of(self, f: FlagMap, cpus: nat) -> bool {
        &&& self.framework@ == f["f"@].raw()
        &&& self.ip@ == f["ip"@].raw()
        &&& self.ps_mode@ == f["ps"@].raw()
        &&& self.preffix@ == f["preffix"@].raw()
        &&& self.suffix@ == f["suffix"@].raw()
        &&& self.threads == (if flags::int_of(f, "t"@) > 0 {
            flags::size_of(flags::int_of(f, "t"@), 1) as nat
        } else {
            cpus
        })
        &&& self.connections == flags::size_of(flags::int_of(f, "c"@), 1)
        &&& self.dial_concurrency == (if flags::size_of(flags::int_of(f, "dc"@), 1)
            < self.connections {
            flags::size_of(flags::int_of(f, "dc"@), 1)
        } else {
            self.connections
        })
        &&& clock::duration_nanos(self.dial_timeout) == flags::nanos_of(f, "dt"@)
        &&& self.dial_retries == flags::size_of(flags::int_of(f, "dr"@), 1)
        &&& clock::duration_nanos(self.dial_retry_interval) == flags::nanos_of(f, "dri"@)
        &&& clock::duration_nanos(self.idle_timeout) == flags::nanos_of(f, "idle"@)
        &&& self.check == flags::bool_of(f, "check"@)
        &&& self.payload == flags::size_of(flags::int_of(f, "b"@), 1)
        &&& clock::duration_nanos(self.ps_interval) == at_least(flags::int_of(f, "pi"@), 1)
            * 1_000_000
        &&& self.tpn == flags::bool_of(f, "tpn"@)
        &&& self.echo_concurrency == flags::size_of(flags::int_of(f, "ec"@), 1)
        &&& self.echo_times == at_least(flags::int_of(f, "en"@), 0)
        &&& self.echo_limit == flags::size_of(flags::int_of(f, "el"@), 0)
        &&& self.echo_pprof == flags::bool_of(f, "ep"@)
        &&& self.echo_pprof_seconds == flags::int_of(f, "epd"@)
        &&& self.rate_plan is Some <==> flags::bool_of(f, "rate"@)
        &&& self.rate_plan matches Some(v) ==> is_plan(f, v)
        &&& clock::duration_nanos(self.rate_duration) == at_least(flags::int_of(f, "rd"@), 1)
            * 1_000_000_000
        &&& self.rate_send == flags::size_of(flags::int_of(f, "rr"@), 1)
        &&& self.rate_limit == flags::size_of(flags::int_of(f, "rl"@), 0)
        &&& self.rate_pprof == flags::bool_of(f, "rp"@)
        &&& self.rate_pprof_seconds == flags::int_of(f, "rpd"@)
    }
}

fn batch_asked(rb: i64) -> (n: usize)
    ensures
        n == asked_batch(rb as int),
{
    if rb < 0 {
        usize::MAX
    } else {
        size(rb, 0)
    }
}

fn at_least_of(n: i64, least: i64) -> (r: u64)
    requires
        least >= 0,
    ensures
        r == at_least(n as int, least as int),
        r <= i64::MAX,
{
    if n < least {
        least as u64
    } else {
        n as u64
    }
}

fn list_names() -> (s: String)
    ensures
        s@ == names_text(),
{
    let mut s = "[".to_owned();
    s.append(debug_string(FRAMEWORKS[0].0).as_str());
    s.append(", ");
    s.append(debug_string(FRAMEWORKS[1].0).as_str());
    s.append(", ");
    s.append(debug_string(FRAMEWORKS[2].0).as_str());
    s.append(", ");
    s.append(debug_string(FRAMEWORKS[3].0).as_str());
    s.append("]");
    s
}

fn rate_plan(f: &FlagSet) -> (r: Result<Option<(usize, usize)>, String>)
    requires
        f.wf(),
        has_client_flags(f@),
    ensures
        ({
            let rb = flags::int_of(f@, "rb"@);
            let rate = flags::size_of(flags::int_of(f@, "rr"@), 1) as nat;
            match r {
                Ok(p) => {
                    &&& flags::bool_of(f@, "rate"@) ==> asked_batch(rb) == 0 || plan::divides(
                        asked_batch(rb) as nat,
                        rate,
                    )
                    &&& p is Some <==> flags::bool_of(f@, "rate"@)
                    &&& p matches Some(v) ==> is_plan(f@, v)
                },
                Err(e) => {
                    &&& flags::bool_of(f@, "rate"@)
                    &&& asked_batch(rb) > 0
                    &&& !plan::divides(asked_batch(rb) as nat, rate)
                    &&& e@ == "-rb="@ + text::signed_decimal(rb) + ": "@ + plan::batch_error(
                        asked_batch(rb) as nat,
                        rate,
                    )
                },
            }
        }),
{
    proof {
        lemma_has(f@);
    }
    if !f.get_bool("rate") {
        return Ok(None);
    }
    let rb: i64 = f.get_int("rb");
    let rate: usize = size(f.get_int("rr"), 1);
    let payload: usize = size(f.get_int("b"), 1);
    match rate_batch(batch_asked(rb), rate, size(f.get_int("rbs"), 1), payload) {
        Ok(v) => Ok(Some(v)),
        Err(why) => {
            let mut e = "-rb=".to_owned();
            e.append(i64_text(rb).as_str());
            e.append(": ");
            e.append(why.as_str());
            Err(e)
        },
    }
}

proof fn lemma_has(f: FlagMap)
    requires
        has_client_flags(f),
    ensures
        forall|n: Seq<char>| client_flags().contains_key(n) ==> #[trigger] f.contains_key(n),
        client_flags().contains_key("rate"@),
{
    assert forall|n: Seq<char>| client_flags().contains_key(n) implies #[trigger] f.contains_key(
        n,
    ) by {
        assert(client_flags().dom().contains(n));
    }
}

fn check_first(f: &FlagSet) -> (r: Option<String>)
    requires
        f.wf(),
        has_client_flags(f@),
    ensures
        ({
            let sort = f@["sort"@].raw();
            let mode = f@["ps"@].raw();
            match r {
                Some(e) => settings_error(f@) == Some(e@),
                None => {
                    &&& sort == "result"@ || sort == "framework"@
                    &&& ps::is_mode(mode)
                    &&& !flags::bool_of(f@, "r"@)
                },
            }
        }),
{
    proof {
        lemma_has(f@);
    }
    let sort = f.get_str("sort");
    if !same(sort.as_str(), "result") && !same(sort.as_str(), "framework") {
        let mut e = "report: unknown sort order ".to_owned();
        e.append(debug_string(sort.as_str()).as_str());
        e.append(", want one of [result framework]");
        return Some(e);
    }
    match validate_mode(f.get_str("ps").as_str()) {
        Ok(_) => {},
        Err(e) => {
            return Some(e);
        },
    }
    if f.get_bool("r") {
        return Some(
            "-r: the report tables are written by benchreport; run script/report.sh".to_owned(),
        );
    }
    None
}

/// What the flags come to on a machine of that many CPUs, or what is wrong with
/// them.
pub fn settings(f: &FlagSet, cpus: usize) -> (r: Result<Settings, String>)
    requires
        f.wf(),
        has_client_flags(f@),
        cpus > 0,
    ensures
        match r {
            Ok(s) => settings_error(f@) is None && s.are_of(f@, cpus as nat) && s.threads > 0,
            Err(e) => settings_error(f@) == Some(e@),
        },
{
    proof {
        lemma_has(f@);
    }
    match check_first(f) {
        Some(e) => {
            return Err(e);
        },
        None => {},
    }
    let plan = match rate_plan(f) {
        Ok(p) => p,
        Err(e) => {
            return Err(e);
        },
    };
    let rb: i64 = f.get_int("rb");
    if rb < 0 {
        let mut e = "-rb=".to_owned();
        e.append(i64_text(rb).as_str());
        e.append(": want 0, which fits as many requests as -rbs holds, or more");
        return Err(e);
    }
    let framework = f.get_str("f");
    if !is_framework(framework.as_str()) {
        let mut e = "-f=".to_owned();
        e.append(framework.as_str());
        e.append(": unknown framework ");
        e.append(debug_string(framework.as_str()).as_str());
        e.append(", want one of ");
        e.append(list_names().as_str());
        return Err(e);
    }
    let t: i64 = f.get_int("t");
    let connections: usize = size(f.get_int("c"), 1);
    let dials: usize = size(f.get_int("dc"), 1);
    let interval: u64 = at_least_of(f.get_int("pi"), 1);
    let seconds: u64 = at_least_of(f.get_int("rd"), 1);
    Ok(
        Settings {
            framework,
            ip: f.get_str("ip"),
            ps_mode: f.get_str("ps"),
            preffix: f.get_str("preffix"),
            suffix: f.get_str("suffix"),
            threads: if t > 0 {
                size(t, 1)
            } else {
                cpus
            },
            connections,
            dial_concurrency: if dials < connections {
                dials
            } else {
                connections
            },
            dial_timeout: f.get_duration("dt"),
            dial_retries: size(f.get_int("dr"), 1),
            dial_retry_interval: f.get_duration("dri"),
            idle_timeout: f.get_duration("idle"),
            check: f.get_bool("check"),
            payload: size(f.get_int("b"), 1),
            ps_interval: duration_of(interval as u128 * 1_000_000),
            tpn: f.get_bool("tpn"),
            echo_concurrency: size(f.get_int("ec"), 1),
            echo_times: at_least_of(f.get_int("en"), 0),
            echo_limit: size(f.get_int("el"), 0),
            echo_pprof: f.get_bool("ep"),
            echo_pprof_seconds: f.get_int("epd"),
            rate_plan: plan,
            rate_duration: duration_of(seconds as u128 * 1_000_000_000),
            rate_send: size(f.get_int("rr"), 1),
            rate_limit: size(f.get_int("rl"), 0),
            rate_pprof: f.get_bool("rp"),
            rate_pprof_seconds: f.get_int("rpd"),
        },
    )
}

// ---------------------------------------------------------------------------
// What follows from them as the run goes on.

/// What each thread dials: how many connections, and how many at once, which is
/// at least one where it dials any.
pub fn dial_shares(connections: usize, concurrency: usize, threads: usize) -> (v: Vec<
    (usize, usize),
>)
    ensures
        v@.len() == threads,
        forall|i: int|
            0 <= i < threads ==> (#[trigger] v@[i]).0 == plan::cut(
                connections as nat,
                threads as nat,
                (i + 1) as nat,
            ) - plan::cut(connections as nat, threads as nat, i as nat),
        forall|i: int|
            0 <= i < threads ==> (#[trigger] v@[i]).1 == (if v@[i].0 == 0 {
                0
            } else {
                at_least(
                    plan::cut(concurrency as nat, threads as nat, (i + 1) as nat) - plan::cut(
                        concurrency as nat,
                        threads as nat,
                        i as nat,
                    ),
                    1,
                )
            }),
{
    let counts = split(connections, threads);
    let concs = split(concurrency, threads);
    let mut v: Vec<(usize, usize)> = Vec::new();
    let mut i: usize = 0;
    while i < threads
        invariant
            i <= threads,
            counts@.len() == threads,
            concs@.len() == threads,
            v@.len() == i,
            forall|k: int|
                0 <= k < i ==> (#[trigger] v@[k]).0 == counts@[k] && v@[k].1 == (if counts@[k]
                    == 0 {
                    0
                } else {
                    at_least(concs@[k] as int, 1)
                }),
        decreases threads - i,
    {
        let n: usize = if counts[i] == 0 {
            0
        } else if concs[i] < 1 {
            1
        } else {
            concs[i]
        };
        v.push((counts[i], n));
        i += 1;
    }
    v
}

/// How many connections have a request in flight at once, of those there are.
pub fn echo_concurrency(asked: usize, ready: usize) -> (n: usize)
    ensures
        n == (if asked < ready {
            asked
        } else {
            ready
        }),
{
    if asked < ready {
        asked
    } else {
        ready
    }
}

pub const MAX_WARMUP: u64 = 2_000_000;

/// How many requests warm the connections up: five on each, up to a limit.
pub fn warmup_times(ready: usize) -> (n: u64)
    ensures
        n == (if ready * 5 < MAX_WARMUP {
            ready * 5
        } else {
            MAX_WARMUP as int
        }),
{
    if ready < 400_000 {
        ready as u64 * 5
    } else {
        MAX_WARMUP
    }
}

/// How long it is from one batch to the next, sent that many times a second, a
/// number that is counted in 32 bits.
pub fn tick_of(tick_rate: usize) -> (d: Duration)
    requires
        tick_rate as nat % 0x1_0000_0000 != 0,
    ensures
        clock::duration_nanos(d) == 1_000_000_000int / (tick_rate as nat % 0x1_0000_0000) as int,
{
    let n: u64 = tick_rate as u64 % 0x1_0000_0000;
    duration_of(1_000_000_000u128 / n as u128)
}

// ---------------------------------------------------------------------------
// What that comes to.

/// The settings are what the flags say: each flag sets what it is for, a number that is
/// too small counts as the least there may be, times are in the units of their flags,
/// and no more connections are dialed at once than there are.
pub proof fn each_flag_sets_what_it_is_for(s: Settings, f: FlagMap, cpus: nat)
    requires
        s.are_of(f, cpus),
    ensures
        s.framework@ == f["f"@].raw() && s.ip@ == f["ip"@].raw() && s.ps_mode@ == f["ps"@].raw(),
        s.preffix@ == f["preffix"@].raw() && s.suffix@ == f["suffix"@].raw(),
        1 <= flags::int_of(f, "t"@) <= usize::MAX ==> s.threads == flags::int_of(f, "t"@),
        flags::int_of(f, "t"@) <= 0 ==> s.threads == cpus,
        1 <= flags::int_of(f, "c"@) <= usize::MAX ==> s.connections == flags::int_of(f, "c"@),
        flags::int_of(f, "c"@) < 1 ==> s.connections == 1,
        s.dial_concurrency <= s.connections,
        1 <= flags::int_of(f, "dc"@) <= s.connections ==> s.dial_concurrency == flags::int_of(
            f,
            "dc"@,
        ),
        flags::int_of(f, "dc"@) > s.connections ==> s.dial_concurrency == s.connections,
        flags::int_of(f, "dc"@) < 1 ==> s.dial_concurrency == 1,
        clock::duration_nanos(s.dial_timeout) == flags::nanos_of(f, "dt"@),
        clock::duration_nanos(s.dial_retry_interval) == flags::nanos_of(f, "dri"@),
        clock::duration_nanos(s.idle_timeout) == flags::nanos_of(f, "idle"@),
        1 <= flags::int_of(f, "dr"@) <= usize::MAX ==> s.dial_retries == flags::int_of(f, "dr"@),
        flags::int_of(f, "dr"@) < 1 ==> s.dial_retries == 1,
        s.check == flags::bool_of(f, "check"@) && s.tpn == flags::bool_of(f, "tpn"@),
        1 <= flags::int_of(f, "b"@) <= usize::MAX ==> s.payload == flags::int_of(f, "b"@),
        flags::int_of(f, "b"@) < 1 ==> s.payload == 1,
        flags::int_of(f, "pi"@) >= 1 ==> clock::duration_nanos(s.ps_interval) == flags::int_of(
            f,
            "pi"@,
        ) * 1000 * 1000,
        1 <= flags::int_of(f, "ec"@) <= usize::MAX ==> s.echo_concurrency == flags::int_of(
            f,
            "ec"@,
        ),
        flags::int_of(f, "en"@) >= 0 ==> s.echo_times == flags::int_of(f, "en"@),
        flags::int_of(f, "en"@) < 0 ==> s.echo_times == 0,
        0 <= flags::int_of(f, "el"@) <= usize::MAX ==> s.echo_limit == flags::int_of(f, "el"@),
        flags::int_of(f, "el"@) < 0 ==> s.echo_limit == 0,
        s.echo_pprof == flags::bool_of(f, "ep"@),
        s.echo_pprof_seconds == flags::int_of(f, "epd"@),
        flags::int_of(f, "rd"@) >= 1 ==> clock::duration_nanos(s.rate_duration) == flags::int_of(
            f,
            "rd"@,
        ) * 1000 * 1000 * 1000,
        1 <= flags::int_of(f, "rr"@) <= usize::MAX ==> s.rate_send == flags::int_of(f, "rr"@),
        0 <= flags::int_of(f, "rl"@) <= usize::MAX ==> s.rate_limit == flags::int_of(f, "rl"@),
        s.rate_pprof == flags::bool_of(f, "rp"@),
        s.rate_pprof_seconds == flags::int_of(f, "rpd"@),
{
}

/// BenchMultiplex runs if it is asked for, and then sends each connection exactly as
/// many requests a second as are asked for, in batches: of the size that is asked for,
/// or, where that is 0, of the most requests that divide the rate and whose bodies fit
/// in the bytes for them, or of one.
pub proof fn batches_make_up_the_rate(s: Settings, f: FlagMap, cpus: nat, b: nat, k: nat)
    requires
        s.are_of(f, cpus),
    ensures
        s.rate_plan is Some <==> flags::bool_of(f, "rate"@),
        s.rate_plan matches Some(v) ==> {
            &&& v.0 * v.1 == s.rate_send
            &&& v.0 > 0
            &&& 1 <= flags::int_of(f, "rb"@) <= usize::MAX ==> v.0 == flags::int_of(f, "rb"@)
            &&& flags::int_of(f, "rb"@) == 0 && 1 <= flags::int_of(f, "rbs"@) <= usize::MAX ==> v.0
                == 1 || v.0 * s.payload <= flags::int_of(f, "rbs"@)
            &&& flags::int_of(f, "rb"@) == 0 && 1 <= flags::int_of(f, "rbs"@) <= usize::MAX && b
                > v.0 && b * s.payload <= flags::int_of(f, "rbs"@) ==> b * k != s.rate_send
        },
{
    if s.rate_plan is Some {
        let v = s.rate_plan->Some_0;
        let rbs = flags::size_of(flags::int_of(f, "rbs"@), 1) as nat;
        let p = s.payload as nat;
        let rate = s.rate_send as nat;
        let most = plan::most_that_fit(rbs, p);
        plan::the_most_bodies_fit(rbs, p);
        plan::a_batch_goes_out_whole(v.0 as nat, rate);
        plan::a_batch_goes_out_whole(b, rate);
        if flags::int_of(f, "rb"@) == 0 {
            assert(asked_batch(flags::int_of(f, "rb"@)) == 0);
            if p <= rbs {
                assert(v.0 * p <= most * p) by (nonlinear_arith)
                    requires
                        v.0 <= most,
                ;
            }
            if b > v.0 && b * p <= rbs {
                assert(b <= most) by (nonlinear_arith)
                    requires
                        b * p <= rbs,
                        p <= rbs ==> rbs < (most + 1) * p,
                        p > rbs ==> most == 1,
                        b > 0,
                        p > 0,
                ;
                assert(!plan::divides(b, rate));
            }
        }
    }
}

/// There is something wrong with the flags exactly if the order of the report, the place
/// of the samples or the framework is none that there is, the report itself is asked for,
/// or the batch is negative or does not divide the rate that it is to make up.
pub proof fn nothing_else_is_wrong(f: FlagMap)
    requires
        flags::int_of(f, "rb"@) <= usize::MAX,
    ensures
        settings_error(f) is None <==> {
            let rb = flags::int_of(f, "rb"@);
            let rate = at_least(flags::int_of(f, "rr"@), 1);
            &&& f["sort"@].raw() == "result"@ || f["sort"@].raw() == "framework"@
            &&& f["ps"@].raw() == "auto"@ || f["ps"@].raw() == "local"@ || f["ps"@].raw()
                == "remote"@
            &&& !flags::bool_of(f, "r"@)
            &&& rb >= 0
            &&& flags::bool_of(f, "rate"@) && rb > 0 ==> plan::divides(
                rb as nat,
                flags::size_of(rate, 1) as nat,
            )
            &&& exists|i: int| config::framework_at(f["f"@].raw(), i)
        },
{
}

} // verus!
