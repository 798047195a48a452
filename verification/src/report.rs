//! The reports of a run, one per benchmark: what they hold, the block each
//! prints to the console, and the files it is written to. Columns that are
//! fractions are held as the text they print as.

use std::time::Duration;
use vstd::prelude::*;

use crate::clock;
use crate::engine::model::RateCounts;
use crate::stats;
use crate::stats::{low_bits, mem_string, time_string, Summary};
use crate::text;
use crate::text::{i64_text, same, u64_text, usize_text};

verus! {

pub const CLIENT_NAME: &'static str = "benchcli-rust";

pub const BENCH_MULTIPLEX: &'static str = "BenchMultiplex";

/// What a client's name begins with.
pub const CLIENT_PREFIX: &'static str = "benchcli-";

// ---------------------------------------------------------------------------
// Blocks.

/// A row of a block: a column's name and its value.
pub type RowView = (Seq<char>, Seq<char>);

pub open spec fn row_views(rows: Seq<(&'static str, String)>) -> Seq<RowView> {
    Seq::new(rows.len(), |i: int| (rows[i].0@, rows[i].1@))
}

/// The length in bytes of the longest name, or of "BenchType".
pub open spec fn width(rows: Seq<RowView>) -> nat
    decreases rows.len(),
{
    if rows.len() == 0 {
        9
    } else {
        let w = width(rows.drop_last());
        let n = vstd::utf8::encode_utf8(rows.last().0).len();
        if n > w {
            n
        } else {
            w
        }
    }
}

/// A name with spaces behind it, up to a width.
pub open spec fn padded(name: Seq<char>, width: nat) -> Seq<char> {
    name + Seq::new(
        if name.len() < width {
            (width - name.len()) as nat
        } else {
            0
        },
        |i: int| ' ',
    )
}

pub open spec fn row_text(name: Seq<char>, value: Seq<char>, width: nat) -> Seq<char> {
    padded(name, width) + ": "@ + value
}

/// The rows one below the other, with the benchmark's type in front of the
/// framework.
pub open spec fn block_text(bench: Seq<char>, rows: Seq<RowView>, width: nat) -> Seq<char>
    decreases rows.len(),
{
    if rows.len() == 0 {
        Seq::empty()
    } else {
        let row = rows.last();
        let before = block_text(bench, rows.drop_last(), width) + (if rows.len() > 1 {
            "\n"@
        } else {
            Seq::empty()
        });
        let kind = if row.0 == "Framework"@ {
            row_text("BenchType"@, bench, width) + "\n"@
        } else {
            Seq::empty()
        };
        before + kind + row_text(row.0, row.1, width)
    }
}

fn append_padded(s: &mut String, name: &str, width: usize)
    ensures
        final(s)@ == old(s)@ + padded(name@, width as nat),
{
    let ghost start = s@ + name@;
    s.append(name);
    let n: usize = text::chars_of(name).len();
    let mut i: usize = n;
    assert(s@ =~= start + Seq::new(0, |k: int| ' '));
    while i < width
        invariant
            n == name@.len(),
            n <= i,
            i <= width || i == n,
            s@ == start + Seq::new((i - n) as nat, |k: int| ' '),
        decreases width - i,
    {
        s.push(' ');
        i += 1;
        assert(s@ =~= start + Seq::new((i - n) as nat, |k: int| ' '));
    }
    assert(s@ =~= old(s)@ + padded(name@, width as nat));
}

fn append_row(s: &mut String, name: &str, value: &str, width: usize)
    ensures
        final(s)@ == old(s)@ + row_text(name@, value@, width as nat),
{
    append_padded(s, name, width);
    s.append(": ");
    s.append(value);
    assert(s@ =~= old(s)@ + row_text(name@, value@, width as nat));
}

fn width_of(rows: &Vec<(&'static str, String)>) -> (w: usize)
    ensures
        w == width(row_views(rows@)),
{
    let ghost all = row_views(rows@);
    let mut w: usize = 9;
    let mut i: usize = 0;
    assert(all.take(0) =~= Seq::empty());
    while i < rows.len()
        invariant
            i <= rows@.len(),
            all == row_views(rows@),
            w == width(all.take(i as int)),
        decreases rows@.len() - i,
    {
        proof {
            assert(all.take(i + 1).drop_last() =~= all.take(i as int));
            assert(all.take(i + 1).last() == all[i as int]);
        }
        let n: usize = rows[i].0.as_bytes().len();
        if n > w {
            w = n;
        }
        i += 1;
    }
    assert(all.take(i as int) =~= all);
    w
}

/// The block a benchmark prints to the console when it finishes: one
/// "name: value" line per column, the names padded to one width.
pub fn console(bench_type: &str, rows: &Vec<(&'static str, String)>) -> (s: String)
    ensures
        s@ == block_text(bench_type@, row_views(rows@), width(row_views(rows@))),
{
    let w: usize = width_of(rows);
    let ghost all = row_views(rows@);
    let mut s = String::new();
    let mut i: usize = 0;
    proof {
        assert(all.take(0) =~= Seq::empty());
        assert(s@ =~= Seq::<char>::empty());
    }
    while i < rows.len()
        invariant
            i <= rows@.len(),
            all == row_views(rows@),
            s@ == block_text(bench_type@, all.take(i as int), w as nat),
        decreases rows@.len() - i,
    {
        let ghost before = s@;
        proof {
            assert(all.take(i + 1).drop_last() =~= all.take(i as int));
            assert(all.take(i + 1).last() == all[i as int]);
        }
        if i > 0 {
            s.append("\n");
        }
        let ghost ended = s@;
        assert(ended =~= before + (if i > 0 {
            "\n"@
        } else {
            Seq::empty()
        }));
        if same(rows[i].0, "Framework") {
            append_row(&mut s, "BenchType", bench_type, w);
            s.append("\n");
        }
        let ghost typed = s@;
        assert(typed =~= ended + (if all[i as int].0 == "Framework"@ {
            row_text("BenchType"@, bench_type@, w as nat) + "\n"@
        } else {
            Seq::empty()
        }));
        append_row(&mut s, rows[i].0, rows[i].1.as_str(), w);
        i += 1;
    }
    assert(all.take(i as int) =~= all);
    s
}

/// The client's name without what every client's begins with.
pub open spec fn client() -> Seq<char> {
    "rust"@
}

/// A client's name is what follows the common beginning.
pub proof fn client_is_the_rest_of_its_name()
    ensures
        CLIENT_NAME@ == CLIENT_PREFIX@ + client(),
{
    reveal_strlit("benchcli-rust");
    reveal_strlit("benchcli-");
    reveal_strlit("rust");
    assert(CLIENT_NAME@ =~= CLIENT_PREFIX@ + client());
}

pub fn client_name() -> (s: String)
    ensures
        s@ == client(),
{
    "rust".to_owned()
}

pub open spec fn latency_views(s: Summary, tpn: bool) -> Seq<RowView> {
    if tpn {
        seq![
            ("Min"@, stats::time_text(s.min as int)),
            ("Avg"@, stats::time_text(s.avg as int)),
            ("Max"@, stats::time_text(s.max as int)),
            ("TP95"@, stats::time_text(s.tp95 as int)),
            ("TP99"@, stats::time_text(s.tp99 as int)),
        ]
    } else {
        Seq::empty()
    }
}

fn add_row(rows: &mut Vec<(&'static str, String)>, name: &'static str, value: String)
    ensures
        row_views(final(rows)@) == row_views(old(rows)@).push((name@, value@)),
{
    rows.push((name, value));
    assert(row_views(rows@) =~= row_views(old(rows)@).push((name@, value@)));
}

fn add_latency(rows: &mut Vec<(&'static str, String)>, s: &Summary, tpn: bool)
    ensures
        row_views(final(rows)@) == row_views(old(rows)@) + latency_views(*s, tpn),
{
    if tpn {
        add_row(rows, "Min", time_string(s.min));
        add_row(rows, "Avg", time_string(s.avg));
        add_row(rows, "Max", time_string(s.max));
        add_row(rows, "TP95", time_string(s.tp95));
        add_row(rows, "TP99", time_string(s.tp99));
    }
    assert(row_views(rows@) =~= row_views(old(rows)@) + latency_views(*s, tpn));
}

/// What a block says of the server's CPU and memory. The percents are written
/// with two places.
pub struct PsColumns {
    pub cpu_avg: String,
    pub cpu_max: String,
    pub mem_avg: u64,
    pub mem_max: u64,
}

pub open spec fn ps_views(ps: PsColumns) -> Seq<RowView> {
    seq![
        ("CPU Avg"@, ps.cpu_avg@ + "%"@),
        ("CPU Max"@, ps.cpu_max@ + "%"@),
        ("MEM Avg"@, stats::mem_text(ps.mem_avg as nat)),
        ("MEM Max"@, stats::mem_text(ps.mem_max as nat)),
    ]
}

fn percent(s: &str) -> (r: String)
    ensures
        r@ == s@ + "%"@,
{
    let mut r = s.to_owned();
    r.append("%");
    r
}

fn add_ps(rows: &mut Vec<(&'static str, String)>, ps: &PsColumns)
    ensures
        row_views(final(rows)@) == row_views(old(rows)@) + ps_views(*ps),
{
    add_row(rows, "CPU Avg", percent(ps.cpu_avg.as_str()));
    add_row(rows, "CPU Max", percent(ps.cpu_max.as_str()));
    add_row(rows, "MEM Avg", mem_string(ps.mem_avg));
    add_row(rows, "MEM Max", mem_string(ps.mem_max));
    assert(row_views(rows@) =~= row_views(old(rows)@) + ps_views(*ps));
}

// ---------------------------------------------------------------------------
// Connections.

pub struct ConnectionsReport {
    pub framework: String,
    pub bench_client: String,
    pub threads: usize,
    pub tps: i64,
    pub min: i64,
    pub avg: i64,
    pub max: i64,
    pub tp50: i64,
    pub tp75: i64,
    pub tp90: i64,
    pub tp95: i64,
    pub tp99: i64,
    pub used: i64,
    pub total: usize,
    pub success: i64,
    pub failed: i64,
    pub concurrency: usize,
}

/// A percentile, if they are reported.
pub open spec fn if_reported(tpn: bool, n: i64) -> i64 {
    if tpn {
        n
    } else {
        0
    }
}

fn reported(tpn: bool, n: i64) -> (r: i64)
    ensures
        r == if_reported(tpn, n),
{
    if tpn {
        n
    } else {
        0
    }
}

pub open spec fn connection_rows(r: ConnectionsReport, s: Summary, tpn: bool) -> Seq<RowView> {
    seq![
        ("Framework"@, r.framework@),
        ("Client"@, client()),
        ("Threads"@, text::decimal(r.threads as nat)),
        ("TPS"@, text::signed_decimal(r.tps as int)),
    ] + latency_views(s, tpn) + seq![
        ("Used"@, stats::time_text(r.used as int)),
        ("Total"@, text::decimal(r.total as nat)),
        ("Success"@, text::signed_decimal(r.success as int)),
        ("Failed"@, text::signed_decimal(r.failed as int)),
        ("Concurrency"@, text::decimal(r.concurrency as nat)),
    ]
}

impl ConnectionsReport {
    /// The report of dialing `total` connections.
    pub fn new(
        framework: &str,
        threads: usize,
        s: &Summary,
        tpn: bool,
        used: Duration,
        total: usize,
        success: i64,
        failed: i64,
        concurrency: usize,
    ) -> (r: Self)
        ensures
            r.framework@ == framework@,
            r.bench_client@ == CLIENT_NAME@,
            r.threads == threads,
            r.tps == s.tps,
            r.min == s.min,
            r.avg == s.avg,
            r.max == s.max,
            r.tp50 == if_reported(tpn, s.tp50),
            r.tp75 == if_reported(tpn, s.tp75),
            r.tp90 == if_reported(tpn, s.tp90),
            r.tp95 == if_reported(tpn, s.tp95),
            r.tp99 == if_reported(tpn, s.tp99),
            r.used == stats::low_i64(clock::duration_nanos(used)),
            r.total == total,
            r.success == success,
            r.failed == failed,
            r.concurrency == concurrency,
    {
        ConnectionsReport {
            framework: framework.to_owned(),
            bench_client: CLIENT_NAME.to_owned(),
            threads,
            tps: s.tps,
            min: s.min,
            avg: s.avg,
            max: s.max,
            tp50: reported(tpn, s.tp50),
            tp75: reported(tpn, s.tp75),
            tp90: reported(tpn, s.tp90),
            tp95: reported(tpn, s.tp95),
            tp99: reported(tpn, s.tp99),
            used: low_bits(used.as_nanos()),
            total,
            success,
            failed,
            concurrency,
        }
    }

    pub fn console(&self, s: &Summary, tpn: bool) -> (r: String)
        ensures
            r@ == block_text(
                "Connections"@,
                connection_rows(*self, *s, tpn),
                width(connection_rows(*self, *s, tpn)),
            ),
    {
        let mut rows: Vec<(&'static str, String)> = Vec::new();
        add_row(&mut rows, "Framework", self.framework.as_str().to_owned());
        add_row(&mut rows, "Client", client_name());
        add_row(&mut rows, "Threads", usize_text(self.threads));
        add_row(&mut rows, "TPS", i64_text(self.tps));
        add_latency(&mut rows, s, tpn);
        add_row(&mut rows, "Used", time_string(self.used));
        add_row(&mut rows, "Total", usize_text(self.total));
        add_row(&mut rows, "Success", i64_text(self.success));
        add_row(&mut rows, "Failed", i64_text(self.failed));
        add_row(&mut rows, "Concurrency", usize_text(self.concurrency));
        assert(row_views(rows@) =~= connection_rows(*self, *s, tpn));
        console("Connections", &rows)
    }
}

// ---------------------------------------------------------------------------
// BenchEcho.

pub struct BenchEchoReport {
    pub framework: String,
    pub bench_client: String,
    pub threads: usize,
    pub tps: i64,
    pub cpu_eer: String,
    pub mem_eer: String,
    pub min: i64,
    pub avg: i64,
    pub max: i64,
    pub tp50: i64,
    pub tp75: i64,
    pub tp90: i64,
    pub tp95: i64,
    pub tp99: i64,
    pub used: i64,
    pub total: u64,
    pub success: i64,
    pub failed: i64,
    pub connections: usize,
    pub concurrency: usize,
    pub payload: usize,
    pub ps: PsColumns,
    /// Whether the client was set to profile Go servers through pprof while
    /// this benchmark ran (-ep), which costs them throughput.
    pub pprof_on: bool,
}

/// How a benchmark that measures was run.
pub struct EchoRun {
    pub threads: usize,
    pub tpn: bool,
    pub used: Duration,
    pub total: u64,
    pub success: i64,
    pub failed: i64,
    pub connections: usize,
    pub concurrency: usize,
    pub payload: usize,
    pub pprof_on: bool,
}

pub open spec fn echo_rows(r: BenchEchoReport, s: Summary, tpn: bool) -> Seq<RowView> {
    seq![
        ("Framework"@, r.framework@),
        ("Client"@, client()),
        ("Threads"@, text::decimal(r.threads as nat)),
        ("TPS"@, text::signed_decimal(r.tps as int)),
        ("CPU EER"@, r.cpu_eer@),
        ("MEM EER"@, r.mem_eer@),
    ] + latency_views(s, tpn) + seq![
        ("Used"@, stats::time_text(r.used as int)),
        ("Total"@, text::decimal(r.total as nat)),
        ("Success"@, text::signed_decimal(r.success as int)),
        ("Failed"@, text::signed_decimal(r.failed as int)),
        ("Conns"@, text::decimal(r.connections as nat)),
        ("Concurrency"@, text::decimal(r.concurrency as nat)),
        ("Payload"@, text::decimal(r.payload as nat)),
    ] + ps_views(r.ps)
}

impl BenchEchoReport {
    /// The report of a run of BenchEcho, with the throughput the server got for
    /// each percent of a core and each megabyte it spent, written out.
    pub fn new(
        framework: &str,
        run: &EchoRun,
        s: &Summary,
        cpu_eer: String,
        mem_eer: String,
        ps: PsColumns,
    ) -> (r: Self)
        ensures
            r.framework@ == framework@,
            r.bench_client@ == CLIENT_NAME@,
            r.threads == run.threads,
            r.tps == s.tps,
            r.cpu_eer == cpu_eer,
            r.mem_eer == mem_eer,
            r.min == s.min,
            r.avg == s.avg,
            r.max == s.max,
            r.tp50 == if_reported(run.tpn, s.tp50),
            r.tp75 == if_reported(run.tpn, s.tp75),
            r.tp90 == if_reported(run.tpn, s.tp90),
            r.tp95 == if_reported(run.tpn, s.tp95),
            r.tp99 == if_reported(run.tpn, s.tp99),
            r.used == stats::low_i64(clock::duration_nanos(run.used)),
            r.total == run.total,
            r.success == run.success,
            r.failed == run.failed,
            r.connections == run.connections,
            r.concurrency == run.concurrency,
            r.payload == run.payload,
            r.ps == ps,
            r.pprof_on == run.pprof_on,
    {
        BenchEchoReport {
            framework: framework.to_owned(),
            bench_client: CLIENT_NAME.to_owned(),
            threads: run.threads,
            tps: s.tps,
            cpu_eer,
            mem_eer,
            min: s.min,
            avg: s.avg,
            max: s.max,
            tp50: reported(run.tpn, s.tp50),
            tp75: reported(run.tpn, s.tp75),
            tp90: reported(run.tpn, s.tp90),
            tp95: reported(run.tpn, s.tp95),
            tp99: reported(run.tpn, s.tp99),
            used: low_bits(run.used.as_nanos()),
            total: run.total,
            success: run.success,
            failed: run.failed,
            connections: run.connections,
            concurrency: run.concurrency,
            payload: run.payload,
            ps,
            pprof_on: run.pprof_on,
        }
    }

    pub fn console(&self, s: &Summary, tpn: bool) -> (r: String)
        ensures
            r@ == block_text(
                "BenchEcho"@,
                echo_rows(*self, *s, tpn),
                width(echo_rows(*self, *s, tpn)),
            ),
    {
        let mut rows: Vec<(&'static str, String)> = Vec::new();
        add_row(&mut rows, "Framework", self.framework.as_str().to_owned());
        add_row(&mut rows, "Client", client_name());
        add_row(&mut rows, "Threads", usize_text(self.threads));
        add_row(&mut rows, "TPS", i64_text(self.tps));
        add_row(&mut rows, "CPU EER", self.cpu_eer.as_str().to_owned());
        add_row(&mut rows, "MEM EER", self.mem_eer.as_str().to_owned());
        add_latency(&mut rows, s, tpn);
        add_row(&mut rows, "Used", time_string(self.used));
        add_row(&mut rows, "Total", u64_text(self.total));
        add_row(&mut rows, "Success", i64_text(self.success));
        add_row(&mut rows, "Failed", i64_text(self.failed));
        add_row(&mut rows, "Conns", usize_text(self.connections));
        add_row(&mut rows, "Concurrency", usize_text(self.concurrency));
        add_row(&mut rows, "Payload", usize_text(self.payload));
        add_ps(&mut rows, &self.ps);
        assert(row_views(rows@) =~= echo_rows(*self, *s, tpn));
        console("BenchEcho", &rows)
    }
}

// ---------------------------------------------------------------------------
// BenchMultiplex.

pub struct BenchRateReport {
    pub framework: String,
    pub bench_client: String,
    pub threads: usize,
    pub duration: i64,
    pub tps: i64,
    pub cpu_eer: String,
    pub mem_eer: String,
    pub send_times: u64,
    pub send_bytes: u64,
    pub recv_times: u64,
    pub recv_bytes: u64,
    pub connections: usize,
    pub send_rate: usize,
    pub batch: usize,
    pub payload: usize,
    pub ps: PsColumns,
    /// Whether the client was set to profile Go servers through pprof while
    /// this benchmark ran (-rp), which costs them throughput.
    pub pprof_on: bool,
}

/// How BenchMultiplex was run.
pub struct RateRun {
    pub threads: usize,
    pub duration: Duration,
    pub connections: usize,
    pub send_rate: usize,
    pub batch: usize,
    pub payload: usize,
    pub pprof_on: bool,
}

pub open spec fn rate_rows(r: BenchRateReport) -> Seq<RowView> {
    seq![
        ("Framework"@, r.framework@),
        ("Client"@, client()),
        ("Threads"@, text::decimal(r.threads as nat)),
        ("Duration"@, stats::time_text(r.duration as int)),
        ("TPS"@, text::signed_decimal(r.tps as int)),
        ("CPU EER"@, r.cpu_eer@),
        ("MEM EER"@, r.mem_eer@),
        ("Req Sent"@, text::decimal(r.send_times as nat)),
        ("Bytes Sent"@, stats::mem_text(r.send_bytes as nat)),
        ("Resp Recv"@, text::decimal(r.recv_times as nat)),
        ("Bytes Recv"@, stats::mem_text(r.recv_bytes as nat)),
        ("Conns"@, text::decimal(r.connections as nat)),
        ("SendRate"@, text::decimal(r.send_rate as nat)),
        ("Batch"@, text::decimal(r.batch as nat)),
        ("Payload"@, text::decimal(r.payload as nat)),
    ] + ps_views(r.ps)
}

/// Answers per second, without the fraction of one, as far as they fit.
pub open spec fn answers_per_second(recv: nat, duration: nat) -> int {
    let n = recv * 1_000_000_000 / duration;
    if n > i64::MAX {
        i64::MAX as int
    } else {
        n as int
    }
}

fn answer_rate(recv: u64, duration: u128) -> (r: i64)
    requires
        duration > 0,
    ensures
        r == answers_per_second(recv as nat, duration as nat),
{
    let n: u128 = recv as u128 * 1_000_000_000 / duration;
    if n > 0x7fff_ffff_ffff_ffff {
        i64::MAX
    } else {
        n as i64
    }
}

/// BenchMultiplex's TPS is how many whole answers fit in each second of its
/// duration: where it fits, as many a second are no more than were read back, and
/// one more a second would be too many. A run of one second has as many as it read
/// back.
pub proof fn tps_is_answers_per_second(recv: u64, duration: nat)
    requires
        duration > 0,
    ensures
        ({
            let tps = answers_per_second(recv as nat, duration);
            &&& 0 <= tps <= i64::MAX
            &&& tps * duration <= recv * 1_000_000_000
            &&& tps < i64::MAX ==> recv * 1_000_000_000 < (tps + 1) * duration
            &&& duration == 1_000_000_000 && recv <= i64::MAX ==> tps == recv
        }),
{
    let a = recv * 1_000_000_000;
    let d = duration as int;
    let q = a / d;
    assert(q * d <= a < (q + 1) * d && q >= 0) by (nonlinear_arith)
        requires
            d > 0,
            a >= 0,
            q == a / d,
    ;
    let tps = answers_per_second(recv as nat, duration);
    assert(tps * d <= q * d) by (nonlinear_arith)
        requires
            tps <= q,
            d > 0,
    ;
}

impl BenchRateReport {
    /// The report of a run of BenchMultiplex.
    pub fn new(
        framework: &str,
        run: &RateRun,
        counts: &RateCounts,
        cpu_eer: String,
        mem_eer: String,
        ps: PsColumns,
    ) -> (r: Self)
        requires
            clock::duration_nanos(run.duration) > 0,
        ensures
            r.framework@ == framework@,
            r.bench_client@ == CLIENT_NAME@,
            r.threads == run.threads,
            r.duration == stats::low_i64(clock::duration_nanos(run.duration)),
            r.tps == answers_per_second(
                counts.recv_times as nat,
                clock::duration_nanos(run.duration),
            ),
            r.cpu_eer == cpu_eer,
            r.mem_eer == mem_eer,
            r.send_times == counts.send_times,
            r.send_bytes == counts.send_bytes,
            r.recv_times == counts.recv_times,
            r.recv_bytes == counts.recv_bytes,
            r.connections == run.connections,
            r.send_rate == run.send_rate,
            r.batch == run.batch,
            r.payload == run.payload,
            r.ps == ps,
            r.pprof_on == run.pprof_on,
    {
        BenchRateReport {
            framework: framework.to_owned(),
            bench_client: CLIENT_NAME.to_owned(),
            threads: run.threads,
            duration: low_bits(run.duration.as_nanos()),
            tps: answer_rate(counts.recv_times, run.duration.as_nanos()),
            cpu_eer,
            mem_eer,
            send_times: counts.send_times,
            send_bytes: counts.send_bytes,
            recv_times: counts.recv_times,
            recv_bytes: counts.recv_bytes,
            connections: run.connections,
            send_rate: run.send_rate,
            batch: run.batch,
            payload: run.payload,
            ps,
            pprof_on: run.pprof_on,
        }
    }

    pub fn console(&self) -> (r: String)
        ensures
            r@ == block_text(BENCH_MULTIPLEX@, rate_rows(*self), width(rate_rows(*self))),
    {
        let mut rows: Vec<(&'static str, String)> = Vec::new();
        add_row(&mut rows, "Framework", self.framework.as_str().to_owned());
        add_row(&mut rows, "Client", client_name());
        add_row(&mut rows, "Threads", usize_text(self.threads));
        add_row(&mut rows, "Duration", time_string(self.duration));
        add_row(&mut rows, "TPS", i64_text(self.tps));
        add_row(&mut rows, "CPU EER", self.cpu_eer.as_str().to_owned());
        add_row(&mut rows, "MEM EER", self.mem_eer.as_str().to_owned());
        add_row(&mut rows, "Req Sent", u64_text(self.send_times));
        add_row(&mut rows, "Bytes Sent", mem_string(self.send_bytes));
        add_row(&mut rows, "Resp Recv", u64_text(self.recv_times));
        add_row(&mut rows, "Bytes Recv", mem_string(self.recv_bytes));
        add_row(&mut rows, "Conns", usize_text(self.connections));
        add_row(&mut rows, "SendRate", usize_text(self.send_rate));
        add_row(&mut rows, "Batch", usize_text(self.batch));
        add_row(&mut rows, "Payload", usize_text(self.payload));
        add_ps(&mut rows, &self.ps);
        assert(row_views(rows@) =~= rate_rows(*self));
        console(BENCH_MULTIPLEX, &rows)
    }
}

// ---------------------------------------------------------------------------
// Files.

pub open spec fn file_text(base: Seq<char>, preffix: Seq<char>, suffix: Seq<char>) -> Seq<char> {
    "./output/report/"@ + preffix + base + suffix
}

pub fn filename(base: &str, preffix: &str, suffix: &str) -> (s: String)
    ensures
        s@ == file_text(base@, preffix@, suffix@),
{
    let mut s = "./output/report/".to_owned();
    s.append(preffix);
    s.append(base);
    s.append(suffix);
    s
}

/// What a framework's report of a benchmark is called.
pub fn report_name(framework: &str, bench: &str) -> (s: String)
    ensures
        s@ == framework@ + "-"@ + bench@,
{
    let mut s = framework.to_owned();
    s.append("-");
    s.append(bench);
    s
}

/// The files of a report: its JSON, and the profiles that were taken during it.
pub struct ReportFiles {
    pub cpu_profile: Option<String>,
    pub mem_profile: Option<String>,
    pub json: String,
}

pub open spec fn profile_file(
    there: bool,
    base: Seq<char>,
    preffix: Seq<char>,
    suffix: Seq<char>,
) -> Option<Seq<char>> {
    if there {
        Some(file_text(base, preffix, suffix))
    } else {
        None
    }
}

fn longer(a: &str, b: &str) -> (s: String)
    ensures
        s@ == a@ + b@,
{
    let mut s = a.to_owned();
    s.append(b);
    s
}

/// Where a report goes, next to the others. A profile that came back empty is
/// not written.
pub fn report_files(
    name: &str,
    profiles: &Option<(Vec<u8>, Vec<u8>)>,
    preffix: &str,
    suffix: &str,
) -> (f: ReportFiles)
    ensures
        crate::engine::conn::text_view(f.cpu_profile) == profile_file(
            *profiles matches Some(p) && p.0@.len() > 0,
            name@,
            preffix@,
            suffix@ + ".pprof.cpu"@,
        ),
        crate::engine::conn::text_view(f.mem_profile) == profile_file(
            *profiles matches Some(p) && p.1@.len() > 0,
            name@,
            preffix@,
            suffix@ + ".pprof.mem"@,
        ),
        f.json@ == file_text(name@, preffix@, suffix@ + ".json"@),
{
    let (cpu, mem): (bool, bool) = match profiles {
        Some(p) => (p.0.len() > 0, p.1.len() > 0),
        None => (false, false),
    };
    ReportFiles {
        cpu_profile: if cpu {
            Some(filename(name, preffix, longer(suffix, ".pprof.cpu").as_str()))
        } else {
            None
        },
        mem_profile: if mem {
            Some(filename(name, preffix, longer(suffix, ".pprof.mem").as_str()))
        } else {
            None
        },
        json: filename(name, preffix, longer(suffix, ".json").as_str()),
    }
}

// ---------------------------------------------------------------------------
// What that comes to.

/// The names are padded to the longest of them in bytes, "BenchType" among them: none
/// is longer, and one is as long.
pub proof fn the_width_is_that_of_the_longest_name(rows: Seq<RowView>)
    ensures
        width(rows) >= 9,
        forall|i: int|
            0 <= i < rows.len() ==> vstd::utf8::encode_utf8((#[trigger] rows[i]).0).len() <= width(
                rows,
            ),
        width(rows) == 9 || exists|i: int|
            0 <= i < rows.len() && vstd::utf8::encode_utf8((#[trigger] rows[i]).0).len() == width(
                rows,
            ),
    decreases rows.len(),
{
    if rows.len() > 0 {
        let less = rows.drop_last();
        the_width_is_that_of_the_longest_name(less);
        let n = rows.len() - 1;
        assert forall|i: int| 0 <= i < rows.len() implies vstd::utf8::encode_utf8(
            (#[trigger] rows[i]).0,
        ).len() <= width(rows) by {
            if i < n {
                assert(less[i] == rows[i]);
            }
        }
        if width(rows) == width(less) {
            if width(rows) != 9 {
                let i = choose|i: int|
                    0 <= i < less.len() && vstd::utf8::encode_utf8((#[trigger] less[i]).0).len()
                        == width(less);
                assert(rows[i] == less[i]);
            }
        } else {
            assert(rows[n] == rows.last());
        }
    }
}

/// Whether a line is a row of a block: a name, spaces up to the width, a colon, a
/// space, and the value.
pub open spec fn is_row(line: Seq<char>, name: Seq<char>, value: Seq<char>, width: nat) -> bool {
    exists|pad: Seq<char>|
        {
            &&& line == #[trigger] (name + pad) + seq![':', ' '] + value
            &&& forall|i: int| 0 <= i < pad.len() ==> pad[i] == ' '
            &&& name.len() <= width ==> name.len() + pad.len() == width
            &&& name.len() >= width ==> pad.len() == 0
        }
}

proof fn lemma_row(name: Seq<char>, value: Seq<char>, width: nat)
    ensures
        is_row(row_text(name, value, width), name, value, width),
{
    let pad = padded(name, width).skip(name.len() as int);
    assert(padded(name, width) =~= name + pad);
    reveal_strlit(": ");
    assert(": "@ =~= seq![':', ' ']);
    assert(row_text(name, value, width) =~= (name + pad) + seq![':', ' '] + value);
}

/// A block has a line for each of its rows, in their order, with a line feed between
/// two. The benchmark's type stands in a line of its own, before the framework's.
pub proof fn a_block_has_a_line_for_each_row(
    bench: Seq<char>,
    rows: Seq<RowView>,
    name: Seq<char>,
    value: Seq<char>,
    width: nat,
)
    ensures
        name != "Framework"@ ==> {
            &&& is_row(block_text(bench, seq![(name, value)], width), name, value, width)
            &&& rows.len() > 0 ==> exists|line: Seq<char>|
                is_row(line, name, value, width) && block_text(
                    bench,
                    rows.push((name, value)),
                    width,
                ) == #[trigger] (block_text(bench, rows, width) + seq!['\n'] + line)
        },
        exists|a: Seq<char>, b: Seq<char>|
            is_row(a, "BenchType"@, bench, width) && is_row(b, "Framework"@, value, width)
                && block_text(bench, seq![("Framework"@, value)], width) == #[trigger] (a
                + seq!['\n'] + b),
{
    let none = Seq::<char>::empty();
    reveal_strlit("\n");
    assert("\n"@ =~= seq!['\n']);
    reveal_with_fuel(block_text, 2);
    let line = row_text(name, value, width);
    lemma_row(name, value, width);
    let one = seq![(name, value)];
    assert(one.drop_last() =~= Seq::empty());
    let more = rows.push((name, value));
    assert(more.drop_last() =~= rows);
    if name != "Framework"@ {
        assert(none + none + none + line =~= line);
        if rows.len() > 0 {
            let before = block_text(bench, rows, width);
            assert(before + "\n"@ + none + line =~= before + seq!['\n'] + line);
        }
    }
    let a = row_text("BenchType"@, bench, width);
    let b = row_text("Framework"@, value, width);
    lemma_row("BenchType"@, bench, width);
    lemma_row("Framework"@, value, width);
    let first = seq![("Framework"@, value)];
    assert(first.drop_last() =~= Seq::empty());
    assert(none + none + (a + "\n"@) + b =~= a + seq!['\n'] + b);
}

/// Whether a block has a column of that name with that value.
pub open spec fn shows(rows: Seq<RowView>, name: Seq<char>, value: Seq<char>) -> bool {
    exists|i: int| 0 <= i < rows.len() && #[trigger] rows[i] == (name, value)
}

/// The latencies are shown where they are asked for, and nowhere else; the block is
/// the same without them but for their rows.
pub proof fn latencies_are_shown_where_asked_for(s: Summary, r: ConnectionsReport, e: BenchEchoReport)
    ensures
        shows(latency_views(s, true), "Min"@, stats::time_text(s.min as int)),
        shows(latency_views(s, true), "Avg"@, stats::time_text(s.avg as int)),
        shows(latency_views(s, true), "Max"@, stats::time_text(s.max as int)),
        shows(latency_views(s, true), "TP95"@, stats::time_text(s.tp95 as int)),
        shows(latency_views(s, true), "TP99"@, stats::time_text(s.tp99 as int)),
        connection_rows(r, s, true).len() == connection_rows(r, s, false).len() + 5,
        echo_rows(e, s, true).len() == echo_rows(e, s, false).len() + 5,
        connection_rows(r, s, true) == connection_rows(r, s, false).take(4) + latency_views(s, true)
            + connection_rows(r, s, false).skip(4),
        echo_rows(e, s, true) == echo_rows(e, s, false).take(6) + latency_views(s, true)
            + echo_rows(e, s, false).skip(6),
        forall|n: i64| #[trigger] if_reported(true, n) == n,
        forall|n: i64| #[trigger] if_reported(false, n) == 0,
{
    let v = latency_views(s, true);
    assert(v[0] == ("Min"@, stats::time_text(s.min as int)));
    assert(v[1] == ("Avg"@, stats::time_text(s.avg as int)));
    assert(v[2] == ("Max"@, stats::time_text(s.max as int)));
    assert(v[3] == ("TP95"@, stats::time_text(s.tp95 as int)));
    assert(v[4] == ("TP99"@, stats::time_text(s.tp99 as int)));
    let c = connection_rows(r, s, false);
    assert(connection_rows(r, s, true) =~= c.take(4) + v + c.skip(4));
    let d = echo_rows(e, s, false);
    assert(echo_rows(e, s, true) =~= d.take(6) + v + d.skip(6));
}

/// The block of dialing shows what came of it, each number in the column of its name.
pub proof fn connections_are_reported(r: ConnectionsReport, s: Summary, tpn: bool)
    ensures
        ({
            let rows = connection_rows(r, s, tpn);
            &&& rows.len() == if tpn {
                14nat
            } else {
                9
            }
            &&& rows[0] == ("Framework"@, r.framework@)
            &&& shows(rows, "Client"@, "rust"@)
            &&& shows(rows, "Threads"@, text::decimal(r.threads as nat))
            &&& shows(rows, "TPS"@, text::signed_decimal(r.tps as int))
            &&& shows(rows, "Used"@, stats::time_text(r.used as int))
            &&& shows(rows, "Total"@, text::decimal(r.total as nat))
            &&& shows(rows, "Success"@, text::signed_decimal(r.success as int))
            &&& shows(rows, "Failed"@, text::signed_decimal(r.failed as int))
            &&& shows(rows, "Concurrency"@, text::decimal(r.concurrency as nat))
        }),
{
    let rows = connection_rows(r, s, tpn);
    let n = rows.len() - 5;
    assert(rows[1] == ("Client"@, "rust"@));
    assert(rows[2] == ("Threads"@, text::decimal(r.threads as nat)));
    assert(rows[3] == ("TPS"@, text::signed_decimal(r.tps as int)));
    assert(rows[n] == ("Used"@, stats::time_text(r.used as int)));
    assert(rows[n + 1] == ("Total"@, text::decimal(r.total as nat)));
    assert(rows[n + 2] == ("Success"@, text::signed_decimal(r.success as int)));
    assert(rows[n + 3] == ("Failed"@, text::signed_decimal(r.failed as int)));
    assert(rows[n + 4] == ("Concurrency"@, text::decimal(r.concurrency as nat)));
}

/// The block of BenchEcho shows what came of it, each number in the column of its
/// name.
pub proof fn echo_is_reported(r: BenchEchoReport, s: Summary, tpn: bool)
    ensures
        ({
            let rows = echo_rows(r, s, tpn);
            &&& rows.len() == if tpn {
                22nat
            } else {
                17
            }
            &&& rows[0] == ("Framework"@, r.framework@)
            &&& shows(rows, "Client"@, "rust"@)
            &&& shows(rows, "Threads"@, text::decimal(r.threads as nat))
            &&& shows(rows, "TPS"@, text::signed_decimal(r.tps as int))
            &&& shows(rows, "CPU EER"@, r.cpu_eer@)
            &&& shows(rows, "MEM EER"@, r.mem_eer@)
            &&& shows(rows, "Used"@, stats::time_text(r.used as int))
            &&& shows(rows, "Total"@, text::decimal(r.total as nat))
            &&& shows(rows, "Success"@, text::signed_decimal(r.success as int))
            &&& shows(rows, "Failed"@, text::signed_decimal(r.failed as int))
            &&& shows(rows, "Conns"@, text::decimal(r.connections as nat))
            &&& shows(rows, "Concurrency"@, text::decimal(r.concurrency as nat))
            &&& shows(rows, "Payload"@, text::decimal(r.payload as nat))
            &&& shows(rows, "CPU Avg"@, r.ps.cpu_avg@.push('%'))
            &&& shows(rows, "CPU Max"@, r.ps.cpu_max@.push('%'))
            &&& shows(rows, "MEM Avg"@, stats::mem_text(r.ps.mem_avg as nat))
            &&& shows(rows, "MEM Max"@, stats::mem_text(r.ps.mem_max as nat))
        }),
{
    let rows = echo_rows(r, s, tpn);
    let n = rows.len() - 11;
    assert(rows[1] == ("Client"@, "rust"@));
    assert(rows[2] == ("Threads"@, text::decimal(r.threads as nat)));
    assert(rows[3] == ("TPS"@, text::signed_decimal(r.tps as int)));
    assert(rows[4] == ("CPU EER"@, r.cpu_eer@));
    assert(rows[5] == ("MEM EER"@, r.mem_eer@));
    assert(rows[n] == ("Used"@, stats::time_text(r.used as int)));
    assert(rows[n + 1] == ("Total"@, text::decimal(r.total as nat)));
    assert(rows[n + 2] == ("Success"@, text::signed_decimal(r.success as int)));
    assert(rows[n + 3] == ("Failed"@, text::signed_decimal(r.failed as int)));
    assert(rows[n + 4] == ("Conns"@, text::decimal(r.connections as nat)));
    assert(rows[n + 5] == ("Concurrency"@, text::decimal(r.concurrency as nat)));
    assert(rows[n + 6] == ("Payload"@, text::decimal(r.payload as nat)));
    assert(rows.skip(n + 7) =~= ps_views(r.ps));
    lemma_ps_shown(r.ps, rows, n + 7);
}

proof fn lemma_ps_shown(ps: PsColumns, rows: Seq<RowView>, n: int)
    requires
        0 <= n,
        rows.len() == n + 4,
        rows.skip(n) == ps_views(ps),
    ensures
        shows(rows, "CPU Avg"@, ps.cpu_avg@.push('%')),
        shows(rows, "CPU Max"@, ps.cpu_max@.push('%')),
        shows(rows, "MEM Avg"@, stats::mem_text(ps.mem_avg as nat)),
        shows(rows, "MEM Max"@, stats::mem_text(ps.mem_max as nat)),
{
    reveal_strlit("%");
    assert(ps.cpu_avg@ + "%"@ =~= ps.cpu_avg@.push('%'));
    assert(ps.cpu_max@ + "%"@ =~= ps.cpu_max@.push('%'));
    let v = ps_views(ps);
    assert(rows[n] == v[0]);
    assert(rows[n + 1] == v[1]);
    assert(rows[n + 2] == v[2]);
    assert(rows[n + 3] == v[3]);
}

/// The block of BenchMultiplex shows what came of it, each number in the column of its
/// name.
pub proof fn multiplex_is_reported(r: BenchRateReport)
    ensures
        ({
            let rows = rate_rows(r);
            &&& rows.len() == 19
            &&& rows[0] == ("Framework"@, r.framework@)
            &&& shows(rows, "Client"@, "rust"@)
            &&& shows(rows, "Threads"@, text::decimal(r.threads as nat))
            &&& shows(rows, "Duration"@, stats::time_text(r.duration as int))
            &&& shows(rows, "TPS"@, text::signed_decimal(r.tps as int))
            &&& shows(rows, "CPU EER"@, r.cpu_eer@)
            &&& shows(rows, "MEM EER"@, r.mem_eer@)
            &&& shows(rows, "Req Sent"@, text::decimal(r.send_times as nat))
            &&& shows(rows, "Bytes Sent"@, stats::mem_text(r.send_bytes as nat))
            &&& shows(rows, "Resp Recv"@, text::decimal(r.recv_times as nat))
            &&& shows(rows, "Bytes Recv"@, stats::mem_text(r.recv_bytes as nat))
            &&& shows(rows, "Conns"@, text::decimal(r.connections as nat))
            &&& shows(rows, "SendRate"@, text::decimal(r.send_rate as nat))
            &&& shows(rows, "Batch"@, text::decimal(r.batch as nat))
            &&& shows(rows, "Payload"@, text::decimal(r.payload as nat))
            &&& shows(rows, "CPU Avg"@, r.ps.cpu_avg@.push('%'))
            &&& shows(rows, "CPU Max"@, r.ps.cpu_max@.push('%'))
            &&& shows(rows, "MEM Avg"@, stats::mem_text(r.ps.mem_avg as nat))
            &&& shows(rows, "MEM Max"@, stats::mem_text(r.ps.mem_max as nat))
        }),
{
    let rows = rate_rows(r);
    assert(rows[1] == ("Client"@, "rust"@));
    assert(rows[2] == ("Threads"@, text::decimal(r.threads as nat)));
    assert(rows[3] == ("Duration"@, stats::time_text(r.duration as int)));
    assert(rows[4] == ("TPS"@, text::signed_decimal(r.tps as int)));
    assert(rows[5] == ("CPU EER"@, r.cpu_eer@));
    assert(rows[6] == ("MEM EER"@, r.mem_eer@));
    assert(rows[7] == ("Req Sent"@, text::decimal(r.send_times as nat)));
    assert(rows[8] == ("Bytes Sent"@, stats::mem_text(r.send_bytes as nat)));
    assert(rows[9] == ("Resp Recv"@, text::decimal(r.recv_times as nat)));
    assert(rows[10] == ("Bytes Recv"@, stats::mem_text(r.recv_bytes as nat)));
    assert(rows[11] == ("Conns"@, text::decimal(r.connections as nat)));
    assert(rows[12] == ("SendRate"@, text::decimal(r.send_rate as nat)));
    assert(rows[13] == ("Batch"@, text::decimal(r.batch as nat)));
    assert(rows[14] == ("Payload"@, text::decimal(r.payload as nat)));
    assert(rows.skip(15) =~= ps_views(r.ps));
    lemma_ps_shown(r.ps, rows, 15);
}

/// Reports lie next to each other, each in a file of its own: with what the files'
/// names begin and end with the same, two reports have the same file only if they have
/// the same name. A profile has a file if there is one, next to the report's.
pub proof fn each_report_has_its_file(
    a: Seq<char>,
    b: Seq<char>,
    preffix: Seq<char>,
    suffix: Seq<char>,
    there: bool,
)
    ensures
        ({
            let dir = seq![
                '.', '/', 'o', 'u', 't', 'p', 'u', 't', '/', 'r', 'e', 'p', 'o', 'r', 't', '/',
            ];
            &&& dir.is_prefix_of(file_text(a, preffix, suffix))
            &&& file_text(a, preffix, suffix).skip(16) == preffix + a + suffix
        }),
        file_text(a, preffix, suffix) == file_text(b, preffix, suffix) ==> a == b,
        profile_file(there, a, preffix, suffix) is Some <==> there,
        there ==> profile_file(there, a, preffix, suffix) == Some(file_text(a, preffix, suffix)),
{
    reveal_strlit("./output/report/");
    let x = file_text(a, preffix, suffix);
    let y = file_text(b, preffix, suffix);
    assert(x.skip(16) =~= preffix + a + suffix);
    let n = 16 + preffix.len();
    assert(x.subrange(n as int, x.len() - suffix.len()) =~= a);
    assert(y.subrange(n as int, y.len() - suffix.len()) =~= b);
}

} // verus!
