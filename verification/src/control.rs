//! The control routes every server serves on the port after its last benchmark
//! port, over plain HTTP/1: /init starts the server sampling its own CPU and
//! memory and answers with its pid, and /ps answers with the samples.

use std::time::Duration;
use vstd::prelude::*;

use crate::clock;
use crate::engine::conn;
use crate::engine::conn::{lossy_string, Nanos};
use crate::procstat;
use crate::procstat::Sampler;
use crate::text;
use crate::text::{
    chars_of, debug_string, i64_text, index_from, parse_u16, parse_usize, same, string_of, u64_text,
    usize_text,
};
use crate::words;
use crate::words::{split_lines, split_words, trim_text};

verus! {

// ---------------------------------------------------------------------------
// What the client asks, and what it makes of the answers.

pub open spec fn request_text(method: Seq<char>, path: Seq<char>, addr: Seq<char>, len: nat) -> Seq<
    char,
> {
    let length = if method == "POST"@ {
        "Content-Length: "@ + text::decimal(len) + "\r\n"@
    } else {
        Seq::empty()
    };
    method + " "@ + path + " HTTP/1.0\r\nHost: "@ + addr + "\r\n"@ + length + "\r\n"@
}

/// The bytes of one HTTP/1.0 request to a control port: the server closes the
/// connection after the response, so its end is the end of the body.
pub fn request_bytes(method: &str, path: &str, addr: &str, body: &[u8]) -> (b: Vec<u8>)
    ensures
        b@ == vstd::utf8::encode_utf8(request_text(method@, path@, addr@, body@.len())) + body@,
{
    let mut s = method.to_owned();
    s.append(" ");
    s.append(path);
    s.append(" HTTP/1.0\r\nHost: ");
    s.append(addr);
    s.append("\r\n");
    if same(method, "POST") {
        s.append("Content-Length: ");
        s.append(usize_text(body.len()).as_str());
        s.append("\r\n");
    }
    s.append("\r\n");
    assert(s@ =~= request_text(method@, path@, addr@, body@.len()));
    let mut b: Vec<u8> = Vec::new();
    b.extend_from_slice(s.as_str().as_bytes());
    b.extend_from_slice(body);
    assert(b@ =~= vstd::utf8::encode_utf8(s@) + body@);
    b
}

/// Whether the head of a response ends here, with an empty line.
pub open spec fn is_break(b: Seq<u8>, k: int) -> bool {
    0 <= k && k + 4 <= b.len() && b[k] == 13 && b[k + 1] == 10 && b[k + 2] == 13 && b[k + 3] == 10
}

/// Where a head first ends.
pub open spec fn first_break(b: Seq<u8>, k: int) -> bool {
    is_break(b, k) && forall|j: int| #![trigger is_break(b, j)] 0 <= j < k ==> !is_break(b, j)
}

pub open spec fn head_end(b: Seq<u8>) -> Option<int> {
    if exists|k: int| first_break(b, k) {
        Some(choose|k: int| first_break(b, k))
    } else {
        None
    }
}

fn find_break(b: &Vec<u8>) -> (r: Option<usize>)
    ensures
        match r {
            Some(k) => head_end(b@) == Some(k as int) && is_break(b@, k as int),
            None => head_end(b@) is None,
        },
{
    let mut k: usize = 0;
    while k < b.len() && b.len() - k >= 4
        invariant
            k <= b@.len(),
            forall|j: int| #![trigger is_break(b@, j)] 0 <= j < k ==> !is_break(b@, j),
        decreases b@.len() - k,
    {
        if b[k] == 13 && b[k + 1] == 10 && b[k + 2] == 13 && b[k + 3] == 10 {
            assert(first_break(b@, k as int));
            proof {
                lemma_head_end(b@, k as int);
            }
            return Some(k);
        }
        k += 1;
    }
    proof {
        if exists|j: int| first_break(b@, j) {
            let j = choose|j: int| first_break(b@, j);
            assert(is_break(b@, j));
        }
    }
    None
}

/// A head ends where it first does.
pub proof fn lemma_head_end(b: Seq<u8>, k: int)
    requires
        first_break(b, k),
    ensures
        head_end(b) == Some(k),
{
    let j = choose|j: int| first_break(b, j);
    assert(first_break(b, j));
    if j < k {
        assert(!is_break(b, j));
    } else if k < j {
        assert(!is_break(b, k));
    }
}

/// The status in the head of a response: its second word.
pub open spec fn status_of(head: Seq<char>) -> Option<u16> {
    let w = words::words(head);
    if w.len() > 1 {
        match text::unsigned_number(w[1], u16::MAX as nat) {
            Some(n) => Some(n as u16),
            None => None,
        }
    } else {
        None
    }
}

pub open spec fn status_error(head: Seq<char>) -> Seq<char> {
    let l = words::lines(head);
    "malformed status line: "@ + (if l.len() > 0 {
        "Some("@ + text::debug_text(l[0]) + ")"@
    } else {
        "None"@
    })
}

/// The status and the body of a response, or what is wrong with it.
pub open spec fn reply_of(resp: Seq<u8>) -> Result<(u16, Seq<u8>), Seq<char>> {
    match head_end(resp) {
        None => Err("malformed response"@),
        Some(k) => {
            let head = conn::lossy(resp.take(k));
            match status_of(head) {
                Some(status) => Ok((status, resp.skip(k + 4))),
                None => Err(status_error(head)),
            }
        },
    }
}

fn read_status(head: &str) -> (r: Option<u16>)
    ensures
        r == status_of(head@),
{
    let w = split_words(head);
    proof {
        assert(text::texts(w@).len() == w@.len());
        if w@.len() > 1 {
            assert(text::texts(w@)[1] == w@[1]@);
        }
    }
    if w.len() > 1 {
        parse_u16(w[1].as_str())
    } else {
        None
    }
}

fn status_problem(head: &str) -> (e: String)
    ensures
        e@ == status_error(head@),
{
    let l = split_lines(head);
    proof {
        assert(text::texts(l@).len() == l@.len());
        if l@.len() > 0 {
            assert(text::texts(l@)[0] == l@[0]@);
        }
    }
    let mut e = "malformed status line: ".to_owned();
    if l.len() > 0 {
        e.append("Some(");
        e.append(debug_string(l[0].as_str()).as_str());
        e.append(")");
        assert(e@ =~= status_error(head@));
    } else {
        e.append("None");
    }
    e
}

/// Reads a whole response: its status, and what follows its head.
pub fn read_reply(resp: &Vec<u8>) -> (r: Result<(u16, Vec<u8>), String>)
    ensures
        match r {
            Ok(v) => reply_of(resp@) == Ok::<(u16, Seq<u8>), Seq<char>>((v.0, v.1@)),
            Err(e) => reply_of(resp@) == Err::<(u16, Seq<u8>), Seq<char>>(e@),
        },
{
    let k: usize = match find_break(resp) {
        Some(k) => k,
        None => {
            return Err("malformed response".to_owned());
        },
    };
    let mut head: Vec<u8> = Vec::new();
    let mut i: usize = 0;
    while i < k
        invariant
            i <= k,
            is_break(resp@, k as int),
            head@ == resp@.take(i as int),
        decreases k - i,
    {
        head.push(resp[i]);
        i += 1;
        assert(head@ =~= resp@.take(i as int));
    }
    let head = lossy_string(&head);
    match read_status(head.as_str()) {
        Some(status) => {
            assert(k + 4 <= resp.len());
            let body = procstat::rest_of(resp, k + 4);
            assert(body@ =~= resp@.skip(k + 4));
            Ok((status, body))
        },
        None => Err(status_problem(head.as_str())),
    }
}

/// How often a control request is tried.
pub const ATTEMPTS: u32 = 4;

/// What follows one try of a control request.
pub enum AfterTry {
    /// The server answered.
    Done(Vec<u8>),
    Failed(String),
    /// It is tried again after that many seconds; the text is to be logged.
    Again { seconds: u64, note: String },
}

pub enum AfterView {
    Done(Seq<u8>),
    Failed(Seq<char>),
    Again { seconds: nat, note: Seq<char> },
}

impl View for AfterTry {
    type V = AfterView;

    open spec fn view(&self) -> AfterView {
        match self {
            AfterTry::Done(b) => AfterView::Done(b@),
            AfterTry::Failed(e) => AfterView::Failed(e@),
            AfterTry::Again { seconds, note } => AfterView::Again {
                seconds: *seconds as nat,
                note: note@,
            },
        }
    }
}

pub open spec fn url(addr: Seq<char>, path: Seq<char>) -> Seq<char> {
    "http://"@ + addr + path
}

/// A reply the server actually produced ends the request, whatever its status;
/// only one that failed on the way is tried again, and each time after a longer
/// wait: the process may be slow to answer while it works through the backlog of
/// a benchmark that has just finished.
pub open spec fn after_try(
    addr: Seq<char>,
    path: Seq<char>,
    attempt: nat,
    got: Result<(u16, Seq<u8>), Seq<char>>,
) -> AfterView {
    match got {
        Ok((status, body)) => if status == 200 {
            AfterView::Done(body)
        } else {
            AfterView::Failed(
                url(addr, path) + ": status "@ + text::decimal(status as nat) + ": "@
                    + words::trimmed(conn::lossy(body)),
            )
        },
        Err(e) => {
            let last = url(addr, path) + ": "@ + e;
            if attempt < ATTEMPTS {
                AfterView::Again {
                    seconds: 2 * attempt,
                    note: "control request failed, retrying ("@ + text::decimal(attempt) + "/4): "@
                        + last,
                }
            } else {
                AfterView::Failed(last)
            }
        },
    }
}

pub open spec fn got_view(got: Result<(u16, Vec<u8>), String>) -> Result<
    (u16, Seq<u8>),
    Seq<char>,
> {
    match got {
        Ok(v) => Ok((v.0, v.1@)),
        Err(e) => Err(e@),
    }
}

/// What follows the `attempt`th try of a control request, the first being one.
pub fn tried(addr: &str, path: &str, attempt: u32, got: Result<(u16, Vec<u8>), String>) -> (r:
    AfterTry)
    ensures
        r@ == after_try(addr@, path@, attempt as nat, got_view(got)),
{
    let mut s = "http://".to_owned();
    s.append(addr);
    s.append(path);
    match got {
        Ok((status, body)) => {
            if status == 200 {
                return AfterTry::Done(body);
            }
            s.append(": status ");
            s.append(u64_text(status as u64).as_str());
            s.append(": ");
            s.append(trim_text(lossy_string(&body).as_str()).as_str());
            AfterTry::Failed(s)
        },
        Err(e) => {
            s.append(": ");
            s.append(e.as_str());
            if attempt < ATTEMPTS {
                let mut note = "control request failed, retrying (".to_owned();
                note.append(u64_text(attempt as u64).as_str());
                note.append("/4): ");
                note.append(s.as_str());
                AfterTry::Again { seconds: 2 * attempt as u64, note }
            } else {
                AfterTry::Failed(s)
            }
        },
    }
}

// ---------------------------------------------------------------------------
// What the server reads.

/// A request to a control port.
pub struct Request {
    pub method: String,
    pub path: String,
    /// The length its headers give its body.
    pub length: usize,
}

/// The most of a body that is read.
pub const MAX_CONTROL_BODY: usize = 1 << 20;

/// The word at a place, or none of a text.
pub open spec fn word_or_empty(s: Seq<char>, i: int) -> Seq<char> {
    if i < words::words(s).len() {
        words::words(s)[i]
    } else {
        Seq::empty()
    }
}

/// A target without its query.
pub open spec fn path_of(target: Seq<char>) -> Seq<char> {
    target.take(text::first_index(target, '?') as int)
}

pub open spec fn lower(c: char) -> char {
    if 'A' <= c && c <= 'Z' {
        ((c as int) + 32) as char
    } else {
        c
    }
}

fn lower_of(c: char) -> (r: char)
    ensures
        r == lower(c),
{
    if 'A' <= c && c <= 'Z' {
        ((c as u8) + 32) as char
    } else {
        c
    }
}

/// Whether two texts are the same but for the case of ASCII letters.
pub open spec fn same_but_case(a: Seq<char>, b: Seq<char>) -> bool {
    a.len() == b.len() && forall|i: int| 0 <= i < a.len() ==> lower(#[trigger] a[i]) == lower(b[i])
}

fn equal_but_case(a: &Vec<char>, to: usize, b: &str) -> (r: bool)
    requires
        to <= a@.len(),
    ensures
        r == same_but_case(a@.take(to as int), b@),
{
    let w = chars_of(b);
    let ghost x = a@.take(to as int);
    if to != w.len() {
        return false;
    }
    let mut i: usize = 0;
    while i < to
        invariant
            x == a@.take(to as int),
            to == w@.len(),
            w@ == b@,
            i <= to <= a@.len(),
            forall|k: int| 0 <= k < i ==> lower(#[trigger] x[k]) == lower(w@[k]),
        decreases to - i,
    {
        assert(x[i as int] == a@[i as int]);
        if lower_of(a[i]) != lower_of(w[i]) {
            return false;
        }
        i += 1;
    }
    true
}

pub open spec fn length_value(s: Seq<char>) -> usize {
    match text::unsigned_number(s, usize::MAX as nat) {
        Some(n) => n as usize,
        None => 0,
    }
}

/// The body's length after one more header.
pub open spec fn length_after(length: usize, h: Seq<char>) -> usize {
    let k = text::first_index(h, ':');
    if k < h.len() && same_but_case(h.take(k as int), "content-length"@) {
        length_value(words::trimmed(h.skip(k as int + 1)))
    } else {
        length
    }
}

/// Whether a line, none being the end of the request, ends the headers.
pub open spec fn ends_headers(h: Seq<char>) -> bool {
    h.len() == 0 || h == "\r\n"@ || h == "\n"@
}

impl Request {
    /// A request by its first line.
    pub fn new(line: &str) -> (r: Request)
        ensures
            r.method@ == word_or_empty(line@, 0),
            r.path@ == path_of(word_or_empty(line@, 1)),
            r.length == 0,
    {
        let w = split_words(line);
        proof {
            assert(text::texts(w@).len() == w@.len());
            assert forall|i: int| 0 <= i < w@.len() implies words::words(line@)[i] == (
            #[trigger] w@[i])@ by {
                assert(text::texts(w@)[i] == w@[i]@);
            }
        }
        let method = if w.len() > 0 {
            w[0].as_str().to_owned()
        } else {
            String::new()
        };
        let target = if w.len() > 1 {
            chars_of(w[1].as_str())
        } else {
            Vec::new()
        };
        assert(target@ =~= word_or_empty(line@, 1));
        assert(method@ =~= word_or_empty(line@, 0));
        assert(target@.skip(0) =~= target@);
        let k: usize = index_from(&target, 0, '?');
        let path = string_of(&target, 0, k);
        assert(target@.subrange(0, k as int) =~= path_of(target@));
        Request { method, path, length: 0 }
    }

    /// Takes in the next line of the headers, or says that they ended.
    pub fn header(&mut self, h: &str) -> (ended: bool)
        ensures
            ended == ends_headers(h@),
            final(self).method == old(self).method,
            final(self).path == old(self).path,
            final(self).length == (if ended {
                old(self).length
            } else {
                length_after(old(self).length, h@)
            }),
    {
        let v = chars_of(h);
        if v.len() == 0 || same(h, "\r\n") || same(h, "\n") {
            return true;
        }
        assert(v@.skip(0) =~= v@);
        let k: usize = index_from(&v, 0, ':');
        if k < v.len() && equal_but_case(&v, k, "content-length") {
            let value = string_of(&v, k + 1, v.len());
            assert(value@ =~= h@.skip(k + 1));
            self.length = match parse_usize(trim_text(value.as_str()).as_str()) {
                Some(n) => n,
                None => 0,
            };
        }
        false
    }

    /// How many bytes of body are to be read.
    pub fn body_length(&self) -> (n: usize)
        ensures
            n == (if self.length < MAX_CONTROL_BODY {
                self.length
            } else {
                MAX_CONTROL_BODY
            }),
    {
        if self.length < MAX_CONTROL_BODY {
            self.length
        } else {
            MAX_CONTROL_BODY
        }
    }

    pub fn route(&self) -> (r: Route)
        ensures
            r == route_of(self.path@),
    {
        if same(self.path.as_str(), "/init") {
            Route::Init
        } else if same(self.path.as_str(), "/ps") {
            Route::Ps
        } else {
            Route::Missing
        }
    }
}

/// What a request asks for.
#[derive(Clone, Copy, Debug, PartialEq, Eq, Structural)]
pub enum Route {
    Init,
    Ps,
    Missing,
}

pub open spec fn route_of(path: Seq<char>) -> Route {
    if path == "/init"@ {
        Route::Init
    } else if path == "/ps"@ {
        Route::Ps
    } else {
        Route::Missing
    }
}

// ---------------------------------------------------------------------------
// What it answers.

pub const NOT_FOUND: &'static str = "404 page not found\n";

pub open spec fn status_line(found: bool) -> Seq<char> {
    if found {
        "HTTP/1.1 200 OK"@
    } else {
        "HTTP/1.1 404 Not Found"@
    }
}

pub open spec fn response_head(found: bool, len: nat) -> Seq<char> {
    status_line(found) + "\r\n"@ + "Content-Type: text/plain; charset=utf-8"@ + "\r\n"@ + (
    "Content-Length: "@ + text::decimal(len)) + "\r\n"@ + "Connection: close"@
}

pub open spec fn response_text(found: bool, reply: Seq<char>) -> Seq<char> {
    response_head(found, vstd::utf8::encode_utf8(reply).len()) + "\r\n\r\n"@ + reply
}

/// The response that carries a reply, which was found or was not.
pub fn response(found: bool, reply: &str) -> (s: String)
    ensures
        s@ == response_text(found, reply@),
{
    let mut s = (if found {
        "HTTP/1.1 200 OK"
    } else {
        "HTTP/1.1 404 Not Found"
    }).to_owned();
    s.append("\r\n");
    s.append("Content-Type: text/plain; charset=utf-8");
    s.append("\r\n");
    s.append("Content-Length: ");
    s.append(usize_text(reply.as_bytes().len()).as_str());
    s.append("\r\n");
    s.append("Connection: close");
    assert(s@ =~= response_head(found, vstd::utf8::encode_utf8(reply@).len()));
    s.append("\r\n\r\n");
    s.append(reply);
    s
}

// ---------------------------------------------------------------------------
// The server's sampler.

/// The one sampler of a server, once /init has started it.
pub struct SamplerSlot {
    pub sampler: Option<Sampler>,
}

/// What to log of an /init.
pub open spec fn init_note(running: bool, started: Result<(), Seq<char>>) -> Option<Seq<char>> {
    if running {
        Some("/init called again; the ps counter is already running"@)
    } else {
        match started {
            Ok(_) => None,
            Err(e) => Some("starting the ps sampler failed: "@ + e),
        }
    }
}

impl SamplerSlot {
    pub fn new() -> (s: Self)
        ensures
            s.sampler is None,
    {
        SamplerSlot { sampler: None }
    }

    /// Starts sampling once, however many times /init arrives: a client that
    /// retried the request can deliver it twice. The reply is the pid.
    pub fn init(
        &mut self,
        pid: i32,
        interval: Duration,
        first: Result<(Duration, u64), String>,
        now: Nanos,
    ) -> (r: (String, Option<String>))
        ensures
            r.0@ == text::signed_decimal(pid as int),
            old(self).sampler is Some ==> *final(self) == *old(self),
            old(self).sampler is None ==> (final(self).sampler is Some <==> first is Ok),
            old(self).sampler is None ==> (final(self).sampler matches Some(s) ==> {
                &&& s.wf()
                &&& s.spec_pid() == pid
                &&& s.spec_interval() == procstat::interval_of(interval)
                &&& s@ == procstat::started(clock::duration_nanos(first->Ok_0.0), now)
            }),
            conn::text_view(r.1) == init_note(
                old(self).sampler is Some,
                match first {
                    Ok(_) => Ok(()),
                    Err(e) => Err(procstat::start_error(pid, e@)),
                },
            ),
    {
        let reply = i64_text(pid as i64);
        if self.sampler.is_some() {
            return (
                reply,
                Some("/init called again; the ps counter is already running".to_owned()),
            );
        }
        match Sampler::start(pid, interval, first, now) {
            Ok(s) => {
                self.sampler = Some(s);
                (reply, None)
            },
            Err(e) => {
                let mut note = "starting the ps sampler failed: ".to_owned();
                note.append(e.as_str());
                (reply, Some(note))
            },
        }
    }
}

// ---------------------------------------------------------------------------
// What one end writes, the other reads.

proof fn lemma_encode_concat(a: Seq<char>, b: Seq<char>)
    ensures
        vstd::utf8::encode_utf8(a + b) == vstd::utf8::encode_utf8(a) + vstd::utf8::encode_utf8(b),
    decreases a.len(),
{
    if a.len() == 0 {
        assert(a + b =~= b);
        assert(vstd::utf8::encode_utf8(a) + vstd::utf8::encode_utf8(b) =~= vstd::utf8::encode_utf8(
            b,
        ));
    } else {
        lemma_encode_concat(a.drop_first(), b);
        assert((a + b).drop_first() =~= a.drop_first() + b);
        assert(vstd::utf8::encode_utf8(a + b) =~= vstd::utf8::encode_utf8(a)
            + vstd::utf8::encode_utf8(b));
    }
}

/// Whether a text is of ASCII characters and no carriage return in it is
/// followed, after one more character, by another or by its end.
spec fn plain(s: Seq<char>) -> bool {
    &&& vstd::utf8::is_ascii_chars(s)
    &&& forall|i: int|
        0 <= i < s.len() && #[trigger] s[i] == '\r' ==> i + 2 < s.len() && s[i + 2] != '\r'
}

/// Whether a text is of ASCII characters other than a carriage return.
spec fn one_line(s: Seq<char>) -> bool {
    &&& s.len() > 0
    &&& forall|i: int|
        0 <= i < s.len() ==> '\0' <= #[trigger] s[i] <= '\u{7f}' && s[i] != '\r'
}

proof fn lemma_more_lines(s: Seq<char>, t: Seq<char>)
    requires
        plain(s),
        one_line(t),
    ensures
        plain(s + "\r\n"@ + t),
{
    reveal_strlit("\r\n");
    let u = s + "\r\n"@ + t;
    let n = s.len() as int;
    assert forall|i: int| 0 <= i < u.len() implies '\0' <= #[trigger] u[i] <= '\u{7f}' by {
        if i < n {
            assert(u[i] == s[i]);
        } else if i >= n + 2 {
            assert(u[i] == t[i - n - 2]);
        }
    }
    assert forall|i: int| 0 <= i < u.len() && #[trigger] u[i] == '\r' implies i + 2 < u.len() && u[i
        + 2] != '\r' by {
        if i < n {
            assert(u[i] == s[i]);
            assert(u[i + 2] == s[i + 2]);
        } else if i == n {
            assert(u[i + 2] == t[0]);
        } else if i >= n + 2 {
            assert(u[i] == t[i - n - 2]);
        }
    }
}

proof fn lemma_head_is_plain(found: bool, len: nat)
    ensures
        plain(response_head(found, len)),
{
    reveal_strlit("HTTP/1.1 200 OK");
    reveal_strlit("HTTP/1.1 404 Not Found");
    reveal_strlit("Content-Type: text/plain; charset=utf-8");
    reveal_strlit("Content-Length: ");
    reveal_strlit("Connection: close");
    text::lemma_decimal_digits(len);
    let first = status_line(found);
    assert(plain(first));
    let kind = "Content-Type: text/plain; charset=utf-8"@;
    assert(one_line(kind));
    lemma_more_lines(first, kind);
    let length = "Content-Length: "@ + text::decimal(len);
    assert forall|i: int| 0 <= i < length.len() implies '\0' <= #[trigger] length[i] <= '\u{7f}'
        && length[i] != '\r' by {
        if i >= 16 {
            assert(text::is_digit(text::decimal(len)[i - 16]));
        }
    }
    lemma_more_lines(first + "\r\n"@ + kind, length);
    assert(one_line("Connection: close"@));
    lemma_more_lines(first + "\r\n"@ + kind + "\r\n"@ + length, "Connection: close"@);
}

proof fn lemma_status(found: bool, len: nat)
    ensures
        status_of(response_head(found, len)) == Some(
            if found {
                200u16
            } else {
                404u16
            },
        ),
{
    reveal_strlit("HTTP/1.1 200 OK");
    reveal_strlit("HTTP/1.1 404 Not Found");
    reveal_strlit("HTTP/1.1");
    reveal_strlit("200");
    reveal_strlit("404");
    let head = response_head(found, len);
    let line = status_line(found);
    let version = "HTTP/1.1"@;
    let number = if found {
        "200"@
    } else {
        "404"@
    };
    let rest = head.skip(13);
    assert(line.take(13) =~= version + seq![' '] + number + seq![' ']);
    assert(head.take(13) =~= line.take(13));
    assert(head =~= version + seq![' '] + (number + seq![' '] + rest));
    words::the_first_word(version, ' ', number + seq![' '] + rest);
    words::the_first_word(number, ' ', rest);
    let w = words::words(head);
    assert(w[1] == number);
    reveal_with_fuel(text::value_of, 4);
    assert(number.drop_last().drop_last().drop_last() =~= Seq::<char>::empty());
    assert(text::all_digits(number));
}

/// The client reads a server's response as what it was made of: whether the
/// reply was found, and the reply.
pub proof fn a_response_reads_back(found: bool, reply: Seq<char>)
    ensures
        reply_of(vstd::utf8::encode_utf8(response_text(found, reply))) == Ok::<
            (u16, Seq<u8>),
            Seq<char>,
        >(
            (
                if found {
                    200u16
                } else {
                    404u16
                },
                vstd::utf8::encode_utf8(reply),
            ),
        ),
{
    let body = vstd::utf8::encode_utf8(reply);
    let head = response_head(found, body.len());
    let gap = "\r\n\r\n"@;
    let b = vstd::utf8::encode_utf8(response_text(found, reply));
    let h = vstd::utf8::encode_utf8(head);
    let g = vstd::utf8::encode_utf8(gap);
    lemma_encode_concat(head + gap, reply);
    lemma_encode_concat(head, gap);
    lemma_head_is_plain(found, body.len());
    vstd::utf8::is_ascii_chars_encode_utf8(head);
    reveal_strlit("\r\n\r\n");
    assert(vstd::utf8::is_ascii_chars(gap));
    vstd::utf8::is_ascii_chars_encode_utf8(gap);
    assert(b =~= h + g + body);
    let k = head.len() as int;
    assert(gap[0] as u8 == 13 && gap[1] as u8 == 10 && gap[2] as u8 == 13 && gap[3] as u8 == 10);
    assert(b[k] == g[0] && b[k + 1] == g[1] && b[k + 2] == g[2] && b[k + 3] == g[3]);
    assert(is_break(b, k));
    assert forall|j: int| #![trigger is_break(b, j)] 0 <= j < k implies !is_break(b, j) by {
        assert(b[j] == h[j]);
        assert(head[j] as u8 == h[j]);
        if is_break(b, j) {
            assert(head[j] == '\r');
            assert(b[j + 2] == h[j + 2]);
            assert(head[j + 2] as u8 == h[j + 2]);
        }
    }
    lemma_head_end(b, k);
    assert(b.take(k) =~= h);
    assert(b.skip(k + 4) =~= body);
    vstd::utf8::encode_utf8_valid_utf8(head);
    vstd::utf8::encode_utf8_decode_utf8(head);
    lemma_status(found, body.len());
}

/// A server reads the lines of a client's request as what they were made of.
pub proof fn a_request_reads_back(
    method: Seq<char>,
    path: Seq<char>,
    addr: Seq<char>,
    len: nat,
    before: usize,
)
    requires
        method.len() > 0,
        path.len() > 0,
        forall|i: int| 0 <= i < method.len() ==> !words::is_white(#[trigger] method[i]),
        forall|i: int| 0 <= i < path.len() ==> !words::is_white(#[trigger] path[i]),
        len <= usize::MAX,
    ensures
        ({
            let first = method + " "@ + path + " HTTP/1.0\r\n"@;
            let host = "Host: "@ + addr + "\r\n"@;
            let length = "Content-Length: "@ + text::decimal(len) + "\r\n"@;
            &&& request_text(method, path, addr, len) == first + host + (if method == "POST"@ {
                length
            } else {
                Seq::empty()
            }) + "\r\n"@
            &&& word_or_empty(first, 0) == method
            &&& word_or_empty(first, 1) == path
            &&& !ends_headers(host) && length_after(before, host) == before
            &&& !ends_headers(length) && length_after(before, length) == len
            &&& ends_headers("\r\n"@)
        }),
{
    reveal_strlit(" ");
    reveal_strlit("\r\n");
    reveal_strlit("\n");
    reveal_strlit(" HTTP/1.0\r\n");
    reveal_strlit(" HTTP/1.0\r\nHost: ");
    reveal_strlit("Host: ");
    reveal_strlit("Content-Length: ");
    reveal_strlit("content-length");
    let first = method + " "@ + path + " HTTP/1.0\r\n"@;
    let host = "Host: "@ + addr + "\r\n"@;
    let digits = text::decimal(len);
    let length = "Content-Length: "@ + digits + "\r\n"@;
    assert(" HTTP/1.0\r\nHost: "@ =~= " HTTP/1.0\r\n"@ + "Host: "@);
    assert(request_text(method, path, addr, len) =~= first + host + (if method == "POST"@ {
        length
    } else {
        Seq::empty()
    }) + "\r\n"@);
    let tail = " HTTP/1.0\r\n"@.skip(1);
    assert(first =~= method + seq![' '] + (path + seq![' '] + tail));
    words::the_first_word(method, ' ', path + seq![' '] + tail);
    words::the_first_word(path, ' ', tail);
    assert(host[0] == 'H');
    assert(length[0] == 'C');
    text::lemma_first_index_is(host, ':', 4);
    assert(host.take(4).len() == 4);
    text::lemma_first_index_is(length, ':', 14);
    assert(same_but_case(length.take(14), "content-length"@));
    text::lemma_decimal_digits(len);
    let value = length.skip(15);
    assert(value =~= seq![' '] + digits + seq!['\r', '\n']);
    words::trims_to(seq![' '], digits, seq!['\r', '\n']);
    text::decimal_reads_back(len, usize::MAX as nat);
}

/// An answer ends a control request, well if its status is 200 and badly otherwise; what
/// failed on the way is tried again, three times at most, after two seconds, four and
/// six.
pub proof fn only_what_failed_on_the_way_is_tried_again(
    addr: Seq<char>,
    path: Seq<char>,
    attempt: nat,
    status: u16,
    body: Seq<u8>,
    err: Seq<char>,
)
    requires
        attempt >= 1,
    ensures
        after_try(addr, path, attempt, Ok((200u16, body))) == AfterView::Done(body),
        status != 200 ==> after_try(addr, path, attempt, Ok((status, body))) == AfterView::Failed(
            "http://"@ + addr + path + ": status "@ + text::decimal(status as nat) + ": "@
                + words::trimmed(conn::lossy(body)),
        ),
        attempt <= 3 ==> (after_try(addr, path, attempt, Err(err)) matches AfterView::Again {
            seconds,
            note,
        } && seconds == attempt + attempt),
        attempt >= 4 ==> after_try(addr, path, attempt, Err(err)) == AfterView::Failed(
            "http://"@ + addr + path + ": "@ + err,
        ),
{
}

/// The path of a target alone decides on its route, whatever its query: there are two.
pub proof fn the_path_decides_on_the_route(path: Seq<char>, query: Seq<char>)
    requires
        forall|i: int| 0 <= i < path.len() ==> path[i] != '?',
    ensures
        path_of(path) == path,
        path_of(path + seq!['?'] + query) == path,
        route_of(path) == Route::Init <==> path == "/init"@,
        route_of(path) == Route::Ps <==> path == "/ps"@,
{
    let target = path + seq!['?'] + query;
    text::lemma_first_index_is(path, '?', path.len() as int);
    assert(path.take(path.len() as int) =~= path);
    text::lemma_first_index_is(target, '?', path.len() as int);
    assert(target.take(path.len() as int) =~= path);
    reveal_strlit("/init");
    reveal_strlit("/ps");
    assert("/init"@.len() != "/ps"@.len());
}

/// Texts that differ in the case of letters alone are the same but for case, and no
/// others.
pub proof fn case_makes_no_difference(a: Seq<char>, c: char, d: char)
    ensures
        same_but_case(a, a),
        'A' <= c <= 'Z' && d as int == c as int + ('a' as int - 'A' as int) ==> same_but_case(
            a.push(c),
            a.push(d),
        ) && same_but_case(a.push(d), a.push(c)),
        !('A' <= c <= 'Z') && !('A' <= d <= 'Z') && c != d ==> !same_but_case(a.push(c), a.push(d)),
{
    let x = a.push(c);
    let y = a.push(d);
    let n = a.len() as int;
    assert(x[n] == c && y[n] == d);
    if 'A' <= c <= 'Z' && d as int == c as int + 32 {
        assert(lower(c) == d);
        assert(lower(d) == d);
    }
}

/// A sampler is started once: what is said of an /init says if one was running, or why
/// none could be started.
pub proof fn an_init_says_what_came_of_it(e: Seq<char>, started: Result<(), Seq<char>>)
    ensures
        init_note(false, Ok(())) is None,
        init_note(false, Err(e)) == Some("starting the ps sampler failed: "@ + e),
        init_note(true, started) is Some,
{
}

} // verus!
