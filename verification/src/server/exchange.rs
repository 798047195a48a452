//! The requests on one connection, and the responses to them.

use std::collections::HashMap;
use vstd::prelude::*;

use crate::engine::conn;
use crate::engine::conn::{
    BodySent, ConnView, EventView, H3Event, H3View, RawHeader, RawHeaderView,
};
use crate::engine::setup;
use crate::engine::setup::{header, Header, HeaderView};
use crate::text;
use crate::text::{latin_string, parse_usize, same, usize_text};

verus! {

/// What a request body may grow to before the request is refused.
pub const MAX_BODY: usize = 0x100_0000;

pub struct Req {
    pub echo: bool,
    pub body: Vec<u8>,
    pub too_large: bool,
}

pub struct ReqView {
    pub echo: bool,
    pub body: Seq<u8>,
    pub too_large: bool,
}

impl View for Req {
    type V = ReqView;

    open spec fn view(&self) -> ReqView {
        ReqView { echo: self.echo, body: self.body@, too_large: self.too_large }
    }
}

/// A response, or what of it did not fit in its stream's window when it was
/// sent.
pub struct Pending {
    pub stream: u64,
    /// Its headers, until they are sent.
    pub headers: Option<Vec<Header>>,
    pub body: Vec<u8>,
    pub off: usize,
}

pub struct PendingView {
    pub stream: u64,
    pub headers: Option<Seq<HeaderView>>,
    pub body: Seq<u8>,
    pub off: usize,
}

impl View for Pending {
    type V = PendingView;

    open spec fn view(&self) -> PendingView {
        PendingView {
            stream: self.stream,
            headers: match self.headers {
                Some(h) => Some(h@.map_values(|x: Header| x@)),
                None => None,
            },
            body: self.body@,
            off: self.off,
        }
    }
}

// ---------------------------------------------------------------------------
// What a request asks for.

/// Whether the headers ask for the echo route: the last path they give is its.
pub open spec fn asks_echo(list: Seq<RawHeaderView>) -> bool
    decreases list.len(),
{
    if list.len() == 0 {
        false
    } else if text::latin(list.last().name) == ":path"@ {
        text::latin(list.last().value) == "/echo"@
    } else {
        asks_echo(list.drop_last())
    }
}

/// How long the headers say that the body is, or `payload` where they do not.
pub open spec fn said_length(list: Seq<RawHeaderView>, payload: usize) -> usize
    decreases list.len(),
{
    if list.len() == 0 {
        payload
    } else if text::latin(list.last().name) == "content-length"@ {
        match text::unsigned_number(text::latin(list.last().value), usize::MAX as nat) {
            Some(n) => n as usize,
            None => payload,
        }
    } else {
        said_length(list.drop_last(), payload)
    }
}

proof fn lemma_names()
    ensures
        ":path"@ != "content-length"@,
{
    reveal_strlit(":path");
    reveal_strlit("content-length");
    assert(":path"@.len() != "content-length"@.len());
}

/// Reads what a request asks for off its headers: whether it is the echo, and
/// how long its body is going to be.
pub fn read_headers(list: &Vec<RawHeader>, payload: usize) -> (r: (bool, usize))
    ensures
        r.0 == asks_echo(list@.map_values(|h: RawHeader| h@)),
        r.1 == said_length(list@.map_values(|h: RawHeader| h@), payload),
{
    let ghost all = list@.map_values(|h: RawHeader| h@);
    let mut echo = false;
    let mut length: usize = payload;
    let mut i: usize = 0;
    while i < list.len()
        invariant
            i <= list@.len(),
            all == list@.map_values(|h: RawHeader| h@),
            echo == asks_echo(all.take(i as int)),
            length == said_length(all.take(i as int), payload),
        decreases list@.len() - i,
    {
        proof {
            lemma_names();
            assert(all.take(i + 1).drop_last() =~= all.take(i as int));
            assert(all.take(i + 1).last() == list@[i as int]@);
        }
        let name = latin_string(list[i].name.as_slice());
        if same(name.as_str(), ":path") {
            echo = same(latin_string(list[i].value.as_slice()).as_str(), "/echo");
        } else if same(name.as_str(), "content-length") {
            length = match parse_usize(latin_string(list[i].value.as_slice()).as_str()) {
                Some(n) => n,
                None => payload,
            };
        }
        i += 1;
    }
    assert(all.take(i as int) =~= all);
    (echo, length)
}

impl ReqView {
    pub open spec fn fresh(echo: bool) -> ReqView {
        ReqView { echo, body: Seq::empty(), too_large: false }
    }

    /// Takes in a piece of the body, or refuses the request if it is too much.
    pub open spec fn take_in(self, bytes: Seq<u8>) -> ReqView {
        if self.body.len() + bytes.len() > MAX_BODY {
            ReqView { too_large: true, ..self }
        } else if self.too_large {
            self
        } else {
            ReqView { body: self.body + bytes, ..self }
        }
    }

    pub open spec fn status(self) -> Seq<char> {
        if self.too_large {
            "413"@
        } else if self.echo {
            "200"@
        } else {
            "404"@
        }
    }

    pub open spec fn is_echoed(self) -> bool {
        !self.too_large && self.echo
    }

    /// The body of the response. An echo's is the request's own.
    pub open spec fn reply(self) -> Seq<u8> {
        if self.is_echoed() {
            self.body
        } else if self.too_large {
            ascii("request body too large\n"@)
        } else {
            ascii("404 page not found\n"@)
        }
    }

    pub open spec fn reply_type(self) -> Seq<char> {
        if self.is_echoed() {
            "application/octet-stream"@
        } else {
            "text/plain; charset=utf-8"@
        }
    }

    /// The response to the request.
    pub open spec fn response(self, stream: u64) -> PendingView {
        PendingView {
            stream,
            headers: Some(
                seq![
                    HeaderView { name: ":status"@, value: self.status() },
                    HeaderView { name: "content-type"@, value: self.reply_type() },
                    HeaderView {
                        name: "content-length"@,
                        value: text::decimal(self.reply().len()),
                    },
                ],
            ),
            body: self.reply(),
            off: 0,
        }
    }
}

/// The bytes of a text of ASCII characters.
pub open spec fn ascii(s: Seq<char>) -> Seq<u8> {
    Seq::new(s.len(), |i: int| s[i] as u8)
}

pub fn ascii_bytes(s: &str) -> (b: Vec<u8>)
    requires
        forall|i: int| 0 <= i < s@.len() ==> (#[trigger] s@[i]) as int <= 255,
    ensures
        b@ == ascii(s@),
{
    let v = text::chars_of(s);
    let mut b: Vec<u8> = Vec::new();
    let mut i: usize = 0;
    while i < v.len()
        invariant
            v@ == s@,
            i <= v@.len(),
            b@ == ascii(s@.take(i as int)),
            forall|i: int| 0 <= i < s@.len() ==> (#[trigger] s@[i]) as int <= 255,
        decreases v@.len() - i,
    {
        assert(s@[i as int] as int <= 255);
        b.push(v[i] as u8);
        i += 1;
        assert(b@ =~= ascii(s@.take(i as int)));
    }
    assert(s@.take(i as int) =~= s@);
    b
}

impl Req {
    fn take_in(&mut self, bytes: &Vec<u8>)
        requires
            old(self).body@.len() <= MAX_BODY,
        ensures
            final(self)@ == old(self)@.take_in(bytes@),
            final(self).body@.len() <= MAX_BODY,
    {
        if bytes.len() > MAX_BODY - self.body.len() {
            self.too_large = true;
        } else if !self.too_large {
            let ghost before = self.body@;
            self.body.extend_from_slice(bytes.as_slice());
            assert(self.body@ =~= before + bytes@);
        }
    }

    fn respond(self, stream: u64) -> (p: Pending)
        ensures
            p@ == self@.response(stream),
    {
        let ghost r = self@;
        let echoed: bool = !self.too_large && self.echo;
        let status: &str = if self.too_large {
            "413"
        } else if self.echo {
            "200"
        } else {
            "404"
        };
        let too_large = self.too_large;
        // The request's own buffer goes back as the response.
        let body: Vec<u8> = if echoed {
            self.body
        } else if too_large {
            proof {
                reveal_strlit("request body too large\n");
            }
            ascii_bytes("request body too large\n")
        } else {
            proof {
                reveal_strlit("404 page not found\n");
            }
            ascii_bytes("404 page not found\n")
        };
        let kind: &str = if echoed {
            "application/octet-stream"
        } else {
            "text/plain; charset=utf-8"
        };
        let mut headers: Vec<Header> = Vec::new();
        headers.push(header(":status", status));
        headers.push(header("content-type", kind));
        headers.push(header("content-length", usize_text(body.len()).as_str()));
        assert(headers@.map_values(|x: Header| x@) =~= r.response(stream).headers->Some_0);
        Pending { stream, headers: Some(headers), body, off: 0 }
    }
}

// ---------------------------------------------------------------------------
// Sending a response.

/// What of a response is to be sent next.
#[derive(Clone, Copy)]
pub enum Rest {
    Headers,
    Body,
    Nothing,
}

/// What came of sending a response's headers.
#[derive(Clone, Copy)]
pub enum HeadersSent {
    Sent,
    /// The stream has no room.
    NoRoom,
    Failed,
}

impl PendingView {
    pub open spec fn rest(self) -> Rest {
        if self.headers is Some {
            Rest::Headers
        } else if self.body.len() == 0 {
            Rest::Nothing
        } else {
            Rest::Body
        }
    }

    pub open spec fn after_headers(self, sent: HeadersSent) -> PendingView {
        match sent {
            HeadersSent::Sent => PendingView { headers: None, ..self },
            _ => self,
        }
    }

    pub open spec fn after_body(self, sent: BodySent) -> PendingView {
        match sent {
            BodySent::Sent(n) => PendingView { off: (self.off + n) as usize, ..self },
            _ => self,
        }
    }

    /// Whether some of the body still waits.
    pub open spec fn waits(self, sent: BodySent) -> bool {
        match sent {
            BodySent::Sent(n) => self.off + n < self.body.len(),
            BodySent::NoRoom => true,
            BodySent::Failed => false,
        }
    }
}

/// What to do with a response some of which was sent.
#[derive(Clone, Copy)]
pub enum Next {
    /// It waits for room.
    Keep,
    /// It is sent, or cannot be.
    Drop,
    /// Its body is to be sent.
    Body,
}

impl Pending {
    /// What of the response is to be sent next.
    pub fn rest(&self) -> (r: Rest)
        ensures
            r == self@.rest(),
    {
        if self.headers.is_some() {
            Rest::Headers
        } else if self.body.len() == 0 {
            Rest::Nothing
        } else {
            Rest::Body
        }
    }

    /// The headers were sent, or not.
    pub fn headers_sent(&mut self, sent: HeadersSent) -> (next: Next)
        ensures
            final(self)@ == old(self)@.after_headers(sent),
            next == (match sent {
                HeadersSent::Sent => if old(self)@.body.len() == 0 {
                    Next::Drop
                } else {
                    Next::Body
                },
                HeadersSent::NoRoom => Next::Keep,
                HeadersSent::Failed => Next::Drop,
            }),
    {
        match sent {
            HeadersSent::Sent => {
                self.headers = None;
                if self.body.len() == 0 {
                    Next::Drop
                } else {
                    Next::Body
                }
            },
            HeadersSent::NoRoom => Next::Keep,
            HeadersSent::Failed => Next::Drop,
        }
    }

    /// Some of the body was sent, or not. Says whether any of it still waits.
    pub fn body_sent(&mut self, sent: BodySent) -> (waits: bool)
        requires
            sent matches BodySent::Sent(n) ==> old(self)@.off + n <= usize::MAX,
        ensures
            final(self)@ == old(self)@.after_body(sent),
            waits == old(self)@.waits(sent),
    {
        match sent {
            BodySent::Sent(n) => {
                self.off += n;
                self.off < self.body.len()
            },
            BodySent::NoRoom => true,
            BodySent::Failed => false,
        }
    }
}

// ---------------------------------------------------------------------------
// The requests on a connection.

pub struct Exchange {
    reqs: HashMap<u64, Req>,
    pending: Vec<Pending>,
    payload: usize,
}

#[verifier::ext_equal]
pub struct ExchangeView {
    /// The requests that have not arrived whole, by stream.
    pub reqs: Map<u64, ReqView>,
    /// The responses that wait for room.
    pub pending: Seq<PendingView>,
    pub payload: usize,
}

pub open spec fn req_views(m: Map<u64, Req>) -> Map<u64, ReqView> {
    m.map_values(|r: Req| r@)
}

impl View for Exchange {
    type V = ExchangeView;

    closed spec fn view(&self) -> ExchangeView {
        ExchangeView {
            reqs: req_views(self.reqs@),
            pending: self.pending@.map_values(|p: Pending| p@),
            payload: self.payload,
        }
    }
}

/// The responses that wait on other streams.
pub open spec fn elsewhere(s: Seq<PendingView>, stream: u64) -> Seq<PendingView>
    decreases s.len(),
{
    if s.len() == 0 {
        s
    } else if s.last().stream == stream {
        elsewhere(s.drop_last(), stream)
    } else {
        elsewhere(s.drop_last(), stream).push(s.last())
    }
}

impl ExchangeView {
    /// What an event of the HTTP/3 side leaves of the requests, and the response
    /// it calls for.
    pub open spec fn step(self, ev: H3View) -> (ExchangeView, Option<PendingView>) {
        match ev {
            H3View::Headers { stream, list } => (
                ExchangeView {
                    reqs: self.reqs.insert(stream, ReqView::fresh(asks_echo(list))),
                    ..self
                },
                None,
            ),
            H3View::Data { stream, bytes } => if self.reqs.contains_key(stream) {
                (
                    ExchangeView {
                        reqs: self.reqs.insert(stream, self.reqs[stream].take_in(bytes)),
                        ..self
                    },
                    None,
                )
            } else {
                (self, None)
            },
            H3View::Finished { stream } => if self.reqs.contains_key(stream) {
                (
                    ExchangeView { reqs: self.reqs.remove(stream), ..self },
                    Some(self.reqs[stream].response(stream)),
                )
            } else {
                (self, None)
            },
            H3View::Reset { stream, code } => (
                ExchangeView {
                    reqs: self.reqs.remove(stream),
                    pending: elsewhere(self.pending, stream),
                    ..self
                },
                None,
            ),
            _ => (self, None),
        }
    }
}

pub open spec fn pending_view(p: Option<Pending>) -> Option<PendingView> {
    match p {
        Some(x) => Some(x@),
        None => None,
    }
}

impl Exchange {
    /// Whether no request has grown too large.
    pub closed spec fn wf(&self) -> bool {
        forall|s: u64|
            self.reqs@.contains_key(s) ==> (#[trigger] self.reqs@[s]).body@.len() <= MAX_BODY
    }

    pub fn new(payload: usize) -> (x: Self)
        ensures
            x.wf(),
            x@ == (ExchangeView { reqs: Map::empty(), pending: Seq::empty(), payload }),
    {
        broadcast use vstd::std_specs::hash::group_hash_axioms;

        let x = Exchange { reqs: HashMap::new(), pending: Vec::new(), payload };
        assert(x@.reqs =~= Map::<u64, ReqView>::empty());
        assert(x@.pending =~= Seq::<PendingView>::empty());
        x
    }

    /// Takes in an event of the HTTP/3 side, and says what response it calls
    /// for.
    pub fn event(&mut self, ev: &H3Event) -> (r: Option<Pending>)
        requires
            old(self).wf(),
        ensures
            final(self).wf(),
            (final(self)@, pending_view(r)) == old(self)@.step(ev@),
    {
        broadcast use vstd::std_specs::hash::group_hash_axioms;

        let ghost before = self@;
        match ev {
            H3Event::Headers { stream, list } => {
                let (echo, length): (bool, usize) = read_headers(list, self.payload);
                let room: usize = if length < MAX_BODY {
                    length
                } else {
                    MAX_BODY
                };
                let r = Req { echo, body: Vec::with_capacity(room), too_large: false };
                assert(r@.body =~= Seq::<u8>::empty());
                let _ = self.reqs.insert(*stream, r);
                proof {
                    let v = before.step(ev@).0;
                    assert(self@.reqs =~= v.reqs);
                    assert(self@ =~= v);
                }
                None
            },
            H3Event::Data { stream, bytes } => {
                match self.reqs.remove(stream) {
                    Some(mut r) => {
                        r.take_in(bytes);
                        let _ = self.reqs.insert(*stream, r);
                    },
                    None => {},
                }
                proof {
                    let v = before.step(ev@).0;
                    assert(self@.reqs =~= v.reqs);
                    assert(self@ =~= v);
                }
                None
            },
            H3Event::Finished { stream } => {
                match self.reqs.remove(stream) {
                    Some(r) => {
                        proof {
                            let v = before.step(ev@).0;
                            assert(self@.reqs =~= v.reqs);
                            assert(self@ =~= v);
                        }
                        Some(r.respond(*stream))
                    },
                    None => {
                        assert(self@.reqs =~= before.reqs);
                        assert(self@ =~= before);
                        None
                    },
                }
            },
            H3Event::Reset { stream, code } => {
                let _ = self.reqs.remove(stream);
                self.drop_pending(*stream);
                proof {
                    let v = before.step(ev@).0;
                    assert(self@.reqs =~= v.reqs);
                    assert(self@ =~= v);
                }
                None
            },
            _ => None,
        }
    }

    fn drop_pending(&mut self, stream: u64)
        ensures
            final(self)@.pending == elsewhere(old(self)@.pending, stream),
            final(self).reqs == old(self).reqs,
            final(self).payload == old(self).payload,
    {
        let ghost all = self@.pending;
        let mut i: usize = 0;
        assert(all.take(0) =~= Seq::empty());
        while i < self.pending.len()
            invariant
                i <= self.pending@.len(),
                self.reqs == old(self).reqs,
                self.payload == old(self).payload,
                self.pending@.len() <= all.len(),
                ({
                    let done = all.len() - (self.pending@.len() - i);
                    &&& self@.pending.take(i as int) == elsewhere(all.take(done), stream)
                    &&& self@.pending.skip(i as int) == all.skip(done)
                }),
            decreases self.pending@.len() - i,
        {
            let ghost n = self@.pending;
            let ghost done = all.len() - (n.len() - i);
            proof {
                assert(n[i as int] == self.pending@[i as int]@);
                assert(n.skip(i as int)[0] == all.skip(done)[0]);
                assert(all.take(done + 1).drop_last() =~= all.take(done));
                assert(all.take(done + 1).last() == n[i as int]);
                assert(all.skip(done + 1) =~= all.skip(done).skip(1));
            }
            if self.pending[i].stream == stream {
                let _ = self.pending.remove(i);
                proof {
                    assert(self@.pending =~= n.remove(i as int));
                    assert(self@.pending.take(i as int) =~= n.take(i as int));
                    assert(self@.pending.skip(i as int) =~= n.skip(i as int).skip(1));
                }
            } else {
                i += 1;
                proof {
                    assert(n.take(i as int) =~= n.take(i - 1).push(n[i - 1]));
                    assert(n.skip(i as int) =~= n.skip(i - 1).skip(1));
                }
            }
        }
        proof {
            assert(all.take(all.len() as int) =~= all);
            assert(self@.pending.take(i as int) =~= self@.pending);
        }
    }

    /// How many responses wait for room.
    pub fn pending_count(&self) -> (n: usize)
        ensures
            n == self@.pending.len(),
    {
        self.pending.len()
    }

    /// Takes the `i`th response that waits for room.
    pub fn take_pending(&mut self, i: usize) -> (p: Pending)
        requires
            old(self).wf(),
            i < old(self)@.pending.len(),
        ensures
            final(self).wf(),
            p@ == old(self)@.pending[i as int],
            final(self)@ == (ExchangeView { pending: old(self)@.pending.remove(i as int), ..old(
                self,
            )@ }),
    {
        let ghost before = self@;
        assert(before.pending[i as int] == self.pending@[i as int]@);
        let p = self.pending.remove(i);
        assert(self@ =~= (ExchangeView { pending: before.pending.remove(i as int), ..before }));
        p
    }

    /// Puts a response that waits for room in the `i`th place.
    pub fn put_pending(&mut self, i: usize, p: Pending)
        requires
            old(self).wf(),
            i <= old(self)@.pending.len(),
        ensures
            final(self).wf(),
            final(self)@ == (ExchangeView {
                pending: old(self)@.pending.insert(i as int, p@),
                ..old(self)@
            }),
    {
        let ghost before = self@;
        let ghost x = p@;
        self.pending.insert(i, p);
        assert(self@ =~= (ExchangeView { pending: before.pending.insert(i as int, x), ..before }));
    }
}

// ---------------------------------------------------------------------------
// What that comes to.

/// A request read whole: its headers, and its body in pieces.
pub open spec fn read_whole(
    x: ExchangeView,
    stream: u64,
    list: Seq<RawHeaderView>,
    pieces: Seq<Seq<u8>>,
) -> ExchangeView
    decreases pieces.len(),
{
    if pieces.len() == 0 {
        x.step(H3View::Headers { stream, list }).0
    } else {
        read_whole(x, stream, list, pieces.drop_last()).step(
            H3View::Data { stream, bytes: pieces.last() },
        ).0
    }
}

pub open spec fn joined(pieces: Seq<Seq<u8>>) -> Seq<u8>
    decreases pieces.len(),
{
    if pieces.len() == 0 {
        Seq::empty()
    } else {
        joined(pieces.drop_last()) + pieces.last()
    }
}

proof fn lemma_read_whole(
    x: ExchangeView,
    stream: u64,
    list: Seq<RawHeaderView>,
    pieces: Seq<Seq<u8>>,
)
    ensures
        ({
            let y = read_whole(x, stream, list, pieces);
            &&& y.reqs.contains_key(stream)
            &&& y.reqs[stream].echo == asks_echo(list)
            &&& joined(pieces).len() <= MAX_BODY ==> y.reqs[stream].body == joined(pieces)
                && !y.reqs[stream].too_large
            &&& joined(pieces).len() > MAX_BODY ==> y.reqs[stream].too_large
        }),
    decreases pieces.len(),
{
    if pieces.len() > 0 {
        lemma_read_whole(x, stream, list, pieces.drop_last());
    }
}

/// The echo route answers a request with its body, byte for byte, and with its
/// length, whatever pieces it arrives in; a request for another path is not
/// found.
pub proof fn echoes_byte_for_byte(
    x: ExchangeView,
    stream: u64,
    list: Seq<RawHeaderView>,
    pieces: Seq<Seq<u8>>,
)
    requires
        joined(pieces).len() <= MAX_BODY,
    ensures
        ({
            let p = read_whole(x, stream, list, pieces).step(H3View::Finished { stream }).1;
            &&& p is Some
            &&& p->Some_0.stream == stream
            &&& p->Some_0.headers is Some
            &&& p->Some_0.headers->Some_0[0].value == (if asks_echo(list) {
                "200"@
            } else {
                "404"@
            })
            &&& asks_echo(list) ==> p->Some_0.body == joined(pieces)
            &&& p->Some_0.headers->Some_0[2].value == text::decimal(p->Some_0.body.len())
        }),
{
    lemma_read_whole(x, stream, list, pieces);
}

/// A request whose body grows too large is refused.
pub proof fn refuses_what_is_too_large(
    x: ExchangeView,
    stream: u64,
    list: Seq<RawHeaderView>,
    pieces: Seq<Seq<u8>>,
)
    requires
        joined(pieces).len() > MAX_BODY,
    ensures
        ({
            let p = read_whole(x, stream, list, pieces).step(H3View::Finished { stream }).1;
            &&& p is Some
            &&& p->Some_0.headers->Some_0[0].value == "413"@
            &&& p->Some_0.body == ascii("request body too large\n"@)
        }),
{
    lemma_read_whole(x, stream, list, pieces);
}

proof fn lemma_last_path(list: Seq<RawHeaderView>, k: int)
    requires
        0 <= k < list.len(),
        text::latin(list[k].name) == ":path"@,
        forall|j: int| k < j < list.len() ==> text::latin((#[trigger] list[j]).name) != ":path"@,
    ensures
        asks_echo(list) == (text::latin(list[k].value) == "/echo"@),
    decreases list.len(),
{
    if k < list.len() - 1 {
        assert(text::latin(list[list.len() - 1].name) != ":path"@);
        assert forall|j: int| k < j < list.drop_last().len() implies text::latin(
            (#[trigger] list.drop_last()[j]).name,
        ) != ":path"@ by {
            assert(list.drop_last()[j] == list[j]);
        }
        lemma_last_path(list.drop_last(), k);
    }
}

proof fn lemma_no_path(list: Seq<RawHeaderView>)
    requires
        forall|j: int| 0 <= j < list.len() ==> text::latin((#[trigger] list[j]).name) != ":path"@,
    ensures
        !asks_echo(list),
    decreases list.len(),
{
    if list.len() > 0 {
        assert(text::latin(list[list.len() - 1].name) != ":path"@);
        assert forall|j: int| 0 <= j < list.drop_last().len() implies text::latin(
            (#[trigger] list.drop_last()[j]).name,
        ) != ":path"@ by {
            assert(list.drop_last()[j] == list[j]);
        }
        lemma_no_path(list.drop_last());
    }
}

proof fn lemma_joined(pieces: Seq<Seq<u8>>)
    ensures
        joined(pieces) == pieces.flatten(),
    decreases pieces.len(),
{
    pieces.lemma_flatten_and_flatten_alt_are_equivalent();
    if pieces.len() > 0 {
        lemma_joined(pieces.drop_last());
        pieces.drop_last().lemma_flatten_and_flatten_alt_are_equivalent();
    } else {
        assert(joined(pieces) =~= pieces.flatten());
    }
}

/// What a response says: its status, the type of its body, and how long that is in
/// decimal, in three headers, with the whole body behind them.
pub open spec fn responds(
    p: Option<PendingView>,
    stream: u64,
    status: Seq<char>,
    kind: Seq<char>,
    body: Seq<u8>,
) -> bool {
    &&& p matches Some(r)
    &&& r.stream == stream
    &&& r.body == body
    &&& r.off == 0
    &&& r.headers == Some(
        seq![
            HeaderView { name: ":status"@, value: status },
            HeaderView { name: "content-type"@, value: kind },
            HeaderView { name: "content-length"@, value: text::decimal(body.len()) },
        ],
    )
}

/// The path alone decides what a request is answered, whatever its method and its
/// other headers: for the echo route, the answer has status 200 and the request's
/// body, in whatever pieces that came, up to sixteen megabytes; for any other path,
/// and for none, it is not found.
pub proof fn the_path_alone_decides(
    x: ExchangeView,
    stream: u64,
    list: Seq<RawHeaderView>,
    pieces: Seq<Seq<u8>>,
    k: int,
)
    requires
        pieces.flatten().len() <= 16 * 1024 * 1024,
        forall|j: int| k < j < list.len() ==> !text::spells((#[trigger] list[j]).name, ":path"@),
        -1 <= k < list.len(),
        k >= 0 ==> text::spells(list[k].name, ":path"@),
    ensures
        ({
            let p = read_whole(x, stream, list, pieces).step(H3View::Finished { stream }).1;
            if k >= 0 && text::spells(list[k].value, "/echo"@) {
                responds(p, stream, "200"@, "application/octet-stream"@, pieces.flatten())
            } else {
                &&& p matches Some(r)
                &&& text::spells(r.body, "404 page not found\n"@)
                &&& responds(p, stream, "404"@, "text/plain; charset=utf-8"@, r.body)
            }
        }),
{
    assert forall|j: int| k < j < list.len() implies text::latin((#[trigger] list[j]).name)
        != ":path"@ by {
        text::reads_what_is_spelled(list[j].name, ":path"@);
    }
    if k >= 0 {
        text::reads_what_is_spelled(list[k].name, ":path"@);
        text::reads_what_is_spelled(list[k].value, "/echo"@);
        lemma_last_path(list, k);
    } else {
        lemma_no_path(list);
    }
    lemma_joined(pieces);
    lemma_read_whole(x, stream, list, pieces);
    reveal_strlit("404 page not found\n");
    let p = read_whole(x, stream, list, pieces).step(H3View::Finished { stream }).1;
    assert(p->Some_0.headers->Some_0 =~= seq![
        p->Some_0.headers->Some_0[0],
        p->Some_0.headers->Some_0[1],
        p->Some_0.headers->Some_0[2],
    ]);
}

/// A request whose body is longer than sixteen megabytes is refused with status 413,
/// whatever its path, and nothing of its body comes back.
pub proof fn more_than_sixteen_megabytes_are_refused(
    x: ExchangeView,
    stream: u64,
    list: Seq<RawHeaderView>,
    pieces: Seq<Seq<u8>>,
)
    requires
        pieces.flatten().len() > 16 * 1024 * 1024,
    ensures
        ({
            let p = read_whole(x, stream, list, pieces).step(H3View::Finished { stream }).1;
            &&& p matches Some(r)
            &&& text::spells(r.body, "request body too large\n"@)
            &&& responds(p, stream, "413"@, "text/plain; charset=utf-8"@, r.body)
        }),
{
    lemma_joined(pieces);
    lemma_read_whole(x, stream, list, pieces);
    reveal_strlit("request body too large\n");
}

/// Whether raw headers are the bytes of others.
pub open spec fn spelled(raw: Seq<RawHeaderView>, list: Seq<HeaderView>) -> bool {
    &&& raw.len() == list.len()
    &&& forall|i: int|
        0 <= i < raw.len() ==> text::spells((#[trigger] raw[i]).name, list[i].name)
            && text::spells(raw[i].value, list[i].value)
}

/// What the client sends is echoed: its requests, by whatever method and to whatever
/// authority, with a body or without, are answered with status 200 and the body that
/// they came with.
pub proof fn what_the_client_sends_is_echoed(
    x: ExchangeView,
    stream: u64,
    method: Seq<char>,
    authority: Seq<char>,
    len: Option<usize>,
    raw: Seq<RawHeaderView>,
    pieces: Seq<Seq<u8>>,
)
    requires
        spelled(raw, setup::request_header_list(method, authority, len)),
        pieces.flatten().len() <= 16 * 1024 * 1024,
    ensures
        responds(
            read_whole(x, stream, raw, pieces).step(H3View::Finished { stream }).1,
            stream,
            "200"@,
            "application/octet-stream"@,
            pieces.flatten(),
        ),
{
    let list = setup::request_header_list(method, authority, len);
    setup::a_request_says_what_it_is(method, authority, len);
    let k = choose|k: int|
        0 <= k < list.len() && (#[trigger] list[k]).name == ":path"@ && list[k].value == "/echo"@
            && forall|j: int| 0 <= j < list.len() && (#[trigger] list[j]).name == ":path"@ ==> j
            == k;
    assert(text::spells(raw[k].name, list[k].name));
    assert forall|j: int| k < j < raw.len() implies !text::spells(
        (#[trigger] raw[j]).name,
        ":path"@,
    ) by {
        assert(text::spells(raw[j].name, list[j].name));
        if text::spells(raw[j].name, ":path"@) {
            assert(list[j].name =~= ":path"@) by {
                assert forall|i: int| 0 <= i < list[j].name.len() implies #[trigger] list[j].name[i]
                    == ":path"@[i] by {
                    assert(raw[j].name[i] as int == list[j].name[i] as int);
                    assert(raw[j].name[i] as int == ":path"@[i] as int);
                }
            }
        }
    }
    the_path_alone_decides(x, stream, raw, pieces, k);
}

/// What comes on one stream leaves the requests on the others as they are, and the
/// responses that wait there.
pub proof fn streams_do_not_disturb_each_other(x: ExchangeView, ev: H3View, other: u64)
    requires
        match ev {
            H3View::Headers { stream, list } => stream != other,
            H3View::Data { stream, bytes } => stream != other,
            H3View::Finished { stream } => stream != other,
            H3View::Reset { stream, code } => stream != other,
            _ => true,
        },
    ensures
        ({
            let (y, p) = x.step(ev);
            &&& y.reqs.contains_key(other) <==> x.reqs.contains_key(other)
            &&& x.reqs.contains_key(other) ==> y.reqs[other] == x.reqs[other]
            &&& p matches Some(r) ==> r.stream != other
            &&& forall|r: PendingView|
                r.stream == other && x.pending.contains(r) ==> #[trigger] y.pending.contains(r)
        }),
{
    match ev {
        H3View::Reset { stream, code } => {
            assert forall|r: PendingView|
                r.stream == other && x.pending.contains(r) implies #[trigger] elsewhere(
                x.pending,
                stream,
            ).contains(r) by {
                lemma_elsewhere(x.pending, stream, r);
            }
        },
        _ => {},
    }
}

proof fn lemma_elsewhere(s: Seq<PendingView>, stream: u64, p: PendingView)
    ensures
        elsewhere(s, stream).contains(p) <==> s.contains(p) && p.stream != stream,
    decreases s.len(),
{
    if s.len() > 0 {
        let less = s.drop_last();
        let rest = elsewhere(less, stream);
        lemma_elsewhere(less, stream, p);
        assert(s =~= less.push(s.last()));
        assert(s.contains(p) <==> less.contains(p) || p == s.last()) by {
            if less.contains(p) {
                let i = choose|i: int| 0 <= i < less.len() && less[i] == p;
                assert(s[i] == p);
            }
            if s.contains(p) && p != s.last() {
                let i = choose|i: int| 0 <= i < s.len() && s[i] == p;
                assert(less[i] == p);
            }
            assert(s[s.len() - 1] == s.last());
        }
        if s.last().stream != stream {
            let all = rest.push(s.last());
            assert(all.contains(p) <==> rest.contains(p) || p == s.last()) by {
                if rest.contains(p) {
                    let i = choose|i: int| 0 <= i < rest.len() && rest[i] == p;
                    assert(all[i] == p);
                }
                if all.contains(p) && p != s.last() {
                    let i = choose|i: int| 0 <= i < all.len() && all[i] == p;
                    assert(rest[i] == p);
                }
                assert(all[rest.len() as int] == s.last());
            }
        }
    }
}

/// A request that was answered or reset is forgotten, and nothing more is sent on a
/// stream that was reset.
pub proof fn a_request_is_answered_once(x: ExchangeView, stream: u64, code: u64)
    ensures
        !x.step(H3View::Finished { stream }).0.reqs.contains_key(stream),
        x.step(H3View::Finished { stream }).1 is Some <==> x.reqs.contains_key(stream),
        x.step(H3View::Finished { stream }).0.pending == x.pending,
        !x.step(H3View::Reset { stream, code }).0.reqs.contains_key(stream),
        x.step(H3View::Reset { stream, code }).1 is None,
        forall|r: PendingView| #[trigger]
            x.step(H3View::Reset { stream, code }).0.pending.contains(r) ==> r.stream != stream,
{
    assert forall|r: PendingView| #[trigger]
        x.step(H3View::Reset { stream, code }).0.pending.contains(r) implies r.stream != stream by {
        lemma_elsewhere(x.pending, stream, r);
    }
}

/// A response goes out its headers first and then its body, which is sent on from
/// where it was left, and waits until all of it is out.
pub proof fn a_response_goes_out_whole(p: PendingView, n: usize)
    requires
        p.off + n <= usize::MAX,
    ensures
        p.headers is Some ==> p.rest() is Headers,
        p.headers is None && p.body.len() > 0 ==> p.rest() is Body,
        p.headers is None && p.body.len() == 0 ==> p.rest() is Nothing,
        p.after_headers(HeadersSent::Sent).headers is None,
        p.after_headers(HeadersSent::NoRoom) == p,
        p.after_headers(HeadersSent::Sent).body == p.body,
        p.after_headers(HeadersSent::Sent).off == p.off,
        p.after_body(BodySent::Sent(n)).off == p.off + n,
        p.after_body(BodySent::Sent(n)).body == p.body,
        p.after_body(BodySent::Sent(n)).stream == p.stream,
        p.waits(BodySent::Sent(n)) <==> p.after_body(BodySent::Sent(n)).off < p.body.len(),
        p.after_body(BodySent::NoRoom) == p,
        p.waits(BodySent::NoRoom),
        !p.waits(BodySent::Failed),
{
}

proof fn lemma_200(value: Seq<u8>)
    requires
        text::spells(value, "200"@),
    ensures
        text::unsigned_number(text::latin(value), u16::MAX as nat) == Some(200nat),
{
    text::reads_what_is_spelled(value, "200"@);
    reveal_strlit("200");
    let s = seq!['2'];
    let t = s.push('0');
    text::a_number_is_read_digit_by_digit(Seq::empty(), '2', u16::MAX as nat);
    text::a_number_is_read_digit_by_digit(s, '0', u16::MAX as nat);
    text::a_number_is_read_digit_by_digit(t, '0', u16::MAX as nat);
    assert("200"@ =~= t.push('0'));
}

/// A round trip to this server is a success, whether bodies are checked or not: its
/// answer to a request of the client, brought back over the stream the request went
/// out on, is of as many bytes as were sent.
pub proof fn a_round_trip_is_a_success(
    x: ExchangeView,
    stream: u64,
    method: Seq<char>,
    authority: Seq<char>,
    len: Option<usize>,
    raw: Seq<RawHeaderView>,
    there: Seq<Seq<u8>>,
    c: ConnView,
    reply: Seq<RawHeaderView>,
    back: Seq<Seq<u8>>,
    check: bool,
)
    requires
        spelled(raw, setup::request_header_list(method, authority, len)),
        there.flatten().len() <= 16 * 1024 * 1024,
        conn::tracks_once(c.streams),
        c.has(stream),
        c.req(stream).got == 0,
        !c.req(stream).mismatch,
        c.req(stream).expect == there.flatten(),
        ({
            let p = read_whole(x, stream, raw, there).step(H3View::Finished { stream }).1->Some_0;
            &&& spelled(reply, p.headers->Some_0)
            &&& back.flatten() == p.body
        }),
    ensures
        ({
            let headed = conn::h3_step(c, H3View::Headers { stream, list: reply }, check).0;
            let whole = conn::fed(headed, stream, back, check);
            conn::h3_step(whole, H3View::Finished { stream }, check).1 == Some(
                EventView::Response {
                    kind: c.req(stream).kind,
                    result: Ok::<usize, Seq<char>>(there.flatten().len() as usize),
                },
            )
        }),
{
    what_the_client_sends_is_echoed(x, stream, method, authority, len, raw, there);
    let p = read_whole(x, stream, raw, there).step(H3View::Finished { stream }).1->Some_0;
    let list = p.headers->Some_0;
    reveal_strlit(":status");
    reveal_strlit("content-type");
    reveal_strlit("content-length");
    assert(text::spells(reply[0].name, list[0].name));
    assert(text::spells(reply[1].name, list[1].name));
    assert(text::spells(reply[2].name, list[2].name));
    lemma_200(reply[0].value);
    conn::a_request_is_answered_on_its_stream(c, stream, reply, 0, back, check);
}

/// How long a request's body is going to be is what its last content-length says, or
/// what is usual where that is no number or there is none.
pub proof fn the_last_length_is_taken(list: Seq<RawHeaderView>, payload: usize, k: int, n: usize)
    requires
        -1 <= k < list.len(),
        forall|j: int|
            k < j < list.len() ==> !text::spells((#[trigger] list[j]).name, "content-length"@),
        k >= 0 ==> text::spells(list[k].name, "content-length"@),
    ensures
        k < 0 ==> said_length(list, payload) == payload,
        k >= 0 && text::spells(list[k].value, text::decimal(n as nat)) ==> said_length(list, payload)
            == n,
    decreases list.len(),
{
    if list.len() > 0 {
        let last = list.len() - 1;
        text::reads_what_is_spelled(list[last].name, "content-length"@);
        if k == last {
            text::reads_what_is_spelled(list[k].value, text::decimal(n as nat));
            text::decimal_reads_back(n as nat, usize::MAX as nat);
        } else {
            let less = list.drop_last();
            assert forall|j: int| k < j < less.len() implies !text::spells(
                (#[trigger] less[j]).name,
                "content-length"@,
            ) by {
                assert(less[j] == list[j]);
            }
            assert(!text::spells(list[last].name, "content-length"@));
            the_last_length_is_taken(less, payload, k, n);
        }
    }
}

} // verus!
