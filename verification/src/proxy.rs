//! What the proxy makes of a request: where its head ends, which route it asks for, and what
//! becomes of it.

use vstd::prelude::*;
use vstd::slice::slice_subrange;
use vstd::utf8;

use crate::route;
use crate::table::{ForwardTable, RouteStatus, TableView};
use crate::text;

verus! {

/// The most bytes that a request may send before its head ends, up to the chunk that passes
/// the limit.
pub const MAX_HEADER_BYTES: usize = 32768;

/// Whether a blank line stands in the bytes: two line ends in a row.
pub open spec fn has_blank_line(bytes: Seq<u8>) -> bool {
    exists|i: int| blank_line_at(bytes, i)
}

/// Whether a blank line stands at a position.
pub open spec fn blank_line_at(bytes: Seq<u8>, i: int) -> bool {
    &&& 0 <= i <= bytes.len() - 4
    &&& bytes[i] == 13
    &&& bytes[i + 1] == 10
    &&& bytes[i + 2] == 13
    &&& bytes[i + 3] == 10
}

/// How far the head of a request has come in.
#[derive(Clone, Copy, Debug, PartialEq, Eq, Structural)]
pub enum HeadProgress {
    /// The client has closed the connection before the head ended.
    Closed,
    /// The head has ended.
    Complete,
    /// The head is too long.
    TooLong,
    /// The head goes on.
    Partial,
}

/// The head of a request as it comes in.
#[derive(Debug)]
pub struct RequestHead {
    bytes: Vec<u8>,
}

/// How far a head has come after a chunk; an empty chunk means that nothing more will come.
pub open spec fn head_progress(before: Seq<u8>, chunk: Seq<u8>) -> HeadProgress {
    if chunk.len() == 0 {
        HeadProgress::Closed
    } else if has_blank_line(before + chunk) {
        HeadProgress::Complete
    } else if before.len() + chunk.len() > MAX_HEADER_BYTES {
        HeadProgress::TooLong
    } else {
        HeadProgress::Partial
    }
}

impl View for RequestHead {
    type V = Seq<u8>;

    closed spec fn view(&self) -> Seq<u8> {
        self.bytes@
    }
}

/// Whether a blank line stands in the bytes.
fn ends_head(bytes: &Vec<u8>) -> (b: bool)
    ensures
        b == has_blank_line(bytes@),
{
    let n: usize = bytes.len();
    if n < 4 {
        return false;
    }
    for i in 0..(n - 3)
        invariant
            n == bytes@.len(),
            n >= 4,
            forall|j: int| 0 <= j < i ==> !blank_line_at(bytes@, j),
    {
        if bytes[i] == 13 && bytes[i + 1] == 10 && bytes[i + 2] == 13 && bytes[i + 3] == 10 {
            assert(blank_line_at(bytes@, i as int));
            return true;
        }
    }
    false
}

impl RequestHead {
    /// A head of which nothing has come in.
    pub fn new() -> (r: Self)
        ensures
            r@ == Seq::<u8>::empty(),
    {
        RequestHead { bytes: Vec::new() }
    }

    /// Takes in a chunk.
    pub fn push(&mut self, chunk: &[u8]) -> (r: HeadProgress)
        ensures
            final(self)@ == old(self)@ + chunk@,
            r == head_progress(old(self)@, chunk@),
    {
        let n: usize = chunk.len();
        if n == 0 {
            assert(old(self)@ + chunk@ =~= old(self)@);
            return HeadProgress::Closed;
        }
        for i in 0..n
            invariant
                n == chunk@.len(),
                self@ == old(self)@ + chunk@.take(i as int),
        {
            self.bytes.push(chunk[i]);
            assert(self@ =~= old(self)@ + chunk@.take(i + 1));
        }
        assert(chunk@.take(n as int) =~= chunk@);
        if ends_head(&self.bytes) {
            HeadProgress::Complete
        } else if self.bytes.len() > MAX_HEADER_BYTES {
            HeadProgress::TooLong
        } else {
            HeadProgress::Partial
        }
    }

    /// What has come in.
    pub fn bytes(&self) -> (r: &[u8])
        ensures
            r@ == self@,
    {
        self.bytes.as_slice()
    }
}

/// The end of a line in the head of a request.
pub open spec fn line_end() -> Seq<char> {
    seq!['\r', '\n']
}

/// The lines of a text.
pub open spec fn lines(s: Seq<char>) -> Seq<Seq<char>>
    decreases s.len(),
{
    match text::find(s, line_end()) {
        None => seq![s],
        Some(i) => {
            proof {
                text::lemma_find_fits(s, line_end());
            }
            seq![s.take(i)] + lines(s.skip(i + 2))
        },
    }
}

/// The value in a line, if it is a `Host` header.
pub open spec fn host_value(line: Seq<char>) -> Option<Seq<char>> {
    match text::find_char(line, ':') {
        None => None,
        Some(i) => if text::lowercase(line.take(i)) == "host"@ {
            Some(text::trim(line.skip(i + 1)))
        } else {
            None
        },
    }
}

/// The value of the first `Host` header among lines.
pub open spec fn first_host(lines: Seq<Seq<char>>) -> Option<Seq<char>>
    decreases lines.len(),
{
    if lines.len() == 0 {
        None
    } else {
        match host_value(lines[0]) {
            Some(value) => Some(value),
            None => first_host(lines.drop_first()),
        }
    }
}

/// The host that a request asks for: that of the first `Host` header after its first line, if
/// the request is text at all.
pub open spec fn requested_host(request: Seq<u8>) -> Option<Seq<char>> {
    if utf8::valid_utf8(request) {
        first_host(lines(utf8::decode_utf8(request)).drop_first())
    } else {
        None
    }
}

/// `std::str::from_utf8`: the text that the bytes encode, if they are valid UTF-8.
#[verifier::external_body]
fn utf8_text(bytes: &[u8]) -> (r: Option<&str>)
    ensures
        r is Some <==> utf8::valid_utf8(bytes@),
        r matches Some(s) ==> utf8::encode_utf8(s@) == bytes@,
{
    std::str::from_utf8(bytes).ok()
}

/// Where the value of a line that is a `Host` header begins and ends.
fn host_bounds(line: &[char]) -> (r: Option<(usize, usize)>)
    ensures
        r is Some <==> host_value(line@) is Some,
        r matches Some(b) ==> b.0 <= b.1 <= line@.len() && host_value(line@) == Some(
            line@.subrange(b.0 as int, b.1 as int),
        ),
{
    let n: usize = line.len();
    let colon: usize = match text::index_of(line, ':') {
        None => return None,
        Some(colon) => colon,
    };
    let name = text::to_lowercase(slice_subrange(line, 0, colon));
    assert(line@.subrange(0, colon as int) =~= line@.take(colon as int));
    let host = text::chars_of("host");
    let is_host = name.len() == host.len() && text::starts_with(name.as_slice(), host.as_slice());
    proof {
        if is_host {
            assert(name@.subrange(0, host@.len() as int) =~= name@);
        } else if name@ == host@ {
            assert(name@.subrange(0, host@.len() as int) =~= name@);
        }
    }
    if !is_host {
        return None;
    }
    let value = slice_subrange(line, colon + 1, n);
    assert(value@ =~= line@.skip(colon + 1));
    let (a, b) = text::trim_bounds(value);
    assert(line@.subrange(colon + 1 + a, colon + 1 + b) =~= value@.subrange(a as int, b as int));
    Some((colon + 1 + a, colon + 1 + b))
}

/// The host that a text asks for.
pub fn text_host(request: &str) -> (r: Option<&str>)
    ensures
        match (r, first_host(lines(request@).drop_first())) {
            (Some(s), Some(t)) => s@ == t,
            (None, None) => true,
            _ => false,
        },
{
    let all = text::chars_of(request);
    let n: usize = all.len();
    let crlf: Vec<char> = vec!['\r', '\n'];
    assert(crlf@ =~= line_end());
    let ghost wanted = first_host(lines(request@).drop_first());
    let mut start: usize = match text::position_of(all.as_slice(), crlf.as_slice()) {
        None => {
            assert(lines(request@).drop_first() =~= seq![]);
            return None;
        },
        Some(i) => i + 2,
    };
    assert(lines(request@).drop_first() =~= lines(request@.skip(start as int)));
    loop
        invariant
            n == all@.len(),
            all@ == request@,
            crlf@ == line_end(),
            start <= n,
            wanted == first_host(lines(request@).drop_first()),
            wanted == first_host(lines(request@.skip(start as int))),
        decreases n - start,
    {
        let ghost here = request@.skip(start as int);
        let rest = slice_subrange(all.as_slice(), start, n);
        assert(rest@ =~= here);
        let end = text::position_of(rest, crlf.as_slice());
        let length: usize = match end {
            Some(i) => i,
            None => rest.len(),
        };
        let line = slice_subrange(rest, 0, length);
        assert(line@ =~= lines(here)[0]);
        if let Some((a, b)) = host_bounds(line) {
            let value = request.substring_char(start + a, start + b);
            assert(value@ =~= line@.subrange(a as int, b as int));
            return Some(value);
        }
        match end {
            None => {
                assert(lines(here).drop_first() =~= seq![]);
                assert(first_host(lines(here).drop_first()) is None);
                return None;
            },
            Some(i) => {
                assert(here.skip(i + 2) =~= request@.skip(start + i + 2));
                assert(lines(here).drop_first() =~= lines(here.skip(i + 2)));
                start = start + i + 2;
            },
        }
    }
}

/// The host that a request asks for.
pub fn request_host(request: &[u8]) -> (r: Option<&str>)
    ensures
        match (r, requested_host(request@)) {
            (Some(s), Some(t)) => s@ == t,
            (None, None) => true,
            _ => false,
        },
{
    match utf8_text(request) {
        None => None,
        Some(s) => {
            proof {
                utf8::encode_utf8_decode_utf8(s@);
            }
            text_host(s)
        },
    }
}

/// What becomes of a request.
#[derive(Debug)]
pub enum ProxyAction {
    /// It is answered with a status and a message.
    Reply { status: u16, message: String },
    /// It is passed on to the local port of its route.
    Connect { route: String, port: u16 },
}

/// The mathematical counterpart of [`ProxyAction`].
pub enum ActionView {
    Reply { status: u16, message: Seq<char> },
    Connect { route: Seq<char>, port: u16 },
}

impl View for ProxyAction {
    type V = ActionView;

    open spec fn view(&self) -> ActionView {
        match self {
            ProxyAction::Reply { status, message } => ActionView::Reply {
                status: *status,
                message: message@,
            },
            ProxyAction::Connect { route, port } => ActionView::Connect {
                route: route@,
                port: *port,
            },
        }
    }
}

/// What becomes of a request for a route of which so much is known.
pub open spec fn action_for(route: Seq<char>, status: RouteStatus) -> ActionView {
    match status {
        RouteStatus::Unknown => ActionView::Reply { status: 404, message: "Unknown Konnect route"@ },
        RouteStatus::Connecting => ActionView::Reply {
            status: 503,
            message: "Konnect route is still connecting"@,
        },
        RouteStatus::Ready(port) => ActionView::Connect { route, port },
    }
}

/// What becomes of a request that reaches the proxy; nothing where it asks for no host.
pub open spec fn routed(table: TableView, request: Seq<u8>) -> Option<ActionView> {
    match requested_host(request) {
        None => None,
        Some(host) => {
            let route = route::canonical(host);
            Some(action_for(route, table.status(route)))
        },
    }
}

/// What becomes of a request for a host.
pub fn host_action(table: &ForwardTable, host: &str) -> (r: ProxyAction)
    requires
        table.wf(),
    ensures
        r@ == action_for(route::canonical(host@), table@.status(route::canonical(host@))),
{
    let route = route::canonical_route(host);
    match table.status(route.as_str()) {
        RouteStatus::Unknown => ProxyAction::Reply {
            status: 404,
            message: "Unknown Konnect route".to_owned(),
        },
        RouteStatus::Connecting => ProxyAction::Reply {
            status: 503,
            message: "Konnect route is still connecting".to_owned(),
        },
        RouteStatus::Ready(port) => ProxyAction::Connect { route, port },
    }
}

/// What becomes of a request that reaches the proxy; nothing where it asks for no host.
pub fn route_request(table: &ForwardTable, request: &[u8]) -> (r: Option<ProxyAction>)
    requires
        table.wf(),
    ensures
        match (r, routed(table@, request@)) {
            (Some(a), Some(b)) => a@ == b,
            (None, None) => true,
            _ => false,
        },
{
    match request_host(request) {
        None => None,
        Some(host) => Some(host_action(table, host)),
    }
}

/// The reply with a status and a message, and nothing else.
pub open spec fn reply_of(status: u16, message: Seq<char>) -> Seq<char> {
    "HTTP/1.1 "@ + text::decimal(status as nat) + " "@ + message
        + "\r\nContent-Length: 0\r\nConnection: close\r\n\r\n"@
}

/// The reply with a status and a message, and nothing else.
pub fn reply_text(status: u16, message: &str) -> (r: String)
    ensures
        r@ == reply_of(status, message@),
{
    let mut r = "HTTP/1.1 ".to_owned();
    text::push_decimal(&mut r, status as u64);
    r.concat(" ").concat(message).concat("\r\nContent-Length: 0\r\nConnection: close\r\n\r\n")
}

} // verus!
