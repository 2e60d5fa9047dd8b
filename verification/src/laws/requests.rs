//! Laws of requests: how their heads are read, and where they are sent.

use vstd::prelude::*;
use vstd::utf8;

use crate::laws::routes;
use crate::laws::texts;
use crate::proxy;
use crate::proxy::{ActionView, HeadProgress};
use crate::route;
use crate::service;
use crate::table::TableView;
use crate::text;

verus! {

/// Whether a blank line stands in bytes does not change when more bytes come.
pub proof fn ended_heads_stay_ended(bytes: Seq<u8>, more: Seq<u8>)
    requires
        proxy::has_blank_line(bytes),
    ensures
        proxy::has_blank_line(bytes + more),
{
    let i = choose|i: int| proxy::blank_line_at(bytes, i);
    assert(proxy::blank_line_at(bytes + more, i));
}

/// Where a head is split into chunks does not matter to how far it has come.
pub proof fn chunks_do_not_matter(before: Seq<u8>, first: Seq<u8>, second: Seq<u8>)
    requires
        second.len() > 0,
    ensures
        proxy::head_progress(before + first, second) == proxy::head_progress(
            before,
            first + second,
        ),
{
    assert((before + first) + second =~= before + (first + second));
}

/// The text of lines, each but the last with a line end after it.
pub open spec fn joined(lines: Seq<Seq<char>>) -> Seq<char>
    decreases lines.len(),
{
    if lines.len() == 0 {
        seq![]
    } else if lines.len() == 1 {
        lines[0]
    } else {
        lines[0] + proxy::line_end() + joined(lines.drop_first())
    }
}

/// A line ends where its line end is, where it holds none itself.
proof fn lemma_line_ends(line: Seq<char>, tail: Seq<char>)
    requires
        text::find(line, proxy::line_end()) is None,
    ensures
        text::find(line + proxy::line_end() + tail, proxy::line_end()) == Some(line.len() as int),
{
    let end = proxy::line_end();
    let whole = line + end + tail;
    let at = line.len() as int;
    assert(whole.skip(at).subrange(0, 2) =~= end);
    assert forall|i: int| 0 <= i < at implies !end.is_prefix_of(#[trigger] whole.skip(i)) by {
        if end.is_prefix_of(whole.skip(i)) {
            let found = whole.skip(i).subrange(0, 2);
            assert(found == end);
            assert(found[0] == whole[i] && found[1] == whole[i + 1]);
            assert(whole[i] == line[i]);
            if i + 1 < at {
                assert(whole[i + 1] == line[i + 1]);
                routes::lemma_find_none(line, end, i);
                assert(line.skip(i).subrange(0, 2) =~= end);
            } else {
                assert(whole[at] == end[0]);
            }
        }
    }
    routes::lemma_find_at(whole, end, at);
}

/// Lines are read back as they were written, where no line holds a line end.
pub proof fn lines_are_read_back(lines: Seq<Seq<char>>)
    requires
        lines.len() > 0,
        forall|i: int|
            0 <= i < lines.len() ==> text::find(#[trigger] lines[i], proxy::line_end()) is None,
    ensures
        proxy::lines(joined(lines)) == lines,
    decreases lines.len(),
{
    let first = lines[0];
    assert(text::find(first, proxy::line_end()) is None);
    if lines.len() == 1 {
        assert(proxy::lines(first) == seq![first]);
        assert(seq![first] =~= lines);
    } else {
        let rest = lines.drop_first();
        assert forall|i: int| 0 <= i < rest.len() implies text::find(
            #[trigger] rest[i],
            proxy::line_end(),
        ) is None by {
            assert(rest[i] == lines[i + 1]);
        }
        lines_are_read_back(rest);
        let tail = joined(rest);
        let whole = first + proxy::line_end() + tail;
        assert(joined(lines) == whole);
        let at = first.len() as int;
        lemma_line_ends(first, tail);
        assert(whole.take(at) =~= first);
        assert(whole.skip(at + 2) =~= tail);
        assert(proxy::lines(whole) == seq![first] + proxy::lines(tail));
        assert(seq![first] + rest =~= lines);
    }
}

/// The first line with a value gives it.
proof fn lemma_first_host(lines: Seq<Seq<char>>, at: int)
    requires
        0 <= at < lines.len(),
        proxy::host_value(lines[at]) is Some,
        forall|i: int| 0 <= i < at ==> proxy::host_value(#[trigger] lines[i]) is None,
    ensures
        proxy::first_host(lines) == proxy::host_value(lines[at]),
    decreases at,
{
    if at > 0 {
        let rest = lines.drop_first();
        assert(proxy::host_value(lines[0]) is None);
        assert forall|i: int| 0 <= i < at - 1 implies proxy::host_value(
            #[trigger] rest[i],
        ) is None by {
            assert(rest[i] == lines[i + 1]);
        }
        lemma_first_host(rest, at - 1);
    }
}

/// A line that is called `host`, in capitals or small letters, has the value after its colon.
pub proof fn host_lines_have_values(name: Seq<char>, value: Seq<char>)
    requires
        text::lowercase(name) == "host"@,
    ensures
        proxy::host_value(name + seq![':'] + value) == Some(text::trim(value)),
{
    reveal_strlit("host");
    let line = name + seq![':'] + value;
    assert(name.len() == text::lowercase(name).len());
    assert forall|i: int| 0 <= i < name.len() implies #[trigger] name[i] != ':' by {
        assert(text::lowercase(name)[i] == text::lower(name[i]));
        assert(i == 0 || i == 1 || i == 2 || i == 3);
        assert("host"@[i] != ':');
    }
    lemma_find_char_at(line, ':', name.len() as int);
    assert(line.take(name.len() as int) =~= name);
    assert(line.skip(name.len() as int + 1) =~= value);
}

/// A character that stands at a position and nowhere before it is first found there.
proof fn lemma_find_char_at(s: Seq<char>, c: char, at: int)
    requires
        0 <= at < s.len(),
        s[at] == c,
        forall|i: int| 0 <= i < at ==> #[trigger] s[i] != c,
    ensures
        text::find_char(s, c) == Some(at),
    decreases at,
{
    if at > 0 {
        assert(s[0] != c);
        lemma_find_char_at(s.drop_first(), c, at - 1);
    }
}

/// A request is sent where the first host header after its first line says: one for the host
/// name of a route, in capitals or small letters, with or without a port, is passed on to
/// the local port of the route, whatever that is; it is told that the route is still connecting
/// where there is no port yet, and that it is unknown where there is no such route.
pub proof fn requests_reach_their_route(
    t: TableView,
    lines: Seq<Seq<char>>,
    at: int,
    cluster: Seq<char>,
    name: Seq<char>,
    port: Option<Seq<char>>,
)
    requires
        forall|i: int|
            0 <= i < lines.len() ==> text::find(#[trigger] lines[i], proxy::line_end()) is None,
        1 <= at < lines.len(),
        forall|i: int| 1 <= i < at ==> proxy::host_value(#[trigger] lines[i]) is None,
        proxy::host_value(lines[at]) is Some,
        service::is_label(cluster),
        service::is_label(name),
        port matches Some(digits) ==> text::all_digits(digits),
        text::lowercase(proxy::host_value(lines[at])->0) == route::host_of(
            route::route_of(cluster, name),
        ) + routes::port_text(port),
    ensures
        outcome_is(
            t,
            cluster.push('.') + name,
            proxy::routed(t, utf8::encode_utf8(joined(lines))),
        ),
{
    let whole = joined(lines);
    utf8::encode_utf8_valid_utf8(whole);
    utf8::encode_utf8_decode_utf8(whole);
    lines_are_read_back(lines);
    let rest = lines.drop_first();
    assert forall|i: int| 0 <= i < at - 1 implies proxy::host_value(#[trigger] rest[i]) is None by {
        assert(rest[i] == lines[i + 1]);
    }
    assert(rest[at - 1] == lines[at]);
    lemma_first_host(rest, at - 1);
    routes::browser_hosts_lead_back(cluster, name, port, proxy::host_value(lines[at])->0);
    routes::routes_and_hosts_are_spelled(cluster, name);
    requests_have_three_outcomes(t, utf8::encode_utf8(whole));
}

/// Whether an outcome is the one for a route: it is passed on to the port of the route, and to
/// no other; or answered with 503, where the route has no port yet; or with 404, where there is
/// no such route.
pub open spec fn outcome_is(t: TableView, route: Seq<char>, outcome: Option<ActionView>) -> bool {
    &&& t.routes.contains_key(route) && t.ports[t.routes[route] as int] is Some ==> outcome == Some(
        ActionView::Connect { route, port: t.ports[t.routes[route] as int]->0 },
    )
    &&& t.routes.contains_key(route) && t.ports[t.routes[route] as int] is None <==> outcome == Some(
        ActionView::Reply { status: 503, message: "Konnect route is still connecting"@ },
    )
    &&& !t.routes.contains_key(route) <==> outcome == Some(
        ActionView::Reply { status: 404, message: "Unknown Konnect route"@ },
    )
}

/// A request that names a host has the outcome of the route that the host asks for; one that
/// names none has no outcome.
pub proof fn requests_have_three_outcomes(t: TableView, request: Seq<u8>)
    ensures
        match proxy::requested_host(request) {
            Some(host) => outcome_is(t, route::canonical(host), proxy::routed(t, request)),
            None => proxy::routed(t, request) is None,
        },
{
    if let Some(host) = proxy::requested_host(request) {
        hosts_have_three_outcomes(t, host);
    }
}

/// What is done for a host depends on its route alone, and is one of three.
pub proof fn hosts_have_three_outcomes(t: TableView, host: Seq<char>)
    ensures
        outcome_is(
            t,
            route::canonical(host),
            Some(proxy::action_for(route::canonical(host), t.status(route::canonical(host)))),
        ),
{
    let route = route::canonical(host);
    let outcome = Some(proxy::action_for(route, t.status(route)));
    let busy = ActionView::Reply { status: 503, message: "Konnect route is still connecting"@ };
    let unknown = ActionView::Reply { status: 404, message: "Unknown Konnect route"@ };
    assert(busy != unknown);
    if t.routes.contains_key(route) {
        match t.ports[t.routes[route] as int] {
            Some(port) => {
                assert(outcome == Some(ActionView::Connect { route, port }));
            },
            None => {
                assert(outcome == Some(busy));
            },
        }
    } else {
        assert(outcome == Some(unknown));
    }
}

/// Whether a line is a host header: the letters of `host`, in capitals or small ones, and a
/// colon.
pub open spec fn is_host_line(line: Seq<char>) -> bool {
    &&& line.len() >= 5
    &&& line[0] == 'h' || line[0] == 'H'
    &&& line[1] == 'o' || line[1] == 'O'
    &&& line[2] == 's' || line[2] == 'S'
    &&& line[3] == 't' || line[3] == 'T'
    &&& line[4] == ':'
}

/// A line has a value if and only if it is a host header, and the value is what follows the
/// colon, without whitespace around it.
pub proof fn host_headers_are_recognised(line: Seq<char>)
    ensures
        proxy::host_value(line) == if is_host_line(line) {
            Some(text::trim(line.skip(5)))
        } else {
            None
        },
{
    reveal_strlit("host");
    texts::characters_are_found_where_they_first_stand(line, ':');
    let host = "host"@;
    assert(host.len() == 4 && host[0] == 'h' && host[1] == 'o' && host[2] == 's' && host[3] == 't');
    match text::find_char(line, ':') {
        None => {
            if is_host_line(line) {
                assert(line[4] != ':');
            }
        },
        Some(i) => {
            let name = line.take(i);
            let folded = text::lowercase(name);
            texts::capitals_are_folded(name);
            assert(forall|k: int| 0 <= k < i ==> name[k] == line[k]);
            if is_host_line(line) {
                if i < 4 {
                    assert(line[i] == ':');
                } else if i > 4 {
                    assert(line[4] != ':');
                }
                assert(folded =~= host) by {
                    assert(folded[0] == text::lower(name[0]));
                    assert(folded[1] == text::lower(name[1]));
                    assert(folded[2] == text::lower(name[2]));
                    assert(folded[3] == text::lower(name[3]));
                }
            } else if folded == host {
                assert(i == 4);
                assert(folded[0] == text::lower(name[0]));
                assert(folded[1] == text::lower(name[1]));
                assert(folded[2] == text::lower(name[2]));
                assert(folded[3] == text::lower(name[3]));
                assert(name[0] == line[0] && name[1] == line[1] && name[2] == line[2] && name[3]
                    == line[3]);
            }
        },
    }
}

/// A text is its lines with line ends between them, and no line holds a line end.
pub proof fn lines_hold_the_whole_text(s: Seq<char>)
    ensures
        proxy::lines(s).len() > 0,
        joined(proxy::lines(s)) == s,
        forall|i: int|
            0 <= i < proxy::lines(s).len() ==> text::find(
                #[trigger] proxy::lines(s)[i],
                seq!['\r', '\n'],
            ) is None,
    decreases s.len(),
{
    let end = proxy::line_end();
    let all = proxy::lines(s);
    texts::patterns_are_found_where_they_first_stand(s, end);
    match text::find(s, end) {
        None => {
            assert(all =~= seq![s]);
        },
        Some(i) => {
            text::lemma_find_fits(s, end);
            let first = s.take(i);
            let tail = s.skip(i + 2);
            lines_hold_the_whole_text(tail);
            let rest = proxy::lines(tail);
            assert(all == seq![first] + rest);
            assert(all.drop_first() =~= rest);
            assert(all[0] == first);
            assert(s.subrange(i, i + 2) == end);
            assert(s =~= first + end + tail);
            assert(joined(all) == first + end + joined(rest));
            lemma_no_end_before(s, i);
            assert forall|k: int| 0 <= k < all.len() implies text::find(
                #[trigger] all[k],
                seq!['\r', '\n'],
            ) is None by {
                if k > 0 {
                    assert(all[k] == rest[k - 1]);
                }
            }
        },
    }
}

proof fn lemma_no_end_before(s: Seq<char>, i: int)
    requires
        text::find(s, proxy::line_end()) == Some(i),
    ensures
        text::find(s.take(i), proxy::line_end()) is None,
{
    let end = proxy::line_end();
    texts::patterns_are_found_where_they_first_stand(s, end);
    let first = s.take(i);
    texts::patterns_are_found_where_they_first_stand(first, end);
    if let Some(j) = text::find(first, end) {
        assert(texts::stands_at(first, end, j));
        assert(s.subrange(j, j + 2) =~= first.subrange(j, j + 2));
        assert(texts::stands_at(s, end, j));
    }
}

/// The host that a request asks for is the value of the first host header after its first
/// line, whatever its lines are; a request without one, or that is no text, asks for none.
pub proof fn requests_ask_for_their_first_host(lines: Seq<Seq<char>>, request: Seq<u8>)
    requires
        lines.len() > 0,
        forall|i: int|
            0 <= i < lines.len() ==> text::find(#[trigger] lines[i], seq!['\r', '\n']) is None,
    ensures
        forall|at: int|
            1 <= at < lines.len() && is_host_line(#[trigger] lines[at]) && (forall|i: int|
                1 <= i < at ==> !is_host_line(#[trigger] lines[i])) ==> proxy::requested_host(
                utf8::encode_utf8(joined(lines)),
            ) == Some(text::trim(lines[at].skip(5))),
        (forall|i: int| 1 <= i < lines.len() ==> !is_host_line(#[trigger] lines[i]))
            ==> proxy::requested_host(utf8::encode_utf8(joined(lines))) is None,
        !utf8::valid_utf8(request) ==> proxy::requested_host(request) is None,
{
    let whole = joined(lines);
    utf8::encode_utf8_valid_utf8(whole);
    utf8::encode_utf8_decode_utf8(whole);
    assert(proxy::line_end() == seq!['\r', '\n']);
    lines_are_read_back(lines);
    let rest = lines.drop_first();
    assert forall|at: int|
        1 <= at < lines.len() && is_host_line(#[trigger] lines[at]) && (forall|i: int|
            1 <= i < at ==> !is_host_line(#[trigger] lines[i])) implies proxy::requested_host(
        utf8::encode_utf8(joined(lines)),
    ) == Some(text::trim(lines[at].skip(5))) by {
        assert forall|i: int| 0 <= i < at - 1 implies proxy::host_value(
            #[trigger] rest[i],
        ) is None by {
            assert(rest[i] == lines[i + 1]);
            host_headers_are_recognised(lines[i + 1]);
        }
        assert(rest[at - 1] == lines[at]);
        host_headers_are_recognised(lines[at]);
        lemma_first_host(rest, at - 1);
    }
    if forall|i: int| 1 <= i < lines.len() ==> !is_host_line(#[trigger] lines[i]) {
        assert forall|i: int| 0 <= i < rest.len() implies proxy::host_value(
            #[trigger] rest[i],
        ) is None by {
            assert(rest[i] == lines[i + 1]);
            host_headers_are_recognised(lines[i + 1]);
        }
        lemma_no_host(rest);
    }
}

proof fn lemma_no_host(lines: Seq<Seq<char>>)
    requires
        forall|i: int| 0 <= i < lines.len() ==> proxy::host_value(#[trigger] lines[i]) is None,
    ensures
        proxy::first_host(lines) is None,
    decreases lines.len(),
{
    if lines.len() > 0 {
        let rest = lines.drop_first();
        assert(proxy::host_value(lines[0]) is None);
        assert forall|i: int| 0 <= i < rest.len() implies proxy::host_value(
            #[trigger] rest[i],
        ) is None by {
            assert(rest[i] == lines[i + 1]);
        }
        lemma_no_host(rest);
    }
}

/// Whether a carriage return and a line feed stand twice in a row somewhere in bytes.
pub open spec fn holds_blank_line(bytes: Seq<u8>) -> bool {
    exists|i: int|
        0 <= i && i + 4 <= bytes.len() && #[trigger] bytes.subrange(i, i + 4) == seq![
            13u8,
            10u8,
            13u8,
            10u8,
        ]
}

/// How far a head has come: nothing more comes after an empty chunk; a head with a blank line
/// has ended, however long it is; without one it is too long past 32768 bytes, and goes on up to
/// there.
pub proof fn heads_end_at_a_blank_line(before: Seq<u8>, chunk: Seq<u8>)
    ensures
        chunk.len() == 0 <==> proxy::head_progress(before, chunk) == HeadProgress::Closed,
        chunk.len() > 0 && holds_blank_line(before + chunk) <==> proxy::head_progress(before, chunk)
            == HeadProgress::Complete,
        chunk.len() > 0 && !holds_blank_line(before + chunk) && (before + chunk).len() > 32768
            <==> proxy::head_progress(before, chunk) == HeadProgress::TooLong,
        chunk.len() > 0 && !holds_blank_line(before + chunk) && (before + chunk).len() <= 32768
            <==> proxy::head_progress(before, chunk) == HeadProgress::Partial,
{
    let bytes = before + chunk;
    let end = seq![13u8, 10u8, 13u8, 10u8];
    if proxy::has_blank_line(bytes) {
        let i = choose|i: int| proxy::blank_line_at(bytes, i);
        assert(bytes.subrange(i, i + 4) =~= end);
        assert(holds_blank_line(bytes));
    }
    if holds_blank_line(bytes) {
        let i = choose|i: int|
            0 <= i && i + 4 <= bytes.len() && #[trigger] bytes.subrange(i, i + 4) == seq![
                13u8,
                10u8,
                13u8,
                10u8,
            ];
        let found = bytes.subrange(i, i + 4);
        assert(found[0] == bytes[i] && found[1] == bytes[i + 1] && found[2] == bytes[i + 2]
            && found[3] == bytes[i + 3]);
        assert(found == end);
        assert(proxy::blank_line_at(bytes, i));
    }
}

/// A reply has a status line with the status and the message, says that it has no content and
/// that the connection is closed, and ends there.
pub proof fn replies_have_a_status_and_no_content(status: u16, message: Seq<char>)
    requires
        text::find(message, seq!['\r', '\n']) is None,
    ensures
        proxy::reply_of(status, message) == joined(
            seq![
                "HTTP/1.1 "@ + text::decimal(status as nat) + seq![' '] + message,
                "Content-Length: 0"@,
                "Connection: close"@,
                Seq::<char>::empty(),
                Seq::<char>::empty(),
            ],
        ),
{
    reveal_strlit("\r\nContent-Length: 0\r\nConnection: close\r\n\r\n");
    reveal_strlit("Content-Length: 0");
    reveal_strlit("Connection: close");
    reveal_strlit(" ");
    let status_line = "HTTP/1.1 "@ + text::decimal(status as nat) + seq![' '] + message;
    let end = proxy::line_end();
    let nothing = Seq::<char>::empty();
    let all = seq![status_line, "Content-Length: 0"@, "Connection: close"@, nothing, nothing];
    let l4 = seq![nothing];
    let l3 = seq![nothing, nothing];
    let l2 = seq!["Connection: close"@, nothing, nothing];
    let l1 = seq!["Content-Length: 0"@, "Connection: close"@, nothing, nothing];
    assert(all.drop_first() =~= l1);
    assert(l1.drop_first() =~= l2);
    assert(l2.drop_first() =~= l3);
    assert(l3.drop_first() =~= l4);
    assert(joined(l4) == nothing);
    assert(joined(l3) == nothing + end + joined(l4));
    assert(joined(l2) == "Connection: close"@ + end + joined(l3));
    assert(joined(l1) == "Content-Length: 0"@ + end + joined(l2));
    assert(joined(all) == status_line + end + joined(l1));
    let tail = "\r\nContent-Length: 0\r\nConnection: close\r\n\r\n"@;
    assert(tail =~= end + joined(l1));
    assert(proxy::reply_of(status, message) =~= joined(all));
}

} // verus!
