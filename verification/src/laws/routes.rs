//! Laws of routes, host names and reported ports.

use vstd::prelude::*;

use crate::laws::texts;
use crate::route;
use crate::service;
use crate::text;

verus! {

/// A text without whitespace at its ends stays as it is when it is trimmed.
pub proof fn visible_ends_stay(s: Seq<char>)
    requires
        s.len() > 0 ==> !text::whitespace(s[0]) && !text::whitespace(s.last()),
    ensures
        text::trim(s) == s,
{
}

/// A character that stands nowhere is not found.
pub proof fn lemma_rfind_absent(s: Seq<char>, c: char)
    requires
        forall|i: int| 0 <= i < s.len() ==> #[trigger] s[i] != c,
    ensures
        text::rfind_char(s, c) is None,
    decreases s.len(),
{
    if s.len() > 0 {
        assert(s[s.len() - 1] != c);
        lemma_rfind_absent(s.drop_last(), c);
    }
}

/// A character that stands nowhere after a position is last found there.
pub proof fn lemma_rfind_at(s: Seq<char>, c: char, at: int)
    requires
        0 <= at < s.len(),
        s[at] == c,
        forall|i: int| at < i < s.len() ==> #[trigger] s[i] != c,
    ensures
        text::rfind_char(s, c) == Some(at),
    decreases s.len(),
{
    if at < s.len() - 1 {
        assert(s[s.len() - 1] != c);
        lemma_rfind_at(s.drop_last(), c, at);
    }
}

/// A pattern that occurs at a position and at none before it is first found there.
pub proof fn lemma_find_at(s: Seq<char>, pattern: Seq<char>, at: int)
    requires
        0 <= at <= s.len(),
        pattern.is_prefix_of(s.skip(at)),
        forall|i: int| 0 <= i < at ==> !pattern.is_prefix_of(#[trigger] s.skip(i)),
    ensures
        text::find(s, pattern) == Some(at),
    decreases at,
{
    assert(s.skip(0) =~= s);
    if at > 0 {
        let rest = s.drop_first();
        assert(rest.skip(at - 1) =~= s.skip(at));
        assert forall|i: int| 0 <= i < at - 1 implies !pattern.is_prefix_of(
            #[trigger] rest.skip(i),
        ) by {
            assert(rest.skip(i) =~= s.skip(i + 1));
        }
        lemma_find_at(rest, pattern, at - 1);
        assert(!pattern.is_prefix_of(s.skip(0)));
    }
}

/// A pattern that is not found occurs nowhere.
pub proof fn lemma_find_none(s: Seq<char>, pattern: Seq<char>, at: int)
    requires
        text::find(s, pattern) is None,
        0 <= at <= s.len(),
    ensures
        !pattern.is_prefix_of(s.skip(at)),
    decreases at,
{
    assert(s.skip(0) =~= s);
    if at > 0 {
        lemma_find_none(s.drop_first(), pattern, at - 1);
        assert(s.drop_first().skip(at - 1) =~= s.skip(at));
    }
}

/// The text of a port after a host: nothing, or a colon and digits.
pub open spec fn port_text(port: Option<Seq<char>>) -> Seq<char> {
    match port {
        None => seq![],
        Some(digits) => seq![':'] + digits,
    }
}

/// What is left of a bare host name, in lower case and with or without a port.
proof fn lemma_bare_host(host: Seq<char>, port: Option<Seq<char>>, asked: Seq<char>)
    requires
        host.len() > 0,
        host[0] != '[',
        host.last() != '.',
        forall|i: int| 0 <= i < host.len() ==> service::label_char(#[trigger] host[i]) || host[i] == '.',
        port matches Some(digits) ==> text::all_digits(digits),
        text::lowercase(asked) == host + port_text(port),
    ensures
        route::canonical(asked) == route::without_suffix(host, ".localhost"@),
{
    let full = host + port_text(port);
    assert(asked.len() == full.len());
    assert forall|i: int| 0 <= i < asked.len() implies text::lower(#[trigger] asked[i])
        == full[i] by {
        assert(text::lowercase(asked)[i] == full[i]);
    }
    let n = host.len() as int;
    assert(text::lower(asked[0]) == host[0]);
    assert(service::label_char(host[0]) || host[0] == '.');
    let last = full[full.len() - 1];
    assert(text::lower(asked[asked.len() - 1]) == last);
    assert(last != '.' && (service::label_char(last) || last == ':')) by {
        match port {
            None => {
                assert(full =~= host);
                assert(service::label_char(host[n - 1]) || host[n - 1] == '.');
            },
            Some(digits) => {
                if digits.len() > 0 {
                    assert(last == digits[digits.len() - 1]);
                } else {
                    assert(full[n] == ':');
                }
            },
        }
    }
    visible_ends_stay(asked);
    assert(text::trim_end_char(asked, '.') == asked);
    assert(full[0] == host[0]);
    assert(route::without_brackets(full) == full);
    assert(route::without_port(full) =~= host) by {
        match port {
            None => {
                assert(full =~= host);
                assert forall|i: int| 0 <= i < full.len() implies #[trigger] full[i] != ':' by {
                    assert(service::label_char(host[i]) || host[i] == '.');
                }
                lemma_rfind_absent(full, ':');
            },
            Some(digits) => {
                assert(full[n] == ':');
                assert forall|i: int| n < i < full.len() implies #[trigger] full[i] != ':' by {
                    assert(full[i] == digits[i - n - 1]);
                }
                lemma_rfind_at(full, ':', n);
                assert(full.skip(n + 1) =~= digits);
                assert(full.take(n) =~= host);
            },
        }
    }
}

/// A route is made of label characters and dots, and has a label character at either end.
proof fn lemma_route_chars(cluster: Seq<char>, name: Seq<char>)
    requires
        service::is_label(cluster),
        service::is_label(name),
    ensures
        ({
            let r = route::route_of(cluster, name);
            &&& r.len() == cluster.len() + 1 + name.len()
            &&& r[0] != '['
            &&& r.last() != '.'
            &&& forall|i: int|
                0 <= i < r.len() ==> service::label_char(#[trigger] r[i]) || r[i] == '.'
        }),
{
    reveal_strlit(".");
    let r = route::route_of(cluster, name);
    let n = cluster.len() as int;
    assert(r.len() == n + 1 + name.len());
    assert forall|i: int| 0 <= i < r.len() implies service::label_char(#[trigger] r[i]) || r[i]
        == '.' by {
        if i < n {
            assert(r[i] == cluster[i]);
            assert(service::label_char(cluster[i]));
        } else if i > n {
            assert(r[i] == name[i - n - 1]);
            assert(service::label_char(name[i - n - 1]));
        }
    }
    assert(r[0] == cluster[0]);
    assert(service::label_char(cluster[0]));
    assert(r[r.len() - 1] == name[name.len() - 1]);
    assert(service::label_char(name[name.len() - 1]));
}

/// The host name that a browser is given leads back to its route, in capitals or small
/// letters, with or without a port.
pub proof fn browser_hosts_lead_back(
    cluster: Seq<char>,
    name: Seq<char>,
    port: Option<Seq<char>>,
    asked: Seq<char>,
)
    requires
        service::is_label(cluster),
        service::is_label(name),
        port matches Some(digits) ==> text::all_digits(digits),
        text::lowercase(asked) == route::host_of(route::route_of(cluster, name)) + port_text(port),
    ensures
        route::canonical(asked) == route::route_of(cluster, name),
{
    lemma_route_chars(cluster, name);
    reveal_strlit(".localhost");
    let r = route::route_of(cluster, name);
    let host = route::host_of(r);
    let suffix = ".localhost"@;
    assert(host =~= r + suffix);
    assert forall|i: int| 0 <= i < host.len() implies service::label_char(#[trigger] host[i])
        || host[i] == '.' by {
        if i < r.len() {
            assert(host[i] == r[i]);
        } else {
            assert(host[i] == suffix[i - r.len()]);
        }
    }
    assert(host[0] == r[0]);
    assert(host[host.len() - 1] == suffix[suffix.len() - 1]);
    lemma_bare_host(host, port, asked);
    assert(host.subrange(host.len() - suffix.len(), host.len() as int) =~= suffix);
    assert(host.take(host.len() - suffix.len()) =~= r);
}

/// A route leads to itself, in capitals or small letters, with or without a port, unless its
/// service is called `localhost`.
pub proof fn routes_lead_to_themselves(
    cluster: Seq<char>,
    name: Seq<char>,
    port: Option<Seq<char>>,
    asked: Seq<char>,
)
    requires
        service::is_label(cluster),
        service::is_label(name),
        name != "localhost"@,
        port matches Some(digits) ==> text::all_digits(digits),
        text::lowercase(asked) == route::route_of(cluster, name) + port_text(port),
    ensures
        route::canonical(asked) == route::route_of(cluster, name),
{
    lemma_route_chars(cluster, name);
    reveal_strlit(".localhost");
    reveal_strlit("localhost");
    reveal_strlit(".");
    let r = route::route_of(cluster, name);
    let suffix = ".localhost"@;
    lemma_bare_host(r, port, asked);
    if suffix.is_suffix_of(r) {
        let n = cluster.len() as int;
        let k = r.len() - suffix.len();
        let tail = r.subrange(k, r.len() as int);
        assert(tail == suffix);
        assert(suffix.len() == 10 && suffix[0] == '.');
        assert(tail[0] == suffix[0]);
        assert(tail[0] == r[k]);
        assert(r[n] == '.');
        if k < n {
            // The dot of the suffix would stand in the cluster.
            assert(r[k] == cluster[k]);
            assert(service::label_char(cluster[k]));
        } else if k > n {
            assert(r[k] == name[k - n - 1]);
            assert(service::label_char(name[k - n - 1]));
        } else {
            assert forall|i: int| 0 <= i < name.len() implies name[i] == "localhost"@[i] by {
                assert(name[i] == r[n + 1 + i]);
                assert(r[n + 1 + i] == tail[i + 1]);
            }
            assert(name =~= "localhost"@);
        }
    }
}

/// A number in decimal is made of digits that denote it.
pub proof fn decimal_denotes(n: nat)
    ensures
        text::all_digits(text::decimal(n)),
        text::digits_value(text::decimal(n)) == n,
        text::decimal(n).len() > 0,
    decreases n,
{
    let s = text::decimal(n);
    if n < 10 {
        assert(s.drop_last() =~= seq![]);
        assert(text::digits_value(seq![]) == 0);
    } else {
        decimal_denotes(n / 10);
        let init = text::decimal(n / 10);
        assert(s.drop_last() =~= init);
        assert forall|i: int| 0 <= i < s.len() implies '0' <= #[trigger] s[i] <= '9' by {
            if i < init.len() {
                assert(s[i] == init[i]);
            }
        }
    }
}

/// A port in decimal is read back as it was written.
pub proof fn ports_are_read_back(port: u16)
    ensures
        text::port_number(text::decimal(port as nat)) == Some(port),
{
    decimal_denotes(port as nat);
    assert('0' <= text::decimal(port as nat)[0]);
}

/// The first arrow after an address and a port is the one that follows them, unless an arrow
/// stands in the address.
proof fn lemma_arrow_follows(address: Seq<char>, digits: Seq<char>, rest: Seq<char>)
    requires
        text::find(address, " -> "@) is None,
        text::all_digits(digits),
    ensures
        text::find(address + seq![':'] + digits + " -> "@ + rest, " -> "@) == Some(
            address.len() as int + 1 + digits.len(),
        ),
{
    reveal_strlit(" -> ");
    let arrow = " -> "@;
    assert(arrow.len() == 4 && arrow[0] == ' ' && arrow[1] == '-' && arrow[2] == '>' && arrow[3]
        == ' ');
    let tail = address + seq![':'] + digits + arrow + rest;
    let n = address.len() as int;
    let at = n + 1 + digits.len();
    assert(tail.skip(at).subrange(0, 4) =~= arrow);
    assert forall|i: int| 0 <= i < at implies !arrow.is_prefix_of(#[trigger] tail.skip(i)) by {
        if arrow.is_prefix_of(tail.skip(i)) {
            let found = tail.skip(i).subrange(0, 4);
            assert(found == arrow);
            assert(found[0] == tail[i] && found[1] == tail[i + 1] && found[2] == tail[i + 2]
                && found[3] == tail[i + 3]);
            if i + 4 <= n {
                lemma_find_none(address, arrow, i);
                assert(address.skip(i).subrange(0, 4) =~= arrow);
            } else if i <= n {
                // The colon would stand in the arrow.
                assert(tail[n] == ':');
                assert(n == i || n == i + 1 || n == i + 2 || n == i + 3);
            } else {
                assert(tail[i] == digits[i - n - 1]);
            }
        }
    }
    lemma_find_at(tail, arrow, at);
}

/// The port of a reported forward is read from the line, whatever the address before it
/// (unless an arrow stands in that) and whatever follows the arrow.
pub proof fn reported_ports_are_read(address: Seq<char>, port: u16, rest: Seq<char>)
    requires
        text::find(address, " -> "@) is None,
    ensures
        route::forwarded_port(
            "Forwarding from "@ + address + seq![':'] + text::decimal(port as nat) + " -> "@ + rest,
        ) == Some(port),
{
    let opening = "Forwarding from "@;
    let arrow = " -> "@;
    let digits = text::decimal(port as nat);
    decimal_denotes(port as nat);
    ports_are_read_back(port);
    let full = address + seq![':'] + digits;
    let tail = full + arrow + rest;
    let line = opening + address + seq![':'] + digits + arrow + rest;
    assert(line =~= opening + tail);
    assert(line.subrange(0, opening.len() as int) =~= opening);
    assert(line.skip(opening.len() as int) =~= tail);
    lemma_arrow_follows(address, digits, rest);
    assert(tail.take(full.len() as int) =~= full);
    let colon = address.len() as int;
    assert(full[colon] == ':');
    assert forall|i: int| colon < i < full.len() implies #[trigger] full[i] != ':' by {
        assert(full[i] == digits[i - colon - 1]);
    }
    lemma_rfind_at(full, ':', colon);
    assert(full.skip(colon + 1) =~= digits);
}

/// A route is the name of the cluster, a dot, and the name of the service; the host name of a
/// route has `.localhost` after it.
pub proof fn routes_and_hosts_are_spelled(cluster: Seq<char>, name: Seq<char>)
    ensures
        route::route_of(cluster, name) == cluster.push('.') + name,
        route::host_of(route::route_of(cluster, name)) == cluster.push('.') + name + seq![
            '.',
            'l',
            'o',
            'c',
            'a',
            'l',
            'h',
            'o',
            's',
            't',
        ],
{
    reveal_strlit(".");
    reveal_strlit(".localhost");
    assert(route::route_of(cluster, name) =~= cluster.push('.') + name);
    assert(route::host_of(route::route_of(cluster, name)) =~= cluster.push('.') + name + seq![
        '.',
        'l',
        'o',
        'c',
        'a',
        'l',
        'h',
        'o',
        's',
        't',
    ]);
}

/// The text of a host name with a port or without one.
pub open spec fn with_port(name: Seq<char>, port: Option<Seq<char>>) -> Seq<char> {
    match port {
        Some(digits) => name.push(':') + digits,
        None => name,
    }
}

/// Whether only digits follow one of the colons in a text.
pub open spec fn ends_in_port(s: Seq<char>) -> bool {
    exists|i: int|
        0 <= i < s.len() && #[trigger] s[i] == ':' && texts::decimal_digits(s.skip(i + 1))
}

/// What remains of a host in lower case once brackets are taken off it: its name, without a
/// port and without `.localhost`.
proof fn lemma_inner_host(name: Seq<char>, suffixed: bool, port: Option<Seq<char>>)
    requires
        !suffixed ==> !exists|p: Seq<char>| name == #[trigger] (p + ".localhost"@),
        port matches Some(digits) ==> texts::decimal_digits(digits),
        port is None ==> !ends_in_port(
            if suffixed {
                name + ".localhost"@
            } else {
                name
            },
        ),
    ensures
        route::without_suffix(
            route::without_port(
                with_port(
                    if suffixed {
                        name + ".localhost"@
                    } else {
                        name
                    },
                    port,
                ),
            ),
            ".localhost"@,
        ) == name,
{
    let suffix = ".localhost"@;
    let long = if suffixed {
        name + suffix
    } else {
        name
    };
    let inner = with_port(long, port);
    texts::characters_are_found_where_they_last_stand(inner, ':');
    assert(route::without_port(inner) =~= long) by {
        match port {
            Some(digits) => {
                let n = long.len() as int;
                assert(inner[n] == ':');
                assert forall|i: int| n < i < inner.len() implies #[trigger] inner[i] != ':' by {
                    assert(inner[i] == digits[i - n - 1]);
                    assert(48 <= digits[i - n - 1] as int <= 57);
                }
                lemma_rfind_at(inner, ':', n);
                assert(inner.skip(n + 1) =~= digits);
                assert forall|i: int| 0 <= i < digits.len() implies '0' <= #[trigger] digits[i]
                    <= '9' by {
                    assert(48 <= digits[i] as int <= 57);
                }
                assert(inner.take(n) =~= long);
            },
            None => {
                if let Some(i) = text::rfind_char(inner, ':') {
                    let after = inner.skip(i + 1);
                    if text::all_digits(after) {
                        assert forall|k: int| 0 <= k < after.len() implies 48 <= (
                        #[trigger] after[k]) as int <= 57 by {
                            assert('0' <= after[k] <= '9');
                        }
                        assert(inner[i] == ':');
                        assert(ends_in_port(inner));
                    }
                }
            },
        }
    }
    if suffixed {
        assert(long.subrange(long.len() - suffix.len(), long.len() as int) =~= suffix);
        assert(long.take(long.len() - suffix.len()) =~= name);
    } else if suffix.is_suffix_of(name) {
        let p = name.take(name.len() - suffix.len());
        assert(name =~= p + suffix);
    }
}

/// How any host is read: whitespace around it, dots after it, capitals, brackets around it, a
/// port, and `.localhost` at its end make no difference to the route that it asks for.
pub proof fn hosts_are_read_by_name(
    before: Seq<char>,
    core: Seq<char>,
    dots: Seq<char>,
    after: Seq<char>,
    name: Seq<char>,
    suffixed: bool,
    port: Option<Seq<char>>,
    bracketed: bool,
)
    requires
        forall|i: int| 0 <= i < before.len() ==> text::whitespace(#[trigger] before[i]),
        forall|i: int| 0 <= i < after.len() ==> text::whitespace(#[trigger] after[i]),
        forall|i: int| 0 <= i < dots.len() ==> #[trigger] dots[i] == '.',
        core.len() > 0 ==> !text::whitespace(core[0]) && core.last() != '.',
        core.len() > 0 && dots.len() == 0 ==> !text::whitespace(core.last()),
        !suffixed ==> !exists|p: Seq<char>| name == #[trigger] (p + ".localhost"@),
        port matches Some(digits) ==> texts::decimal_digits(digits),
        ({
            let long = if suffixed {
                name + ".localhost"@
            } else {
                name
            };
            let inner = with_port(long, port);
            &&& port is None ==> !ends_in_port(long)
            &&& text::lowercase(core) == if bracketed {
                seq!['['] + inner + seq![']']
            } else {
                inner
            }
            &&& !bracketed ==> !(inner.len() >= 2 && inner[0] == '[' && inner.last() == ']')
        }),
    ensures
        route::canonical(before + core + dots + after) == name,
{
    let long = if suffixed {
        name + ".localhost"@
    } else {
        name
    };
    let inner = with_port(long, port);
    let visible = core + dots;
    assert(before + core + dots + after =~= before + visible + after);
    if visible.len() > 0 {
        if core.len() > 0 {
            assert(visible[0] == core[0]);
        } else {
            assert(visible[0] == dots[0]);
        }
        if dots.len() > 0 {
            assert(visible[visible.len() - 1] == dots[dots.len() - 1]);
        } else {
            assert(visible[visible.len() - 1] == core[core.len() - 1]);
        }
    }
    texts::trimming_leaves_what_is_visible(before, visible, after);
    texts::trailing_copies_are_taken_away(visible, '.');
    let n = text::trim_end_char(visible, '.').len() as int;
    assert(n == core.len()) by {
        if n > core.len() {
            assert(visible[n - 1] == dots[n - 1 - core.len()]);
        }
        if n < core.len() {
            assert(visible[core.len() - 1] == core[core.len() - 1]);
        }
    }
    assert(visible.take(n) =~= core);
    let folded = text::lowercase(core);
    if bracketed {
        assert(folded[0] == '[');
        assert(folded[folded.len() - 1] == ']');
        assert(folded.subrange(1, folded.len() - 1) =~= inner);
    }
    assert(route::without_brackets(folded) =~= inner);
    lemma_inner_host(name, suffixed, port);
}

/// Lines that do not say where `kubectl` forwards from, or lack the arrow, or a colon before
/// it, report no port.
pub proof fn other_lines_report_nothing(line: Seq<char>)
    requires
        !(exists|address: Seq<char>, number: Seq<char>, rest: Seq<char>|
            line == #[trigger] reporting_line(address, number, rest)),
    ensures
        route::forwarded_port(line) is None,
{
    let opening = "Forwarding from "@;
    let arrow = " -> "@;
    if opening.is_prefix_of(line) {
        let tail = line.skip(opening.len() as int);
        texts::patterns_are_found_where_they_first_stand(tail, arrow);
        if let Some(at) = text::find(tail, arrow) {
            text::lemma_find_fits(tail, arrow);
            let full = tail.take(at);
            texts::characters_are_found_where_they_last_stand(full, ':');
            if let Some(colon) = text::rfind_char(full, ':') {
                let address = full.take(colon);
                let number = full.skip(colon + 1);
                let rest = tail.skip(at + arrow.len());
                assert(line.subrange(0, opening.len() as int) == opening);
                assert(full =~= address.push(':') + number);
                assert(tail.subrange(at, at + arrow.len()) == arrow);
                assert(tail =~= full + arrow + rest);
                assert(line =~= opening + tail);
                assert(line =~= reporting_line(address, number, rest));
            }
        }
    }
}

/// A line that reports a forward from an address and a port.
pub open spec fn reporting_line(address: Seq<char>, number: Seq<char>, rest: Seq<char>) -> Seq<char> {
    "Forwarding from "@ + address.push(':') + number + " -> "@ + rest
}

/// From a line that reports a forward the port is read that stands before the first arrow,
/// whatever the port is; nothing is read where it is no port number.
pub proof fn reporting_lines_are_read(address: Seq<char>, number: Seq<char>, rest: Seq<char>)
    requires
        forall|i: int| 0 <= i < number.len() ==> #[trigger] number[i] != ':',
        forall|j: int|
            0 <= j < address.len() + 1 + number.len() ==> !#[trigger] texts::stands_at(
                address.push(':') + number + " -> "@ + rest,
                " -> "@,
                j,
            ),
    ensures
        route::forwarded_port(reporting_line(address, number, rest)) == text::port_number(number),
{
    let opening = "Forwarding from "@;
    let arrow = " -> "@;
    let full = address.push(':') + number;
    let tail = full + arrow + rest;
    let line = reporting_line(address, number, rest);
    assert(line =~= opening + tail);
    assert(line.subrange(0, opening.len() as int) =~= opening);
    assert(line.skip(opening.len() as int) =~= tail);
    texts::first_patterns_are_found(full, arrow, rest);
    assert(tail.take(full.len() as int) =~= full);
    let colon = address.len() as int;
    assert(full[colon] == ':');
    assert forall|i: int| colon < i < full.len() implies #[trigger] full[i] != ':' by {
        assert(full[i] == number[i - colon - 1]);
    }
    lemma_rfind_at(full, ':', colon);
    assert(full.skip(colon + 1) =~= number);
}

} // verus!
