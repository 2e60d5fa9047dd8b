//! Laws of the texts that menus and listings show.

use vstd::prelude::*;

use crate::config::ForwardView;
use crate::labels;
use crate::laws::routes;
use crate::laws::texts;
use crate::route;
use crate::text;

verus! {

/// The address of a route is `http://`, the host name of the route, a colon, and digits that
/// are read back as the port, whatever the port is.
pub proof fn urls_name_the_host_and_the_port(route: Seq<char>, port: u16)
    ensures
        ({
            let url = labels::url_of(route, port);
            let at = 7int + route.len() + 10;
            &&& at < url.len()
            &&& url.take(at) == seq!['h', 't', 't', 'p', ':', '/', '/'] + route + seq![
                '.',
                'l',
                'o',
                'c',
                'a',
                'l',
                'h',
                'o',
                's',
                't',
            ]
            &&& url[at] == ':'
            &&& texts::decimal_digits(url.skip(at + 1))
            &&& text::port_number(url.skip(at + 1)) == Some(port)
            &&& text::rfind_char(url, ':') == Some(at)
        }),
{
    reveal_strlit("http://");
    reveal_strlit(".localhost");
    reveal_strlit(":");
    let url = labels::url_of(route, port);
    let digits = text::decimal(port as nat);
    let at = 7int + route.len() + 10;
    texts::decimal_digits_follow_division(port as nat);
    routes::ports_are_read_back(port);
    assert("http://"@ =~= seq!['h', 't', 't', 'p', ':', '/', '/']);
    assert(".localhost"@ =~= seq!['.', 'l', 'o', 'c', 'a', 'l', 'h', 'o', 's', 't']);
    assert(url.take(at) =~= seq!['h', 't', 't', 'p', ':', '/', '/'] + route + seq![
        '.',
        'l',
        'o',
        'c',
        'a',
        'l',
        'h',
        'o',
        's',
        't',
    ]);
    assert(url.skip(at + 1) =~= digits);
    assert(url[at] == ':');
    assert forall|i: int| at < i < url.len() implies #[trigger] url[i] != ':' by {
        assert(url[i] == digits[i - at - 1]);
        assert(48 <= digits[i - at - 1] as int <= 57);
    }
    routes::lemma_rfind_at(url, ':', at as int);
}

/// Addresses tell routes and ports apart.
pub proof fn urls_tell_routes_and_ports_apart(
    route: Seq<char>,
    port: u16,
    other_route: Seq<char>,
    other_port: u16,
)
    requires
        labels::url_of(route, port) == labels::url_of(other_route, other_port),
    ensures
        route == other_route,
        port == other_port,
{
    urls_name_the_host_and_the_port(route, port);
    urls_name_the_host_and_the_port(other_route, other_port);
    let url = labels::url_of(route, port);
    let at = 7int + route.len() + 10;
    assert(route =~= url.take(at).subrange(7, 7int + route.len()));
    assert(other_route =~= url.take(at).subrange(7, 7int + other_route.len()));
}

/// A route is shown by what follows its last dot, or whole where it has none, and as active if
/// and only if it is.
pub proof fn services_are_shown_by_name(route: Seq<char>, prefix: Seq<char>, name: Seq<char>)
    requires
        route == prefix.push('.') + name || route == name,
        !name.contains('.'),
    ensures
        labels::service_of(route) == name,
        labels::service_text(route, false) == name,
        labels::service_text(route, true) == name + seq![
            ' ',
            '(',
            'a',
            'c',
            't',
            'i',
            'v',
            'e',
            ')',
        ],
{
    reveal_strlit(" (active)");
    assert(" (active)"@ =~= seq![' ', '(', 'a', 'c', 't', 'i', 'v', 'e', ')']);
    assert forall|i: int| 0 <= i < name.len() implies #[trigger] name[i] != '.' by {
        if name[i] == '.' {
            assert(name.contains('.'));
        }
    }
    if route == name {
        routes::lemma_rfind_absent(route, '.');
    } else {
        let n = prefix.len() as int;
        assert(route[n] == '.');
        assert forall|i: int| n < i < route.len() implies #[trigger] route[i] != '.' by {
            assert(route[i] == name[i - n - 1]);
        }
        routes::lemma_rfind_at(route, '.', n);
        assert(route.skip(n + 1) =~= name);
    }
}

/// A context is shown in round brackets after the name of the cluster that it reaches.
pub proof fn contexts_are_shown_after_their_cluster(cluster: Seq<char>, context: Seq<char>)
    ensures
        labels::context_text(cluster, context) == cluster + seq![' ', '('] + context.push(')'),
{
    reveal_strlit(" (");
    reveal_strlit(")");
    assert(labels::context_text(cluster, context) =~= cluster + seq![' ', '('] + context.push(')'));
}

/// A listed forward shows its route in a column of 36 characters or more, then its address,
/// its target, and its context in round brackets.
pub proof fn listings_show_route_address_target_and_context(forward: ForwardView, port: u16)
    ensures
        ({
            let line = labels::listing_of(forward, port);
            let width = if forward.route.len() < 36 {
                36
            } else {
                forward.route.len() as int
            };
            &&& width <= line.len()
            &&& line.take(forward.route.len() as int) == forward.route
            &&& forall|i: int| forward.route.len() <= i < width ==> #[trigger] line[i] == ' '
            &&& line.skip(width) == seq![' '] + labels::url_of(forward.route, port) + seq![' ', ' ']
                + forward.target + seq![' ', '('] + forward.context.push(')')
        }),
{
    reveal_strlit(" ");
    reveal_strlit("  ");
    reveal_strlit(" (");
    reveal_strlit(")");
    let line = labels::listing_of(forward, port);
    let column = labels::padded(forward.route, 36);
    let rest = " "@ + labels::url_of(forward.route, port) + "  "@ + forward.target + " ("@
        + forward.context + ")"@;
    assert(line =~= column + rest);
    let width = column.len() as int;
    assert(line.take(forward.route.len() as int) =~= forward.route);
    assert forall|i: int| forward.route.len() <= i < width implies #[trigger] line[i] == ' ' by {
        assert(line[i] == column[i]);
    }
    assert(line.skip(width) =~= rest);
    assert(rest =~= seq![' '] + labels::url_of(forward.route, port) + seq![' ', ' ']
        + forward.target + seq![' ', '('] + forward.context.push(')'));
}

/// What has gone through the proxy is shown with the figure sent first and the one received
/// second.
pub proof fn transfers_show_sent_and_received(sent: Seq<char>, received: Seq<char>)
    ensures
        ({
            let shown = labels::transfer_text(sent, received);
            &&& shown == "Sent: "@ + sent + " MB | Received: "@ + received + " MB"@
            &&& shown.subrange(6, 6int + sent.len()) == sent
            &&& shown.subrange(
                shown.len() - 3 - received.len(),
                shown.len() - 3,
            ) == received
        }),
{
    reveal_strlit("Sent: ");
    reveal_strlit(" MB | Received: ");
    reveal_strlit(" MB");
    let shown = labels::transfer_text(sent, received);
    assert(shown.subrange(6, 6int + sent.len()) =~= sent);
    assert(shown.subrange(shown.len() - 3 - received.len(), shown.len() - 3) =~= received);
}

} // verus!
