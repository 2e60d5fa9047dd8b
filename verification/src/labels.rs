//! The texts that menus and listings show.

use vstd::prelude::*;

use crate::config::{Config, ForwardSpec, ForwardView};
use crate::forwards;
use crate::route;
use crate::text;

verus! {

/// The service of a route: what follows its last dot.
pub open spec fn service_of(route: Seq<char>) -> Seq<char> {
    match text::rfind_char(route, '.') {
        Some(i) => route.skip(i + 1),
        None => route,
    }
}

/// How a menu shows the service of a route.
pub open spec fn service_text(route: Seq<char>, active: bool) -> Seq<char> {
    if active {
        service_of(route) + " (active)"@
    } else {
        service_of(route)
    }
}

/// The address of a route for browsers.
pub open spec fn url_of(route: Seq<char>, proxy_port: u16) -> Seq<char> {
    "http://"@ + route::host_of(route) + ":"@ + text::decimal(proxy_port as nat)
}

/// How a menu shows a kube context and the cluster that it reaches.
pub open spec fn context_text(cluster: Seq<char>, context: Seq<char>) -> Seq<char> {
    cluster + " ("@ + context + ")"@
}

/// `s` with spaces after it, up to a width.
pub open spec fn padded(s: Seq<char>, width: nat) -> Seq<char> {
    if s.len() >= width {
        s
    } else {
        s + Seq::new((width - s.len()) as nat, |i: int| ' ')
    }
}

/// The line that lists a forward.
pub open spec fn listing_of(forward: ForwardView, proxy_port: u16) -> Seq<char> {
    padded(forward.route, 36) + " "@ + url_of(forward.route, proxy_port) + "  "@ + forward.target
        + " ("@ + forward.context + ")"@
}

/// The service of a route.
pub fn service_name(route: &str) -> (r: &str)
    ensures
        r@ == service_of(route@),
{
    let v = text::chars_of(route);
    let n: usize = v.len();
    match text::last_index_of(v.as_slice(), '.') {
        Some(i) => {
            let r = route.substring_char(i + 1, n);
            assert(r@ =~= route@.skip(i + 1));
            r
        },
        None => route,
    }
}

/// How a menu shows the service of a route.
pub fn service_label(route: &str, active: bool) -> (r: String)
    ensures
        r@ == service_text(route@, active),
{
    let name = service_name(route);
    if active {
        name.to_owned().concat(" (active)")
    } else {
        name.to_owned()
    }
}

/// The address of a route for browsers.
pub fn active_url(route: &str, proxy_port: u16) -> (r: String)
    ensures
        r@ == url_of(route@, proxy_port),
{
    let mut r = "http://".to_owned().concat(route::browser_host(route).as_str()).concat(":");
    text::push_decimal(&mut r, proxy_port as u64);
    r
}

/// How a menu shows a kube context that reaches a cluster.
pub fn context_label(config: &Config, context: &str) -> (r: String)
    requires
        forwards::serving(config@.clusters, context@) is Some,
    ensures
        r@ == context_text(
            config@.clusters[forwards::serving(config@.clusters, context@)->0].0,
            context@,
        ),
{
    let name = match config.cluster_name_for_context(context) {
        Some(name) => name,
        None => "",
    };
    name.to_owned().concat(" (").concat(context).concat(")")
}

/// How a menu shows what has gone through the proxy, in figures of megabytes.
pub open spec fn transfer_text(sent: Seq<char>, received: Seq<char>) -> Seq<char> {
    "Sent: "@ + sent + " MB | Received: "@ + received + " MB"@
}

/// How a menu shows what has gone through the proxy, where `sent` and `received` are figures
/// in megabytes.
pub fn transfer_label(sent: &str, received: &str) -> (r: String)
    ensures
        r@ == transfer_text(sent@, received@),
{
    "Sent: ".to_owned().concat(sent).concat(" MB | Received: ").concat(received).concat(" MB")
}

/// The line that lists a forward.
pub fn listing_line(forward: &ForwardSpec, proxy_port: u16) -> (r: String)
    ensures
        r@ == listing_of(forward@, proxy_port),
{
    let mut r = forward.route.clone();
    let mut n: usize = forward.route.as_str().unicode_len();
    assert(r@ =~= forward@.route + Seq::new(0, |i: int| ' '));
    while n < 36
        invariant
            n == r@.len(),
            n >= forward@.route.len(),
            n > forward@.route.len() ==> n <= 36,
            r@ == forward@.route + Seq::new((n - forward@.route.len()) as nat, |i: int| ' '),
        decreases 36 - n,
    {
        r.push(' ');
        n = n + 1;
        assert(r@ =~= forward@.route + Seq::new((n - forward@.route.len()) as nat, |i: int| ' '));
    }
    assert(r@ =~= padded(forward@.route, 36));
    r.concat(" ").concat(active_url(forward.route.as_str(), proxy_port).as_str()).concat(
        "  ",
    ).concat(forward.target.as_str()).concat(" (").concat(forward.context.as_str()).concat(")")
}

} // verus!
