//! Route names, the host names under which browsers reach them, and the port that `kubectl`
//! reports for a forward.

use vstd::prelude::*;
use vstd::slice::slice_subrange;

use crate::text;

verus! {

/// The route of a service in a cluster.
pub open spec fn route_of(cluster: Seq<char>, service: Seq<char>) -> Seq<char> {
    cluster + "."@ + service
}

/// The host name under which a browser reaches a route.
pub open spec fn host_of(route: Seq<char>) -> Seq<char> {
    route + ".localhost"@
}

/// `s` without `suffix` at its end.
pub open spec fn without_suffix(s: Seq<char>, suffix: Seq<char>) -> Seq<char> {
    if suffix.is_suffix_of(s) {
        s.take(s.len() - suffix.len())
    } else {
        s
    }
}

/// `s` without a pair of square brackets around it.
pub open spec fn without_brackets(s: Seq<char>) -> Seq<char> {
    if s.len() >= 2 && s[0] == '[' && s.last() == ']' {
        s.subrange(1, s.len() - 1)
    } else {
        s
    }
}

/// `s` without the port after its last colon, where only digits follow that colon.
pub open spec fn without_port(s: Seq<char>) -> Seq<char> {
    match text::rfind_char(s, ':') {
        Some(i) => if text::all_digits(s.skip(i + 1)) {
            s.take(i)
        } else {
            s
        },
        None => s,
    }
}

/// The route that a `Host` header asks for.
pub open spec fn canonical(host: Seq<char>) -> Seq<char> {
    let name = text::lowercase(text::trim_end_char(text::trim(host), '.'));
    without_suffix(without_port(without_brackets(name)), ".localhost"@)
}

/// The port in a line with which `kubectl` reports a forward: the number between the last
/// colon before the first arrow, and that arrow.
pub open spec fn forwarded_port(line: Seq<char>) -> Option<u16> {
    let opening = "Forwarding from "@;
    if !opening.is_prefix_of(line) {
        None
    } else {
        let rest = line.skip(opening.len() as int);
        match text::find(rest, " -> "@) {
            None => None,
            Some(arrow) => {
                let address = rest.take(arrow);
                match text::rfind_char(address, ':') {
                    None => None,
                    Some(colon) => text::port_number(address.skip(colon + 1)),
                }
            },
        }
    }
}

/// The route of a service in a cluster.
pub fn route_name(cluster: &str, service: &str) -> (r: String)
    ensures
        r@ == route_of(cluster@, service@),
{
    cluster.to_owned().concat(".").concat(service)
}

/// The host name under which a browser reaches a route.
pub fn browser_host(route: &str) -> (r: String)
    ensures
        r@ == host_of(route@),
{
    route.to_owned().concat(".localhost")
}

/// Whether every character is a decimal digit.
fn only_digits(v: &[char]) -> (b: bool)
    ensures
        b == text::all_digits(v@),
{
    let n: usize = v.len();
    for i in 0..n
        invariant
            n == v@.len(),
            forall|j: int| 0 <= j < i ==> '0' <= #[trigger] v@[j] <= '9',
    {
        if v[i] < '0' || v[i] > '9' {
            return false;
        }
    }
    true
}

/// The route that a `Host` header asks for.
pub fn canonical_route(host: &str) -> (r: String)
    ensures
        r@ == canonical(host@),
{
    let all = text::chars_of(host);
    let (a, b) = text::trim_bounds(all.as_slice());
    let trimmed = slice_subrange(all.as_slice(), a, b);
    let end: usize = text::trim_end_char_bound(trimmed, '.');
    let name = text::to_lowercase(slice_subrange(trimmed, 0, end));
    assert(trimmed@.subrange(0, end as int) =~= trimmed@.take(end as int));
    assert(name@ == text::lowercase(text::trim_end_char(text::trim(host@), '.')));
    let n: usize = name.len();
    let bare = if n >= 2 && name[0] == '[' && name[n - 1] == ']' {
        slice_subrange(name.as_slice(), 1, n - 1)
    } else {
        slice_subrange(name.as_slice(), 0, n)
    };
    assert(bare@ =~= without_brackets(name@));
    let colon = text::last_index_of(bare, ':');
    let portless = match colon {
        Some(i) => {
            let after = slice_subrange(bare, i + 1, bare.len());
            assert(after@ =~= bare@.skip(i + 1));
            if only_digits(after) {
                slice_subrange(bare, 0, i)
            } else {
                bare
            }
        },
        None => bare,
    };
    assert(portless@ =~= without_port(bare@));
    let suffix = text::chars_of(".localhost");
    let m: usize = portless.len();
    if text::ends_with(portless, suffix.as_slice()) {
        let r = text::string_of(slice_subrange(portless, 0, m - suffix.len()));
        assert(r@ =~= portless@.take(m - suffix@.len()));
        r
    } else {
        text::string_of(portless)
    }
}

/// The port in a line with which `kubectl` reports a forward.
pub fn parse_forwarded_port(line: &str) -> (r: Option<u16>)
    ensures
        r == forwarded_port(line@),
{
    let all = text::chars_of(line);
    let opening = text::chars_of("Forwarding from ");
    if !text::starts_with(all.as_slice(), opening.as_slice()) {
        return None;
    }
    let rest = slice_subrange(all.as_slice(), opening.len(), all.len());
    assert(rest@ =~= line@.skip(opening@.len() as int));
    let arrow = text::chars_of(" -> ");
    let at: usize = match text::position_of(rest, arrow.as_slice()) {
        None => return None,
        Some(at) => at,
    };
    let address = slice_subrange(rest, 0, at);
    assert(address@ =~= rest@.take(at as int));
    let colon: usize = match text::last_index_of(address, ':') {
        None => return None,
        Some(colon) => colon,
    };
    let number = slice_subrange(address, colon + 1, address.len());
    assert(number@ =~= address@.skip(colon + 1));
    text::parse_port(number)
}

} // verus!
