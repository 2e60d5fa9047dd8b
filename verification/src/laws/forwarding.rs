//! Laws of forwards: the table of routes, the delays between attempts, and the counters.

use vstd::prelude::*;

use crate::config::ForwardView;
use crate::forward;
use crate::forward::{ForwardAction, ForwardEvent};
use crate::laws::routes;
use crate::laws::texts;
use crate::route;
use crate::stats;
use crate::table::{RouteStatus, TableView};
use crate::table;
use crate::text;

verus! {

/// A table begins with the routes of its forwards: each is known, and waits for a forward;
/// no other is known, and none is forwarded.
pub proof fn tables_begin_connecting(forwards: Seq<ForwardView>, route: Seq<char>)
    requires
        forwards.len() <= usize::MAX,
    ensures
        table::initial_table(forwards).wf(),
        table::initial_table(forwards).ports.len() == forwards.len(),
        table::initial_table(forwards).active == Map::<Seq<char>, usize>::empty(),
        table::initial_table(forwards).status(route) == if exists|i: int|
            0 <= i < forwards.len() && (#[trigger] forwards[i]).route == route {
            RouteStatus::Connecting
        } else {
            RouteStatus::Unknown
        },
    decreases forwards.len(),
{
    if forwards.len() > 0 {
        let init = forwards.drop_last();
        let last = forwards.last();
        tables_begin_connecting(init, route);
        let before = table::initial_table(init);
        let after = table::initial_table(forwards);
        assert forall|r: Seq<char>| #[trigger] after.routes.contains_key(r) implies after.routes[r]
            < after.ports.len() by {
            if r != last.route {
                assert(before.routes.contains_key(r));
            }
        }
        assert forall|r: Seq<char>, q: Seq<char>|
            #![trigger after.routes.contains_key(r), after.routes.contains_key(q)]
            after.routes.contains_key(r) && after.routes.contains_key(q) && r
                != q implies after.routes[r] != after.routes[q] by {
            assert(r != last.route ==> before.routes.contains_key(r));
            assert(q != last.route ==> before.routes.contains_key(q));
        }
        if exists|i: int| 0 <= i < init.len() && (#[trigger] init[i]).route == route {
            let i = choose|i: int| 0 <= i < init.len() && (#[trigger] init[i]).route == route;
            assert(forwards[i].route == route);
        }
        if exists|i: int| 0 <= i < forwards.len() && (#[trigger] forwards[i]).route == route {
            let i = choose|i: int|
                0 <= i < forwards.len() && (#[trigger] forwards[i]).route == route;
            if i < init.len() {
                assert(init[i].route == route);
            }
        }
        if last.route == route {
            assert(forwards[forwards.len() - 1].route == route);
            assert(after.ports[after.routes[route] as int] is None);
        } else if before.routes.contains_key(route) {
            assert(after.routes[route] == before.routes[route]);
            assert(after.ports[after.routes[route] as int]
                == before.ports[before.routes[route] as int]);
        }
    }
}

/// Toggling a route starts its forward or stops it, leaves it known and without a port, and
/// touches no other route.
pub proof fn toggling_touches_one_route(t: TableView, route: Seq<char>, other: Seq<char>)
    requires
        t.wf(),
        !t.active.contains_key(route) ==> t.ports.len() <= usize::MAX,
    ensures
        t.toggled(route).active.contains_key(route) == !t.active.contains_key(route),
        t.toggled(route).status(route) == RouteStatus::Connecting,
        other != route ==> t.toggled(route).active.contains_key(other) == t.active.contains_key(
            other,
        ),
        other != route ==> t.toggled(route).status(other) == t.status(other),
{
    if t.active.contains_key(route) {
        assert(t.routes.contains_key(route));
    }
    if t.routes.contains_key(other) && other != route {
        assert(t.routes[other] < t.ports.len());
        if t.active.contains_key(route) {
            assert(t.routes.contains_key(route));
            assert(t.routes[other] != t.routes[route]);
        }
    }
}

/// A route that is toggled twice is forwarded or not as before, and waits for a forward; no
/// other route is touched.
pub proof fn toggling_twice_restores(t: TableView, route: Seq<char>)
    requires
        t.wf(),
        t.ports.len() <= usize::MAX,
    ensures
        t.toggled(route).toggled(route).active.dom() == t.active.dom(),
        t.toggled(route).toggled(route).status(route) == RouteStatus::Connecting,
        forall|other: Seq<char>|
            other != route ==> #[trigger] t.toggled(route).toggled(route).status(other) == t.status(
                other,
            ),
{
    t.toggled_wf(route);
    toggling_touches_one_route(t, route, route);
    toggling_touches_one_route(t.toggled(route), route, route);
    assert(t.toggled(route).toggled(route).active.dom() =~= t.active.dom());
    assert forall|other: Seq<char>| other != route implies #[trigger] t.toggled(route).toggled(
        route,
    ).status(other) == t.status(other) by {
        toggling_touches_one_route(t, route, other);
        toggling_touches_one_route(t.toggled(route), route, other);
    }
}

/// A forward that reports its port makes its route ready on that port, and touches no other
/// route.
pub proof fn reported_ports_serve_their_route(
    t: TableView,
    route: Seq<char>,
    other: Seq<char>,
    port: u16,
)
    requires
        t.wf(),
        t.routes.contains_key(route),
        other != route,
    ensures
        t.with_port(t.routes[route], Some(port)).status(route) == RouteStatus::Ready(port),
        t.with_port(t.routes[route], Some(port)).status(other) == t.status(other),
{
    assert(t.routes[route] < t.ports.len());
    if t.routes.contains_key(other) {
        assert(t.routes[other] < t.ports.len());
        assert(t.routes[other] != t.routes[route]);
    }
}

/// What a forward still reports after it was stopped and its route started again reaches
/// nobody.
pub proof fn stale_reports_reach_nobody(
    t: TableView,
    route: Seq<char>,
    port: Option<u16>,
    any: Seq<char>,
)
    requires
        t.wf(),
        t.ports.len() <= usize::MAX,
        t.active.contains_key(route),
    ensures
        t.toggled(route).toggled(route).with_port(t.active[route], port).status(any) == t.toggled(
            route,
        ).toggled(route).status(any),
{
    let slot = t.active[route];
    let t1 = t.toggled(route);
    let t2 = t1.toggled(route);
    t.toggled_wf(route);
    t1.toggled_wf(route);
    assert(t.routes.contains_key(route));
    assert(slot < t.ports.len());
    if t2.routes.contains_key(any) && any != route {
        assert(t.routes.contains_key(any));
        assert(t.routes[any] != t.routes[route]);
        assert(t.routes[any] < t.ports.len());
    }
}

/// Stopping every forward leaves none running, leaves every route as known as it was, takes
/// the port of each that ran, and touches no other.
pub proof fn stopping_all_stops_each(t: TableView, route: Seq<char>)
    requires
        t.wf(),
    ensures
        !t.stopped().active.contains_key(route),
        t.stopped().routes == t.routes,
        t.stopped().status(route) == if t.active.contains_key(route) {
            RouteStatus::Connecting
        } else {
            t.status(route)
        },
{
    if t.routes.contains_key(route) {
        let slot = t.routes[route];
        assert(slot < t.ports.len());
        if t.active.contains_key(route) {
            assert(t.active[route] == slot);
            assert(table::uses_slot(t.active, slot as int));
        } else if table::uses_slot(t.active, slot as int) {
            let r = choose|r: Seq<char>| #[trigger] t.active.contains_key(r) && t.active[r] == slot;
            assert(t.routes.contains_key(r));
            assert(r != route);
        }
    } else {
        if t.active.contains_key(route) {
            assert(t.routes.contains_key(route));
        }
    }
}

/// The delay after so many failures.
pub open spec fn delay_after(failures: nat) -> u64
    decreases failures,
{
    if failures == 0 {
        forward::FIRST_DELAY
    } else {
        forward::longer_delay(delay_after((failures - 1) as nat))
    }
}

/// The delays between attempts are 1, 2, 4, 8 and 16 seconds, and 30 from then on.
pub proof fn delays_double_up_to_the_longest(failures: nat)
    ensures
        delay_after(failures) == if failures == 0 {
            1u64
        } else if failures == 1 {
            2
        } else if failures == 2 {
            4
        } else if failures == 3 {
            8
        } else if failures == 4 {
            16
        } else {
            30
        },
    decreases failures,
{
    if failures > 0 {
        delays_double_up_to_the_longest((failures - 1) as nat);
    }
}

/// A forward that fails waits, and is attempted again with a delay that is no shorter, unless
/// it is told to stop; a forward that is told to stop is never attempted again.
pub proof fn forwards_are_kept_up_until_stopped(delay: u64, stopping: bool)
    requires
        forward::FIRST_DELAY <= delay <= forward::LONGEST_DELAY,
    ensures
        forward::forward_step(delay, ForwardEvent::Failed) == (delay, ForwardAction::Wait(delay)),
        forward::forward_step(delay, ForwardEvent::Waited { stopping }).0 >= delay,
        forward::forward_step(delay, ForwardEvent::Waited { stopping }).1 == if stopping {
            ForwardAction::Quit
        } else {
            ForwardAction::Attempt
        },
        forward::forward_step(delay, ForwardEvent::Begun { stopping }).1 == if stopping {
            ForwardAction::Quit
        } else {
            ForwardAction::Attempt
        },
        forward::forward_step(delay, ForwardEvent::Interrupted).1 == ForwardAction::Quit,
        forward::forward_step(delay, ForwardEvent::Ended).1 == ForwardAction::Quit,
{
}

/// What is counted adds up, in whatever portions it comes.
pub proof fn counts_add_up(count: u64, first: u64, second: u64)
    ensures
        stats::counted(stats::counted(count, first) as u64, second) == (count + first + second)
            % 0x1_0000_0000_0000_0000,
{
    let m: int = 0x1_0000_0000_0000_0000;
    assert(((count + first) % m + second) % m == (count + first + second) % m) by (nonlinear_arith)
        requires
            m == 0x1_0000_0000_0000_0000,
    ;
}

/// A forward that is started has a slot that no other route has, and what it writes there
/// makes its route ready on that port, whatever the port is, or waiting again.
pub proof fn started_forwards_serve_their_route(t: TableView, route: Seq<char>, port: u16)
    requires
        t.wf(),
        t.ports.len() <= usize::MAX,
        !t.active.contains_key(route),
    ensures
        ({
            let slot = t.ports.len() as usize;
            let started = t.toggled(route);
            &&& started.active[route] == slot
            &&& started.routes[route] == slot
            &&& started.with_port(slot, Some(port)).status(route) == RouteStatus::Ready(port)
            &&& started.with_port(slot, Some(port)).with_port(slot, None).status(route)
                == RouteStatus::Connecting
            &&& forall|other: Seq<char>|
                other != route && #[trigger] t.routes.contains_key(other) ==> started.routes[other]
                    != slot
        }),
{
}

/// A forward that is stopped loses its port, and keeps its place among the routes.
pub proof fn stopped_forwards_lose_their_port(t: TableView, route: Seq<char>)
    requires
        t.wf(),
        t.active.contains_key(route),
    ensures
        t.toggled(route).routes == t.routes,
        t.toggled(route).ports[t.active[route] as int] is None,
        t.toggled(route).ports.len() == t.ports.len(),
        forall|slot: int|
            0 <= slot < t.ports.len() && slot != t.active[route] ==> #[trigger] t.toggled(
                route,
            ).ports[slot] == t.ports[slot],
{
    assert(t.routes.contains_key(route));
}

/// What is known of a route: nothing where it is not in the table; else the port in its slot,
/// or that there is none yet.
pub proof fn routes_are_known_by_their_slot(t: TableView, route: Seq<char>)
    ensures
        t.status(route) == RouteStatus::Unknown <==> !t.routes.contains_key(route),
        t.routes.contains_key(route) ==> {
            &&& t.ports[t.routes[route] as int] is None <==> t.status(route)
                == RouteStatus::Connecting
            &&& t.ports[t.routes[route] as int] matches Some(port) ==> t.status(route)
                == RouteStatus::Ready(port)
        },
{
}

/// Writing to a slot changes that slot and nothing else, and a slot that is not there changes
/// nothing.
pub proof fn slots_are_written_alone(t: TableView, slot: usize, port: Option<u16>, other: int)
    requires
        0 <= other < t.ports.len(),
    ensures
        t.with_port(slot, port).routes == t.routes,
        t.with_port(slot, port).active == t.active,
        t.with_port(slot, port).ports.len() == t.ports.len(),
        t.with_port(slot, port).ports[other] == if other == slot {
            port
        } else {
            t.ports[other]
        },
{
}

/// The delay after a failed attempt is twice the one before, and never more than 30 seconds.
pub proof fn delays_are_doubled(delay: u64, stopping: bool)
    requires
        1 <= delay <= 30,
    ensures
        forward::forward_step(delay, ForwardEvent::Waited { stopping }).0 == if delay >= 15 {
            30
        } else {
            2 * delay
        },
        forward::forward_step(delay, ForwardEvent::Failed).0 == delay,
        forward::forward_step(delay, ForwardEvent::Begun { stopping }).0 == delay,
        forward::FIRST_DELAY == 1,
{
}

/// `kubectl` is asked to forward, in the context and the namespace of the forward, from a local
/// port of its choice on the loopback address to the target and the port of the forward.
pub proof fn kubectl_is_asked_for_the_forward(f: ForwardView)
    ensures
        ({
            let arguments = forward::kubectl_arguments(f);
            &&& arguments.len() == 9
            &&& arguments[0] == "--context"@
            &&& arguments[1] == f.context
            &&& arguments[2] == "port-forward"@
            &&& arguments[3] == "--address"@
            &&& arguments[4] == "127.0.0.1"@
            &&& arguments[5] == "--namespace"@
            &&& arguments[6] == f.namespace
            &&& arguments[7] == f.target
            &&& arguments[8].take(2) == seq!['0', ':']
            &&& texts::decimal_digits(arguments[8].skip(2))
            &&& text::port_number(arguments[8].skip(2)) == Some(f.remote_port)
        }),
{
    reveal_strlit("0:");
    let digits = text::decimal(f.remote_port as nat);
    routes::ports_are_read_back(f.remote_port);
    texts::decimal_digits_follow_division(f.remote_port as nat);
    let ports = "0:"@ + digits;
    assert(ports.take(2) =~= seq!['0', ':']);
    assert(ports.skip(2) =~= digits);
}

/// An attempt that failed is reported with the route, the reason, and the seconds until the
/// next.
pub proof fn failures_are_reported_with_the_delay(route: Seq<char>, error: Seq<char>, delay: u64)
    ensures
        ({
            let notice = forward::retry_text(route, error, delay);
            let digits = text::decimal(delay as nat);
            &&& notice == route + seq![':', ' '] + error + "; retrying in "@ + digits.push('s')
            &&& text::digits_value(digits) == delay
        }),
{
    reveal_strlit(": ");
    reveal_strlit("s");
    routes::decimal_denotes(delay as nat);
    assert(forward::retry_text(route, error, delay) =~= route + seq![':', ' '] + error
        + "; retrying in "@ + text::decimal(delay as nat).push('s'));
}

/// A line of output is passed on as it stands, after the route, unless it reports a port: then
/// the port is named.
pub proof fn output_is_passed_on(route: Seq<char>, line: Seq<char>)
    ensures
        match route::forwarded_port(line) {
            None => forward::output_notice(route, line) == route + seq![':', ' '] + line,
            Some(port) => {
                let notice = forward::output_notice(route, line);
                let opening = route + ": connected on 127.0.0.1:"@;
                &&& notice.take(opening.len() as int) == opening
                &&& text::port_number(notice.skip(opening.len() as int)) == Some(port)
            },
        },
{
    reveal_strlit(": ");
    match route::forwarded_port(line) {
        None => {
            assert(forward::output_notice(route, line) =~= route + seq![':', ' '] + line);
        },
        Some(port) => {
            let opening = route + ": connected on 127.0.0.1:"@;
            let digits = text::decimal(port as nat);
            let notice = forward::output_notice(route, line);
            assert(notice.take(opening.len() as int) =~= opening);
            assert(notice.skip(opening.len() as int) =~= digits);
            routes::ports_are_read_back(port);
        },
    }
}

/// A `kubectl` that was to stop has ended without a complaint, and ends the forward; one that
/// was not has failed, with its exit in the complaint, and is waited for and run again.
pub proof fn exits_are_failures_unless_stopping(exit: Seq<char>, delay: u64)
    ensures
        forward::exit_complaint(true, exit) is None,
        forward::exit_complaint(false, exit) == Some("kubectl port-forward exited with "@ + exit),
        forward::forward_step(delay, forward::event_of(false)).1 == ForwardAction::Quit,
        forward::forward_step(delay, forward::event_of(true)).1 == ForwardAction::Wait(delay),
{
}

/// What is counted is added, as long as the counter can hold it.
pub proof fn counts_are_sums(count: u64, more: u64)
    ensures
        count + more <= u64::MAX ==> stats::counted(count, more) == count + more,
        count + more > u64::MAX ==> stats::counted(count, more) == count + more - u64::MAX - 1,
{
}

} // verus!
