//! Which routes there are, which of them are forwarded, and through which local ports.
//!
//! A forward writes the port that it was given to a slot. When it is stopped and started
//! again it gets a new slot, so that what the old one still has to say reaches nobody.

use vstd::prelude::*;

use crate::config::ForwardSpec;
use crate::config;
use crate::laws::forwarding;
use crate::text;

verus! {

/// Slots by route: no route stands twice.
pub struct RouteMap {
    entries: Vec<(String, usize)>,
}

/// The position of the first entry of a route.
pub open spec fn entry_position(entries: Seq<(String, usize)>, route: Seq<char>) -> Option<int>
    decreases entries.len(),
{
    if entries.len() == 0 {
        None
    } else if entries[0].0@ == route {
        Some(0)
    } else {
        match entry_position(entries.drop_first(), route) {
            Some(i) => Some(i + 1),
            None => None,
        }
    }
}

proof fn lemma_entry_position(entries: Seq<(String, usize)>, route: Seq<char>)
    ensures
        match entry_position(entries, route) {
            Some(i) => 0 <= i < entries.len() && entries[i].0@ == route && forall|j: int|
                0 <= j < i ==> (#[trigger] entries[j]).0@ != route,
            None => forall|i: int| 0 <= i < entries.len() ==> (#[trigger] entries[i]).0@ != route,
        },
    decreases entries.len(),
{
    if entries.len() > 0 {
        let rest = entries.drop_first();
        lemma_entry_position(rest, route);
        assert forall|i: int| 0 < i < entries.len() implies #[trigger] entries[i] == rest[i - 1] by {}
    }
}

/// Where the first entry of a route is known, it is its position.
proof fn lemma_entry_at(entries: Seq<(String, usize)>, at: int)
    requires
        0 <= at < entries.len(),
        distinct_entries(entries),
    ensures
        entry_position(entries, entries[at].0@) == Some(at),
{
    lemma_entry_position(entries, entries[at].0@);
}

/// Whether no route stands twice.
pub open spec fn distinct_entries(entries: Seq<(String, usize)>) -> bool {
    forall|i: int, j: int|
        0 <= i < j < entries.len() ==> (#[trigger] entries[i]).0@ != (#[trigger] entries[j]).0@
}

/// Whether one of the routes has the slot.
pub open spec fn uses_slot(routes: Map<Seq<char>, usize>, slot: int) -> bool {
    exists|route: Seq<char>| #[trigger] routes.contains_key(route) && routes[route] == slot
}

/// Whether no two routes have the same slot.
pub open spec fn distinct_slots(routes: Map<Seq<char>, usize>) -> bool {
    forall|r: Seq<char>, q: Seq<char>|
        #![trigger routes.contains_key(r), routes.contains_key(q)]
        routes.contains_key(r) && routes.contains_key(q) && r != q ==> routes[r] != routes[q]
}

impl View for RouteMap {
    type V = Map<Seq<char>, usize>;

    closed spec fn view(&self) -> Map<Seq<char>, usize> {
        Map::new(
            |r: Seq<char>| entry_position(self.entries@, r) is Some,
            |r: Seq<char>| self.entries@[entry_position(self.entries@, r)->0].1,
        )
    }
}

impl RouteMap {
    /// Whether no route stands twice.
    pub closed spec fn wf(&self) -> bool {
        distinct_entries(self.entries@)
    }

    /// No routes.
    pub fn new() -> (r: Self)
        ensures
            r.wf(),
            r@ == Map::<Seq<char>, usize>::empty(),
    {
        let r = RouteMap { entries: Vec::new() };
        assert(r@ =~= Map::<Seq<char>, usize>::empty());
        r
    }

    /// The position of a route.
    fn position(&self, route: &str) -> (r: Option<usize>)
        ensures
            r matches Some(i) ==> i < self.entries@.len() && entry_position(self.entries@, route@)
                == Some(i as int),
            r is None ==> entry_position(self.entries@, route@) is None,
    {
        let ghost all = self.entries@;
        let n: usize = self.entries.len();
        assert(all.skip(0) =~= all);
        for i in 0..n
            invariant
                n == all.len(),
                all == self.entries@,
                match entry_position(all.skip(i as int), route@) {
                    Some(k) => entry_position(all, route@) == Some(k + i),
                    None => entry_position(all, route@) is None,
                },
        {
            assert(all.skip(i as int)[0] == all[i as int]);
            if text::same(self.entries[i].0.as_str(), route) {
                return Some(i);
            }
            assert(all.skip(i as int).drop_first() =~= all.skip(i + 1));
        }
        None
    }

    /// The slot of a route.
    pub fn get(&self, route: &str) -> (r: Option<usize>)
        ensures
            r is Some <==> self@.contains_key(route@),
            r matches Some(slot) ==> self@[route@] == slot,
    {
        match self.position(route) {
            Some(i) => Some(self.entries[i].1),
            None => None,
        }
    }

    /// Gives a route a slot, in place of the one it had.
    pub fn insert(&mut self, route: &str, slot: usize)
        requires
            old(self).wf(),
        ensures
            final(self).wf(),
            final(self)@ == old(self)@.insert(route@, slot),
    {
        let ghost before = self.entries@;
        let at = self.position(route);
        proof {
            lemma_entry_position(before, route@);
        }
        match at {
            Some(i) => {
                self.entries.set(i, (route.to_owned(), slot));
            },
            None => {
                self.entries.push((route.to_owned(), slot));
            },
        }
        proof {
            let k = match at {
                Some(i) => i as int,
                None => before.len() as int,
            };
            let after = self.entries@;
            assert(after[k].0@ == route@ && after[k].1 == slot);
            assert forall|i: int| 0 <= i < before.len() && i != k implies #[trigger] after[i]
                == before[i] by {}
            assert forall|i: int, j: int| 0 <= i < j < after.len() implies (
            #[trigger] after[i]).0@ != (#[trigger] after[j]).0@ by {
                if i != k && j != k {
                    assert(before[i].0@ != before[j].0@);
                } else if at is Some {
                    assert(before[i].0@ != before[j].0@);
                }
            }
            assert forall|r: Seq<char>| #[trigger] self@.contains_key(r) == old(self)@.insert(
                route@,
                slot,
            ).contains_key(r) && (self@.contains_key(r) ==> self@[r] == old(self)@.insert(
                route@,
                slot,
            )[r]) by {
                lemma_entry_position(after, r);
                lemma_entry_position(before, r);
                if r == route@ {
                    lemma_entry_at(after, k);
                } else {
                    if entry_position(before, r) is Some {
                        let i = entry_position(before, r)->0;
                        assert(after[i] == before[i]);
                        lemma_entry_at(after, i);
                    } else if entry_position(after, r) is Some {
                        let i = entry_position(after, r)->0;
                        assert(i != k);
                        assert(after[i] == before[i]);
                    }
                }
            }
            assert(self@ =~= old(self)@.insert(route@, slot));
        }
    }

    /// Takes a route out, and hands back its slot.
    pub fn remove(&mut self, route: &str) -> (r: Option<usize>)
        requires
            old(self).wf(),
        ensures
            final(self).wf(),
            final(self)@ == old(self)@.remove(route@),
            r is Some <==> old(self)@.contains_key(route@),
            r matches Some(slot) ==> old(self)@[route@] == slot,
    {
        let ghost before = self.entries@;
        let at = self.position(route);
        proof {
            lemma_entry_position(before, route@);
        }
        let r = match at {
            Some(i) => Some(self.entries.remove(i).1),
            None => None,
        };
        proof {
            let after = self.entries@;
            if at is Some {
                let k = at->0 as int;
                assert(after == before.remove(k));
                assert forall|i: int, j: int| 0 <= i < j < after.len() implies (
                #[trigger] after[i]).0@ != (#[trigger] after[j]).0@ by {
                    let p = if i < k {
                        i
                    } else {
                        i + 1
                    };
                    let q = if j < k {
                        j
                    } else {
                        j + 1
                    };
                    assert(after[i] == before[p] && after[j] == before[q]);
                }
                assert forall|r: Seq<char>| #[trigger] self@.contains_key(r) == old(self)@.remove(
                    route@,
                ).contains_key(r) && (self@.contains_key(r) ==> self@[r] == old(self)@.remove(
                    route@,
                )[r]) by {
                    lemma_entry_position(after, r);
                    lemma_entry_position(before, r);
                    if entry_position(after, r) is Some {
                        let i = entry_position(after, r)->0;
                        let p = if i < k {
                            i
                        } else {
                            i + 1
                        };
                        assert(after[i] == before[p]);
                        lemma_entry_at(before, p);
                    } else if entry_position(before, r) is Some {
                        let p = entry_position(before, r)->0;
                        if p != k {
                            let i = if p < k {
                                p
                            } else {
                                p - 1
                            };
                            assert(after[i] == before[p]);
                        }
                    }
                }
            }
            assert(self@ =~= old(self)@.remove(route@));
        }
        r
    }

    /// All slots, one for each route, in no order that matters.
    pub fn slots(&self) -> (r: Vec<usize>)
        requires
            self.wf(),
        ensures
            forall|slot: usize| #[trigger] r@.contains(slot) <==> uses_slot(self@, slot as int),
            distinct_slots(self@) ==> r@.no_duplicates(),
    {
        let mut r: Vec<usize> = Vec::new();
        let n: usize = self.entries.len();
        for i in 0..n
            invariant
                n == self.entries@.len(),
                r@.len() == i,
                forall|j: int| 0 <= j < i ==> #[trigger] r@[j] == self.entries@[j].1,
        {
            r.push(self.entries[i].1);
        }
        proof {
            assert forall|slot: usize| #[trigger] r@.contains(slot) <==> uses_slot(self@, slot as int) by {
                if r@.contains(slot) {
                    let i = choose|i: int| 0 <= i < r@.len() && r@[i] == slot;
                    lemma_entry_at(self.entries@, i);
                    assert(self@.contains_key(self.entries@[i].0@));
                }
                if uses_slot(self@, slot as int) {
                    let route = choose|route: Seq<char>| #[trigger]
                        self@.contains_key(route) && self@[route] == slot;
                    lemma_entry_position(self.entries@, route);
                    let i = entry_position(self.entries@, route)->0;
                    assert(r@[i] == slot);
                }
            }
            if distinct_slots(self@) {
                assert forall|i: int, j: int| 0 <= i < j < r@.len() implies r@[i] != r@[j] by {
                    lemma_entry_at(self.entries@, i);
                    lemma_entry_at(self.entries@, j);
                    assert(self@.contains_key(self.entries@[i].0@));
                    assert(self@.contains_key(self.entries@[j].0@));
                }
            }
        }
        r
    }
}

/// What is known of a route.
#[derive(Clone, Copy, Debug, PartialEq, Eq, Structural)]
pub enum RouteStatus {
    /// There is no such route.
    Unknown,
    /// The route is there, and no forward serves it yet.
    Connecting,
    /// A forward serves the route through a local port.
    Ready(u16),
}

/// What became of a forward that was toggled.
#[derive(Clone, Copy, Debug, PartialEq, Eq, Structural)]
pub enum Toggled {
    /// It is to run, and to write its port to the slot.
    Started(usize),
    /// The one that writes to the slot is to stop.
    Stopped(usize),
}

/// The routes, which of them are forwarded, and the ports that forwards have reported.
pub struct ForwardTable {
    routes: RouteMap,
    active: RouteMap,
    ports: Vec<Option<u16>>,
}

/// The mathematical counterpart of [`ForwardTable`]: the slots of all routes and of those
/// that are forwarded, and the port in each slot.
pub struct TableView {
    pub routes: Map<Seq<char>, usize>,
    pub active: Map<Seq<char>, usize>,
    pub ports: Seq<Option<u16>>,
}

impl TableView {
    /// Whether every route has a slot of its own that is there, and a forwarded route the
    /// same one in both maps.
    pub open spec fn wf(self) -> bool {
        &&& forall|r: Seq<char>| #[trigger]
            self.routes.contains_key(r) ==> self.routes[r] < self.ports.len()
        &&& distinct_slots(self.routes)
        &&& forall|r: Seq<char>| #[trigger]
            self.active.contains_key(r) ==> self.routes.contains_key(r) && self.active[r]
                == self.routes[r]
    }

    /// What is known of a route.
    pub open spec fn status(self, route: Seq<char>) -> RouteStatus {
        if !self.routes.contains_key(route) {
            RouteStatus::Unknown
        } else {
            match self.ports[self.routes[route] as int] {
                None => RouteStatus::Connecting,
                Some(port) => RouteStatus::Ready(port),
            }
        }
    }

    /// The table after the route was toggled: a forward that runs is stopped and loses its
    /// port, one that does not is started with a new slot.
    pub open spec fn toggled(self, route: Seq<char>) -> TableView {
        if self.active.contains_key(route) {
            TableView {
                active: self.active.remove(route),
                ports: self.ports.update(self.active[route] as int, None),
                ..self
            }
        } else {
            TableView {
                routes: self.routes.insert(route, self.ports.len() as usize),
                active: self.active.insert(route, self.ports.len() as usize),
                ports: self.ports.push(None),
            }
        }
    }

    /// The table after every forward was stopped.
    pub open spec fn stopped(self) -> TableView {
        TableView {
            active: Map::empty(),
            ports: Seq::new(
                self.ports.len(),
                |i: int|
                    if uses_slot(self.active, i) {
                        None
                    } else {
                        self.ports[i]
                    },
            ),
            ..self
        }
    }

    /// The table after a forward wrote to its slot; one that is not there is left out.
    pub open spec fn with_port(self, slot: usize, port: Option<u16>) -> TableView {
        if slot < self.ports.len() {
            TableView { ports: self.ports.update(slot as int, port), ..self }
        } else {
            self
        }
    }

    /// The table with one more route, which nothing forwards yet.
    pub open spec fn with_route(self, route: Seq<char>) -> TableView {
        TableView {
            routes: self.routes.insert(route, self.ports.len() as usize),
            ports: self.ports.push(None),
            ..self
        }
    }
}

impl TableView {
    /// Toggling a route keeps the table well-formed.
    pub proof fn toggled_wf(self, route: Seq<char>)
        requires
            self.wf(),
            !self.active.contains_key(route) ==> self.ports.len() <= usize::MAX,
        ensures
            self.toggled(route).wf(),
    {
        let after = self.toggled(route);
        assert forall|r: Seq<char>| #[trigger] after.routes.contains_key(r) implies after.routes[r]
            < after.ports.len() by {
            if r != route {
                assert(self.routes.contains_key(r));
            }
        }
        assert forall|r: Seq<char>, q: Seq<char>|
            #![trigger after.routes.contains_key(r), after.routes.contains_key(q)]
            after.routes.contains_key(r) && after.routes.contains_key(q) && r
                != q implies after.routes[r] != after.routes[q] by {
            assert(r != route ==> self.routes.contains_key(r));
            assert(q != route ==> self.routes.contains_key(q));
        }
        assert forall|r: Seq<char>| #[trigger] after.active.contains_key(
            r,
        ) implies after.routes.contains_key(r) && after.active[r] == after.routes[r] by {
            if r != route {
                assert(self.active.contains_key(r));
            }
        }
    }

    /// A forward that writes its port keeps the table well-formed.
    pub proof fn with_port_wf(self, slot: usize, port: Option<u16>)
        requires
            self.wf(),
        ensures
            self.with_port(slot, port).wf(),
    {
        let after = self.with_port(slot, port);
        assert forall|r: Seq<char>| #[trigger] after.routes.contains_key(r) implies after.routes[r]
            < after.ports.len() by {
            assert(self.routes.contains_key(r));
        }
        assert forall|r: Seq<char>| #[trigger] after.active.contains_key(
            r,
        ) implies after.routes.contains_key(r) && after.active[r] == after.routes[r] by {
            assert(self.active.contains_key(r));
        }
    }

    /// Stopping every forward keeps the table well-formed.
    pub proof fn stopped_wf(self)
        requires
            self.wf(),
        ensures
            self.stopped().wf(),
    {
        let after = self.stopped();
        assert forall|r: Seq<char>| #[trigger] after.routes.contains_key(r) implies after.routes[r]
            < after.ports.len() by {
            assert(self.routes.contains_key(r));
        }
    }
}

/// The table with which the routes of forwards begin.
pub open spec fn initial_table(forwards: Seq<config::ForwardView>) -> TableView
    decreases forwards.len(),
{
    if forwards.len() == 0 {
        TableView { routes: Map::empty(), active: Map::empty(), ports: seq![] }
    } else {
        initial_table(forwards.drop_last()).with_route(forwards.last().route)
    }
}

impl View for ForwardTable {
    type V = TableView;

    closed spec fn view(&self) -> TableView {
        TableView { routes: self.routes@, active: self.active@, ports: self.ports@ }
    }
}

impl ForwardTable {
    /// Whether every route has a slot of its own that is there, and a forwarded route the
    /// same one in both maps.
    pub closed spec fn wf(&self) -> bool {
        self.routes.wf() && self.active.wf() && self@.wf()
    }

    /// A well-formed table has a well-formed counterpart, and no more slots than can be counted.
    pub proof fn wf_view(&self)
        requires
            self.wf(),
        ensures
            self@.wf(),
            self@.ports.len() <= usize::MAX,
    {
        assert(self.ports.len() == self.ports@.len());
    }

    /// The routes of the forwards, none of which runs yet.
    pub fn new(forwards: &[ForwardSpec]) -> (r: Self)
        ensures
            r.wf(),
            r@ == initial_table(config::forwards_view(forwards@)),
    {
        let ghost all = config::forwards_view(forwards@);
        let mut r = ForwardTable {
            routes: RouteMap::new(),
            active: RouteMap::new(),
            ports: Vec::new(),
        };
        let n: usize = forwards.len();
        assert(all.take(0) =~= seq![]);
        for i in 0..n
            invariant
                n == forwards@.len(),
                all == config::forwards_view(forwards@),
                r.wf(),
                r@ == initial_table(all.take(i as int)),
                r@.active == Map::<Seq<char>, usize>::empty(),
        {
            assert(all.take(i + 1).drop_last() =~= all.take(i as int));
            assert(all.take(i + 1).last() == forwards@[i as int]@);
            let slot: usize = r.ports.len();
            r.routes.insert(forwards[i].route.as_str(), slot);
            r.ports.push(None);
            assert(r@ == initial_table(all.take(i + 1)));
        }
        assert(all.take(n as int) =~= all);
        r
    }

    /// Stops the forward of a route, or starts one. Either way the route is known and waits
    /// for a port, and no other route is touched.
    pub fn toggle(&mut self, route: &str) -> (r: Toggled)
        requires
            old(self).wf(),
        ensures
            final(self).wf(),
            final(self)@ == old(self)@.toggled(route@),
            r == if old(self)@.active.contains_key(route@) {
                Toggled::Stopped(old(self)@.active[route@])
            } else {
                Toggled::Started(old(self)@.ports.len() as usize)
            },
            final(self)@.active.contains_key(route@) == !old(self)@.active.contains_key(route@),
            final(self)@.status(route@) == RouteStatus::Connecting,
            forall|other: Seq<char>|
                other != route@ ==> #[trigger] final(self)@.active.contains_key(other) == old(
                    self,
                )@.active.contains_key(other),
            forall|other: Seq<char>|
                other != route@ ==> #[trigger] final(self)@.status(other) == old(self)@.status(
                    other,
                ),
    {
        let next: usize = self.ports.len();
        let ghost before = self@;
        proof {
            before.toggled_wf(route@);
            forwarding::toggling_touches_one_route(before, route@, route@);
            assert forall|other: Seq<char>| other != route@ implies #[trigger] before.toggled(
                route@,
            ).active.contains_key(other) == before.active.contains_key(other) by {
                forwarding::toggling_touches_one_route(before, route@, other);
            }
            assert forall|other: Seq<char>| other != route@ implies #[trigger] before.toggled(
                route@,
            ).status(other) == before.status(other) by {
                forwarding::toggling_touches_one_route(before, route@, other);
            }
        }
        match self.active.remove(route) {
            Some(slot) => {
                assert(before.active.contains_key(route@));
                assert(before.routes.contains_key(route@));
                self.ports.set(slot, None);
                assert(self@ == before.toggled(route@));
                Toggled::Stopped(slot)
            },
            None => {
                assert(old(self).active@.remove(route@) =~= old(self).active@);
                self.ports.push(None);
                self.routes.insert(route, next);
                self.active.insert(route, next);
                assert(self@ == before.toggled(route@));
                Toggled::Started(next)
            },
        }
    }

    /// Stops every forward, and hands back the slots of those that ran, each once.
    pub fn stop_all(&mut self) -> (r: Vec<usize>)
        requires
            old(self).wf(),
        ensures
            final(self).wf(),
            final(self)@ == old(self)@.stopped(),
            forall|slot: usize| #[trigger]
                r@.contains(slot) <==> uses_slot(old(self)@.active, slot as int),
            r@.no_duplicates(),
    {
        assert(distinct_slots(self.active@)) by {
            assert forall|r: Seq<char>, q: Seq<char>|
                #![trigger self.active@.contains_key(r), self.active@.contains_key(q)]
                self.active@.contains_key(r) && self.active@.contains_key(q) && r
                    != q implies self.active@[r] != self.active@[q] by {
                assert(self@.active.contains_key(r) && self@.active.contains_key(q));
                assert(self@.routes.contains_key(r) && self@.routes.contains_key(q));
            }
        }
        let slots = self.active.slots();
        self.active = RouteMap::new();
        let m: usize = self.ports.len();
        let n: usize = slots.len();
        for k in 0..n
            invariant
                n == slots@.len(),
                m == self.ports@.len(),
                slots@.no_duplicates(),
                forall|slot: usize| #[trigger]
                    slots@.contains(slot) <==> uses_slot(old(self)@.active, slot as int),
                old(self).wf(),
                self.routes == old(self).routes,
                self.active.wf(),
                self.active@ == Map::<Seq<char>, usize>::empty(),
                self.ports@.len() == old(self).ports@.len(),
                forall|i: usize|
                    i < m ==> #[trigger] self.ports@[i as int] == if slots@.take(
                        k as int,
                    ).contains(i) {
                        None
                    } else {
                        old(self).ports@[i as int]
                    },
        {
            let slot: usize = slots[k];
            assert(slots@.contains(slot));
            assert(slot < self.ports@.len());
            let ghost before = self.ports@;
            self.ports.set(slot, None);
            proof {
                let shorter = slots@.take(k as int);
                let longer = slots@.take(k + 1);
                assert(longer =~= shorter.push(slot));
                assert forall|i: usize| i < m implies #[trigger] self.ports@[i as int]
                    == if longer.contains(i) {
                    None
                } else {
                    old(self).ports@[i as int]
                } by {
                    assert(before[i as int] == if shorter.contains(i) {
                        None
                    } else {
                        old(self).ports@[i as int]
                    });
                    if i == slot {
                        assert(longer[k as int] == slot);
                    } else {
                        if longer.contains(i) {
                            let h = choose|h: int| 0 <= h < longer.len() && longer[h] == i;
                            assert(shorter[h] == i);
                        }
                        if shorter.contains(i) {
                            let h = choose|h: int| 0 <= h < shorter.len() && shorter[h] == i;
                            assert(longer[h] == i);
                        }
                    }
                }
            }
        }
        proof {
            assert(slots@.take(n as int) =~= slots@);
            assert forall|i: int| 0 <= i < m implies #[trigger] self@.ports[i]
                == old(self)@.stopped().ports[i] by {
                assert(self.ports@[(i as usize) as int] == if slots@.contains(i as usize) {
                    None
                } else {
                    old(self).ports@[i]
                });
            }
            assert(self@.ports =~= old(self)@.stopped().ports);
            assert(self@ == old(self)@.stopped());
            old(self)@.stopped_wf();
        }
        slots
    }

    /// Writes the port of a forward to its slot.
    pub fn set_port(&mut self, slot: usize, port: Option<u16>)
        requires
            old(self).wf(),
        ensures
            final(self).wf(),
            final(self)@ == old(self)@.with_port(slot, port),
    {
        proof {
            self@.with_port_wf(slot, port);
        }
        if slot < self.ports.len() {
            self.ports.set(slot, port);
            assert(self@ == old(self)@.with_port(slot, port));
        }
    }

    /// The port in a slot.
    pub fn port(&self, slot: usize) -> (r: Option<u16>)
        ensures
            r == if slot < self@.ports.len() {
                self@.ports[slot as int]
            } else {
                None
            },
    {
        if slot < self.ports.len() {
            self.ports[slot]
        } else {
            None
        }
    }

    /// What is known of a route.
    pub fn status(&self, route: &str) -> (r: RouteStatus)
        requires
            self.wf(),
        ensures
            r == self@.status(route@),
    {
        match self.routes.get(route) {
            None => RouteStatus::Unknown,
            Some(slot) => match self.ports[slot] {
                None => RouteStatus::Connecting,
                Some(port) => RouteStatus::Ready(port),
            },
        }
    }

    /// Whether the route is forwarded.
    pub fn is_active(&self, route: &str) -> (b: bool)
        ensures
            b == self@.active.contains_key(route@),
    {
        self.active.get(route).is_some()
    }
}

} // verus!
