use vstd::prelude::*;
use crate::registry::{Registry, RegistryView};

verus! {

/// Which way a route carries traffic.
#[derive(Clone, Copy, PartialEq, Eq, Structural, Debug)]
pub enum Direction {
    DeviceToBridge,
    BridgeToDevice,
    Both,
}

pub open spec fn is_inbound(d: Direction) -> bool {
    d != Direction::BridgeToDevice
}

pub open spec fn is_outbound(d: Direction) -> bool {
    d != Direction::DeviceToBridge
}

/// A configured route: a topic bound to one characteristic of one device.
pub struct Route {
    pub topic: String,
    pub device_id: u64,
    pub characteristic: String,
    pub direction: Direction,
}

/// A resolved route: a topic bound to a characteristic slot of the registry.
pub struct Entry {
    pub topic: String,
    pub slot: usize,
    pub direction: Direction,
}

/// Why a route table was refused; each names the index of the first offending route.
#[derive(Clone, Copy, PartialEq, Eq, Structural, Debug)]
pub enum RouteError {
    /// The route names a device or characteristic that is not registered.
    MissingTarget(usize),
    /// The route's topic is already taken by an earlier route.
    DuplicateTopic(usize),
}

pub open spec fn route_missing(routes: Seq<Route>, reg: RegistryView, i: int) -> bool {
    reg.lookup(routes[i].device_id, routes[i].characteristic@) is None
}

pub open spec fn route_duplicate(routes: Seq<Route>, i: int) -> bool {
    exists|j: int| 0 <= j < i && routes[j].topic@ == #[trigger] routes[i].topic@
}

pub open spec fn route_bad(routes: Seq<Route>, reg: RegistryView, i: int) -> bool {
    route_missing(routes, reg, i) || route_duplicate(routes, i)
}

/// Route `i` is the first offending one.
pub open spec fn first_bad(routes: Seq<Route>, reg: RegistryView, i: int) -> bool {
    &&& 0 <= i < routes.len()
    &&& route_bad(routes, reg, i)
    &&& forall|j: int| 0 <= j < i ==> !route_bad(routes, reg, j)
}

/// Entry `e` is route `r` resolved against `reg`.
pub open spec fn resolves(e: Entry, r: Route, reg: RegistryView) -> bool {
    &&& e.topic@ == r.topic@
    &&& e.direction == r.direction
    &&& reg.lookup(r.device_id, r.characteristic@) == Some(e.slot as int)
}

/// No two entries share a topic, and each names a slot of `reg`.
pub open spec fn table_wf(entries: Seq<Entry>, reg: RegistryView) -> bool {
    &&& forall|a: int, b: int|
        0 <= a < b < entries.len() ==> (#[trigger] entries[a]).topic@ != (#[trigger] entries[b]).topic@
    &&& forall|k: int| 0 <= k < entries.len() ==> (#[trigger] entries[k]).slot < reg.slots.len()
}

/// The entry bound to `topic`, if any.
pub open spec fn entry_for(entries: Seq<Entry>, topic: Seq<char>) -> Option<int> {
    if exists|k: int| 0 <= k < entries.len() && entries[k].topic@ == topic {
        Some(choose|k: int| 0 <= k < entries.len() && entries[k].topic@ == topic)
    } else {
        None
    }
}

/// The slot that an inbound message on `topic` updates, if any.
pub open spec fn inbound_slot(entries: Seq<Entry>, topic: Seq<char>) -> Option<int> {
    match entry_for(entries, topic) {
        Some(k) => if is_inbound(entries[k].direction) {
            Some(entries[k].slot as int)
        } else {
            None
        },
        None => None,
    }
}

/// Entry `k` carries commands for `slot`.
pub open spec fn outbound_for(entries: Seq<Entry>, k: int, slot: int) -> bool {
    0 <= k < entries.len() && entries[k].slot == slot && is_outbound(entries[k].direction)
}

/// The topics to subscribe to: those of the inbound entries, in table order.
pub open spec fn subscriptions(entries: Seq<Entry>) -> Seq<Seq<char>>
    decreases entries.len(),
{
    if entries.len() == 0 {
        Seq::empty()
    } else {
        let rest = subscriptions(entries.drop_last());
        if is_inbound(entries.last().direction) {
            rest.push(entries.last().topic@)
        } else {
            rest
        }
    }
}

/// Whether an earlier route than route `i` has its topic.
fn topic_taken(routes: &Vec<Route>, i: usize) -> (r: bool)
    requires
        i < routes@.len(),
    ensures
        r == route_duplicate(routes@, i as int),
{
    let mut j: usize = 0;
    while j < i
        invariant
            i < routes@.len(),
            j <= i,
            forall|m: int| 0 <= m < j ==> routes@[m].topic@ != routes@[i as int].topic@,
        decreases i - j,
    {
        if routes[j].topic == routes[i].topic {
            return true;
        }
        j = j + 1;
    }
    false
}

/// The bidirectional index between topics and characteristic slots.
pub struct Router {
    entries: Vec<Entry>,
}

impl View for Router {
    type V = Seq<Entry>;

    closed spec fn view(&self) -> Seq<Entry> {
        self.entries@
    }
}

impl Router {
    /// Resolves every route against the registry. Refused at the first route whose
    /// target is not registered or whose topic an earlier route already took.
    pub fn build(routes: &Vec<Route>, reg: &Registry) -> (r: Result<Router, RouteError>)
        requires
            reg@.wf(),
        ensures
            r is Ok <==> forall|i: int| 0 <= i < routes@.len() ==> !route_bad(routes@, reg@, i),
            r matches Ok(t) ==> {
                &&& table_wf(t@, reg@)
                &&& t@.len() == routes@.len()
                &&& forall|i: int| 0 <= i < routes@.len() ==> resolves(#[trigger] t@[i], routes@[i], reg@)
            },
            r matches Err(RouteError::MissingTarget(i)) ==> first_bad(routes@, reg@, i as int)
                && route_missing(routes@, reg@, i as int),
            r matches Err(RouteError::DuplicateTopic(i)) ==> first_bad(routes@, reg@, i as int)
                && !route_missing(routes@, reg@, i as int),
    {
        let mut entries: Vec<Entry> = Vec::new();
        let mut i: usize = 0;
        while i < routes.len()
            invariant
                reg@.wf(),
                i <= routes@.len(),
                entries@.len() == i,
                forall|j: int| 0 <= j < i ==> !route_bad(routes@, reg@, j),
                forall|j: int| 0 <= j < i ==> resolves(#[trigger] entries@[j], routes@[j], reg@),
                forall|j: int| 0 <= j < i ==> (#[trigger] entries@[j]).slot < reg@.slots.len(),
            decreases routes@.len() - i,
        {
            let route = &routes[i];
            let slot = match reg.find_slot(route.device_id, &route.characteristic) {
                Some(k) => k,
                None => {
                    assert(route_bad(routes@, reg@, i as int));
                    return Err(RouteError::MissingTarget(i));
                },
            };
            if topic_taken(routes, i) {
                assert(route_bad(routes@, reg@, i as int));
                return Err(RouteError::DuplicateTopic(i));
            }
            let e = Entry { topic: route.topic.clone(), slot, direction: route.direction };
            proof {
                let lk = reg@.lookup(route.device_id, route.characteristic@);
                assert(lk is Some);
                let kk = lk->0;
                assert(reg@.first_match(kk, route.device_id, route.characteristic@));
                assert(e.topic@ == routes@[i as int].topic@);
            }
            assert(resolves(e, routes@[i as int], reg@));
            entries.push(e);
            proof {
                assert forall|j: int| 0 <= j <= i implies resolves(#[trigger] entries@[j], routes@[j], reg@) by {
                    if j < i {
                        assert(entries@[j] == entries@.drop_last()[j]);
                    }
                }
            }
            i = i + 1;
        }
        let t = Router { entries };
        assert forall|a: int, b: int| 0 <= a < b < t@.len() implies (#[trigger] t@[a]).topic@ != (#[trigger] t@[b]).topic@ by {
            assert(resolves(t@[a], routes@[a], reg@));
            assert(resolves(t@[b], routes@[b], reg@));
            assert(!route_bad(routes@, reg@, b));
        }
        Ok(t)
    }

    /// The slot that an inbound message on `topic` updates, if any.
    pub fn inbound(&self, topic: &String) -> (r: Option<usize>)
        requires
            forall|a: int, b: int|
                0 <= a < b < self@.len() ==> (#[trigger] self@[a]).topic@ != (#[trigger] self@[b]).topic@,
        ensures
            r == (match inbound_slot(self@, topic@) {
                Some(k) => Some(k as usize),
                None => None,
            }),
    {
        let mut k: usize = 0;
        while k < self.entries.len()
            invariant
                k <= self@.len(),
                forall|a: int, b: int|
                    0 <= a < b < self@.len() ==> (#[trigger] self@[a]).topic@ != (#[trigger] self@[b]).topic@,
                forall|m: int| 0 <= m < k ==> self@[m].topic@ != topic@,
            decreases self@.len() - k,
        {
            if self.entries[k].topic == *topic {
                proof {
                    assert(self@[k as int].topic@ == topic@);
                    let c = choose|c: int| 0 <= c < self@.len() && self@[c].topic@ == topic@;
                    if c != k {
                        assert(0 <= c < self@.len() && self@[c].topic@ == topic@);
                        if c < k {
                            assert(self@[c].topic@ != topic@);
                        } else {
                            assert(self@[k as int].topic@ != self@[c].topic@);
                        }
                    }
                }
                return match self.entries[k].direction {
                    Direction::BridgeToDevice => None,
                    _ => Some(self.entries[k].slot),
                };
            }
            k = k + 1;
        }
        None
    }

    /// The topic on which commands for `slot` are published: that of the first
    /// outbound entry for it.
    pub fn outbound(&self, slot: usize) -> (r: Option<String>)
        ensures
            r matches Some(t) ==> exists|k: int| {
                &&& outbound_for(self@, k, slot as int)
                &&& forall|j: int| 0 <= j < k ==> !outbound_for(self@, j, slot as int)
                &&& t@ == #[trigger] self@[k].topic@
            },
            r is None ==> forall|k: int| !outbound_for(self@, k, slot as int),
    {
        let mut k: usize = 0;
        while k < self.entries.len()
            invariant
                k <= self@.len(),
                forall|j: int| 0 <= j < k ==> !outbound_for(self@, j, slot as int),
            decreases self@.len() - k,
        {
            let e = &self.entries[k];
            if e.slot == slot && e.direction != Direction::DeviceToBridge {
                let t = e.topic.clone();
                assert(outbound_for(self@, k as int, slot as int));
                assert(t@ == self@[k as int].topic@);
                return Some(t);
            }
            k = k + 1;
        }
        None
    }

    /// The topics to subscribe to, in table order.
    pub fn subscription_topics(&self) -> (r: Vec<String>)
        ensures
            r@.len() == subscriptions(self@).len(),
            forall|i: int| 0 <= i < r@.len() ==> (#[trigger] r@[i])@ == subscriptions(self@)[i],
    {
        let mut r: Vec<String> = Vec::new();
        let mut k: usize = 0;
        while k < self.entries.len()
            invariant
                k <= self@.len(),
                r@.len() == subscriptions(self@.take(k as int)).len(),
                forall|i: int| 0 <= i < r@.len() ==> (#[trigger] r@[i])@ == subscriptions(self@.take(k as int))[i],
            decreases self@.len() - k,
        {
            assert(self@.take(k + 1).drop_last() =~= self@.take(k as int));
            let e = &self.entries[k];
            if e.direction != Direction::BridgeToDevice {
                r.push(e.topic.clone());
            }
            k = k + 1;
        }
        assert(self@.take(k as int) =~= self@);
        r
    }
}

} // verus!
