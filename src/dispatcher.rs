use vstd::prelude::*;
use crate::MqttMessage;
use crate::notifier::Notifier;
use crate::registry::{Registry, RegistryView};
use crate::router::{inbound_slot, outbound_for, resolves, route_bad, route_missing, first_bad, table_wf, Entry, Route, RouteError, Router};
use crate::value::{parse_payload, parse_spec, render, render_spec, Value};

verus! {

/// What became of one inbound message.
#[derive(Clone, Copy, PartialEq, Eq, Structural, Debug)]
pub enum Outcome {
    /// The value was stored and the accessory behind this handle was notified.
    Applied(usize),
    /// No inbound route has the message's topic; the message was dropped.
    Unrouted,
    /// The payload is not a value of the characteristic's domain; the message was dropped.
    Malformed,
}

/// What a dispatcher holds: the registry, the route table and the pending notifications.
pub struct DispatcherView {
    pub registry: RegistryView,
    pub entries: Seq<Entry>,
    pub notified: Seq<usize>,
}

impl DispatcherView {
    pub open spec fn wf(self) -> bool {
        &&& self.registry.wf()
        &&& table_wf(self.entries, self.registry)
    }

    /// The slot that a message on `topic` targets, if an inbound route has that topic.
    pub open spec fn target(self, topic: Seq<char>) -> Option<int> {
        inbound_slot(self.entries, topic)
    }

    /// The message is routed and its payload is a value of the target's domain.
    pub open spec fn accepts(self, m: MqttMessage) -> bool {
        &&& self.target(m.topic@) is Some
        &&& parse_spec(m.payload@, self.registry.slots[self.target(m.topic@)->0].domain) is Some
    }

    /// The value that an accepted message stores.
    pub open spec fn value_of(self, m: MqttMessage) -> Value {
        parse_spec(m.payload@, self.registry.slots[self.target(m.topic@)->0].domain)->0
    }

    /// The handle of the accessory that an accepted message updates.
    pub open spec fn owner_of(self, m: MqttMessage) -> usize {
        self.registry.slots[self.target(m.topic@)->0].accessory
    }
}

/// The outcome of handing `m` to a dispatcher in state `d`.
pub open spec fn outcome(d: DispatcherView, m: MqttMessage) -> Outcome {
    match d.target(m.topic@) {
        None => Outcome::Unrouted,
        Some(k) => match parse_spec(m.payload@, d.registry.slots[k].domain) {
            None => Outcome::Malformed,
            Some(_) => Outcome::Applied(d.registry.slots[k].accessory),
        },
    }
}

/// The state after handing `m` to a dispatcher in state `d`: an accepted message
/// stores its value in its slot and notifies the owning accessory; any other
/// message changes nothing.
pub open spec fn apply(d: DispatcherView, m: MqttMessage) -> DispatcherView {
    if d.accepts(m) {
        DispatcherView {
            registry: RegistryView {
                ids: d.registry.ids,
                slots: d.registry.slots,
                values: d.registry.values.update(d.target(m.topic@)->0, d.value_of(m)),
            },
            entries: d.entries,
            notified: d.notified.push(d.owner_of(m)),
        }
    } else {
        d
    }
}

/// The state after handing over `ms` one by one, first to last.
pub open spec fn run(d: DispatcherView, ms: Seq<MqttMessage>) -> DispatcherView
    decreases ms.len(),
{
    if ms.len() == 0 {
        d
    } else {
        apply(run(d, ms.drop_last()), ms.last())
    }
}

/// Handing over messages never changes the route table or the registry's accessories and slots.
pub proof fn lemma_run_keeps_layout(d: DispatcherView, ms: Seq<MqttMessage>)
    requires
        d.wf(),
    ensures
        run(d, ms).wf(),
        run(d, ms).entries == d.entries,
        run(d, ms).registry.ids == d.registry.ids,
        run(d, ms).registry.slots == d.registry.slots,
    decreases ms.len(),
{
    if ms.len() > 0 {
        lemma_run_keeps_layout(d, ms.drop_last());
        let r = run(d, ms.drop_last());
        let f = run(d, ms);
        assert forall|k: int| 0 <= k < f.entries.len() implies (#[trigger] f.entries[k]).slot < f.registry.slots.len() by {
            assert(r.entries[k].slot < r.registry.slots.len());
        }
    }
}

/// When every message is routed and well formed, each is applied exactly once and in
/// order: one notification per message, in the order of the messages, and every slot
/// ends with the value of the last message that targets it, or its earlier value where
/// none does.
pub proof fn lemma_applied_in_order(d: DispatcherView, ms: Seq<MqttMessage>)
    requires
        d.wf(),
        forall|i: int| 0 <= i < ms.len() ==> d.accepts(#[trigger] ms[i]),
    ensures
        run(d, ms).notified == d.notified + Seq::new(ms.len(), |i: int| d.owner_of(ms[i])),
        forall|k: int|
            0 <= k < d.registry.slots.len() && (forall|i: int| 0 <= i < ms.len() ==> d.target(#[trigger] ms[i].topic@) != Some(k))
                ==> #[trigger] run(d, ms).registry.values[k] == d.registry.values[k],
        forall|i: int, k: int|
            0 <= i < ms.len() && d.target(ms[i].topic@) == Some(k)
                && (forall|j: int| i < j < ms.len() ==> d.target(#[trigger] ms[j].topic@) != Some(k))
                ==> #[trigger] run(d, ms).registry.values[k] == d.value_of(#[trigger] ms[i]),
    decreases ms.len(),
{
    if ms.len() > 0 {
        let p = ms.drop_last();
        let m = ms.last();
        let n = ms.len() - 1;
        assert forall|i: int| 0 <= i < p.len() implies d.accepts(#[trigger] p[i]) by {
            assert(p[i] == ms[i]);
        }
        lemma_applied_in_order(d, p);
        lemma_run_keeps_layout(d, p);
        let r = run(d, p);
        assert(ms[n] == m);
        assert(d.accepts(m));
        assert(r.accepts(m));
        assert(run(d, ms).notified =~= d.notified + Seq::new(ms.len(), |i: int| d.owner_of(ms[i])));
        let t = d.target(m.topic@)->0;
        assert forall|k: int|
            0 <= k < d.registry.slots.len() && (forall|i: int| 0 <= i < ms.len() ==> d.target(#[trigger] ms[i].topic@) != Some(k))
                implies #[trigger] run(d, ms).registry.values[k] == d.registry.values[k] by {
            assert(d.target(ms[n].topic@) != Some(k));
            assert forall|i: int| 0 <= i < p.len() implies d.target(#[trigger] p[i].topic@) != Some(k) by {
                assert(p[i] == ms[i]);
            }
        }
        assert forall|i: int, k: int|
            0 <= i < ms.len() && d.target(ms[i].topic@) == Some(k)
                && (forall|j: int| i < j < ms.len() ==> d.target(#[trigger] ms[j].topic@) != Some(k))
                implies #[trigger] run(d, ms).registry.values[k] == d.value_of(#[trigger] ms[i]) by {
            if i < n {
                assert(d.target(ms[n].topic@) != Some(k));
                assert(p[i] == ms[i]);
                assert forall|j: int| i < j < p.len() implies d.target(#[trigger] p[j].topic@) != Some(k) by {
                    assert(p[j] == ms[j]);
                }
                assert(r.registry.values[k] == d.value_of(p[i]));
            }
        }
    }
}

/// A message changes no slot but the one it targets, so no accessory but the one that
/// owns that slot; and two messages for different accessories have the same effect
/// in either order.
pub proof fn lemma_distinct_accessories_independent(d: DispatcherView, m1: MqttMessage, m2: MqttMessage)
    requires
        d.wf(),
        d.accepts(m1),
        d.accepts(m2),
        d.owner_of(m1) != d.owner_of(m2),
    ensures
        forall|k: int|
            0 <= k < d.registry.slots.len() && d.registry.slots[k].accessory != d.owner_of(m1)
                ==> #[trigger] apply(d, m1).registry.values[k] == d.registry.values[k],
        apply(apply(d, m1), m2).registry == apply(apply(d, m2), m1).registry,
        apply(apply(d, m1), m2).notified == d.notified.push(d.owner_of(m1)).push(d.owner_of(m2)),
        apply(apply(d, m2), m1).notified == d.notified.push(d.owner_of(m2)).push(d.owner_of(m1)),
{
    let a = apply(d, m1);
    let b = apply(d, m2);
    assert(a.accepts(m2));
    assert(b.accepts(m1));
    assert(d.target(m1.topic@) != d.target(m2.topic@));
    assert(apply(a, m2).registry.values =~= apply(b, m1).registry.values);
}

/// A malformed payload on a routed topic is dropped and changes nothing; a well-formed
/// message on the same topic that follows it is applied as if the first had never come.
pub proof fn lemma_malformed_dropped(d: DispatcherView, bad: MqttMessage, good: MqttMessage)
    requires
        d.wf(),
        d.target(bad.topic@) is Some,
        !d.accepts(bad),
        good.topic@ == bad.topic@,
        d.accepts(good),
    ensures
        outcome(d, bad) == Outcome::Malformed,
        apply(d, bad) == d,
        run(d, seq![bad, good]) == apply(d, good),
        outcome(apply(d, bad), good) == Outcome::Applied(d.owner_of(good)),
        apply(apply(d, bad), good).registry.values[d.target(good.topic@)->0] == d.value_of(good),
{
    let s = seq![bad, good];
    assert(s.drop_last() =~= seq![bad]);
    assert(seq![bad].drop_last() =~= Seq::<MqttMessage>::empty());
    assert(run(d, Seq::<MqttMessage>::empty()) == d);
    assert(run(d, seq![bad]) == apply(d, bad));
    assert(s.last() == good);
    assert(run(d, s) == apply(run(d, seq![bad]), good));
}

/// The dispatcher: resolves each inbound message to a characteristic slot, stores
/// the value and notifies the change.
pub struct Dispatcher {
    registry: Registry,
    router: Router,
    notifier: Notifier,
}

impl View for Dispatcher {
    type V = DispatcherView;

    closed spec fn view(&self) -> DispatcherView {
        DispatcherView { registry: self.registry@, entries: self.router@, notified: self.notifier@ }
    }
}

impl Dispatcher {
    /// Builds the route table over a registry. Refused as `Router::build` refuses.
    pub fn new(registry: Registry, routes: &Vec<Route>) -> (r: Result<Dispatcher, RouteError>)
        requires
            registry@.wf(),
        ensures
            r is Ok <==> forall|i: int| 0 <= i < routes@.len() ==> !route_bad(routes@, registry@, i),
            r matches Ok(d) ==> {
                &&& d@.wf()
                &&& d@.registry == registry@
                &&& d@.notified == Seq::<usize>::empty()
                &&& d@.entries.len() == routes@.len()
                &&& forall|i: int| 0 <= i < routes@.len() ==> resolves(#[trigger] d@.entries[i], routes@[i], registry@)
            },
            r matches Err(RouteError::MissingTarget(i)) ==> first_bad(routes@, registry@, i as int)
                && route_missing(routes@, registry@, i as int),
            r matches Err(RouteError::DuplicateTopic(i)) ==> first_bad(routes@, registry@, i as int)
                && !route_missing(routes@, registry@, i as int),
    {
        match Router::build(routes, &registry) {
            Ok(router) => Ok(Dispatcher { registry, router, notifier: Notifier::new() }),
            Err(e) => Err(e),
        }
    }

    pub fn registry(&self) -> (r: &Registry)
        ensures
            r@ == self@.registry,
    {
        &self.registry
    }

    pub fn router(&self) -> (r: &Router)
        ensures
            r@ == self@.entries,
    {
        &self.router
    }

    /// Current value of characteristic `name` of device `id`, if there is one.
    pub fn value_of(&self, id: u64, name: &String) -> (r: Option<Value>)
        requires
            self@.wf(),
        ensures
            r == (match self@.registry.lookup(id, name@) {
                Some(k) => Some(self@.registry.values[k]),
                None => None,
            }),
    {
        match self.registry.find_slot(id, name) {
            Some(k) => Some(self.registry.value(k)),
            None => None,
        }
    }

    /// Applies one inbound message. A message without an inbound route, or with a
    /// malformed payload, is dropped and changes nothing.
    pub fn dispatch(&mut self, m: &MqttMessage) -> (r: Outcome)
        requires
            old(self)@.wf(),
        ensures
            final(self)@.wf(),
            final(self)@ == apply(old(self)@, *m),
            r == outcome(old(self)@, *m),
    {
        let slot = match self.router.inbound(&m.topic) {
            Some(k) => k,
            None => {
                return Outcome::Unrouted;
            },
        };
        let domain = self.registry.domain(slot);
        let v = match parse_payload(m.payload.as_str(), domain) {
            Some(v) => v,
            None => {
                return Outcome::Malformed;
            },
        };
        let h = self.registry.owner(slot);
        self.registry.set_value(slot, v);
        self.notifier.notify(h);
        proof {
            let f = self@;
            let o = old(self)@;
            assert(f.registry =~= apply(o, *m).registry);
            assert forall|k: int| 0 <= k < f.entries.len() implies (#[trigger] f.entries[k]).slot < f.registry.slots.len() by {
                assert(o.entries[k].slot < o.registry.slots.len());
            }
        }
        Outcome::Applied(h)
    }

    /// Applies the messages one by one, in order; returns the outcome of each.
    pub fn dispatch_all(&mut self, ms: &Vec<MqttMessage>) -> (r: Vec<Outcome>)
        requires
            old(self)@.wf(),
        ensures
            final(self)@.wf(),
            final(self)@ == run(old(self)@, ms@),
            r@.len() == ms@.len(),
            forall|i: int| 0 <= i < ms@.len() ==> #[trigger] r@[i] == outcome(run(old(self)@, ms@.take(i)), ms@[i]),
    {
        let mut r: Vec<Outcome> = Vec::new();
        let mut i: usize = 0;
        while i < ms.len()
            invariant
                i <= ms@.len(),
                self@.wf(),
                self@ == run(old(self)@, ms@.take(i as int)),
                r@.len() == i,
                forall|j: int| 0 <= j < i ==> #[trigger] r@[j] == outcome(run(old(self)@, ms@.take(j)), ms@[j]),
            decreases ms@.len() - i,
        {
            assert(ms@.take(i + 1).drop_last() =~= ms@.take(i as int));
            let o = self.dispatch(&ms[i]);
            r.push(o);
            i = i + 1;
        }
        assert(ms@.take(i as int) =~= ms@);
        r
    }

    /// A controller wrote `v` to `slot`: the value is stored, last writer winning, and
    /// the command to publish is returned when an outbound route serves that slot.
    pub fn controller_write(&mut self, slot: usize, v: Value) -> (r: Option<MqttMessage>)
        requires
            old(self)@.wf(),
            slot < old(self)@.registry.slots.len(),
        ensures
            final(self)@.wf(),
            final(self)@.registry.values == old(self)@.registry.values.update(slot as int, v),
            final(self)@.registry.ids == old(self)@.registry.ids,
            final(self)@.registry.slots == old(self)@.registry.slots,
            final(self)@.entries == old(self)@.entries,
            final(self)@.notified == old(self)@.notified,
            r is None <==> forall|k: int| !outbound_for(old(self)@.entries, k, slot as int),
            r matches Some(m) ==> m.payload@ == render_spec(v) && exists|k: int| {
                &&& outbound_for(old(self)@.entries, k, slot as int)
                &&& forall|j: int| 0 <= j < k ==> !outbound_for(old(self)@.entries, j, slot as int)
                &&& m.topic@ == #[trigger] old(self)@.entries[k].topic@
            },
    {
        self.registry.set_value(slot, v);
        proof {
            let f = self@;
            let o = old(self)@;
            assert forall|k: int| 0 <= k < f.entries.len() implies (#[trigger] f.entries[k]).slot < f.registry.slots.len() by {
                assert(o.entries[k].slot < o.registry.slots.len());
            }
        }
        match self.router.outbound(slot) {
            Some(topic) => Some(MqttMessage { topic, payload: render(v) }),
            None => None,
        }
    }

    /// Hands out the handles of the accessories that changed, oldest first.
    pub fn take_notifications(&mut self) -> (r: Vec<usize>)
        ensures
            r@ == old(self)@.notified,
            final(self)@.notified == Seq::<usize>::empty(),
            final(self)@.registry == old(self)@.registry,
            final(self)@.entries == old(self)@.entries,
    {
        self.notifier.drain()
    }
}

} // verus!
