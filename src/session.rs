use vstd::prelude::*;
use crate::router::{is_inbound, subscriptions, Entry, Router};

verus! {

/// Where a broker session stands.
#[derive(Clone, Copy, PartialEq, Eq, Structural, Debug)]
pub enum ConnState {
    Disconnected,
    Connecting,
    SubscribingTopics,
    Refreshing,
    Steady,
}

/// What the I/O side reports back to the session.
#[derive(Clone, Copy, PartialEq, Eq, Structural, Debug)]
pub enum Event {
    /// The wait before the next connection attempt is over.
    BackoffElapsed,
    /// The broker accepted the connection.
    Connected,
    /// The broker confirmed the subscriptions.
    Subscribed,
    /// The refresh ended, complete or not.
    Refreshed,
    /// The connection failed or dropped.
    IoError,
}

/// What the I/O side is to do next.
pub enum Action {
    Idle,
    /// Open a connection to the broker.
    Connect,
    /// Wait this many milliseconds, then report `BackoffElapsed`.
    Wait(u64),
    /// Subscribe to these topics.
    Subscribe(Vec<String>),
    /// Ask these devices (by handle) for their current state.
    RequestRefresh(Vec<usize>),
}

/// First delay before a reconnection, in milliseconds.
pub const BACKOFF_BASE_MS: u64 = 500;

/// Longest delay before a reconnection, in milliseconds.
pub const BACKOFF_MAX_MS: u64 = 60000;

/// The delay after `failures` failures in a row: doubling from the base, capped.
pub open spec fn backoff(failures: nat) -> nat
    decreases failures,
{
    if failures <= 1 {
        BACKOFF_BASE_MS as nat
    } else {
        let p = backoff((failures - 1) as nat);
        if 2 * p < BACKOFF_MAX_MS {
            2 * p
        } else {
            BACKOFF_MAX_MS as nat
        }
    }
}

proof fn lemma_backoff_capped(a: nat, b: nat)
    requires
        1 <= a <= b,
        backoff(a) == BACKOFF_MAX_MS,
    ensures
        backoff(b) == BACKOFF_MAX_MS,
    decreases b - a,
{
    if a < b {
        lemma_backoff_capped(a, (b - 1) as nat);
    }
}

proof fn lemma_backoff_bounded(n: nat)
    ensures
        BACKOFF_BASE_MS <= backoff(n) <= BACKOFF_MAX_MS,
    decreases n,
{
    if n > 1 {
        lemma_backoff_bounded((n - 1) as nat);
    }
}

/// The delay before reconnecting after `failures` failures in a row.
pub fn backoff_ms(failures: u32) -> (d: u64)
    ensures
        d == backoff(failures as nat),
        BACKOFF_BASE_MS <= d <= BACKOFF_MAX_MS,
{
    proof { lemma_backoff_bounded(failures as nat); }
    let mut d: u64 = BACKOFF_BASE_MS;
    let mut i: u32 = 1;
    while i < failures && d < BACKOFF_MAX_MS
        invariant
            1 <= i,
            failures <= 1 ==> i == 1,
            failures > 1 ==> i <= failures,
            d == backoff(i as nat),
            BACKOFF_BASE_MS <= d <= BACKOFF_MAX_MS,
        decreases failures - i,
    {
        assert(backoff((i + 1) as nat) == (if 2 * backoff(i as nat) < BACKOFF_MAX_MS { 2 * backoff(i as nat) } else { BACKOFF_MAX_MS as nat }));
        d = if 2 * d < BACKOFF_MAX_MS { 2 * d } else { BACKOFF_MAX_MS };
        i = i + 1;
    }
    proof {
        if i < failures {
            assert(d == BACKOFF_MAX_MS);
            lemma_backoff_capped(i as nat, failures as nat);
            assert(backoff(failures as nat) == BACKOFF_MAX_MS);
        } else if failures > 1 {
            assert(i == failures);
        } else {
            assert(backoff(failures as nat) == BACKOFF_BASE_MS);
            assert(backoff(1) == BACKOFF_BASE_MS);
        }
    }
    d
}

/// The state that follows `s` on event `e`.
pub open spec fn next_state(s: ConnState, e: Event) -> ConnState {
    match (s, e) {
        (_, Event::IoError) => ConnState::Disconnected,
        (ConnState::Disconnected, Event::BackoffElapsed) => ConnState::Connecting,
        (ConnState::Connecting, Event::Connected) => ConnState::SubscribingTopics,
        (ConnState::SubscribingTopics, Event::Subscribed) => ConnState::Refreshing,
        (ConnState::Refreshing, Event::Refreshed) => ConnState::Steady,
        _ => s,
    }
}

/// The failures in a row after event `e`: one more on an error, none once connected.
pub open spec fn next_failures(failures: u32, e: Event) -> u32 {
    match e {
        Event::IoError => if failures < u32::MAX {
            (failures + 1) as u32
        } else {
            failures
        },
        Event::Connected => 0,
        _ => failures,
    }
}

/// The refresh requests of a session: one per device, each device once, ascending.
pub open spec fn refresh_requests(devices: nat) -> Seq<usize> {
    Seq::new(devices, |i: int| i as usize)
}

/// What a session holds: its state and the connection failures in a row.
pub struct SessionView {
    pub state: ConnState,
    pub failures: u32,
}

/// One broker session's connection state machine. The I/O side performs each action
/// and reports the event that came of it.
pub struct Session {
    state: ConnState,
    failures: u32,
}

impl View for Session {
    type V = SessionView;

    closed spec fn view(&self) -> SessionView {
        SessionView { state: self.state, failures: self.failures }
    }
}

impl Session {
    /// A session that has not connected yet.
    pub fn new() -> (s: Session)
        ensures
            s@.state == ConnState::Disconnected,
            s@.failures == 0,
    {
        Session { state: ConnState::Disconnected, failures: 0 }
    }

    pub fn state(&self) -> (s: ConnState)
        ensures
            s == self@.state,
    {
        self.state
    }

    /// Takes event `e` and says what to do next. `devices` is the number of registered
    /// accessories, to be refreshed after each (re)subscription.
    pub fn step(&mut self, e: Event, router: &Router, devices: usize) -> (a: Action)
        ensures
            final(self)@.state == next_state(old(self)@.state, e),
            final(self)@.failures == next_failures(old(self)@.failures, e),
            a is Connect <==> old(self)@.state == ConnState::Disconnected && e == Event::BackoffElapsed,
            a is Wait <==> e == Event::IoError,
            a matches Action::Wait(d) ==> d == backoff(final(self)@.failures as nat),
            a is Subscribe <==> old(self)@.state == ConnState::Connecting && e == Event::Connected,
            a matches Action::Subscribe(ts) ==> ts@.len() == subscriptions(router@).len()
                && forall|i: int| 0 <= i < ts@.len() ==> (#[trigger] ts@[i])@ == subscriptions(router@)[i],
            a is RequestRefresh <==> old(self)@.state == ConnState::SubscribingTopics && e == Event::Subscribed,
            a matches Action::RequestRefresh(ds) ==> ds@ == refresh_requests(devices as nat),
    {
        match e {
            Event::IoError => {
                if self.failures < u32::MAX {
                    self.failures = self.failures + 1;
                }
                self.state = ConnState::Disconnected;
                Action::Wait(backoff_ms(self.failures))
            },
            Event::BackoffElapsed => {
                if self.state == ConnState::Disconnected {
                    self.state = ConnState::Connecting;
                    Action::Connect
                } else {
                    Action::Idle
                }
            },
            Event::Connected => {
                self.failures = 0;
                if self.state == ConnState::Connecting {
                    self.state = ConnState::SubscribingTopics;
                    Action::Subscribe(router.subscription_topics())
                } else {
                    Action::Idle
                }
            },
            Event::Subscribed => {
                if self.state == ConnState::SubscribingTopics {
                    self.state = ConnState::Refreshing;
                    Action::RequestRefresh(refresh_list(devices))
                } else {
                    Action::Idle
                }
            },
            Event::Refreshed => {
                if self.state == ConnState::Refreshing {
                    self.state = ConnState::Steady;
                }
                Action::Idle
            },
        }
    }
}

fn refresh_list(devices: usize) -> (r: Vec<usize>)
    ensures
        r@ == refresh_requests(devices as nat),
{
    let mut r: Vec<usize> = Vec::new();
    let mut i: usize = 0;
    while i < devices
        invariant
            i <= devices,
            r@ == refresh_requests(i as nat),
        decreases devices - i,
    {
        r.push(i);
        i = i + 1;
        assert(r@ =~= refresh_requests(i as nat));
    }
    r
}

} // verus!

verus! {

/// Entry `k` is inbound and has topic `t`.
pub open spec fn inbound_topic(entries: Seq<Entry>, k: int, t: Seq<char>) -> bool {
    0 <= k < entries.len() && is_inbound(entries[k].direction) && entries[k].topic@ == t
}

proof fn lemma_subscriptions_members(entries: Seq<Entry>)
    ensures
        forall|t: Seq<char>| #[trigger] subscriptions(entries).contains(t)
            <==> exists|k: int| inbound_topic(entries, k, t),
    decreases entries.len(),
{
    if entries.len() > 0 {
        let p = entries.drop_last();
        lemma_subscriptions_members(p);
        let n = entries.len() - 1;
        let sp = subscriptions(p);
        let se = subscriptions(entries);
        assert forall|t: Seq<char>| #[trigger] se.contains(t)
            <==> exists|k: int| inbound_topic(entries, k, t) by {
            if se.contains(t) {
                let i = choose|i: int| 0 <= i < se.len() && se[i] == t;
                if i < sp.len() {
                    assert(sp[i] == t);
                    assert(sp.contains(t));
                    let k = choose|k: int| inbound_topic(p, k, t);
                    assert(inbound_topic(entries, k, t));
                } else {
                    assert(inbound_topic(entries, n, t));
                }
            }
            if exists|k: int| inbound_topic(entries, k, t) {
                let k = choose|k: int| inbound_topic(entries, k, t);
                if k < n {
                    assert(inbound_topic(p, k, t));
                    assert(sp.contains(t));
                    let i = choose|i: int| 0 <= i < sp.len() && sp[i] == t;
                    assert(se[i] == t);
                } else {
                    assert(se[se.len() - 1] == t);
                }
            }
        }
    }
}

proof fn lemma_subscriptions_distinct(entries: Seq<Entry>)
    requires
        forall|a: int, b: int|
            0 <= a < b < entries.len() ==> (#[trigger] entries[a]).topic@ != (#[trigger] entries[b]).topic@,
    ensures
        subscriptions(entries).no_duplicates(),
    decreases entries.len(),
{
    if entries.len() > 0 {
        let p = entries.drop_last();
        let n = entries.len() - 1;
        assert forall|a: int, b: int| 0 <= a < b < p.len() implies (#[trigger] p[a]).topic@ != (#[trigger] p[b]).topic@ by {
            assert(entries[a] == p[a] && entries[b] == p[b]);
        }
        lemma_subscriptions_distinct(p);
        lemma_subscriptions_members(p);
        if is_inbound(entries.last().direction) {
            let t = entries.last().topic@;
            if subscriptions(p).contains(t) {
                let k = choose|k: int| inbound_topic(p, k, t);
                assert(entries[k] == p[k]);
                assert(entries[k].topic@ != entries[n].topic@);
            }
            let s = subscriptions(entries);
            assert forall|i: int, j: int| 0 <= i < s.len() && 0 <= j < s.len() && i != j implies s[i] != s[j] by {
                if i < s.len() - 1 && j < s.len() - 1 {
                    assert(s[i] == subscriptions(p)[i] && s[j] == subscriptions(p)[j]);
                } else if i == s.len() - 1 {
                    assert(subscriptions(p).contains(s[j]) ==> s[j] != t);
                    assert(s[j] == subscriptions(p)[j]);
                } else {
                    assert(s[i] == subscriptions(p)[i]);
                }
            }
        }
    }
}

/// After a drop of the connection, whatever state it came in, the session reconnects
/// and subscribes again to exactly the set it subscribes to on every connection: the
/// topics of the inbound routes, each once; and it then asks each device for its state
/// once.
pub proof fn lemma_reconnect_restores_subscriptions(s: ConnState, entries: Seq<Entry>, devices: usize)
    requires
        forall|a: int, b: int|
            0 <= a < b < entries.len() ==> (#[trigger] entries[a]).topic@ != (#[trigger] entries[b]).topic@,
    ensures
        next_state(s, Event::IoError) == ConnState::Disconnected,
        next_state(ConnState::Disconnected, Event::BackoffElapsed) == ConnState::Connecting,
        next_state(ConnState::Connecting, Event::Connected) == ConnState::SubscribingTopics,
        subscriptions(entries).no_duplicates(),
        forall|t: Seq<char>| #[trigger] subscriptions(entries).contains(t)
            <==> exists|k: int| inbound_topic(entries, k, t),
        refresh_requests(devices as nat).no_duplicates(),
        refresh_requests(devices as nat).len() == devices,
{
    lemma_subscriptions_members(entries);
    lemma_subscriptions_distinct(entries);
}

} // verus!
