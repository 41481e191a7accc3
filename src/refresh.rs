use vstd::prelude::*;

verus! {

/// Where the startup refresh stands.
pub enum RefreshStatus {
    /// Some device has not reported and the deadline has not passed.
    Pending,
    /// Every device reported a value.
    Complete,
    /// The deadline passed first; these devices (handles, ascending) never reported and
    /// keep their initial values.
    Incomplete(Vec<usize>),
}

/// What a coordinator holds: whether each device has reported, and the deadline.
pub struct RefreshView {
    pub reported: Seq<bool>,
    pub deadline: u64,
}

pub open spec fn all_reported(s: Seq<bool>) -> bool {
    forall|i: int| 0 <= i < s.len() ==> #[trigger] s[i]
}

/// The devices that have not reported, ascending.
pub open spec fn missing(s: Seq<bool>) -> Seq<usize>
    decreases s.len(),
{
    if s.len() == 0 {
        Seq::empty()
    } else if s.last() {
        missing(s.drop_last())
    } else {
        missing(s.drop_last()).push((s.len() - 1) as usize)
    }
}

/// The startup barrier: one pending request per registered device, each fulfilled at
/// most once, and a deadline after which the refresh ends incomplete.
pub struct RefreshCoordinator {
    reported: Vec<bool>,
    deadline: u64,
}

impl View for RefreshCoordinator {
    type V = RefreshView;

    closed spec fn view(&self) -> RefreshView {
        RefreshView { reported: self.reported@, deadline: self.deadline }
    }
}

impl RefreshCoordinator {
    /// Opens a request for each of `devices` devices; the refresh ends at `deadline` at the latest.
    pub fn new(devices: usize, deadline: u64) -> (r: RefreshCoordinator)
        ensures
            r@.reported == Seq::new(devices as nat, |i: int| false),
            r@.deadline == deadline,
    {
        let mut reported: Vec<bool> = Vec::new();
        let mut i: usize = 0;
        while i < devices
            invariant
                i <= devices,
                reported@ == Seq::new(i as nat, |j: int| false),
            decreases devices - i,
        {
            reported.push(false);
            i = i + 1;
            assert(reported@ =~= Seq::new(i as nat, |j: int| false));
        }
        RefreshCoordinator { reported, deadline }
    }

    /// Number of devices being refreshed.
    pub fn devices(&self) -> (n: usize)
        ensures
            n == self@.reported.len(),
    {
        self.reported.len()
    }

    /// Fulfils the request of device `device`. Returns whether it was still open: a
    /// second report of the same device changes nothing.
    pub fn report(&mut self, device: usize) -> (fresh: bool)
        requires
            device < old(self)@.reported.len(),
        ensures
            fresh == !old(self)@.reported[device as int],
            final(self)@.reported == old(self)@.reported.update(device as int, true),
            final(self)@.deadline == old(self)@.deadline,
    {
        let fresh = !self.reported[device];
        self.reported.set(device, true);
        fresh
    }

    /// The refresh's result at time `now`: available once every device has reported or
    /// the deadline has come, and not before.
    pub fn poll(&self, now: u64) -> (r: RefreshStatus)
        ensures
            r is Complete <==> all_reported(self@.reported),
            r is Pending <==> !all_reported(self@.reported) && now < self@.deadline,
            r matches RefreshStatus::Incomplete(ms) ==> ms@ == missing(self@.reported),
    {
        let ms = self.missing_devices();
        if ms.len() == 0 {
            proof { lemma_missing_empty(self@.reported); }
            RefreshStatus::Complete
        } else {
            proof { lemma_missing_empty(self@.reported); }
            if now < self.deadline {
                RefreshStatus::Pending
            } else {
                RefreshStatus::Incomplete(ms)
            }
        }
    }

    /// The devices that have not reported, ascending.
    pub fn missing_devices(&self) -> (r: Vec<usize>)
        ensures
            r@ == missing(self@.reported),
    {
        let mut r: Vec<usize> = Vec::new();
        let mut i: usize = 0;
        while i < self.reported.len()
            invariant
                i <= self@.reported.len(),
                r@ == missing(self@.reported.take(i as int)),
            decreases self@.reported.len() - i,
        {
            let ghost s = self@.reported.take(i + 1);
            assert(s.drop_last() =~= self@.reported.take(i as int));
            if !self.reported[i] {
                r.push(i);
            }
            i = i + 1;
        }
        assert(self@.reported.take(i as int) =~= self@.reported);
        r
    }
}

proof fn lemma_missing_empty(s: Seq<bool>)
    ensures
        missing(s).len() == 0 <==> all_reported(s),
    decreases s.len(),
{
    if s.len() > 0 {
        let p = s.drop_last();
        lemma_missing_empty(p);
        if all_reported(s) {
            assert forall|i: int| 0 <= i < p.len() implies #[trigger] p[i] by {
                assert(s[i]);
            }
        }
        if s.last() && all_reported(p) {
            assert forall|i: int| 0 <= i < s.len() implies #[trigger] s[i] by {
                if i < p.len() {
                    assert(p[i]);
                }
            }
        }
    }
}

} // verus!
