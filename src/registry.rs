use vstd::prelude::*;
use crate::value::{Domain, Value};

verus! {

/// A characteristic as configuration describes it: its name, its domain and its initial value.
pub struct Characteristic {
    pub name: String,
    pub domain: Domain,
    pub initial: Value,
}

/// An accessory to register: its device id and its characteristics.
pub struct AccessoryDescriptor {
    pub id: u64,
    pub characteristics: Vec<Characteristic>,
}

/// One live characteristic: the accessory (by handle) that owns it, its name and domain.
pub struct Slot {
    pub accessory: usize,
    pub name: String,
    pub domain: Domain,
}

/// Why a registration was refused.
#[derive(Clone, Copy, PartialEq, Eq, Structural, Debug)]
pub enum RegisterError {
    /// An accessory with this device id is registered already.
    IdCollision,
}

/// What a registry holds: the device id of each handle, every characteristic slot and its value.
pub struct RegistryView {
    pub ids: Seq<u64>,
    pub slots: Seq<Slot>,
    pub values: Seq<Value>,
}

impl RegistryView {
    pub open spec fn wf(self) -> bool {
        &&& self.values.len() == self.slots.len()
        &&& forall|k: int| 0 <= k < self.slots.len() ==> #[trigger] self.slots[k].accessory < self.ids.len()
        &&& forall|a: int, b: int|
            0 <= a < b < self.ids.len() ==> #[trigger] self.ids[a] != #[trigger] self.ids[b]
    }

    /// Slot `k` is characteristic `name` of the accessory with device id `id`.
    pub open spec fn slot_matches(self, k: int, id: u64, name: Seq<char>) -> bool {
        &&& 0 <= k < self.slots.len()
        &&& self.ids[self.slots[k].accessory as int] == id
        &&& self.slots[k].name@ == name
    }

    /// Slot `k` is the first that is characteristic `name` of device `id`.
    pub open spec fn first_match(self, k: int, id: u64, name: Seq<char>) -> bool {
        &&& self.slot_matches(k, id, name)
        &&& forall|j: int| 0 <= j < k ==> !self.slot_matches(j, id, name)
    }

    /// The first slot that is characteristic `name` of device `id`, if any.
    pub open spec fn lookup(self, id: u64, name: Seq<char>) -> Option<int> {
        if exists|k: int| self.first_match(k, id, name) {
            Some(choose|k: int| self.first_match(k, id, name))
        } else {
            None
        }
    }

    /// Slot `k` belongs to handle `h` and was set up from `ch`.
    pub open spec fn holds_at(self, k: int, h: usize, ch: Characteristic) -> bool {
        &&& self.slots[k].accessory == h
        &&& self.slots[k].name@ == ch.name@
        &&& self.slots[k].domain == ch.domain
        &&& self.values[k] == ch.initial
    }

    /// The accessory that owns slot `k`.
    pub open spec fn owner(self, k: int) -> int {
        self.slots[k].accessory as int
    }
}

/// The arena of live accessories. A handle is an accessory's index here; each
/// characteristic is a slot that names the handle owning it.
pub struct Registry {
    ids: Vec<u64>,
    slots: Vec<Slot>,
    values: Vec<Value>,
}

impl View for Registry {
    type V = RegistryView;

    closed spec fn view(&self) -> RegistryView {
        RegistryView { ids: self.ids@, slots: self.slots@, values: self.values@ }
    }
}

impl Registry {
    pub fn new() -> (r: Registry)
        ensures
            r@.wf(),
            r@.ids.len() == 0,
            r@.slots.len() == 0,
    {
        let r = Registry { ids: Vec::new(), slots: Vec::new(), values: Vec::new() };
        assert(r@.values.len() == 0);
        r
    }

    /// Number of registered accessories.
    pub fn len(&self) -> (n: usize)
        ensures
            n == self@.ids.len(),
    {
        self.ids.len()
    }

    /// Number of characteristic slots.
    pub fn slot_count(&self) -> (n: usize)
        ensures
            n == self@.slots.len(),
    {
        self.slots.len()
    }

    /// Device id of the accessory behind `handle`.
    pub fn id_of(&self, handle: usize) -> (id: u64)
        requires
            handle < self@.ids.len(),
        ensures
            id == self@.ids[handle as int],
    {
        self.ids[handle]
    }

    /// Handle of the accessory with device id `id`, if registered.
    pub fn handle_of(&self, id: u64) -> (r: Option<usize>)
        ensures
            r matches Some(h) ==> h < self@.ids.len() && self@.ids[h as int] == id,
            r is None ==> !self@.ids.contains(id),
    {
        let mut i: usize = 0;
        while i < self.ids.len()
            invariant
                i <= self@.ids.len(),
                forall|j: int| 0 <= j < i ==> self@.ids[j] != id,
            decreases self@.ids.len() - i,
        {
            if self.ids[i] == id {
                return Some(i);
            }
            i = i + 1;
        }
        None
    }

    pub fn value(&self, slot: usize) -> (v: Value)
        requires
            slot < self@.values.len(),
        ensures
            v == self@.values[slot as int],
    {
        self.values[slot]
    }

    pub fn domain(&self, slot: usize) -> (d: Domain)
        requires
            slot < self@.slots.len(),
        ensures
            d == self@.slots[slot as int].domain,
    {
        self.slots[slot].domain
    }

    /// Handle of the accessory that owns `slot`.
    pub fn owner(&self, slot: usize) -> (h: usize)
        requires
            slot < self@.slots.len(),
        ensures
            h == self@.slots[slot as int].accessory,
    {
        self.slots[slot].accessory
    }

    /// Stores `v` in `slot`; nothing else changes.
    pub fn set_value(&mut self, slot: usize, v: Value)
        requires
            slot < old(self)@.values.len(),
        ensures
            final(self)@.ids == old(self)@.ids,
            final(self)@.slots == old(self)@.slots,
            final(self)@.values == old(self)@.values.update(slot as int, v),
    {
        self.values.set(slot, v);
    }

    /// The first slot that is characteristic `name` of device `id`.
    pub fn find_slot(&self, id: u64, name: &String) -> (r: Option<usize>)
        requires
            self@.wf(),
        ensures
            r == (match self@.lookup(id, name@) {
                Some(k) => Some(k as usize),
                None => None,
            }),
            r matches Some(k) ==> self@.lookup(id, name@) == Some(k as int),
    {
        let mut k: usize = 0;
        while k < self.slots.len()
            invariant
                self@.wf(),
                k <= self@.slots.len(),
                forall|j: int| 0 <= j < k ==> !self@.slot_matches(j, id, name@),
            decreases self@.slots.len() - k,
        {
            let owner = self.slots[k].accessory;
            if self.ids[owner] == id && self.slots[k].name == *name {
                proof {
                    assert(self@.first_match(k as int, id, name@));
                    let c = choose|c: int| self@.first_match(c, id, name@);
                    if c < k {
                    } else if c > k {
                        assert(!self@.slot_matches(k as int, id, name@));
                    }
                }
                return Some(k);
            }
            k = k + 1;
        }
        assert(!exists|c: int| self@.first_match(c, id, name@));
        None
    }

    /// Attaches an accessory and returns its handle. Refused when its device id is
    /// registered already; then nothing changes.
    pub fn register(&mut self, desc: AccessoryDescriptor) -> (r: Result<usize, RegisterError>)
        requires
            old(self)@.wf(),
        ensures
            final(self)@.wf(),
            old(self)@.ids.contains(desc.id) <==> r is Err,
            r is Err ==> final(self)@ == old(self)@,
            r matches Ok(h) ==> {
                &&& h == old(self)@.ids.len()
                &&& final(self)@.ids == old(self)@.ids.push(desc.id)
                &&& final(self)@.slots.len() == old(self)@.slots.len() + desc.characteristics@.len()
                &&& final(self)@.slots.take(old(self)@.slots.len() as int) == old(self)@.slots
                &&& final(self)@.values.take(old(self)@.values.len() as int) == old(self)@.values
                &&& forall|c: int| #![trigger desc.characteristics@[c]] 0 <= c < desc.characteristics@.len()
                    ==> final(self)@.holds_at(old(self)@.slots.len() + c, h, desc.characteristics@[c])
            },
    {
        match self.handle_of(desc.id) {
            Some(_) => {
                return Err(RegisterError::IdCollision);
            },
            None => {},
        }
        let h = self.ids.len();
        let ghost old_reg = self@;
        let ghost base = self@.slots.len();
        self.ids.push(desc.id);
        let mut c: usize = 0;
        let n = desc.characteristics.len();
        while c < n
            invariant
                n == desc.characteristics@.len(),
                c <= n,
                h == old_reg.ids.len(),
                self@.ids == old_reg.ids.push(desc.id),
                self@.slots.len() == base + c,
                self@.values.len() == base + c,
                base == old_reg.slots.len(),
                old_reg.wf(),
                !old_reg.ids.contains(desc.id),
                self@.slots.take(base as int) == old_reg.slots,
                self@.values.take(base as int) == old_reg.values,
                forall|j: int| #![trigger desc.characteristics@[j]] 0 <= j < c
                    ==> self@.holds_at(base + j, h, desc.characteristics@[j]),
            decreases n - c,
        {
            let ch = &desc.characteristics[c];
            self.slots.push(Slot { accessory: h, name: ch.name.clone(), domain: ch.domain });
            self.values.push(ch.initial);
            proof {
                assert(self@.slots.take(base as int) =~= old_reg.slots);
                assert(self@.values.take(base as int) =~= old_reg.values);
                assert forall|j: int| #![trigger desc.characteristics@[j]] 0 <= j <= c
                    implies self@.holds_at(base + j, h, desc.characteristics@[j]) by {
                }
            }
            c = c + 1;
        }
        proof {
            let f = self@;
            assert forall|k: int| 0 <= k < f.slots.len() implies #[trigger] f.slots[k].accessory < f.ids.len() by {
                if k < base {
                    assert(f.slots[k] == f.slots.take(base as int)[k]);
                } else {
                    let j = k - base;
                    assert(f.holds_at(base + j, h, desc.characteristics@[j]));
                }
            }
            assert forall|a: int, b: int| 0 <= a < b < f.ids.len() implies #[trigger] f.ids[a] != #[trigger] f.ids[b] by {
                if b == h {
                    assert(old_reg.ids[a] == f.ids[a]);
                }
            }
        }
        Ok(h)
    }
}

} // verus!
