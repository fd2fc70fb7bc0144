//! The table of devices, keyed by device number: a hash map from each
//! number to the slot of its device.

use vstd::prelude::*;
use crate::errors::{SysError, SysErrorKind};

verus! {

/// The numbers under which devices are registered, each with the slot of
/// its device, in a `hashbrown::HashMap`.
#[verifier::external_body]
pub struct DevSlots {
    map: hashbrown::HashMap<u32, usize>,
}

/// What a map of device numbers holds: for each number, its slot.
pub uninterp spec fn dev_slots(m: DevSlots) -> Map<u32, usize>;

/// `HashMap::new`: an empty map.
#[verifier::external_body]
fn slots_new() -> (r: DevSlots)
    ensures
        dev_slots(r).dom().is_empty(),
{
    DevSlots { map: hashbrown::HashMap::new() }
}

/// `HashMap::insert`: maps `k` to `v`, and hands back the slot `k` had.
#[verifier::external_body]
fn slots_insert(m: &mut DevSlots, k: u32, v: usize) -> (r: Option<usize>)
    ensures
        dev_slots(*final(m)) == dev_slots(*old(m)).insert(k, v),
        r == (if dev_slots(*old(m)).dom().contains(k) {
            Some(dev_slots(*old(m))[k])
        } else {
            None
        }),
{
    m.map.insert(k, v)
}

/// `HashMap::get`: the slot of `k`, if it is there.
#[verifier::external_body]
fn slots_get(m: &DevSlots, k: u32) -> (r: Option<usize>)
    ensures
        r == (if dev_slots(*m).dom().contains(k) {
            Some(dev_slots(*m)[k])
        } else {
            None
        }),
{
    m.map.get(&k).copied()
}

/// `HashMap::keys`: each number of the map once, in an order the map
/// chooses (it depends on the hasher's seed, so nothing is said of it).
#[verifier::external_body]
fn slots_keys(m: &DevSlots) -> (r: Vec<u32>)
    ensures
        r@.no_duplicates(),
        r@.to_set() == dev_slots(*m).dom(),
{
    m.map.keys().copied().collect()
}

/// The registered devices, by number.
pub struct DeviceTable<D> {
    slots: DevSlots,
    devices: Vec<(u32, D)>,
}

impl<D> View for DeviceTable<D> {
    type V = Map<u32, D>;

    /// The devices by number.
    closed spec fn view(&self) -> Map<u32, D> {
        Map::new(
            |k: u32| dev_slots(self.slots).dom().contains(k),
            |k: u32| self.devices@[dev_slots(self.slots)[k] as int].1,
        )
    }
}

impl<D> DeviceTable<D> {
    /// Each number names the slot of a device registered under it, and
    /// each slot is named by its own number.
    pub closed spec fn wf(&self) -> bool {
        &&& forall|k: u32| #[trigger]
            dev_slots(self.slots).dom().contains(k) ==> dev_slots(self.slots)[k] < self.devices@.len()
                && self.devices@[dev_slots(self.slots)[k] as int].0 == k
        &&& forall|i: int|
            0 <= i < self.devices@.len() ==> dev_slots(self.slots).dom().contains(#[trigger] self.devices@[i].0)
                && dev_slots(self.slots)[self.devices@[i].0] == i
    }

    /// The number of registered devices.
    pub closed spec fn count(&self) -> nat {
        self.devices@.len()
    }

    /// How many devices are registered.
    pub fn len(&self) -> (r: usize)
        ensures
            r == self.count(),
    {
        self.devices.len()
    }

    /// A table with no device.
    pub fn new() -> (r: Self)
        ensures
            r.wf(),
            r@ == Map::<u32, D>::empty(),
            r.count() == 0,
    {
        let r = DeviceTable { slots: slots_new(), devices: Vec::new() };
        proof {
            assert(dev_slots(r.slots) =~= Map::<u32, usize>::empty());
            assert(r@ =~= Map::<u32, D>::empty());
        }
        r
    }

    /// Adds `device` under its number `dev_no`, which no device has yet.
    pub fn dev_register(&mut self, dev_no: u32, device: D)
        requires
            old(self).wf(),
            !old(self)@.dom().contains(dev_no),
            old(self).count() < usize::MAX,
        ensures
            final(self).wf(),
            final(self)@ == old(self)@.insert(dev_no, device),
            final(self).count() == old(self).count() + 1,
    {
        let n = self.devices.len();
        let ghost m0 = dev_slots(self.slots);
        self.devices.push((dev_no, device));
        let _ = slots_insert(&mut self.slots, dev_no, n);
        proof {
            let m = dev_slots(self.slots);
            assert forall|k: u32| #[trigger] m.dom().contains(k) implies m[k] < self.devices@.len()
                && self.devices@[m[k] as int].0 == k by {
                if k != dev_no {
                    assert(m0.dom().contains(k));
                }
            }
            assert forall|i: int| 0 <= i < self.devices@.len() implies m.dom().contains(
                #[trigger] self.devices@[i].0,
            ) && m[self.devices@[i].0] == i by {
                if i < n {
                    assert(self.devices@[i] == old(self).devices@[i]);
                    assert(m0.dom().contains(old(self).devices@[i].0));
                    assert(old(self).devices@[i].0 != dev_no);
                }
            }
            assert(self@ =~= old(self)@.insert(dev_no, device)) by {
                assert forall|k: u32| #[trigger] self@.dom().contains(k) && k != dev_no implies self@[k]
                    == old(self)@[k] by {
                    assert(m0.dom().contains(k));
                    assert(self.devices@[m0[k] as int] == old(self).devices@[m0[k] as int]);
                }
            }
        }
    }

    /// The device of number `device_no`; none is `NoSuchDev`.
    pub fn get_device(&self, device_no: u32) -> (r: Result<&D, SysError>)
        requires
            self.wf(),
        ensures
            self@.dom().contains(device_no) ==> (r matches Ok(d) && *d == self@[device_no]),
            !self@.dom().contains(device_no) ==> (r matches Err(e) && e.kind == SysErrorKind::NoSuchDev
                && e.msg is None),
    {
        match slots_get(&self.slots, device_no) {
            Some(i) => Ok(&self.devices[i].1),
            None => Err(SysError { msg: None, kind: SysErrorKind::NoSuchDev }),
        }
    }

    /// Every registered device once, in the order the map gives its
    /// numbers.
    pub fn get_all_devices(&self) -> (r: Vec<&D>)
        requires
            self.wf(),
        ensures
            exists|ks: Seq<u32>|
                {
                    &&& ks.no_duplicates()
                    &&& ks.to_set() == self@.dom()
                    &&& ks.len() == r@.len()
                    &&& forall|i: int| 0 <= i < r@.len() ==> *#[trigger] r@[i] == self@[ks[i]]
                },
    {
        let keys = slots_keys(&self.slots);
        let mut out: Vec<&D> = Vec::new();
        let mut j: usize = 0;
        while j < keys.len()
            invariant
                self.wf(),
                j <= keys@.len(),
                out@.len() == j,
                keys@.to_set() == self@.dom(),
                forall|i: int| 0 <= i < j ==> *#[trigger] out@[i] == self@[keys@[i]],
            decreases keys@.len() - j,
        {
            let k = keys[j];
            proof {
                assert(keys@.to_set().contains(k));
            }
            let i = slots_get(&self.slots, k).unwrap();
            out.push(&self.devices[i].1);
            j += 1;
        }
        proof {
            assert(keys@.len() == out@.len());
        }
        out
    }
}

} // verus!
