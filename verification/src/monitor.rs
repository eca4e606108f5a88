//! Hot-plug monitor of the source: reacts to add/remove notifications from
//! the OS device namespace, keeps the device registry in step, and emits the
//! control messages the sink needs. Duplicate add notices and remove notices
//! for untracked devices are expected (hot-plug races with disconnects) and
//! are no-ops.

use vstd::prelude::*;

use crate::codec::Message;
use crate::event::DeviceDescriptor;
use crate::registry::DeviceRegistry;
use crate::registry::spec_unregister;

verus! {

/// First index of native key `key` in the open-device list, or -1 when absent.
pub open spec fn spec_track_pos(s: Seq<(u64, u64)>, key: u64) -> int
    decreases s.len(),
{
    if s.len() == 0 {
        -1
    } else if s[0].0 == key {
        0
    } else {
        let rest = spec_track_pos(s.drop_first(), key);
        if rest == -1 {
            -1
        } else {
            rest + 1
        }
    }
}

/// Watches for device hot-plug and drives the registry. Each entry
/// pairs the OS-native key of an open device with the registry id it was
/// assigned.
pub struct Monitor {
    open_devices: Vec<(u64, u64)>,
}

impl Monitor {
    /// The (native key, device id) pairs of the currently open devices.
    pub closed spec fn view(&self) -> Seq<(u64, u64)> {
        self.open_devices@
    }

    /// Native keys are pairwise distinct.
    pub open spec fn wf(&self) -> bool {
        forall|i: int, j: int| 0 <= i < j < self@.len() ==> self@[i].0 != self@[j].0
    }

    /// A monitor tracking nothing.
    pub fn new() -> (r: Monitor)
        ensures
            r.wf(),
            r@ == Seq::<(u64, u64)>::empty(),
    {
        Monitor { open_devices: Vec::new() }
    }

    /// Reacts to an add notification for the device with OS-native key
    /// `key`: a duplicate notice for an already-open device changes nothing
    /// and emits nothing; otherwise the device is registered and a
    /// device-added control message for the descriptor, under its assigned
    /// id, is returned for forwarding to the sink.
    pub fn device_added(
        &mut self,
        registry: &mut DeviceRegistry,
        key: u64,
        descriptor: DeviceDescriptor,
    ) -> (r: Option<Message>)
        requires
            old(self).wf(),
            old(registry).wf(),
            old(registry).spec_next_id() < u64::MAX,
        ensures
            final(self).wf(),
            final(registry).wf(),
            spec_track_pos(old(self)@, key) >= 0 ==> final(self)@ == old(self)@ && final(registry)@ == old(registry)@ && final(registry).spec_next_id() == old(registry).spec_next_id()
                && r is None,
            spec_track_pos(old(self)@, key) == -1 ==> {
                &&& final(self)@ == old(self)@.push((key, old(registry).spec_next_id()))
                &&& final(registry)@ == old(registry)@.push(
                    crate::event::DescriptorModel {
                        device_id: old(registry).spec_next_id(),
                        ..descriptor@
                    },
                )
                &&& r matches Some(m) && m@ == (crate::codec::MessageModel::DeviceAdded {
                    descriptor: crate::event::DescriptorModel {
                        device_id: old(registry).spec_next_id(),
                        ..descriptor@
                    },
                })
            },
    {
        if self.find_key(key).is_some() {
            return None;
        }
        let ghost t0 = self.open_devices@;
        let mut announced = descriptor.duplicate();
        let id = registry.register(descriptor);
        announced.device_id = id;
        self.open_devices.push((key, id));
        proof {
            lemma_track_push(t0, key, id);
            assert(announced@ == (crate::event::DescriptorModel { device_id: id, ..announced@ }));
        }
        Some(Message::DeviceAdded { descriptor: announced })
    }

    /// Reacts to a remove notification: a notice for a device that is not
    /// open changes nothing and emits nothing; otherwise the device is
    /// unregistered and a device-removed control message for its id is
    /// returned for forwarding to the sink.
    pub fn device_removed(&mut self, registry: &mut DeviceRegistry, key: u64) -> (r: Option<
        Message,
    >)
        requires
            old(self).wf(),
            old(registry).wf(),
        ensures
            final(self).wf(),
            final(registry).wf(),
            spec_track_pos(old(self)@, key) == -1 ==> final(self)@ == old(self)@ && final(registry)@ == old(registry)@ && final(registry).spec_next_id() == old(registry).spec_next_id()
                && r is None,
            spec_track_pos(old(self)@, key) >= 0 ==> {
                let i = spec_track_pos(old(self)@, key);
                &&& final(self)@ == old(self)@.remove(i)
                &&& final(registry)@ == spec_unregister(old(registry)@, old(self)@[i].1)
                &&& r matches Some(m) && m@ == (crate::codec::MessageModel::DeviceRemoved {
                    device_id: old(self)@[i].1,
                })
            },
    {
        let slot = match self.find_key(key) {
            Some(slot) => slot,
            None => {
                return None;
            },
        };
        let ghost t0 = self.open_devices@;
        let id = self.open_devices[slot].1;
        self.open_devices.remove(slot);
        registry.unregister(id);
        proof {
            t0.remove_ensures(slot as int);
            assert forall|a: int, b: int|
                0 <= a < b < self@.len() implies self@[a].0 != self@[b].0 by {
                let oa = if a < slot as int {
                    a
                } else {
                    a + 1
                };
                let ob = if b < slot as int {
                    b
                } else {
                    b + 1
                };
                assert(self@[a] == t0[oa]);
                assert(self@[b] == t0[ob]);
            }
        }
        Some(Message::DeviceRemoved { device_id: id })
    }

    /// Index of the open-device entry for native key `key`.
    fn find_key(&self, key: u64) -> (r: Option<usize>)
        ensures
            match r {
                Some(slot) => spec_track_pos(self@, key) == slot as int && slot < self@.len()
                    && self@[slot as int].0 == key,
                None => spec_track_pos(self@, key) == -1,
            },
    {
        let mut i: usize = 0;
        while i < self.open_devices.len()
            invariant
                0 <= i <= self@.len(),
                forall|j: int| 0 <= j < i ==> self@[j].0 != key,
            decreases self@.len() - i,
        {
            if self.open_devices[i].0 == key {
                proof {
                    lemma_track_first(self@, key, i as int);
                }
                return Some(i);
            }
            i = i + 1;
        }
        proof {
            lemma_track_absent(self@, key);
        }
        None
    }
}

/// When position `i` holds `key` and no earlier one does, the position is
/// found.
proof fn lemma_track_first(s: Seq<(u64, u64)>, key: u64, i: int)
    requires
        0 <= i < s.len(),
        s[i].0 == key,
        forall|j: int| 0 <= j < i ==> s[j].0 != key,
    ensures
        spec_track_pos(s, key) == i,
    decreases i,
{
    if i > 0 {
        lemma_track_first(s.drop_first(), key, i - 1);
    }
}

/// When no position holds `key`, absence is reported.
proof fn lemma_track_absent(s: Seq<(u64, u64)>, key: u64)
    requires
        forall|j: int| 0 <= j < s.len() ==> s[j].0 != key,
    ensures
        spec_track_pos(s, key) == -1,
    decreases s.len(),
{
    if s.len() > 0 {
        lemma_track_absent(s.drop_first(), key);
    }
}

/// Appending a fresh key keeps the keys pairwise distinct.
proof fn lemma_track_push(s: Seq<(u64, u64)>, key: u64, id: u64)
    requires
        spec_track_pos(s, key) == -1,
    ensures
        forall|a: int, b: int|
            (0 <= a < b < s.push((key, id)).len() && (forall|i: int, j: int|
                0 <= i < j < s.len() ==> s[i].0 != s[j].0)) ==> s.push((key, id))[a].0 != s.push(
                (key, id),
            )[b].0,
    decreases s.len(),
{
    lemma_track_pos_none(s, key);
    assert forall|a: int, b: int|
        (0 <= a < b < s.push((key, id)).len() && (forall|i: int, j: int|
            0 <= i < j < s.len() ==> s[i].0 != s[j].0)) implies s.push((key, id))[a].0 != s.push(
        (key, id),
    )[b].0 by {
        if b == s.len() {
            assert(s.push((key, id))[a] == s[a]);
        }
    }
}

/// Absence of `key` means no position holds it.
proof fn lemma_track_pos_none(s: Seq<(u64, u64)>, key: u64)
    requires
        spec_track_pos(s, key) == -1,
    ensures
        forall|j: int| 0 <= j < s.len() ==> s[j].0 != key,
    decreases s.len(),
{
    if s.len() > 0 && s[0].0 != key {
        lemma_track_pos_bounds(s.drop_first(), key);
        lemma_track_pos_none(s.drop_first(), key);
        assert forall|j: int| 0 <= j < s.len() implies s[j].0 != key by {
            if j > 0 {
                assert(s[j] == s.drop_first()[j - 1]);
            }
        }
    }
}

/// The found position is -1 or a valid index.
proof fn lemma_track_pos_bounds(s: Seq<(u64, u64)>, key: u64)
    ensures
        spec_track_pos(s, key) == -1 || 0 <= spec_track_pos(s, key) < s.len(),
    decreases s.len(),
{
    if s.len() > 0 && s[0].0 != key {
        lemma_track_pos_bounds(s.drop_first(), key);
    }
}

} // verus!
