//! Writer/Injector of the sink: tracks the virtual devices created for a
//! connection's descriptors and replays canonical events onto them. The
//! injected log of every device is append-only and grows in receipt order,
//! which is what preserves per-device event order end to end.

use vstd::prelude::*;

use crate::codec::MessageModel;
use crate::codec::spec_decode_stream;
use crate::codec::spec_encode_stream;
use crate::codec::lemma_stream_round_trip;
use crate::codec::wf_message;
use crate::event::CanonicalEvent;
use crate::event::DescriptorModel;
use crate::event::DeviceDescriptor;
use crate::switch::lemma_filter_take_step;

verus! {

/// One virtual device: the descriptor whose capability set it mirrors, and
/// the events injected on it so far, in injection order.
#[verifier::ext_equal]
pub struct SlotModel {
    pub descriptor: DescriptorModel,
    pub injected: Seq<CanonicalEvent>,
}

struct VirtualDevice {
    descriptor: DeviceDescriptor,
    injected: Vec<CanonicalEvent>,
}

/// The events a message stream carries, in order.
pub open spec fn spec_events_of(ms: Seq<MessageModel>) -> Seq<CanonicalEvent>
    decreases ms.len(),
{
    if ms.len() == 0 {
        Seq::<CanonicalEvent>::empty()
    } else {
        let rest = spec_events_of(ms.drop_first());
        match ms[0] {
            MessageModel::Event { event } => seq![event] + rest,
            _ => rest,
        }
    }
}

/// The subsequence of `evs` produced by device `id`, in order.
pub open spec fn spec_project(evs: Seq<CanonicalEvent>, id: u64) -> Seq<CanonicalEvent> {
    evs.filter(|e: CanonicalEvent| e.device_id == id)
}

/// First index in `devices` holding `id`, or -1 when absent.
spec fn spec_slot(devices: Seq<VirtualDevice>, id: u64) -> int
    decreases devices.len(),
{
    if devices.len() == 0 {
        -1
    } else if devices[0].descriptor.device_id == id {
        0
    } else {
        let rest = spec_slot(devices.drop_first(), id);
        if rest == -1 {
            -1
        } else {
            rest + 1
        }
    }
}

/// Sink-side writer: one slot per virtual device, keyed by device id.
pub struct Writer {
    devices: Vec<VirtualDevice>,
}

impl Writer {
    /// The virtual devices by id, each with its descriptor and its injected
    /// log.
    pub closed spec fn view(&self) -> Map<u64, SlotModel> {
        Map::new(
            |id: u64| spec_slot(self.devices@, id) >= 0,
            |id: u64|
                SlotModel {
                    descriptor: self.devices@[spec_slot(self.devices@, id)].descriptor@,
                    injected: self.devices@[spec_slot(self.devices@, id)].injected@,
                },
        )
    }

    /// Device ids are pairwise distinct.
    pub closed spec fn wf(&self) -> bool {
        forall|i: int, j: int|
            0 <= i < j < self.devices@.len() ==> self.devices@[i].descriptor.device_id
                != self.devices@[j].descriptor.device_id
    }

    /// A writer with no virtual devices.
    pub fn new() -> (r: Writer)
        ensures
            r.wf(),
            r@ == Map::<u64, SlotModel>::empty(),
    {
        let r = Writer { devices: Vec::new() };
        proof {
            assert(r@ =~= Map::<u64, SlotModel>::empty());
        }
        r
    }

    /// Creates a virtual device exposing exactly the descriptor's
    /// capability set, with an empty injected log. Returns false and
    /// changes nothing when a device with that id already exists.
    pub fn create(&mut self, descriptor: DeviceDescriptor) -> (r: bool)
        requires
            old(self).wf(),
        ensures
            final(self).wf(),
            r == !old(self)@.contains_key(descriptor.device_id),
            r ==> final(self)@ == old(self)@.insert(
                descriptor.device_id,
                SlotModel { descriptor: descriptor@, injected: Seq::<CanonicalEvent>::empty() },
            ),
            !r ==> final(self)@ == old(self)@,
    {
        let id = descriptor.device_id;
        if self.find_slot(id).is_some() {
            proof {
                lemma_slot_bounds(self.devices@, id);
            }
            return false;
        }
        let ghost s0 = self.devices@;
        self.devices.push(VirtualDevice { descriptor, injected: Vec::new() });
        proof {
            lemma_slot_bounds(s0, id);
            let s1 = self.devices@;
            assert forall|x: u64| true implies #[trigger] spec_slot(s1, x) == (if x == id {
                s0.len() as int
            } else {
                spec_slot(s0, x)
            }) by {
                lemma_slot_push(s0, s1[s0.len() as int], x);
            }
            assert(forall|j: int| 0 <= j < s0.len() ==> s1[j] == s0[j]);
            assert(s1[s0.len() as int].injected@ =~= Seq::<CanonicalEvent>::empty());
            let target = old(self)@.insert(
                id,
                SlotModel { descriptor: descriptor@, injected: Seq::<CanonicalEvent>::empty() },
            );
            assert(self@.dom() =~= target.dom());
            assert forall|x: u64| self@.dom().contains(x) implies self@[x] == target[x] by {
                assert(self@.contains_key(x));
                assert(self@[x] == SlotModel {
                    descriptor: s1[spec_slot(s1, x)].descriptor@,
                    injected: s1[spec_slot(s1, x)].injected@,
                });
                if x == id {
                    assert(spec_slot(s1, x) == s0.len() as int);
                    assert(s1[spec_slot(s1, x)].descriptor@ =~= descriptor@);
                    assert(s1[spec_slot(s1, x)].injected@ =~= Seq::<CanonicalEvent>::empty());
                    assert(target[x] == SlotModel {
                        descriptor: descriptor@,
                        injected: Seq::<CanonicalEvent>::empty(),
                    });
                    assert(self@[x].descriptor == descriptor@);
                    assert(self@[x].injected == Seq::<CanonicalEvent>::empty());
                    assert(self@[x] == target[x]);
                } else {
                    lemma_slot_bounds(s0, x);
                    assert(s1[spec_slot(s1, x)] == s0[spec_slot(s0, x)]);
                    assert(old(self)@.contains_key(x));
                    assert(target[x] == old(self)@[x]);
                    assert(self@[x] == target[x]);
                }
            }
            assert(self@ =~= target);
        }
        true
    }

    /// Replays one event onto the virtual device it names, appending it to
    /// that device's log. Returns false and changes nothing when no such
    /// device exists: that device is unavailable, the connection goes on.
    pub fn inject(&mut self, event: CanonicalEvent) -> (r: bool)
        requires
            old(self).wf(),
        ensures
            final(self).wf(),
            r == old(self)@.contains_key(event.device_id),
            r ==> final(self)@ == old(self)@.insert(
                event.device_id,
                SlotModel {
                    descriptor: old(self)@[event.device_id].descriptor,
                    injected: old(self)@[event.device_id].injected.push(event),
                },
            ),
            !r ==> final(self)@ == old(self)@,
    {
        let id = event.device_id;
        let slot = match self.find_slot(id) {
            Some(slot) => slot,
            None => {
                proof {
                    lemma_slot_bounds(self.devices@, id);
                }
                return false;
            },
        };
        let ghost s0 = self.devices@;
        let dev = &mut self.devices[slot];
        dev.injected.push(event);
        proof {
            let s1 = self.devices@;
            let gs = slot as int;
            assert(s1[gs].descriptor == s0[gs].descriptor);
            assert(s1[gs].injected@ == s0[gs].injected@.push(event));
            assert forall|x: u64| true implies #[trigger] spec_slot(s1, x) == spec_slot(s0, x) by {
                lemma_slot_same_ids(s0, s1, x);
            }
            assert(forall|j: int| 0 <= j < s0.len() && j != gs ==> s1[j] == s0[j]);
            lemma_slot_bounds(s0, id);
            let target = old(self)@.insert(
                id,
                SlotModel {
                    descriptor: old(self)@[id].descriptor,
                    injected: old(self)@[id].injected.push(event),
                },
            );
            assert(self@.dom() =~= target.dom());
            assert forall|x: u64| self@.dom().contains(x) implies self@[x] == target[x] by {
                lemma_slot_bounds(s0, x);
                if x == id {
                    assert(spec_slot(s0, x) == gs);
                    assert(self@[x].descriptor == old(self)@[id].descriptor);
                    assert(self@[x].injected == old(self)@[id].injected.push(event));
                    assert(self@[x] == target[x]);
                } else {
                    assert(s1[spec_slot(s1, x)] == s0[spec_slot(s0, x)]);
                    assert(self@[x] == target[x]);
                }
            }
            assert(self@ =~= target);
        }
        true
    }

    /// Tears the virtual device named by `id` down. Idempotent: destroying
    /// an absent device changes nothing.
    pub fn destroy(&mut self, id: u64)
        requires
            old(self).wf(),
        ensures
            final(self).wf(),
            final(self)@ == old(self)@.remove(id),
    {
        let slot = match self.find_slot(id) {
            Some(slot) => slot,
            None => {
                proof {
                    lemma_slot_bounds(self.devices@, id);
                    assert(self@ =~= old(self)@.remove(id));
                }
                return ;
            },
        };
        let ghost s0 = self.devices@;
        self.devices.remove(slot);
        proof {
            let s1 = self.devices@;
            let gs = slot as int;
            s0.remove_ensures(gs);
            assert(s1 == s0.remove(gs));
            lemma_slot_bounds(s0, id);
            assert forall|x: u64| true implies #[trigger] spec_slot(s1, x) == (if x == id {
                -1
            } else if spec_slot(s0, x) < gs {
                spec_slot(s0, x)
            } else {
                spec_slot(s0, x) - 1
            }) by {
                lemma_slot_remove(s0, gs, x);
            }
            let target = old(self)@.remove(id);
            assert(self@.dom() =~= target.dom());
            assert forall|x: u64| self@.dom().contains(x) implies self@[x] == target[x] by {
                lemma_slot_bounds(s0, x);
                let k0 = spec_slot(s0, x);
                let k1 = spec_slot(s1, x);
                if k0 < gs {
                    assert(s1[k1] == s0[k0]);
                } else {
                    assert(k1 == k0 - 1);
                    assert(s1[k1] == s0[k0]);
                }
                assert(self@[x] == target[x]);
            }
            assert(self@ =~= target);
        }
    }

    /// Replays a received event stream in order. Each device's log extends
    /// by exactly that device's projection of the stream, in the same
    /// relative order the device produced it; events naming an unknown
    /// device are dropped. This is per-device order preservation at the
    /// injection end.
    pub fn deliver(&mut self, events: &Vec<CanonicalEvent>)
        requires
            old(self).wf(),
        ensures
            final(self).wf(),
            final(self)@.dom() == old(self)@.dom(),
            forall|id: u64|
                old(self)@.contains_key(id) ==> final(self)@[id] == (SlotModel {
                    descriptor: old(self)@[id].descriptor,
                    injected: old(self)@[id].injected + spec_project(events@, id),
                }),
    {
        let mut i: usize = 0;
        while i < events.len()
            invariant
                0 <= i <= events@.len(),
                self.wf(),
                self@.dom() == old(self)@.dom(),
                forall|id: u64|
                    old(self)@.contains_key(id) ==> self@[id] == (SlotModel {
                        descriptor: old(self)@[id].descriptor,
                        injected: old(self)@[id].injected + spec_project(
                            events@.take(i as int),
                            id,
                        ),
                    }),
            decreases events@.len() - i,
        {
            let e = events[i];
            let ghost before = self@;
            self.inject(e);
            proof {
                assert forall|id: u64| old(self)@.contains_key(id) implies self@[id] == (SlotModel {
                    descriptor: old(self)@[id].descriptor,
                    injected: old(self)@[id].injected + spec_project(events@.take(i + 1), id),
                }) by {
                    lemma_filter_take_step(events@, i as int, |x: CanonicalEvent| x.device_id == id);
                    if id == e.device_id {
                        assert(before[id].injected.push(e) == old(self)@[id].injected
                            + spec_project(events@.take(i + 1), id));
                    }
                }
            }
            i = i + 1;
        }
        proof {
            assert(events@.take(events@.len() as int) == events@);
        }
    }

    /// The events injected on device `id` so far, in order, or `None` when
    /// no such virtual device exists.
    pub fn log_of(&self, id: u64) -> (r: Option<&Vec<CanonicalEvent>>)
        ensures
            match r {
                Some(log) => self@.contains_key(id) && log@ == self@[id].injected,
                None => !self@.contains_key(id),
            },
    {
        match self.find_slot(id) {
            Some(slot) => Some(&self.devices[slot].injected),
            None => None,
        }
    }

    /// Index of the device `id` in the slot list.
    fn find_slot(&self, id: u64) -> (r: Option<usize>)
        ensures
            match r {
                Some(slot) => spec_slot(self.devices@, id) == slot as int && slot
                    < self.devices@.len(),
                None => spec_slot(self.devices@, id) == -1,
            },
    {
        let mut i: usize = 0;
        while i < self.devices.len()
            invariant
                0 <= i <= self.devices@.len(),
                forall|j: int| 0 <= j < i ==> self.devices@[j].descriptor.device_id != id,
            decreases self.devices@.len() - i,
        {
            if self.devices[i].descriptor.device_id == id {
                proof {
                    lemma_slot_first(self.devices@, id, i as int);
                }
                return Some(i);
            }
            i = i + 1;
        }
        proof {
            lemma_slot_absent(self.devices@, id);
        }
        None
    }
}

/// Destroying a device twice is the same as destroying it once: teardown
/// releases each resource at most once.
pub proof fn lemma_destroy_idempotent(m: Map<u64, SlotModel>, id: u64)
    ensures
        m.remove(id).remove(id) == m.remove(id),
{
    assert(m.remove(id).remove(id) =~= m.remove(id));
}

/// Per-device order preservation end to end: any interleaving of frames
/// from multiple devices sharing one connection reaches the far end of the
/// wire unchanged, so the events observed for one device are exactly, and
/// in the same relative order as, the events that device produced. The
/// `deliver` contract then appends precisely that projection to the
/// device's log.
pub proof fn lemma_per_device_order(ms: Seq<MessageModel>, id: u64)
    requires
        forall|i: int| 0 <= i < ms.len() ==> wf_message(#[trigger] ms[i]),
    ensures
        spec_decode_stream(spec_encode_stream(ms)) == Some(ms),
        spec_decode_stream(spec_encode_stream(ms)) matches Some(received) && spec_project(
            spec_events_of(received),
            id,
        ) == spec_project(spec_events_of(ms), id),
{
    lemma_stream_round_trip(ms);
}

/// When position `i` holds `id` and no earlier one does, `spec_slot` is
/// `i`.
proof fn lemma_slot_first(devices: Seq<VirtualDevice>, id: u64, i: int)
    requires
        0 <= i < devices.len(),
        devices[i].descriptor.device_id == id,
        forall|j: int| 0 <= j < i ==> devices[j].descriptor.device_id != id,
    ensures
        spec_slot(devices, id) == i,
    decreases i,
{
    if i > 0 {
        lemma_slot_first(devices.drop_first(), id, i - 1);
    }
}

/// When no position holds `id`, `spec_slot` reports absence.
proof fn lemma_slot_absent(devices: Seq<VirtualDevice>, id: u64)
    requires
        forall|j: int| 0 <= j < devices.len() ==> devices[j].descriptor.device_id != id,
    ensures
        spec_slot(devices, id) == -1,
    decreases devices.len(),
{
    if devices.len() > 0 {
        lemma_slot_absent(devices.drop_first(), id);
    }
}

/// `spec_slot` returns -1 or a valid index holding `id`.
proof fn lemma_slot_bounds(devices: Seq<VirtualDevice>, id: u64)
    ensures
        spec_slot(devices, id) == -1 || (0 <= spec_slot(devices, id) < devices.len()
            && devices[spec_slot(devices, id)].descriptor.device_id == id),
        spec_slot(devices, id) == -1 ==> forall|j: int|
            0 <= j < devices.len() ==> devices[j].descriptor.device_id != id,
    decreases devices.len(),
{
    if devices.len() > 0 && devices[0].descriptor.device_id != id {
        lemma_slot_bounds(devices.drop_first(), id);
        if spec_slot(devices, id) == -1 {
            assert forall|j: int|
                0 <= j < devices.len() implies devices[j].descriptor.device_id != id by {
                if j > 0 {
                    assert(devices[j] == devices.drop_first()[j - 1]);
                }
            }
        } else {
            assert(devices[spec_slot(devices, id)] == devices.drop_first()[spec_slot(devices, id)
                - 1]);
        }
    }
}

/// Appending a device with a fresh id leaves every other id's slot alone
/// and gives the new id the last slot.
proof fn lemma_slot_push(s0: Seq<VirtualDevice>, dev: VirtualDevice, x: u64)
    requires
        spec_slot(s0, dev.descriptor.device_id) == -1,
    ensures
        spec_slot(s0.push(dev), x) == if x == dev.descriptor.device_id {
            s0.len() as int
        } else {
            spec_slot(s0, x)
        },
    decreases s0.len(),
{
    lemma_slot_bounds(s0, dev.descriptor.device_id);
    if s0.len() == 0 {
        assert(s0.push(dev).drop_first() =~= Seq::<VirtualDevice>::empty());
        assert(s0.push(dev)[0] == dev);
        if x == dev.descriptor.device_id {
            assert(spec_slot(s0.push(dev), x) == 0);
        } else {
            assert(spec_slot(Seq::<VirtualDevice>::empty(), x) == -1);
            assert(spec_slot(s0.push(dev), x) == -1);
            assert(spec_slot(s0, x) == -1);
        }
    } else {
        assert(s0[0].descriptor.device_id != dev.descriptor.device_id);
        lemma_slot_bounds(s0.drop_first(), dev.descriptor.device_id);
        assert(spec_slot(s0.drop_first(), dev.descriptor.device_id) == -1);
        lemma_slot_push(s0.drop_first(), dev, x);
        let t = s0.push(dev);
        assert(t.drop_first() =~= s0.drop_first().push(dev));
        assert(t[0] == s0[0]);
        lemma_slot_bounds(s0.drop_first(), x);
        if t[0].descriptor.device_id == x {
            assert(spec_slot(t, x) == 0);
            assert(spec_slot(s0, x) == 0);
        } else if x == dev.descriptor.device_id {
            assert(spec_slot(t.drop_first(), x) == s0.drop_first().len());
            assert(spec_slot(t, x) == s0.len());
        } else {
            assert(spec_slot(t.drop_first(), x) == spec_slot(s0.drop_first(), x));
            if spec_slot(s0.drop_first(), x) == -1 {
                assert(spec_slot(t, x) == -1);
                assert(spec_slot(s0, x) == -1);
            } else {
                assert(spec_slot(t, x) == spec_slot(s0.drop_first(), x) + 1);
                assert(spec_slot(s0, x) == spec_slot(s0.drop_first(), x) + 1);
            }
        }
    }
}

/// Two slot lists whose devices carry the same ids position-for-position
/// place every id at the same slot.
proof fn lemma_slot_same_ids(s0: Seq<VirtualDevice>, s1: Seq<VirtualDevice>, x: u64)
    requires
        s0.len() == s1.len(),
        forall|j: int|
            0 <= j < s0.len() ==> (#[trigger] s1[j]).descriptor.device_id
                == s0[j].descriptor.device_id,
    ensures
        spec_slot(s1, x) == spec_slot(s0, x),
    decreases s0.len(),
{
    if s0.len() > 0 {
        assert forall|j: int|
            0 <= j < s0.drop_first().len() implies (#[trigger] s1.drop_first()[
        j]).descriptor.device_id == s0.drop_first()[j].descriptor.device_id by {
            assert(s1.drop_first()[j] == s1[j + 1]);
            assert(s0.drop_first()[j] == s0[j + 1]);
        }
        lemma_slot_same_ids(s0.drop_first(), s1.drop_first(), x);
    }
}

/// Removing the slot that holds `id` (unique by well-formedness of the
/// caller) shifts later slots down and drops `id`.
proof fn lemma_slot_remove(s0: Seq<VirtualDevice>, i: int, x: u64)
    requires
        0 <= i < s0.len(),
        spec_slot(s0, s0[i].descriptor.device_id) == i,
        forall|j: int, k: int|
            0 <= j < k < s0.len() ==> s0[j].descriptor.device_id != s0[k].descriptor.device_id,
    ensures
        spec_slot(s0.remove(i), x) == if x == s0[i].descriptor.device_id {
            -1
        } else if spec_slot(s0, x) < i {
            spec_slot(s0, x)
        } else {
            spec_slot(s0, x) - 1
        },
{
    s0.remove_ensures(i);
    let t = s0.remove(i);
    let id = s0[i].descriptor.device_id;
    lemma_slot_bounds(s0, x);
    if x == id {
        assert forall|j: int| 0 <= j < t.len() implies t[j].descriptor.device_id != x by {
            if j < i {
                assert(t[j] == s0[j]);
            } else {
                assert(t[j] == s0[j + 1]);
            }
        }
        lemma_slot_absent(t, x);
    } else {
        let k = spec_slot(s0, x);
        if k == -1 {
            assert forall|j: int| 0 <= j < t.len() implies t[j].descriptor.device_id != x by {
                lemma_slot_bounds(s0, x);
                if j < i {
                    assert(t[j] == s0[j]);
                } else {
                    assert(t[j] == s0[j + 1]);
                }
            }
            lemma_slot_absent(t, x);
        } else if k < i {
            assert(t[k] == s0[k]);
            assert forall|j: int| 0 <= j < k implies t[j].descriptor.device_id != x by {
                assert(t[j] == s0[j]);
                lemma_slot_earlier_distinct(s0, x, j);
            }
            lemma_slot_first(t, x, k);
        } else {
            assert(k > i);
            assert(t[k - 1] == s0[k]);
            assert forall|j: int| 0 <= j < k - 1 implies t[j].descriptor.device_id != x by {
                let oj = if j < i {
                    j
                } else {
                    j + 1
                };
                assert(t[j] == s0[oj]);
                lemma_slot_earlier_distinct(s0, x, oj);
            }
            lemma_slot_first(t, x, k - 1);
        }
    }
}

/// Positions before the first slot of `x` do not hold `x`.
proof fn lemma_slot_earlier_distinct(s: Seq<VirtualDevice>, x: u64, j: int)
    requires
        0 <= j < spec_slot(s, x),
    ensures
        s[j].descriptor.device_id != x,
    decreases j,
{
    lemma_slot_bounds(s, x);
    if j > 0 {
        lemma_slot_earlier_distinct(s.drop_first(), x, j - 1);
        assert(s[j] == s.drop_first()[j - 1]);
    }
}

} // verus!
