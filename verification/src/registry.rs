//! Registry of currently-open devices, keyed by their process-local stable
//! identifier. Identifiers are assigned monotonically, so an id is never
//! reused while any device holding it is still registered. Removal of an
//! unknown id is a no-op, because a disconnect can race with a hot-plug
//! removal notice.

use vstd::prelude::*;

use crate::event::Capability;
use crate::event::DescriptorModel;
use crate::event::DeviceDescriptor;

verus! {

/// First index in `s` whose descriptor carries `id`, or -1 when absent.
pub open spec fn spec_find(s: Seq<DescriptorModel>, id: u64) -> int
    decreases s.len(),
{
    if s.len() == 0 {
        -1
    } else if s[0].device_id == id {
        0
    } else {
        let rest = spec_find(s.drop_first(), id);
        if rest == -1 {
            -1
        } else {
            rest + 1
        }
    }
}

/// What unregistering `id` leaves behind: the registry unchanged when `id`
/// is absent, otherwise with the one entry holding `id` removed.
pub open spec fn spec_unregister(s: Seq<DescriptorModel>, id: u64) -> Seq<DescriptorModel> {
    if spec_find(s, id) == -1 {
        s
    } else {
        s.remove(spec_find(s, id))
    }
}

/// `spec_find` returns either -1 or a valid index holding `id`.
pub proof fn lemma_find_bounds(s: Seq<DescriptorModel>, id: u64)
    ensures
        spec_find(s, id) == -1 || (0 <= spec_find(s, id) < s.len() && s[spec_find(s, id)].device_id
            == id),
        spec_find(s, id) == -1 ==> forall|j: int| 0 <= j < s.len() ==> s[j].device_id != id,
    decreases s.len(),
{
    if s.len() > 0 && s[0].device_id != id {
        lemma_find_bounds(s.drop_first(), id);
        if spec_find(s, id) == -1 {
            assert forall|j: int| 0 <= j < s.len() implies s[j].device_id != id by {
                if j > 0 {
                    assert(s[j] == s.drop_first()[j - 1]);
                }
            }
        } else {
            assert(s[spec_find(s, id)] == s.drop_first()[spec_find(s, id) - 1]);
        }
    }
}

/// Tracks the currently-open physical (source side) or virtual (sink side)
/// devices. The owner serializes concurrent access; the operations here are
/// sequential state transitions.
pub struct DeviceRegistry {
    devices: Vec<DeviceDescriptor>,
    next_id: u64,
}

impl DeviceRegistry {
    /// The registered descriptors, in registration order.
    pub closed spec fn view(&self) -> Seq<DescriptorModel> {
        Seq::new(self.devices@.len(), |i: int| self.devices@[i]@)
    }

    /// The identifier the next registration will be assigned.
    pub closed spec fn spec_next_id(&self) -> u64 {
        self.next_id
    }

    /// Well-formedness: registered ids are pairwise distinct and all below
    /// the id counter.
    pub open spec fn wf(&self) -> bool {
        &&& forall|i: int, j: int|
            0 <= i < j < self@.len() ==> self@[i].device_id != self@[j].device_id
        &&& forall|i: int| 0 <= i < self@.len() ==> self@[i].device_id < self.spec_next_id()
    }

    /// An empty registry, with the id counter at zero.
    pub fn new() -> (r: DeviceRegistry)
        ensures
            r.wf(),
            r@ == Seq::<DescriptorModel>::empty(),
            r.spec_next_id() == 0,
    {
        let r = DeviceRegistry { devices: Vec::new(), next_id: 0 };
        proof {
            assert(r@ =~= Seq::<DescriptorModel>::empty());
        }
        r
    }

    /// Registers a newly-opened device: assigns it the next free identifier
    /// and stores its descriptor under that id. The id in the descriptor
    /// handed in is overwritten. Requires the id space not to be exhausted,
    /// which a 64-bit counter cannot reach in practice.
    pub fn register(&mut self, descriptor: DeviceDescriptor) -> (id: u64)
        requires
            old(self).wf(),
            old(self).spec_next_id() < u64::MAX,
        ensures
            final(self).wf(),
            id == old(self).spec_next_id(),
            final(self).spec_next_id() == id + 1,
            final(self)@ == old(self)@.push(
                DescriptorModel { device_id: id, ..descriptor@ },
            ),
    {
        let id = self.next_id;
        let mut descriptor = descriptor;
        descriptor.device_id = id;
        self.devices.push(descriptor);
        self.next_id = id + 1;
        proof {
            assert(self@ =~= old(self)@.push(
                DescriptorModel { device_id: id, ..descriptor@ },
            ));
        }
        id
    }

    /// Removes the device registered under `id`. Removing an id that is not
    /// registered is a no-op: teardown is idempotent.
    pub fn unregister(&mut self, id: u64)
        requires
            old(self).wf(),
        ensures
            final(self).wf(),
            final(self)@ == spec_unregister(old(self)@, id),
            final(self).spec_next_id() == old(self).spec_next_id(),
            spec_find(final(self)@, id) == -1,
    {
        let ghost s = self@;
        let mut i: usize = 0;
        while i < self.devices.len()
            invariant
                0 <= i <= self.devices.len(),
                old(self).wf(),
                self.devices == old(self).devices,
                self.next_id == old(self).next_id,
                s == self@,
                forall|j: int| 0 <= j < i ==> self@[j].device_id != id,
            decreases self.devices.len() - i,
        {
            if self.devices[i].device_id == id {
                self.devices.remove(i);
                proof {
                    let gi = i as int;
                    lemma_find_first(s, id, gi);
                    assert(self@ =~= s.remove(gi));
                    s.remove_ensures(gi);
                    assert(s == old(self)@);
                    assert forall|j: int| 0 <= j < s.len() && j != gi implies s[j].device_id
                        != id by {
                        assert(s[gi].device_id == id);
                        if j < gi {
                            assert(old(self)@[j].device_id != old(self)@[gi].device_id);
                        } else {
                            assert(old(self)@[gi].device_id != old(self)@[j].device_id);
                        }
                    }
                    lemma_removed_all(s, id, gi);
                    lemma_absent(self@, id);
                }
                return ;
            }
            i = i + 1;
        }
        proof {
            lemma_find_bounds(s, id);
            lemma_absent(s, id);
        }
    }

    /// Looks the device registered under `id` up.
    pub fn lookup(&self, id: u64) -> (r: Option<&DeviceDescriptor>)
        requires
            self.wf(),
        ensures
            match r {
                Some(d) => spec_find(self@, id) >= 0 && d@ == self@[spec_find(self@, id)],
                None => spec_find(self@, id) == -1,
            },
    {
        let mut i: usize = 0;
        while i < self.devices.len()
            invariant
                0 <= i <= self.devices.len(),
                forall|j: int| 0 <= j < i ==> self@[j].device_id != id,
            decreases self.devices.len() - i,
        {
            if self.devices[i].device_id == id {
                proof {
                    lemma_find_first(self@, id, i as int);
                }
                return Some(&self.devices[i]);
            }
            i = i + 1;
        }
        proof {
            lemma_absent(self@, id);
        }
        None
    }

    /// All registered descriptors, in registration order.
    pub fn list(&self) -> (r: &Vec<DeviceDescriptor>)
        ensures
            r@.len() == self@.len(),
            forall|i: int| 0 <= i < r@.len() ==> r@[i]@ == self@[i],
    {
        &self.devices
    }
}

/// When position `i` holds `id` and no earlier position does, `spec_find`
/// returns `i`.
pub proof fn lemma_find_first(s: Seq<DescriptorModel>, id: u64, i: int)
    requires
        0 <= i < s.len(),
        s[i].device_id == id,
        forall|j: int| 0 <= j < i ==> s[j].device_id != id,
    ensures
        spec_find(s, id) == i,
    decreases i,
{
    if i > 0 {
        lemma_find_first(s.drop_first(), id, i - 1);
    }
}

/// When no position holds `id`, `spec_find` reports absence.
pub proof fn lemma_absent(s: Seq<DescriptorModel>, id: u64)
    requires
        forall|j: int| 0 <= j < s.len() ==> s[j].device_id != id,
    ensures
        spec_find(s, id) == -1,
    decreases s.len(),
{
    if s.len() > 0 {
        lemma_absent(s.drop_first(), id);
    }
}

/// Removing the only position that holds `id` leaves no position holding it.
pub proof fn lemma_removed_all(s: Seq<DescriptorModel>, id: u64, i: int)
    requires
        0 <= i < s.len(),
        forall|j: int| 0 <= j < s.len() && j != i ==> s[j].device_id != id,
    ensures
        forall|j: int| 0 <= j < s.remove(i).len() ==> s.remove(i)[j].device_id != id,
{
    s.remove_ensures(i);
    assert forall|j: int| 0 <= j < s.remove(i).len() implies s.remove(i)[j].device_id != id by {
        if j < i {
            assert(s.remove(i)[j] == s[j]);
        } else {
            assert(s.remove(i)[j] == s[j + 1]);
        }
    }
}

/// Unregistering is idempotent: a second removal of the same id, or a removal
/// of an id that was never present, changes nothing. Holds whenever `id`
/// occurs at most once, which registry well-formedness guarantees.
pub proof fn lemma_unregister_idempotent(s: Seq<DescriptorModel>, id: u64)
    requires
        forall|i: int, j: int|
            0 <= i < j < s.len() ==> !(s[i].device_id == id && s[j].device_id == id),
    ensures
        spec_unregister(spec_unregister(s, id), id) == spec_unregister(s, id),
{
    lemma_find_bounds(s, id);
    let t = spec_unregister(s, id);
    if spec_find(s, id) >= 0 {
        let i = spec_find(s, id);
        assert forall|j: int| 0 <= j < t.len() implies t[j].device_id != id by {
            if j < i {
                lemma_find_before(s, id, j);
            } else {
                assert(t[j] == s[j + 1]);
            }
        }
        lemma_absent(t, id);
    }
}

/// Positions before the first occurrence of `id` do not hold `id`.
pub proof fn lemma_find_before(s: Seq<DescriptorModel>, id: u64, j: int)
    requires
        0 <= j < spec_find(s, id),
    ensures
        s[j].device_id != id,
    decreases j,
{
    lemma_find_bounds(s, id);
    if j > 0 {
        lemma_find_before(s.drop_first(), id, j - 1);
        assert(s[j] == s.drop_first()[j - 1]);
    }
}

} // verus!
