//! Canonical, OS-independent model of one input event and of a device's
//! capability set.

use vstd::prelude::*;

verus! {

/// The kind of occurrence an input event reports.
#[derive(Clone, Copy, PartialEq, Eq, Structural, Debug, Hash)]
pub enum EventKind {
    /// A key or button changing state.
    Key,
    /// A relative axis movement (e.g. mouse motion delta).
    RelativeAxis,
    /// An absolute axis position (e.g. touchpad coordinate).
    AbsoluteAxis,
    /// A synchronization marker separating event batches.
    Sync,
}

/// One canonical input event. Immutable once produced; the order of events
/// within a single `device_id` stream is significant and preserved end to end.
#[derive(Clone, Copy, PartialEq, Eq, Structural, Debug)]
pub struct CanonicalEvent {
    /// Process-local identifier of the emitting device.
    pub device_id: u64,
    /// What kind of occurrence this is.
    pub kind: EventKind,
    /// Which key or axis the event concerns.
    pub code: u16,
    /// Integer payload: 0/1/2 for key states, signed delta for relative axes,
    /// absolute position for absolute axes.
    pub value: i32,
    /// Monotonic timestamp assigned at capture, in microseconds.
    pub timestamp: u64,
}

impl CanonicalEvent {
    /// A key press: a `Key` event with value 1.
    pub open spec fn is_key_press(self) -> bool {
        self.kind == EventKind::Key && self.value == 1
    }

    /// A key release: a `Key` event with value 0.
    pub open spec fn is_key_release(self) -> bool {
        self.kind == EventKind::Key && self.value == 0
    }
}

/// One (kind, code) pair a device is able to emit.
#[derive(Clone, Copy, PartialEq, Eq, Structural, Debug)]
pub struct Capability {
    pub kind: EventKind,
    pub code: u16,
}

/// Descriptor of an open device: identity plus the capability set used by the
/// sink to size the virtual device it creates. The capability set, once
/// advertised, is immutable for the device's lifetime.
#[derive(Clone, Debug, PartialEq, Eq)]
pub struct DeviceDescriptor {
    /// Process-local identifier, stable for the device's open lifetime.
    pub device_id: u64,
    /// Human-readable device name, as bytes.
    pub name: Vec<u8>,
    /// Vendor identifier reported by the device.
    pub vendor: u16,
    /// Product identifier reported by the device.
    pub product: u16,
    /// The set of (kind, code) pairs the device can emit.
    pub capabilities: Vec<Capability>,
}

/// Mathematical model of a `DeviceDescriptor`.
#[verifier::ext_equal]
pub struct DescriptorModel {
    pub device_id: u64,
    pub name: Seq<u8>,
    pub vendor: u16,
    pub product: u16,
    pub capabilities: Seq<Capability>,
}

impl DeviceDescriptor {
    /// A field-for-field copy, equal to `self` in the model.
    pub fn duplicate(&self) -> (r: DeviceDescriptor)
        ensures
            r@ == self@,
    {
        let mut name: Vec<u8> = Vec::new();
        let mut i: usize = 0;
        while i < self.name.len()
            invariant
                0 <= i <= self.name@.len(),
                name@ == self.name@.take(i as int),
            decreases self.name@.len() - i,
        {
            name.push(self.name[i]);
            proof {
                assert(name@ =~= self.name@.take(i + 1));
            }
            i = i + 1;
        }
        let mut capabilities: Vec<Capability> = Vec::new();
        let mut j: usize = 0;
        while j < self.capabilities.len()
            invariant
                0 <= j <= self.capabilities@.len(),
                capabilities@ == self.capabilities@.take(j as int),
            decreases self.capabilities@.len() - j,
        {
            capabilities.push(self.capabilities[j]);
            proof {
                assert(capabilities@ =~= self.capabilities@.take(j + 1));
            }
            j = j + 1;
        }
        let r = DeviceDescriptor {
            device_id: self.device_id,
            name,
            vendor: self.vendor,
            product: self.product,
            capabilities,
        };
        proof {
            assert(self.name@.take(self.name@.len() as int) == self.name@);
            assert(self.capabilities@.take(self.capabilities@.len() as int)
                == self.capabilities@);
            assert(r@ =~= self@);
        }
        r
    }
}

impl View for DeviceDescriptor {
    type V = DescriptorModel;

    open spec fn view(&self) -> DescriptorModel {
        DescriptorModel {
            device_id: self.device_id,
            name: self.name@,
            vendor: self.vendor,
            product: self.product,
            capabilities: self.capabilities@,
        }
    }
}

} // verus!
