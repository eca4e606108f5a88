use rkvm_core::event::CanonicalEvent;
use rkvm_core::event::Capability;
use rkvm_core::event::DeviceDescriptor;
use rkvm_core::event::EventKind;
use rkvm_core::registry::DeviceRegistry;
use rkvm_core::writer::Writer;

fn descriptor(name: &[u8]) -> DeviceDescriptor {
    DeviceDescriptor {
        device_id: 0,
        name: name.to_vec(),
        vendor: 1,
        product: 2,
        capabilities: vec![Capability { kind: EventKind::Key, code: 30 }],
    }
}

fn event_on(device_id: u64, value: i32, timestamp: u64) -> CanonicalEvent {
    CanonicalEvent { device_id, kind: EventKind::Key, code: 30, value, timestamp }
}

#[test]
fn register_assigns_fresh_ids() {
    let mut r = DeviceRegistry::new();
    let a = r.register(descriptor(b"a"));
    let b = r.register(descriptor(b"b"));
    assert_eq!(a, 0);
    assert_eq!(b, 1);
    assert_eq!(r.lookup(a).unwrap().name, b"a".to_vec());
    assert_eq!(r.lookup(b).unwrap().name, b"b".to_vec());
    assert_eq!(r.list().len(), 2);
}

#[test]
fn lookup_unknown_is_none() {
    let r = DeviceRegistry::new();
    assert!(r.lookup(3).is_none());
}

#[test]
fn unregister_removes_and_never_reuses_id() {
    let mut r = DeviceRegistry::new();
    let a = r.register(descriptor(b"a"));
    r.unregister(a);
    assert!(r.lookup(a).is_none());
    let b = r.register(descriptor(b"b"));
    assert_ne!(a, b);
}

#[test]
fn unregister_twice_is_a_no_op() {
    let mut r = DeviceRegistry::new();
    let a = r.register(descriptor(b"a"));
    let b = r.register(descriptor(b"b"));
    r.unregister(a);
    r.unregister(a);
    r.unregister(77);
    assert!(r.lookup(a).is_none());
    assert_eq!(r.lookup(b).unwrap().name, b"b".to_vec());
    assert_eq!(r.list().len(), 1);
}

#[test]
fn writer_create_and_duplicate_create() {
    let mut w = Writer::new();
    let mut d = descriptor(b"kbd");
    d.device_id = 5;
    assert!(w.create(d.clone()));
    assert!(!w.create(d));
    assert_eq!(w.log_of(5).unwrap().len(), 0);
}

#[test]
fn writer_inject_unknown_device_fails() {
    let mut w = Writer::new();
    assert!(!w.inject(event_on(9, 1, 0)));
    assert!(w.log_of(9).is_none());
}

#[test]
fn writer_destroy_is_idempotent() {
    let mut w = Writer::new();
    let mut d = descriptor(b"kbd");
    d.device_id = 5;
    w.create(d);
    w.destroy(5);
    w.destroy(5);
    w.destroy(6);
    assert!(w.log_of(5).is_none());
}

#[test]
fn per_device_order_preserved_under_interleaving() {
    let mut w = Writer::new();
    let mut ka = descriptor(b"kbd-a");
    ka.device_id = 1;
    let mut kb = descriptor(b"kbd-b");
    kb.device_id = 2;
    w.create(ka);
    w.create(kb);

    // An arbitrary interleaving of two devices' streams, in receipt order.
    let stream = vec![
        event_on(1, 1, 10),
        event_on(2, 1, 11),
        event_on(1, 0, 12),
        event_on(2, 0, 13),
        event_on(1, 1, 14),
        event_on(3, 1, 15),  // unknown device: dropped
        event_on(2, 1, 16),
    ];
    w.deliver(&stream);

    let log1: Vec<u64> = w.log_of(1).unwrap().iter().map(|e| e.timestamp).collect();
    let log2: Vec<u64> = w.log_of(2).unwrap().iter().map(|e| e.timestamp).collect();
    assert_eq!(log1, vec![10, 12, 14]);
    assert_eq!(log2, vec![11, 13, 16]);
    assert!(w.log_of(3).is_none());
}

#[test]
fn writer_appends_across_deliveries() {
    let mut w = Writer::new();
    let mut d = descriptor(b"kbd");
    d.device_id = 1;
    w.create(d);
    w.deliver(&vec![event_on(1, 1, 1)]);
    w.deliver(&vec![event_on(1, 0, 2)]);
    let log: Vec<u64> = w.log_of(1).unwrap().iter().map(|e| e.timestamp).collect();
    assert_eq!(log, vec![1, 2]);
}
