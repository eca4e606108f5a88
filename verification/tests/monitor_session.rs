use rkvm_core::clipsync::ClipSyncOptions;
use rkvm_core::codec::Message;
use rkvm_core::event::CanonicalEvent;
use rkvm_core::event::Capability;
use rkvm_core::event::DeviceDescriptor;
use rkvm_core::event::EventKind;
use rkvm_core::monitor::Monitor;
use rkvm_core::registry::DeviceRegistry;
use rkvm_core::session::SessionAction;
use rkvm_core::session::SessionState;
use rkvm_core::session::session_step;

fn descriptor(name: &[u8]) -> DeviceDescriptor {
    DeviceDescriptor {
        device_id: 0,
        name: name.to_vec(),
        vendor: 1,
        product: 2,
        capabilities: vec![Capability { kind: EventKind::Key, code: 30 }],
    }
}

#[test]
fn monitor_add_emits_device_added_under_assigned_id() {
    let mut m = Monitor::new();
    let mut r = DeviceRegistry::new();
    let msg = m.device_added(&mut r, 1000, descriptor(b"kbd")).unwrap();
    match msg {
        Message::DeviceAdded { descriptor } => {
            assert_eq!(descriptor.device_id, 0);
            assert_eq!(descriptor.name, b"kbd".to_vec());
        },
        other => panic!("unexpected message {:?}", other),
    }
    assert!(r.lookup(0).is_some());
}

#[test]
fn monitor_duplicate_add_is_ignored() {
    let mut m = Monitor::new();
    let mut r = DeviceRegistry::new();
    assert!(m.device_added(&mut r, 1000, descriptor(b"kbd")).is_some());
    assert!(m.device_added(&mut r, 1000, descriptor(b"kbd")).is_none());
    assert_eq!(r.list().len(), 1);
}

#[test]
fn monitor_remove_emits_device_removed_and_tolerates_unknown() {
    let mut m = Monitor::new();
    let mut r = DeviceRegistry::new();
    m.device_added(&mut r, 1000, descriptor(b"kbd"));
    assert!(m.device_removed(&mut r, 2000).is_none());
    let msg = m.device_removed(&mut r, 1000).unwrap();
    assert_eq!(msg, Message::DeviceRemoved { device_id: 0 });
    assert!(r.lookup(0).is_none());
    // A second remove notice for the same key is a no-op.
    assert!(m.device_removed(&mut r, 1000).is_none());
}

#[test]
fn session_accepts_valid_hello() {
    let secret = b"proof".to_vec();
    let (state, action) = session_step(
        SessionState::AwaitingHello,
        Message::Hello { password_proof: b"proof".to_vec() },
        &secret,
    );
    assert_eq!(state, SessionState::Established);
    assert_eq!(action, SessionAction::Accept);
}

#[test]
fn session_rejects_wrong_proof() {
    let secret = b"proof".to_vec();
    let (state, action) = session_step(
        SessionState::AwaitingHello,
        Message::Hello { password_proof: b"wrong".to_vec() },
        &secret,
    );
    assert_eq!(state, SessionState::Closed);
    assert_eq!(action, SessionAction::Terminate);
}

#[test]
fn session_rejects_data_before_hello() {
    let secret = b"proof".to_vec();
    let (state, action) = session_step(SessionState::AwaitingHello, Message::Heartbeat, &secret);
    assert_eq!(state, SessionState::Closed);
    assert_eq!(action, SessionAction::Terminate);
}

#[test]
fn session_routes_established_messages() {
    let secret = b"proof".to_vec();
    let e = CanonicalEvent { device_id: 1, kind: EventKind::Key, code: 30, value: 1, timestamp: 0 };
    let (state, action) = session_step(
        SessionState::Established,
        Message::Event { event: e },
        &secret,
    );
    assert_eq!(state, SessionState::Established);
    assert_eq!(action, SessionAction::Deliver(e));

    let (state, action) = session_step(
        SessionState::Established,
        Message::DeviceRemoved { device_id: 4 },
        &secret,
    );
    assert_eq!(state, SessionState::Established);
    assert_eq!(action, SessionAction::RemoveDevice(4));

    let (state, action) = session_step(SessionState::Established, Message::Heartbeat, &secret);
    assert_eq!(state, SessionState::Established);
    assert_eq!(action, SessionAction::Ignore);
}

#[test]
fn session_second_hello_is_fatal() {
    let secret = b"proof".to_vec();
    let (state, action) = session_step(
        SessionState::Established,
        Message::Hello { password_proof: b"proof".to_vec() },
        &secret,
    );
    assert_eq!(state, SessionState::Closed);
    assert_eq!(action, SessionAction::Terminate);
}

#[test]
fn session_closed_acts_on_nothing() {
    let secret = b"proof".to_vec();
    let (state, action) = session_step(SessionState::Closed, Message::Heartbeat, &secret);
    assert_eq!(state, SessionState::Closed);
    assert_eq!(action, SessionAction::Ignore);
}

#[test]
fn clipsync_launch_needs_flag_and_path() {
    let base = ClipSyncOptions {
        clip_sync_enabled: true,
        sync_provider_path: String::from("/usr/bin/provider"),
        xdg_runtime_dir: String::from("/run/user/1000"),
        wayland_display: String::from("wayland-0"),
        piknik_config_path: String::from("/home/u/.piknik.toml"),
        uid: 1000,
        gid: 1000,
    };
    assert!(base.should_launch());

    let mut disabled = base.clone();
    disabled.clip_sync_enabled = false;
    assert!(!disabled.should_launch());

    let mut pathless = base.clone();
    pathless.sync_provider_path = String::new();
    assert!(!pathless.should_launch());
}
