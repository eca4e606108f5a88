use rkvm_core::event::CanonicalEvent;
use rkvm_core::event::EventKind;
use rkvm_core::switch::Injection;
use rkvm_core::switch::SwitchCoordinator;

const LEFT_CTRL: u16 = 29;
const RIGHT_CTRL: u16 = 97;
const KEY_A: u16 = 30;

fn key(code: u16, value: i32, timestamp: u64) -> CanonicalEvent {
    CanonicalEvent { device_id: 1, kind: EventKind::Key, code, value, timestamp }
}

fn chord_coordinator(propagate: bool) -> SwitchCoordinator {
    SwitchCoordinator::new(vec![LEFT_CTRL, RIGHT_CTRL], propagate)
}

#[test]
fn first_connection_becomes_active() {
    let mut c = chord_coordinator(false);
    assert_eq!(c.active_connection(), None);
    c.register_connection(10);
    assert_eq!(c.active_connection(), Some(10));
    c.register_connection(20);
    assert_eq!(c.active_connection(), Some(10));
}

#[test]
fn register_is_idempotent() {
    let mut c = chord_coordinator(false);
    c.register_connection(10);
    c.register_connection(20);
    c.register_connection(10);
    // A duplicate registration neither reorders nor re-activates: the next
    // switch from 10 still lands on 20.
    let out = c.handle_event(10, key(LEFT_CTRL, 1, 0));
    assert!(out.is_empty());
    let out = c.handle_event(10, key(RIGHT_CTRL, 1, 1));
    assert!(out.is_empty());
    assert_eq!(c.active_connection(), Some(20));
}

#[test]
fn chord_switch_scenario_without_propagation() {
    // Chord = {LeftCtrl, RightCtrl}; connections A=1, B=2 in that order.
    let mut c = chord_coordinator(false);
    c.register_connection(1);
    c.register_connection(2);
    assert_eq!(c.active_connection(), Some(1));

    let out = c.handle_event(1, key(LEFT_CTRL, 1, 0));
    assert!(out.is_empty());
    let out = c.handle_event(1, key(RIGHT_CTRL, 1, 1));
    assert!(out.is_empty());
    assert_eq!(c.active_connection(), Some(2));

    // A releases a chord key: A is no longer active, the event is discarded.
    let out = c.handle_event(1, key(LEFT_CTRL, 0, 2));
    assert!(out.is_empty());

    // B presses an ordinary key: injected, attributed to B.
    let a_down = key(KEY_A, 1, 3);
    let out = c.handle_event(2, a_down);
    assert_eq!(out, vec![Injection { connection_id: 2, event: a_down }]);
}

#[test]
fn chord_switch_scenario_with_propagation() {
    let mut c = chord_coordinator(true);
    c.register_connection(1);
    c.register_connection(2);

    let lc_down = key(LEFT_CTRL, 1, 0);
    let rc_down = key(RIGHT_CTRL, 1, 1);
    let out = c.handle_event(1, lc_down);
    assert!(out.is_empty());
    // The completing press fires the switch; both buffered chord presses are
    // routed to the newly active connection B, not to A.
    let out = c.handle_event(1, rc_down);
    assert_eq!(
        out,
        vec![
            Injection { connection_id: 2, event: lc_down },
            Injection { connection_id: 2, event: rc_down },
        ]
    );
    assert_eq!(c.active_connection(), Some(2));

    let a_down = key(KEY_A, 1, 3);
    let out = c.handle_event(2, a_down);
    assert_eq!(out, vec![Injection { connection_id: 2, event: a_down }]);
}

#[test]
fn propagation_off_swallows_every_chord_key_event() {
    let mut c = chord_coordinator(false);
    c.register_connection(1);
    for (code, value) in [
        (LEFT_CTRL, 1),
        (LEFT_CTRL, 2),
        (LEFT_CTRL, 0),
        (RIGHT_CTRL, 1),
        (RIGHT_CTRL, 0),
    ] {
        let out = c.handle_event(1, key(code, value, 0));
        assert!(out.is_empty());
    }
}

#[test]
fn non_active_source_is_discarded() {
    let mut c = chord_coordinator(true);
    c.register_connection(1);
    c.register_connection(2);
    // Connection 2 is not active: nothing is injected, nothing buffered.
    let out = c.handle_event(2, key(KEY_A, 1, 0));
    assert!(out.is_empty());
    let out = c.handle_event(2, key(LEFT_CTRL, 1, 1));
    assert!(out.is_empty());
    // Its chord key did not leak into connection 1's chord tracking.
    let out = c.handle_event(1, key(RIGHT_CTRL, 1, 2));
    assert!(out.is_empty());
    assert_eq!(c.active_connection(), Some(1));
}

#[test]
fn holding_chord_triggers_exactly_once() {
    let mut c = chord_coordinator(false);
    c.register_connection(1);
    c.register_connection(2);
    c.handle_event(1, key(LEFT_CTRL, 1, 0));
    c.handle_event(1, key(RIGHT_CTRL, 1, 1));
    assert_eq!(c.active_connection(), Some(2));
    // The chord is still held: repeats from the now-inactive holder, and
    // repeats of chord keys in general, never fire a second switch.
    for t in 2..20 {
        c.handle_event(1, key(LEFT_CTRL, 2, t));
        c.handle_event(1, key(RIGHT_CTRL, 2, t));
    }
    assert_eq!(c.active_connection(), Some(2));
}

#[test]
fn lone_connection_switches_to_itself() {
    let mut c = chord_coordinator(false);
    c.register_connection(5);
    c.handle_event(5, key(LEFT_CTRL, 1, 0));
    c.handle_event(5, key(RIGHT_CTRL, 1, 1));
    assert_eq!(c.active_connection(), Some(5));
}

#[test]
fn round_robin_wraps() {
    let mut c = chord_coordinator(false);
    c.register_connection(1);
    c.register_connection(2);
    c.register_connection(3);
    let mut expected = [2u64, 3, 1, 2];
    let mut source = 1u64;
    for e in expected.iter_mut() {
        c.handle_event(source, key(LEFT_CTRL, 1, 0));
        c.handle_event(source, key(RIGHT_CTRL, 1, 1));
        assert_eq!(c.active_connection(), Some(*e));
        // Release on the old source is discarded; the new source re-presses.
        source = *e;
    }
}

#[test]
fn aborted_chord_flushes_with_propagation() {
    let mut c = chord_coordinator(true);
    c.register_connection(1);
    let lc_down = key(LEFT_CTRL, 1, 0);
    let lc_up = key(LEFT_CTRL, 0, 1);
    let out = c.handle_event(1, lc_down);
    assert!(out.is_empty());
    // The chord is abandoned: the buffered press and the release are flushed.
    let out = c.handle_event(1, lc_up);
    assert_eq!(
        out,
        vec![
            Injection { connection_id: 1, event: lc_down },
            Injection { connection_id: 1, event: lc_up },
        ]
    );
}

#[test]
fn unregister_active_clears_slot_and_aborts_chord() {
    let mut c = chord_coordinator(true);
    c.register_connection(1);
    c.register_connection(2);
    c.handle_event(1, key(LEFT_CTRL, 1, 0));
    c.unregister_connection(1);
    // No active source until the next arrival or trigger; no auto-advance.
    assert_eq!(c.active_connection(), None);
    let out = c.handle_event(2, key(KEY_A, 1, 1));
    assert!(out.is_empty());
    // A new arrival becomes active at once.
    c.register_connection(3);
    assert_eq!(c.active_connection(), Some(3));
    // The partial chord from connection 1 was aborted on its removal: a lone
    // completing press from 3 does not trigger.
    let out = c.handle_event(3, key(RIGHT_CTRL, 1, 2));
    assert!(out.is_empty());
    assert_eq!(c.active_connection(), Some(3));
}

#[test]
fn unregister_is_idempotent() {
    let mut c = chord_coordinator(false);
    c.register_connection(1);
    c.register_connection(2);
    c.unregister_connection(9);
    c.unregister_connection(2);
    c.unregister_connection(2);
    assert_eq!(c.active_connection(), Some(1));
    // Round robin over the remaining lone connection still works.
    c.handle_event(1, key(LEFT_CTRL, 1, 0));
    c.handle_event(1, key(RIGHT_CTRL, 1, 1));
    assert_eq!(c.active_connection(), Some(1));
}

#[test]
fn non_key_events_pass_through() {
    let mut c = chord_coordinator(false);
    c.register_connection(1);
    let motion = CanonicalEvent {
        device_id: 4,
        kind: EventKind::RelativeAxis,
        code: 0,
        value: -3,
        timestamp: 9,
    };
    let out = c.handle_event(1, motion);
    assert_eq!(out, vec![Injection { connection_id: 1, event: motion }]);
    let sync = CanonicalEvent { device_id: 4, kind: EventKind::Sync, code: 0, value: 0, timestamp: 9 };
    let out = c.handle_event(1, sync);
    assert_eq!(out, vec![Injection { connection_id: 1, event: sync }]);
}
