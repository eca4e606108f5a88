//! Switch coordinator of the sink: holds the set of connected sources, the
//! currently-active source and the hot-key chord detector, and routes events
//! for injection only from the active source.
//!
//! Chord semantics: a chord-key press is buffered; when the presses cover the
//! whole chord, the switch fires once and the active slot advances to the
//! next connection in registration order (wrapping). The trigger is an edge:
//! the completing press fires it, and the chord state is reset by the switch
//! itself, so key repeats of a held chord never fire again. With
//! `propagate_switch_keys` enabled the buffered chord presses are forwarded
//! to the newly active connection after the switch decision (and the presses
//! of an abandoned partial chord are flushed on their release); with it
//! disabled every chord-key event is swallowed. Chord-key repeat events are
//! never forwarded. Removing the active connection aborts any partial chord.

use vstd::prelude::*;
use vstd::set_lib::lemma_subset_equality;

use crate::event::CanonicalEvent;
use crate::event::EventKind;

verus! {

broadcast use vstd::seq_lib::seq_to_set_is_finite;

/// One routing decision: `event` is to be injected on behalf of the
/// connection `connection_id`, which was the active source at that instant.
#[derive(Clone, Copy, PartialEq, Eq, Structural, Debug)]
pub struct Injection {
    pub connection_id: u64,
    pub event: CanonicalEvent,
}

/// Mathematical model of the coordinator state.
#[verifier::ext_equal]
pub struct CoordModel {
    /// The configured chord: the key codes that switch the active source.
    pub chord: Set<u16>,
    /// The chord keys currently held down on the active stream.
    pub pressed: Set<u16>,
    /// Buffered chord-key presses, in arrival order, awaiting the decision
    /// between a completed chord and an abandoned one.
    pub pending: Seq<CanonicalEvent>,
    /// Registered, authenticated connections in round-robin order.
    pub connections: Seq<u64>,
    /// The single connection whose events are injected, if any.
    pub active: Option<u64>,
    /// Whether chord keys are forwarded after the switch decision.
    pub propagate: bool,
}

/// Well-formedness of a coordinator state.
pub open spec fn wf_model(st: CoordModel) -> bool {
    &&& st.chord.finite()
    &&& st.pressed.finite()
    &&& st.pressed.subset_of(st.chord)
    &&& forall|i: int|
        0 <= i < st.pending.len() ==> (#[trigger] st.pending[i]).is_key_press()
            && st.chord.contains(st.pending[i].code)
    &&& st.connections.no_duplicates()
    &&& (st.active matches Some(c) ==> st.connections.contains(c))
}

/// First index of `x` in `s`, or -1 when absent.
pub open spec fn spec_pos(s: Seq<u64>, x: u64) -> int
    decreases s.len(),
{
    if s.len() == 0 {
        -1
    } else if s[0] == x {
        0
    } else {
        let rest = spec_pos(s.drop_first(), x);
        if rest == -1 {
            -1
        } else {
            rest + 1
        }
    }
}

/// The connection after `cur` in round-robin order, wrapping at the end.
/// A lone connection is its own successor.
pub open spec fn spec_next_active(conns: Seq<u64>, cur: u64) -> u64
    recommends
        conns.contains(cur),
{
    let i = spec_pos(conns, cur);
    if i + 1 < conns.len() {
        conns[i + 1]
    } else {
        conns[0]
    }
}

/// Events of `evs`, each routed to the connection `conn`.
pub open spec fn spec_route(evs: Seq<CanonicalEvent>, conn: u64) -> Seq<Injection> {
    Seq::new(evs.len(), |i: int| Injection { connection_id: conn, event: evs[i] })
}

/// The buffered presses of `code` (to flush) and the rest (to keep), once
/// the partial chord holding `code` is abandoned.
pub open spec fn spec_flush(pending: Seq<CanonicalEvent>, code: u16) -> (
    Seq<CanonicalEvent>,
    Seq<CanonicalEvent>,
) {
    (
        pending.filter(|e: CanonicalEvent| e.code == code),
        pending.filter(|e: CanonicalEvent| e.code != code),
    )
}

/// The coordinator's reaction to one event arriving from connection
/// `source`: the successor state and the injections it emits, in order.
pub open spec fn spec_step(st: CoordModel, source: u64, ev: CanonicalEvent) -> (
    CoordModel,
    Seq<Injection>,
) {
    if st.active != Some(source) {
        // Not the active source: the event is discarded, not buffered.
        (st, Seq::<Injection>::empty())
    } else if ev.kind == EventKind::Key && st.chord.contains(ev.code) {
        if ev.value == 1 && !st.pressed.contains(ev.code) {
            let pressed2 = st.pressed.insert(ev.code);
            let pending2 = st.pending.push(ev);
            if pressed2 == st.chord {
                // The completing press: switch once and reset the chord.
                let na = spec_next_active(st.connections, source);
                let outs = if st.propagate {
                    spec_route(pending2, na)
                } else {
                    Seq::<Injection>::empty()
                };
                (
                    CoordModel {
                        pressed: Set::<u16>::empty(),
                        pending: Seq::<CanonicalEvent>::empty(),
                        active: Some(na),
                        ..st
                    },
                    outs,
                )
            } else {
                (CoordModel { pressed: pressed2, pending: pending2, ..st }, Seq::<
                    Injection,
                >::empty())
            }
        } else if ev.value == 0 && st.pressed.contains(ev.code) {
            // A chord key released before the chord completed: the chord for
            // that key is abandoned; its buffered press and this release are
            // flushed to the active source when propagation is on.
            let pressed2 = st.pressed.remove(ev.code);
            let downs = spec_flush(st.pending, ev.code).0;
            let pending2 = spec_flush(st.pending, ev.code).1;
            let outs = if st.propagate {
                spec_route(downs.push(ev), source)
            } else {
                Seq::<Injection>::empty()
            };
            (CoordModel { pressed: pressed2, pending: pending2, ..st }, outs)
        } else if ev.value == 0 {
            // Release of a chord key that is not tracked (for instance one
            // held through a switch): forwarded when propagation is on, so
            // a propagated press is never left unreleased.
            let outs = if st.propagate {
                spec_route(Seq::<CanonicalEvent>::empty().push(ev), source)
            } else {
                Seq::<Injection>::empty()
            };
            (st, outs)
        } else {
            // Chord-key repeat: never forwarded.
            (st, Seq::<Injection>::empty())
        }
    } else {
        // Any other event from the active source passes straight through.
        (st, spec_route(Seq::<CanonicalEvent>::empty().push(ev), source))
    }
}

/// What registering connection `id` does: a duplicate registration is
/// ignored; otherwise the connection is appended to the round-robin order,
/// and becomes active at once when no connection was.
pub open spec fn spec_register(st: CoordModel, id: u64) -> CoordModel {
    if st.connections.contains(id) {
        st
    } else {
        CoordModel {
            connections: st.connections.push(id),
            active: if st.active is None {
                Some(id)
            } else {
                st.active
            },
            ..st
        }
    }
}

/// What unregistering connection `id` does: removing an unknown id is a
/// no-op; removing the active connection clears the active slot (no
/// auto-advance) and aborts any partial chord.
pub open spec fn spec_unregister(st: CoordModel, id: u64) -> CoordModel {
    if !st.connections.contains(id) {
        st
    } else {
        let conns2 = st.connections.remove(spec_pos(st.connections, id));
        if st.active == Some(id) {
            CoordModel {
                connections: conns2,
                active: None,
                pressed: Set::<u16>::empty(),
                pending: Seq::<CanonicalEvent>::empty(),
                ..st
            }
        } else {
            CoordModel { connections: conns2, ..st }
        }
    }
}

/// Sink-side switch coordinator. The owner serializes access; each call is
/// one atomic state transition.
pub struct SwitchCoordinator {
    chord: Vec<u16>,
    pressed: Vec<u16>,
    pending: Vec<CanonicalEvent>,
    connections: Vec<u64>,
    active: Option<u64>,
    propagate: bool,
}

impl SwitchCoordinator {
    /// The mathematical state of the coordinator.
    pub closed spec fn view(&self) -> CoordModel {
        CoordModel {
            chord: self.chord@.to_set(),
            pressed: self.pressed@.to_set(),
            pending: self.pending@,
            connections: self.connections@,
            active: self.active,
            propagate: self.propagate,
        }
    }

    /// Representation invariant: the chord and pressed lists are duplicate
    /// free, pressed keys belong to the chord, and the model is well formed.
    pub closed spec fn inv(&self) -> bool {
        &&& self.chord@.no_duplicates()
        &&& self.pressed@.no_duplicates()
        &&& wf_model(self@)
    }

    /// `inv` guarantees model well-formedness; public face of the closed
    /// invariant for use in lemmas about the model.
    pub proof fn lemma_inv_wf(&self)
        requires
            self.inv(),
        ensures
            wf_model(self@),
    {
    }

    /// A fresh coordinator for the given chord, with no connections and no
    /// active source. Duplicate codes in the configured chord are dropped.
    pub fn new(chord: Vec<u16>, propagate_switch_keys: bool) -> (r: SwitchCoordinator)
        ensures
            r.inv(),
            r@.chord == chord@.to_set(),
            r@.pressed == Set::<u16>::empty(),
            r@.pending == Seq::<CanonicalEvent>::empty(),
            r@.connections == Seq::<u64>::empty(),
            r@.active is None,
            r@.propagate == propagate_switch_keys,
    {
        let mut unique: Vec<u16> = Vec::new();
        let mut i: usize = 0;
        while i < chord.len()
            invariant
                0 <= i <= chord@.len(),
                unique@.no_duplicates(),
                unique@.to_set() == chord@.take(i as int).to_set(),
            decreases chord@.len() - i,
        {
            let code = chord[i];
            proof {
                assert(chord@.take(i + 1) == chord@.take(i as int).push(chord@[i as int]));
                chord@.take(i as int).lemma_push_to_set_commute(code);
            }
            if !contains_code(&unique, code) {
                let ghost prev = unique@;
                unique.push(code);
                proof {
                    prev.lemma_push_to_set_commute(code);
                    assert forall|a: int, b: int|
                        0 <= a < unique@.len() && 0 <= b < unique@.len() && a
                            != b implies unique@[a] != unique@[b] by {
                        if a == prev.len() && unique@[b] == code {
                            assert(prev.contains(code));
                        }
                        if b == prev.len() && unique@[a] == code {
                            assert(prev.contains(code));
                        }
                    }
                    assert(unique@.to_set() =~= chord@.take(i + 1).to_set());
                }
            } else {
                proof {
                    assert(chord@.take(i as int).to_set().contains(code));
                    assert(unique@.to_set() =~= chord@.take(i + 1).to_set());
                }
            }
            i = i + 1;
        }
        let r = SwitchCoordinator {
            chord: unique,
            pressed: Vec::new(),
            pending: Vec::new(),
            connections: Vec::new(),
            active: None,
            propagate: propagate_switch_keys,
        };
        proof {
            assert(chord@.take(chord@.len() as int) == chord@);
            assert(r@.pressed =~= Set::<u16>::empty());
            assert(r@.pending =~= Seq::<CanonicalEvent>::empty());
            assert(r@.connections =~= Seq::<u64>::empty());
        }
        r
    }

    /// Registers an authenticated connection. Idempotent: registering an id
    /// that is already present changes nothing.
    pub fn register_connection(&mut self, id: u64)
        requires
            old(self).inv(),
        ensures
            final(self).inv(),
            final(self)@ == spec_register(old(self)@, id),
    {
        if contains_conn(&self.connections, id) {
            return ;
        }
        self.connections.push(id);
        if self.active.is_none() {
            self.active = Some(id);
        }
        proof {
            let s0 = old(self).connections@;
            let s1 = self.connections@;
            assert(s1 == s0.push(id));
            assert forall|a: int, b: int|
                0 <= a < s1.len() && 0 <= b < s1.len() && a != b implies s1[a] != s1[b] by {
                if a == s0.len() && s1[b] == id {
                    assert(s0.contains(id));
                }
                if b == s0.len() && s1[a] == id {
                    assert(s0.contains(id));
                }
            }
            if self.active is Some {
                let c = self.active.unwrap();
                if old(self).active is None {
                    assert(c == id);
                    assert(s1[s0.len() as int] == id);
                    assert(s1.contains(c));
                } else {
                    assert(old(self)@.connections.contains(c));
                    let j = choose|j: int| 0 <= j < s0.len() && s0[j] == c;
                    assert(s1[j] == c);
                    assert(s1.contains(c));
                }
            }
        }
    }

    /// Removes a connection. Idempotent: removing an unknown id is a no-op.
    /// Removing the active connection clears the active slot and aborts any
    /// partial chord; the coordinator does not auto-advance.
    pub fn unregister_connection(&mut self, id: u64)
        requires
            old(self).inv(),
        ensures
            final(self).inv(),
            final(self)@ == spec_unregister(old(self)@, id),
    {
        let ghost s = self.connections@;
        let mut i: usize = 0;
        while i < self.connections.len()
            invariant
                0 <= i <= self.connections.len(),
                old(self).inv(),
                self.chord == old(self).chord,
                self.pressed == old(self).pressed,
                self.pending == old(self).pending,
                self.connections == old(self).connections,
                self.active == old(self).active,
                self.propagate == old(self).propagate,
                s == self.connections@,
                forall|j: int| 0 <= j < i ==> self.connections@[j] != id,
            decreases self.connections.len() - i,
        {
            if self.connections[i] == id {
                let was_active = match self.active {
                    Some(a) => a == id,
                    None => false,
                };
                self.connections.remove(i);
                if was_active {
                    self.active = None;
                    self.pressed = Vec::new();
                    self.pending = Vec::new();
                }
                proof {
                    let gi = i as int;
                    lemma_pos_first(s, id, gi);
                    s.remove_ensures(gi);
                    lemma_remove_no_duplicates(s, gi);
                    assert(self.connections@ =~= s.remove(gi));
                    assert(self@.pressed =~= if was_active {
                        Set::<u16>::empty()
                    } else {
                        old(self)@.pressed
                    });
                    if self.active is Some {
                        let c = self.active.unwrap();
                        assert(!was_active);
                        assert(old(self).active == Some(c));
                        assert(s.contains(c));
                        let k = choose|k: int| 0 <= k < s.len() && s[k] == c;
                        assert(c != id);
                        if k < gi {
                            assert(s.remove(gi)[k] == s[k]);
                            assert(s.remove(gi).contains(c));
                        } else {
                            assert(k != gi);
                            assert(s.remove(gi)[k - 1] == s[k]);
                            assert(s.remove(gi).contains(c));
                        }
                    }
                }
                return ;
            }
            i = i + 1;
        }
        proof {
            lemma_pos_absent(s, id);
        }
    }

    /// The currently-active connection, if any.
    pub fn active_connection(&self) -> (r: Option<u64>)
        ensures
            r == self@.active,
    {
        self.active
    }

    /// Reacts to one event from connection `source`: updates the chord and
    /// active-slot state and returns the injections to perform, in order,
    /// exactly as `spec_step` describes.
    pub fn handle_event(&mut self, source: u64, event: CanonicalEvent) -> (out: Vec<Injection>)
        requires
            old(self).inv(),
        ensures
            final(self).inv(),
            final(self)@ == spec_step(old(self)@, source, event).0,
            out@ == spec_step(old(self)@, source, event).1,
    {
        let is_active = match self.active {
            Some(a) => a == source,
            None => false,
        };
        if !is_active {
            return Vec::new();
        }
        let is_chord_key = event.kind == EventKind::Key && contains_code(&self.chord, event.code);
        if !is_chord_key {
            let mut out: Vec<Injection> = Vec::new();
            out.push(Injection { connection_id: source, event });
            proof {
                assert(out@ =~= spec_route(Seq::<CanonicalEvent>::empty().push(event), source));
            }
            return out;
        }
        if event.value == 1 && !contains_code(&self.pressed, event.code) {
            self.pressed.push(event.code);
            self.pending.push(event);
            proof {
                self.pressed@.drop_last().lemma_push_to_set_commute(event.code);
                assert(self.pressed@.drop_last() == old(self).pressed@);
                assert(self.pressed@ == old(self).pressed@.push(event.code));
                assert(self@.pressed == old(self)@.pressed.insert(event.code));
            }
            let full = self.pressed.len() == self.chord.len();
            proof {
                lemma_full_iff_equal(self.pressed@, self.chord@);
            }
            if full {
                let na = self.next_active(source);
                self.active = Some(na);
                let out = if self.propagate {
                    route_all(&self.pending, na)
                } else {
                    Vec::new()
                };
                self.pressed = Vec::new();
                self.pending = Vec::new();
                proof {
                    assert(self@.pressed =~= Set::<u16>::empty());
                    assert(self@.pending =~= Seq::<CanonicalEvent>::empty());
                    lemma_pos_bounds(self.connections@, source);
                }
                return out;
            } else {
                return Vec::new();
            }
        }
        if event.value == 0 && contains_code(&self.pressed, event.code) {
            self.remove_pressed(event.code);
            let flushed = self.flush_pending(event.code);
            let mut out: Vec<Injection> = Vec::new();
            if self.propagate {
                let mut j: usize = 0;
                while j < flushed.len()
                    invariant
                        0 <= j <= flushed@.len(),
                        out@ == spec_route(flushed@, source).take(j as int),
                    decreases flushed@.len() - j,
                {
                    out.push(Injection { connection_id: source, event: flushed[j] });
                    proof {
                        assert(out@ =~= spec_route(flushed@, source).take(j + 1));
                    }
                    j = j + 1;
                }
                out.push(Injection { connection_id: source, event });
                proof {
                    assert(out@ =~= spec_route(flushed@.push(event), source));
                }
            }
            return out;
        }
        if event.value == 0 {
            let mut out: Vec<Injection> = Vec::new();
            if self.propagate {
                out.push(Injection { connection_id: source, event });
            }
            proof {
                if self.propagate {
                    assert(out@ =~= spec_route(
                        Seq::<CanonicalEvent>::empty().push(event),
                        source,
                    ));
                } else {
                    assert(out@ =~= Seq::<Injection>::empty());
                }
            }
            return out;
        }
        Vec::new()
    }

    /// The connection following `source` in round-robin order.
    fn next_active(&self, source: u64) -> (r: u64)
        requires
            self.inv(),
            self@.connections.contains(source),
        ensures
            r == spec_next_active(self@.connections, source),
            self@.connections.contains(r),
    {
        let mut i: usize = 0;
        let ghost s = self.connections@;
        proof {
            lemma_pos_bounds(s, source);
        }
        while i < self.connections.len()
            invariant
                0 <= i <= s.len(),
                s == self.connections@,
                s.contains(source),
                spec_pos(s, source) >= 0,
                spec_pos(s, source) < s.len(),
                s[spec_pos(s, source)] == source,
                forall|j: int| 0 <= j < i ==> s[j] != source,
            decreases s.len() - i,
        {
            if self.connections[i] == source {
                proof {
                    lemma_pos_first(s, source, i as int);
                }
                if i + 1 < self.connections.len() {
                    return self.connections[i + 1];
                } else {
                    return self.connections[0];
                }
            }
            i = i + 1;
        }
        proof {
            lemma_pos_absent(s, source);
            assert(false);
        }
        0
    }

    /// Removes `code` from the pressed list, reflecting a set removal.
    fn remove_pressed(&mut self, code: u16)
        requires
            old(self).inv(),
            old(self).pressed@.contains(code),
        ensures
            final(self).inv(),
            final(self)@.pressed == old(self)@.pressed.remove(code),
            final(self).chord == old(self).chord,
            final(self).pending == old(self).pending,
            final(self).connections == old(self).connections,
            final(self).active == old(self).active,
            final(self).propagate == old(self).propagate,
    {
        let ghost s = self.pressed@;
        let mut i: usize = 0;
        while i < self.pressed.len()
            invariant
                0 <= i <= self.pressed.len(),
                old(self).inv(),
                s.contains(code),
                self.chord == old(self).chord,
                self.pressed == old(self).pressed,
                self.pending == old(self).pending,
                self.connections == old(self).connections,
                self.active == old(self).active,
                self.propagate == old(self).propagate,
                s == self.pressed@,
                forall|j: int| 0 <= j < i ==> self.pressed@[j] != code,
            decreases self.pressed.len() - i,
        {
            if self.pressed[i] == code {
                self.pressed.remove(i);
                proof {
                    let gi = i as int;
                    s.remove_ensures(gi);
                    lemma_remove_no_duplicates(s, gi);
                    lemma_remove_unique_to_set(s, gi);
                    assert(self@.pressed =~= old(self)@.pressed.remove(code));
                }
                return ;
            }
            i = i + 1;
        }
        proof {
            assert(s.contains(code));
            let k = choose|k: int| 0 <= k < s.len() && s[k] == code;
            assert(false);
        }
    }

    /// Drops every pending press of `code` from the buffer and returns them
    /// in order: the abandoned presses to flush.
    fn flush_pending(&mut self, code: u16) -> (flushed: Vec<CanonicalEvent>)
        requires
            old(self).inv(),
        ensures
            final(self).inv(),
            flushed@ == spec_flush(old(self)@.pending, code).0,
            final(self)@.pending == spec_flush(old(self)@.pending, code).1,
            final(self).chord == old(self).chord,
            final(self).pressed == old(self).pressed,
            final(self).connections == old(self).connections,
            final(self).active == old(self).active,
            final(self).propagate == old(self).propagate,
    {
        let ghost s = self.pending@;
        let mut flushed: Vec<CanonicalEvent> = Vec::new();
        let mut kept: Vec<CanonicalEvent> = Vec::new();
        let mut i: usize = 0;
        while i < self.pending.len()
            invariant
                0 <= i <= self.pending.len(),
                old(self).inv(),
                self.chord == old(self).chord,
                self.pressed == old(self).pressed,
                self.pending == old(self).pending,
                self.connections == old(self).connections,
                self.active == old(self).active,
                self.propagate == old(self).propagate,
                s == self.pending@,
                flushed@ == s.take(i as int).filter(|e: CanonicalEvent| e.code == code),
                kept@ == s.take(i as int).filter(|e: CanonicalEvent| e.code != code),
                forall|k: int|
                    0 <= k < kept@.len() ==> (#[trigger] kept@[k]).is_key_press()
                        && self@.chord.contains(kept@[k].code),
            decreases self.pending.len() - i,
        {
            let e = self.pending[i];
            proof {
                lemma_filter_take_step(s, i as int, |x: CanonicalEvent| x.code == code);
                lemma_filter_take_step(s, i as int, |x: CanonicalEvent| x.code != code);
            }
            if e.code == code {
                flushed.push(e);
            } else {
                kept.push(e);
            }
            i = i + 1;
        }
        proof {
            assert(s.take(s.len() as int) == s);
        }
        self.pending = kept;
        flushed
    }
}

/// Whether `v` holds `x`.
fn contains_code(v: &Vec<u16>, x: u16) -> (r: bool)
    ensures
        r == v@.contains(x),
{
    let mut i: usize = 0;
    while i < v.len()
        invariant
            0 <= i <= v@.len(),
            forall|j: int| 0 <= j < i ==> v@[j] != x,
        decreases v@.len() - i,
    {
        if v[i] == x {
            return true;
        }
        i = i + 1;
    }
    false
}

/// Whether `v` holds `x`.
fn contains_conn(v: &Vec<u64>, x: u64) -> (r: bool)
    ensures
        r == v@.contains(x),
{
    let mut i: usize = 0;
    while i < v.len()
        invariant
            0 <= i <= v@.len(),
            forall|j: int| 0 <= j < i ==> v@[j] != x,
        decreases v@.len() - i,
    {
        if v[i] == x {
            return true;
        }
        i = i + 1;
    }
    false
}

/// Routes every event of `evs` to `conn`.
fn route_all(evs: &Vec<CanonicalEvent>, conn: u64) -> (out: Vec<Injection>)
    ensures
        out@ == spec_route(evs@, conn),
{
    let mut out: Vec<Injection> = Vec::new();
    let mut i: usize = 0;
    while i < evs.len()
        invariant
            0 <= i <= evs@.len(),
            out@ == spec_route(evs@, conn).take(i as int),
        decreases evs@.len() - i,
    {
        out.push(Injection { connection_id: conn, event: evs[i] });
        proof {
            assert(out@ =~= spec_route(evs@, conn).take(i + 1));
        }
        i = i + 1;
    }
    proof {
        assert(spec_route(evs@, conn).take(evs@.len() as int) == spec_route(evs@, conn));
    }
    out
}

/// When position `i` holds `x` and no earlier one does, `spec_pos` is `i`.
pub proof fn lemma_pos_first(s: Seq<u64>, x: u64, i: int)
    requires
        0 <= i < s.len(),
        s[i] == x,
        forall|j: int| 0 <= j < i ==> s[j] != x,
    ensures
        spec_pos(s, x) == i,
    decreases i,
{
    if i > 0 {
        lemma_pos_first(s.drop_first(), x, i - 1);
    }
}

/// When no position holds `x`, `spec_pos` reports absence.
pub proof fn lemma_pos_absent(s: Seq<u64>, x: u64)
    requires
        forall|j: int| 0 <= j < s.len() ==> s[j] != x,
    ensures
        spec_pos(s, x) == -1,
        !s.contains(x),
    decreases s.len(),
{
    if s.len() > 0 {
        lemma_pos_absent(s.drop_first(), x);
    }
}

/// `spec_pos` returns -1 or a valid index holding `x`; it is a valid index
/// exactly when `s` contains `x`.
pub proof fn lemma_pos_bounds(s: Seq<u64>, x: u64)
    ensures
        spec_pos(s, x) == -1 || (0 <= spec_pos(s, x) < s.len() && s[spec_pos(s, x)] == x),
        s.contains(x) <==> spec_pos(s, x) >= 0,
    decreases s.len(),
{
    if s.len() > 0 && s[0] != x {
        lemma_pos_bounds(s.drop_first(), x);
        if spec_pos(s, x) >= 0 {
            assert(s[spec_pos(s, x)] == s.drop_first()[spec_pos(s, x) - 1]);
        }
        assert forall|j: int| 0 <= j < s.len() && s[j] == x implies spec_pos(s, x) >= 0 by {
            if j > 0 {
                assert(s.drop_first()[j - 1] == x);
                assert(s.drop_first().contains(x));
            }
        }
        if s.contains(x) {
            let j = choose|j: int| 0 <= j < s.len() && s[j] == x;
        }
    }
}

/// Removing a position from a duplicate-free sequence keeps it duplicate
/// free.
pub proof fn lemma_remove_no_duplicates<A>(s: Seq<A>, i: int)
    requires
        0 <= i < s.len(),
        s.no_duplicates(),
    ensures
        s.remove(i).no_duplicates(),
{
    s.remove_ensures(i);
    assert forall|a: int, b: int|
        0 <= a < s.remove(i).len() && 0 <= b < s.remove(i).len() && a != b implies s.remove(i)[a]
        != s.remove(i)[b] by {
        let oa = if a < i {
            a
        } else {
            a + 1
        };
        let ob = if b < i {
            b
        } else {
            b + 1
        };
        assert(s.remove(i)[a] == s[oa]);
        assert(s.remove(i)[b] == s[ob]);
    }
}

/// Removing the only position holding a value from a duplicate-free
/// sequence removes that value from the set of elements.
pub proof fn lemma_remove_unique_to_set(s: Seq<u16>, i: int)
    requires
        0 <= i < s.len(),
        s.no_duplicates(),
    ensures
        s.remove(i).to_set() == s.to_set().remove(s[i]),
{
    s.remove_ensures(i);
    let t = s.remove(i);
    assert forall|x: u16| t.to_set().contains(x) implies s.to_set().remove(s[i]).contains(x) by {
        let j = choose|j: int| 0 <= j < t.len() && t[j] == x;
        let oj = if j < i {
            j
        } else {
            j + 1
        };
        assert(s[oj] == x);
        assert(s.contains(x));
    }
    assert forall|x: u16| s.to_set().remove(s[i]).contains(x) implies t.to_set().contains(x) by {
        let j = choose|j: int| 0 <= j < s.len() && s[j] == x;
        if j < i {
            assert(t[j] == x);
        } else {
            assert(t[j - 1] == x);
        }
    }
    assert(t.to_set() =~= s.to_set().remove(s[i]));
}

/// One step of filtering a growing prefix: filtering `take(i + 1)` extends
/// filtering `take(i)` by the element at `i` exactly when it matches.
pub proof fn lemma_filter_take_step<A>(s: Seq<A>, i: int, pred: spec_fn(A) -> bool)
    requires
        0 <= i < s.len(),
    ensures
        s.take(i + 1).filter(pred) == if pred(s[i]) {
            s.take(i as int).filter(pred).push(s[i])
        } else {
            s.take(i as int).filter(pred)
        },
{
    reveal(Seq::filter);
    assert(s.take(i + 1).drop_last() == s.take(i as int));
    assert(s.take(i + 1).last() == s[i]);
    if pred(s[i]) {
        assert(s.take(i + 1).filter(pred) =~= s.take(i as int).filter(pred).push(s[i]));
    }
}

/// The state a coordinator reaches after reacting to a whole stream of
/// sourced events, in order.
pub open spec fn spec_run(st: CoordModel, evs: Seq<(u64, CanonicalEvent)>) -> CoordModel
    decreases evs.len(),
{
    if evs.len() == 0 {
        st
    } else {
        spec_run(spec_step(st, evs[0].0, evs[0].1).0, evs.drop_first())
    }
}

/// Every injection a coordinator emits while reacting to a whole stream of
/// sourced events, in order.
pub open spec fn spec_run_out(st: CoordModel, evs: Seq<(u64, CanonicalEvent)>) -> Seq<Injection>
    decreases evs.len(),
{
    if evs.len() == 0 {
        Seq::<Injection>::empty()
    } else {
        spec_step(st, evs[0].0, evs[0].1).1 + spec_run_out(
            spec_step(st, evs[0].0, evs[0].1).0,
            evs.drop_first(),
        )
    }
}

/// Single active source. An event from a connection that is not the active
/// one is discarded outright: nothing is injected and nothing is buffered.
/// Whatever a step does inject is routed to the one connection that is
/// active when the step ends, so injections never originate from two
/// connections at the same instant.
pub proof fn lemma_single_active_source(st: CoordModel, source: u64, ev: CanonicalEvent)
    ensures
        st.active != Some(source) ==> spec_step(st, source, ev).0 == st && spec_step(
            st,
            source,
            ev,
        ).1 == Seq::<Injection>::empty(),
        spec_step(st, source, ev).1.len() > 0 ==> st.active == Some(source),
        forall|i: int|
            0 <= i < spec_step(st, source, ev).1.len() ==> Some(
                (#[trigger] spec_step(st, source, ev).1[i]).connection_id,
            ) == spec_step(st, source, ev).0.active,
{
}

/// Immediately after a switch that moved the focus away from `source`,
/// events from `source` are no longer injected.
pub proof fn lemma_switch_deactivates(
    st: CoordModel,
    source: u64,
    ev: CanonicalEvent,
    ev2: CanonicalEvent,
)
    ensures
        spec_step(st, source, ev).0.active != Some(source) ==> spec_step(
            spec_step(st, source, ev).0,
            source,
            ev2,
        ).1 == Seq::<Injection>::empty(),
{
}

/// A step never changes the configured chord, the propagation flag or the
/// set of registered connections.
pub proof fn lemma_step_frame(st: CoordModel, source: u64, ev: CanonicalEvent)
    ensures
        spec_step(st, source, ev).0.chord == st.chord,
        spec_step(st, source, ev).0.propagate == st.propagate,
        spec_step(st, source, ev).0.connections == st.connections,
{
}

/// The chord trigger is an edge: the active slot can move only on a
/// chord-key press edge that completes the chord, arriving from the active
/// source. In particular no key repeat and no release ever switches.
pub proof fn lemma_trigger_is_edge(st: CoordModel, source: u64, ev: CanonicalEvent)
    ensures
        spec_step(st, source, ev).0.active != st.active ==> ev.is_key_press()
            && st.chord.contains(ev.code) && !st.pressed.contains(ev.code) && st.pressed.insert(
            ev.code,
        ) == st.chord && st.active == Some(source),
{
}

/// Edge, not level: while the chord is merely held down — the stream
/// contains no chord-key press edge, only repeats, releases and other
/// events — the active slot never moves. Holding the full chord therefore
/// switches exactly once, at the completing press, and not once per event.
pub proof fn lemma_edge_not_level(st: CoordModel, evs: Seq<(u64, CanonicalEvent)>)
    requires
        forall|i: int|
            0 <= i < evs.len() ==> !((#[trigger] evs[i]).1.is_key_press() && st.chord.contains(
                evs[i].1.code,
            )),
    ensures
        spec_run(st, evs).active == st.active,
    decreases evs.len(),
{
    if evs.len() > 0 {
        let st1 = spec_step(st, evs[0].0, evs[0].1).0;
        lemma_trigger_is_edge(st, evs[0].0, evs[0].1);
        lemma_step_frame(st, evs[0].0, evs[0].1);
        assert forall|i: int|
            0 <= i < evs.drop_first().len() implies !((#[trigger] evs.drop_first()[
        i]).1.is_key_press() && st1.chord.contains(evs.drop_first()[i].1.code)) by {
            assert(evs.drop_first()[i] == evs[i + 1]);
        }
        lemma_edge_not_level(st1, evs.drop_first());
    }
}

/// With `propagate_switch_keys` off, a single step never injects a
/// chord-key event.
pub proof fn lemma_propagate_off_step(st: CoordModel, source: u64, ev: CanonicalEvent)
    requires
        !st.propagate,
    ensures
        forall|i: int|
            0 <= i < spec_step(st, source, ev).1.len() ==> !((#[trigger] spec_step(
                st,
                source,
                ev,
            ).1[i]).event.kind == EventKind::Key && st.chord.contains(
                spec_step(st, source, ev).1[i].event.code,
            )),
{
}

/// With `propagate_switch_keys` off, no chord-key event ever reaches the
/// injection path, over any stream of events from any connections.
pub proof fn lemma_propagate_off_run(st: CoordModel, evs: Seq<(u64, CanonicalEvent)>)
    requires
        !st.propagate,
    ensures
        forall|i: int|
            0 <= i < spec_run_out(st, evs).len() ==> !((#[trigger] spec_run_out(st, evs)[
            i]).event.kind == EventKind::Key && st.chord.contains(spec_run_out(st, evs)[i].event.code)),
    decreases evs.len(),
{
    if evs.len() > 0 {
        let st1 = spec_step(st, evs[0].0, evs[0].1).0;
        lemma_step_frame(st, evs[0].0, evs[0].1);
        lemma_propagate_off_step(st, evs[0].0, evs[0].1);
        lemma_propagate_off_run(st1, evs.drop_first());
        let head = spec_step(st, evs[0].0, evs[0].1).1;
        let tail = spec_run_out(st1, evs.drop_first());
        assert forall|i: int|
            0 <= i < spec_run_out(st, evs).len() implies !((#[trigger] spec_run_out(st, evs)[
        i]).event.kind == EventKind::Key && st.chord.contains(
            spec_run_out(st, evs)[i].event.code,
        )) by {
            if i < head.len() {
                assert(spec_run_out(st, evs)[i] == head[i]);
            } else {
                assert(spec_run_out(st, evs)[i] == tail[i - head.len()]);
            }
        }
    }
}

/// Registering a connection is idempotent: registering an id that is
/// already present changes nothing, so a duplicate arrival notice is safe.
pub proof fn lemma_register_idempotent(st: CoordModel, id: u64)
    ensures
        spec_register(spec_register(st, id), id) == spec_register(st, id),
{
    if !st.connections.contains(id) {
        assert(spec_register(st, id).connections[st.connections.len() as int] == id);
        assert(spec_register(st, id).connections.contains(id));
    }
}

/// Tearing a connection down is idempotent: a second removal of the same
/// id, or a removal of an id that was never registered, changes nothing.
pub proof fn lemma_unregister_conn_idempotent(st: CoordModel, id: u64)
    requires
        st.connections.no_duplicates(),
    ensures
        spec_unregister(spec_unregister(st, id), id) == spec_unregister(st, id),
{
    if st.connections.contains(id) {
        let s = st.connections;
        lemma_pos_bounds(s, id);
        let gi = spec_pos(s, id);
        s.remove_ensures(gi);
        assert forall|j: int| 0 <= j < s.remove(gi).len() implies s.remove(gi)[j] != id by {
            if j < gi {
                assert(s.remove(gi)[j] == s[j]);
            } else {
                assert(s.remove(gi)[j] == s[j + 1]);
            }
        }
        lemma_pos_absent(s.remove(gi), id);
    }
}

/// Under the representation invariant, the pressed list covers the chord
/// exactly when the two are the same length.
proof fn lemma_full_iff_equal(pressed: Seq<u16>, chord: Seq<u16>)
    requires
        pressed.no_duplicates(),
        chord.no_duplicates(),
        pressed.to_set().subset_of(chord.to_set()),
    ensures
        pressed.len() == chord.len() <==> pressed.to_set() == chord.to_set(),
{
    pressed.unique_seq_to_set();
    chord.unique_seq_to_set();
    if pressed.len() == chord.len() {
        lemma_subset_equality(pressed.to_set(), chord.to_set());
        assert(pressed.to_set() =~= chord.to_set());
    }
}

} // verus!
