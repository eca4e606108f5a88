//! Wire protocol codec: frames canonical events and control messages over a
//! single ordered, reliable, already-authenticated byte stream.
//!
//! Each message is length-prefixed and type-tagged: a frame is a 4-byte
//! little-endian body length followed by the body, whose first byte names
//! the message type. A message boundary can therefore always be located
//! without look-ahead past the stated length. The encoding is canonical:
//! decoding accepts exactly the frames the encoder emits, so a truncated or
//! corrupt frame, or an unknown type tag, is detected and reported.

use vstd::prelude::*;
use vstd::bytes::spec_u16_to_le_bytes;
use vstd::bytes::spec_u16_from_le_bytes;
use vstd::bytes::spec_u32_to_le_bytes;
use vstd::bytes::spec_u32_from_le_bytes;
use vstd::bytes::spec_u64_to_le_bytes;
use vstd::bytes::spec_u64_from_le_bytes;
use vstd::bytes::lemma_auto_spec_u16_to_from_le_bytes;
use vstd::bytes::lemma_auto_spec_u32_to_from_le_bytes;
use vstd::bytes::lemma_auto_spec_u64_to_from_le_bytes;
use vstd::bytes::u16_to_le_bytes;
use vstd::bytes::u16_from_le_bytes;
use vstd::bytes::u32_to_le_bytes;
use vstd::bytes::u32_from_le_bytes;
use vstd::bytes::u64_to_le_bytes;
use vstd::bytes::u64_from_le_bytes;
use vstd::slice::slice_subrange;
use vstd::slice::slice_to_vec;

use crate::event::CanonicalEvent;
use crate::event::Capability;
use crate::event::DescriptorModel;
use crate::event::DeviceDescriptor;
use crate::event::EventKind;

verus! {

/// Longest password proof, device name and capability count the protocol
/// carries; keeps every frame length well below the 32-bit length prefix.
pub const MAX_FIELD_LEN: usize = 65535;

/// One protocol message.
#[derive(Clone, Debug, PartialEq, Eq)]
pub enum Message {
    /// First message from a source; the sink validates the proof and accepts
    /// or terminates the connection.
    Hello { password_proof: Vec<u8> },
    /// A device appeared on the source and its events will follow.
    DeviceAdded { descriptor: DeviceDescriptor },
    /// The device was removed; its id may later be reused by the source.
    DeviceRemoved { device_id: u64 },
    /// One captured input event.
    Event { event: CanonicalEvent },
    /// Periodic liveness marker.
    Heartbeat,
}

/// Mathematical model of a protocol message.
#[verifier::ext_equal]
pub enum MessageModel {
    Hello { password_proof: Seq<u8> },
    DeviceAdded { descriptor: DescriptorModel },
    DeviceRemoved { device_id: u64 },
    Event { event: CanonicalEvent },
    Heartbeat,
}

impl View for Message {
    type V = MessageModel;

    open spec fn view(&self) -> MessageModel {
        match self {
            Message::Hello { password_proof } => MessageModel::Hello {
                password_proof: password_proof@,
            },
            Message::DeviceAdded { descriptor } => MessageModel::DeviceAdded {
                descriptor: descriptor@,
            },
            Message::DeviceRemoved { device_id } => MessageModel::DeviceRemoved {
                device_id: *device_id,
            },
            Message::Event { event } => MessageModel::Event { event: *event },
            Message::Heartbeat => MessageModel::Heartbeat,
        }
    }
}

/// Why a buffer failed to decode.
#[derive(Clone, Copy, Debug, PartialEq, Eq, Structural)]
pub enum DecodeError {
    /// The buffer does not yet hold one whole frame; read more bytes and
    /// try again.
    Incomplete,
    /// The frame is corrupt or its type is unknown; fatal to the
    /// connection.
    Malformed,
}

/// What a byte prefix decodes to: one whole frame and its length, a request
/// for more bytes, or corruption.
#[verifier::ext_equal]
pub enum SpecDecoded {
    Frame(MessageModel, int),
    NeedMore,
    Corrupt,
}

/// Wire tag of an event kind.
pub open spec fn spec_kind_tag(k: EventKind) -> u8 {
    match k {
        EventKind::Key => 0,
        EventKind::RelativeAxis => 1,
        EventKind::AbsoluteAxis => 2,
        EventKind::Sync => 3,
    }
}

/// Event kind named by a wire tag, if any.
pub open spec fn spec_kind_of(b: u8) -> Option<EventKind> {
    if b == 0 {
        Some(EventKind::Key)
    } else if b == 1 {
        Some(EventKind::RelativeAxis)
    } else if b == 2 {
        Some(EventKind::AbsoluteAxis)
    } else if b == 3 {
        Some(EventKind::Sync)
    } else {
        None
    }
}

/// Payload of an event message: 23 bytes, all fields little endian, the
/// signed value in two's complement.
pub open spec fn spec_encode_event(e: CanonicalEvent) -> Seq<u8> {
    spec_u64_to_le_bytes(e.device_id) + seq![spec_kind_tag(e.kind)] + spec_u16_to_le_bytes(e.code)
        + spec_u32_to_le_bytes(e.value as u32) + spec_u64_to_le_bytes(e.timestamp)
}

/// Wire form of one capability: kind tag then code.
pub open spec fn spec_encode_cap(c: Capability) -> Seq<u8> {
    seq![spec_kind_tag(c.kind)] + spec_u16_to_le_bytes(c.code)
}

/// Wire form of a capability list, in order.
pub open spec fn spec_encode_caps(caps: Seq<Capability>) -> Seq<u8>
    decreases caps.len(),
{
    if caps.len() == 0 {
        Seq::<u8>::empty()
    } else {
        spec_encode_cap(caps[0]) + spec_encode_caps(caps.drop_first())
    }
}

/// Payload of a device-added message: identity, then the length-prefixed
/// name, then the count-prefixed capability list.
pub open spec fn spec_encode_descriptor(d: DescriptorModel) -> Seq<u8> {
    spec_u64_to_le_bytes(d.device_id) + spec_u16_to_le_bytes(d.vendor) + spec_u16_to_le_bytes(
        d.product,
    ) + spec_u32_to_le_bytes(d.name.len() as u32) + d.name + spec_u32_to_le_bytes(
        d.capabilities.len() as u32,
    ) + spec_encode_caps(d.capabilities)
}

/// Body of a frame: the type tag, then the message payload.
pub open spec fn spec_body(m: MessageModel) -> Seq<u8> {
    match m {
        MessageModel::Hello { password_proof } => seq![0u8] + password_proof,
        MessageModel::DeviceAdded { descriptor } => seq![1u8] + spec_encode_descriptor(descriptor),
        MessageModel::DeviceRemoved { device_id } => seq![2u8] + spec_u64_to_le_bytes(device_id),
        MessageModel::Event { event } => seq![3u8] + spec_encode_event(event),
        MessageModel::Heartbeat => seq![4u8],
    }
}

/// One whole frame: the 4-byte little-endian body length, then the body.
pub open spec fn spec_frame(m: MessageModel) -> Seq<u8> {
    spec_u32_to_le_bytes(spec_body(m).len() as u32) + spec_body(m)
}

/// The field-length limits every encodable message meets.
pub open spec fn wf_message(m: MessageModel) -> bool {
    match m {
        MessageModel::Hello { password_proof } => password_proof.len() <= MAX_FIELD_LEN,
        MessageModel::DeviceAdded { descriptor } => descriptor.name.len() <= MAX_FIELD_LEN
            && descriptor.capabilities.len() <= MAX_FIELD_LEN,
        _ => true,
    }
}

/// The capability list the given bytes spell out, when they hold exactly
/// `n` wire-form capabilities.
pub open spec fn spec_decode_caps(p: Seq<u8>, n: int) -> Option<Seq<Capability>>
    decreases n,
{
    if n <= 0 {
        if p.len() == 0 {
            Some(Seq::<Capability>::empty())
        } else {
            None
        }
    } else if p.len() < 3 {
        None
    } else {
        match spec_kind_of(p[0]) {
            None => None,
            Some(k) => match spec_decode_caps(p.subrange(3, p.len() as int), n - 1) {
                None => None,
                Some(rest) => Some(
                    seq![Capability { kind: k, code: spec_u16_from_le_bytes(p.subrange(1, 3)) }]
                        + rest,
                ),
            },
        }
    }
}

/// The descriptor the given payload spells out, if it is exactly one
/// well-formed wire descriptor.
pub open spec fn spec_decode_descriptor(p: Seq<u8>) -> Option<DescriptorModel> {
    if p.len() < 16 {
        None
    } else {
        let device_id = spec_u64_from_le_bytes(p.subrange(0, 8));
        let vendor = spec_u16_from_le_bytes(p.subrange(8, 10));
        let product = spec_u16_from_le_bytes(p.subrange(10, 12));
        let nlen = spec_u32_from_le_bytes(p.subrange(12, 16)) as int;
        if p.len() < 20 + nlen {
            None
        } else {
            let name = p.subrange(16, 16 + nlen);
            let ccount = spec_u32_from_le_bytes(p.subrange(16 + nlen, 20 + nlen)) as int;
            if p.len() != 20 + nlen + 3 * ccount {
                None
            } else {
                match spec_decode_caps(p.subrange(20 + nlen, p.len() as int), ccount) {
                    None => None,
                    Some(capabilities) => Some(
                        DescriptorModel { device_id, name, vendor, product, capabilities },
                    ),
                }
            }
        }
    }
}

/// The event the given 23-byte payload spells out, if its kind tag is
/// known.
pub open spec fn spec_decode_event(p: Seq<u8>) -> Option<CanonicalEvent> {
    match spec_kind_of(p[8]) {
        None => None,
        Some(kind) => Some(
            CanonicalEvent {
                device_id: spec_u64_from_le_bytes(p.subrange(0, 8)),
                kind,
                code: spec_u16_from_le_bytes(p.subrange(9, 11)),
                value: spec_u32_from_le_bytes(p.subrange(11, 15)) as i32,
                timestamp: spec_u64_from_le_bytes(p.subrange(15, 23)),
            },
        ),
    }
}

/// The message a frame body spells out, if it is exactly one well-formed
/// body.
pub open spec fn spec_decode_body(b: Seq<u8>) -> Option<MessageModel> {
    if b.len() < 1 {
        None
    } else if b[0] == 0 {
        Some(MessageModel::Hello { password_proof: b.drop_first() })
    } else if b[0] == 1 {
        match spec_decode_descriptor(b.drop_first()) {
            None => None,
            Some(descriptor) => Some(MessageModel::DeviceAdded { descriptor }),
        }
    } else if b[0] == 2 {
        if b.len() == 9 {
            Some(MessageModel::DeviceRemoved { device_id: spec_u64_from_le_bytes(b.subrange(1, 9)) })
        } else {
            None
        }
    } else if b[0] == 3 {
        if b.len() == 24 {
            match spec_decode_event(b.subrange(1, 24)) {
                None => None,
                Some(event) => Some(MessageModel::Event { event }),
            }
        } else {
            None
        }
    } else if b[0] == 4 {
        if b.len() == 1 {
            Some(MessageModel::Heartbeat)
        } else {
            None
        }
    } else {
        None
    }
}

/// What a byte prefix decodes to. The decoder never looks past the stated
/// frame length, so any bytes after the first frame are ignored here.
pub open spec fn spec_decode(s: Seq<u8>) -> SpecDecoded {
    if s.len() < 4 {
        SpecDecoded::NeedMore
    } else {
        let blen = spec_u32_from_le_bytes(s.subrange(0, 4)) as int;
        if s.len() < 4 + blen {
            SpecDecoded::NeedMore
        } else {
            match spec_decode_body(s.subrange(4, 4 + blen)) {
                None => SpecDecoded::Corrupt,
                Some(m) => SpecDecoded::Frame(m, 4 + blen),
            }
        }
    }
}

/// Wire tag of an event kind.
pub fn kind_tag(k: EventKind) -> (r: u8)
    ensures
        r == spec_kind_tag(k),
{
    match k {
        EventKind::Key => 0,
        EventKind::RelativeAxis => 1,
        EventKind::AbsoluteAxis => 2,
        EventKind::Sync => 3,
    }
}

/// Event kind named by a wire tag, if any.
pub fn kind_of(b: u8) -> (r: Option<EventKind>)
    ensures
        r == spec_kind_of(b),
{
    if b == 0 {
        Some(EventKind::Key)
    } else if b == 1 {
        Some(EventKind::RelativeAxis)
    } else if b == 2 {
        Some(EventKind::AbsoluteAxis)
    } else if b == 3 {
        Some(EventKind::Sync)
    } else {
        None
    }
}

/// Appends the little-endian bytes of `x`.
fn push_u16(out: &mut Vec<u8>, x: u16)
    ensures
        final(out)@ == old(out)@ + spec_u16_to_le_bytes(x),
{
    let mut bytes = u16_to_le_bytes(x);
    out.append(&mut bytes);
}

/// Appends the little-endian bytes of `x`.
fn push_u32(out: &mut Vec<u8>, x: u32)
    ensures
        final(out)@ == old(out)@ + spec_u32_to_le_bytes(x),
{
    let mut bytes = u32_to_le_bytes(x);
    out.append(&mut bytes);
}

/// Appends the little-endian bytes of `x`.
fn push_u64(out: &mut Vec<u8>, x: u64)
    ensures
        final(out)@ == old(out)@ + spec_u64_to_le_bytes(x),
{
    let mut bytes = u64_to_le_bytes(x);
    out.append(&mut bytes);
}

/// Encodes one message as one frame. The caller keeps fields within
/// `MAX_FIELD_LEN`, which `wf_message` states; `encode_checked` performs
/// that check itself.
pub fn encode(m: &Message) -> (r: Vec<u8>)
    requires
        wf_message(m@),
    ensures
        r@ == spec_frame(m@),
{
    let mut body: Vec<u8> = Vec::new();
    match m {
        Message::Hello { password_proof } => {
            body.push(0);
            let mut p = password_proof.clone();
            proof {
                assert(p@ == password_proof@);
            }
            body.append(&mut p);
            proof {
                assert(body@ =~= seq![0u8] + password_proof@);
            }
        },
        Message::DeviceAdded { descriptor } => {
            body.push(1);
            push_u64(&mut body, descriptor.device_id);
            push_u16(&mut body, descriptor.vendor);
            push_u16(&mut body, descriptor.product);
            push_u32(&mut body, descriptor.name.len() as u32);
            let mut name = descriptor.name.clone();
            proof {
                assert(name@ == descriptor.name@);
            }
            body.append(&mut name);
            push_u32(&mut body, descriptor.capabilities.len() as u32);
            let ghost caps = descriptor.capabilities@;
            let mut i: usize = 0;
            let ghost mid = body@;
            while i < descriptor.capabilities.len()
                invariant
                    0 <= i <= caps.len(),
                    caps == descriptor.capabilities@,
                    body@ == mid + spec_encode_caps(caps.take(i as int)),
                decreases caps.len() - i,
            {
                let c = descriptor.capabilities[i];
                body.push(kind_tag(c.kind));
                push_u16(&mut body, c.code);
                proof {
                    lemma_encode_caps_take_step(caps, i as int);
                    assert(body@ =~= mid + spec_encode_caps(caps.take(i + 1)));
                }
                i = i + 1;
            }
            proof {
                assert(caps.take(caps.len() as int) == caps);
                assert(body@ =~= seq![1u8] + spec_encode_descriptor(descriptor@));
            }
        },
        Message::DeviceRemoved { device_id } => {
            body.push(2);
            push_u64(&mut body, *device_id);
            proof {
                assert(body@ =~= seq![2u8] + spec_u64_to_le_bytes(*device_id));
            }
        },
        Message::Event { event } => {
            body.push(3);
            push_u64(&mut body, event.device_id);
            body.push(kind_tag(event.kind));
            push_u16(&mut body, event.code);
            push_u32(&mut body, event.value as u32);
            push_u64(&mut body, event.timestamp);
            proof {
                assert(body@ =~= seq![3u8] + spec_encode_event(*event));
            }
        },
        Message::Heartbeat => {
            body.push(4);
            proof {
                assert(body@ =~= seq![4u8]);
            }
        },
    }
    proof {
        lemma_body_len_bounded(m@);
    }
    let mut frame: Vec<u8> = Vec::new();
    push_u32(&mut frame, body.len() as u32);
    frame.append(&mut body);
    proof {
        assert(frame@ =~= spec_frame(m@));
    }
    frame
}

/// Encodes one message as one frame, first checking the field-length
/// limits; `None` exactly when the message is too large for the wire.
pub fn encode_checked(m: &Message) -> (r: Option<Vec<u8>>)
    ensures
        match r {
            Some(bytes) => wf_message(m@) && bytes@ == spec_frame(m@),
            None => !wf_message(m@),
        },
{
    let ok = match m {
        Message::Hello { password_proof } => password_proof.len() <= MAX_FIELD_LEN,
        Message::DeviceAdded { descriptor } => descriptor.name.len() <= MAX_FIELD_LEN
            && descriptor.capabilities.len() <= MAX_FIELD_LEN,
        _ => true,
    };
    if ok {
        Some(encode(m))
    } else {
        None
    }
}

/// A body is never longer than the 32-bit length prefix can state.
pub proof fn lemma_body_len_bounded(m: MessageModel)
    requires
        wf_message(m),
    ensures
        spec_body(m).len() <= 21 + MAX_FIELD_LEN + 3 * MAX_FIELD_LEN,
        spec_body(m).len() <= u32::MAX,
{
    lemma_auto_spec_u16_to_from_le_bytes();
    lemma_auto_spec_u32_to_from_le_bytes();
    lemma_auto_spec_u64_to_from_le_bytes();
    match m {
        MessageModel::DeviceAdded { descriptor } => {
            lemma_encode_caps_len(descriptor.capabilities);
        },
        _ => {},
    }
}

/// The wire form of a capability list takes three bytes per capability.
pub proof fn lemma_encode_caps_len(caps: Seq<Capability>)
    ensures
        spec_encode_caps(caps).len() == 3 * caps.len(),
    decreases caps.len(),
{
    lemma_auto_spec_u16_to_from_le_bytes();
    if caps.len() > 0 {
        lemma_encode_caps_len(caps.drop_first());
    }
}

/// Decodes the first frame of `buf`. `Ok` returns the message and how many
/// bytes of `buf` it occupied; `Incomplete` reports that `buf` does not yet
/// hold one whole frame; `Malformed` reports a corrupt frame or an unknown
/// type, fatal to the connection. Exactly one of the three holds for every
/// buffer, as `spec_decode` states.
pub fn decode(buf: &[u8]) -> (r: Result<(Message, usize), DecodeError>)
    ensures
        match r {
            Ok((m, n)) => spec_decode(buf@) == SpecDecoded::Frame(m@, n as int),
            Err(DecodeError::Incomplete) => spec_decode(buf@) is NeedMore,
            Err(DecodeError::Malformed) => spec_decode(buf@) is Corrupt,
        },
{
    if buf.len() < 4 {
        return Err(DecodeError::Incomplete);
    }
    let blen = u32_from_le_bytes(slice_subrange(buf, 0, 4)) as usize;
    if buf.len() - 4 < blen {
        return Err(DecodeError::Incomplete);
    }
    let body = slice_subrange(buf, 4, 4 + blen);
    match decode_body(body) {
        Ok(m) => Ok((m, 4 + blen)),
        Err(_) => Err(DecodeError::Malformed),
    }
}

/// Decodes one frame body.
fn decode_body(b: &[u8]) -> (r: Result<Message, DecodeError>)
    ensures
        match r {
            Ok(m) => spec_decode_body(b@) == Some(m@),
            Err(_) => spec_decode_body(b@) is None,
        },
{
    if b.len() < 1 {
        return Err(DecodeError::Malformed);
    }
    let tag = b[0];
    if tag == 0 {
        let password_proof = slice_to_vec(slice_subrange(b, 1, b.len()));
        proof {
            assert(b@.subrange(1, b@.len() as int) =~= b@.drop_first());
        }
        Ok(Message::Hello { password_proof })
    } else if tag == 1 {
        proof {
            assert(b@.subrange(1, b@.len() as int) =~= b@.drop_first());
        }
        match decode_descriptor(slice_subrange(b, 1, b.len())) {
            Ok(descriptor) => Ok(Message::DeviceAdded { descriptor }),
            Err(e) => Err(e),
        }
    } else if tag == 2 {
        if b.len() != 9 {
            return Err(DecodeError::Malformed);
        }
        let device_id = u64_from_le_bytes(slice_subrange(b, 1, 9));
        Ok(Message::DeviceRemoved { device_id })
    } else if tag == 3 {
        if b.len() != 24 {
            return Err(DecodeError::Malformed);
        }
        match decode_event(slice_subrange(b, 1, 24)) {
            Ok(event) => Ok(Message::Event { event }),
            Err(e) => Err(e),
        }
    } else if tag == 4 {
        if b.len() != 1 {
            return Err(DecodeError::Malformed);
        }
        Ok(Message::Heartbeat)
    } else {
        Err(DecodeError::Malformed)
    }
}

/// Decodes one 23-byte event payload.
fn decode_event(p: &[u8]) -> (r: Result<CanonicalEvent, DecodeError>)
    requires
        p@.len() == 23,
    ensures
        match r {
            Ok(e) => spec_decode_event(p@) == Some(e),
            Err(_) => spec_decode_event(p@) is None,
        },
{
    let kind = match kind_of(p[8]) {
        Some(k) => k,
        None => {
            return Err(DecodeError::Malformed);
        },
    };
    let device_id = u64_from_le_bytes(slice_subrange(p, 0, 8));
    let code = u16_from_le_bytes(slice_subrange(p, 9, 11));
    let value = u32_from_le_bytes(slice_subrange(p, 11, 15)) as i32;
    let timestamp = u64_from_le_bytes(slice_subrange(p, 15, 23));
    Ok(CanonicalEvent { device_id, kind, code, value, timestamp })
}

/// Decodes one device-descriptor payload.
fn decode_descriptor(p: &[u8]) -> (r: Result<DeviceDescriptor, DecodeError>)
    ensures
        match r {
            Ok(d) => spec_decode_descriptor(p@) == Some(d@),
            Err(_) => spec_decode_descriptor(p@) is None,
        },
{
    if p.len() < 16 {
        return Err(DecodeError::Malformed);
    }
    let device_id = u64_from_le_bytes(slice_subrange(p, 0, 8));
    let vendor = u16_from_le_bytes(slice_subrange(p, 8, 10));
    let product = u16_from_le_bytes(slice_subrange(p, 10, 12));
    let nlen = u32_from_le_bytes(slice_subrange(p, 12, 16)) as usize;
    if p.len() < 20 || p.len() - 20 < nlen {
        return Err(DecodeError::Malformed);
    }
    let name = slice_to_vec(slice_subrange(p, 16, 16 + nlen));
    let ccount = u32_from_le_bytes(slice_subrange(p, 16 + nlen, 20 + nlen)) as usize;
    let rem = p.len() - 20 - nlen;
    proof {
        vstd::arithmetic::div_mod::lemma_fundamental_div_mod(rem as int, 3);
    }
    if rem % 3 != 0 || rem / 3 != ccount {
        return Err(DecodeError::Malformed);
    }
    let capabilities = match decode_caps(slice_subrange(p, 20 + nlen, p.len()), ccount) {
        Ok(caps) => caps,
        Err(e) => {
            return Err(e);
        },
    };
    let d = DeviceDescriptor { device_id, name, vendor, product, capabilities };
    proof {
        assert(spec_decode_descriptor(p@) =~= Some(d@));
    }
    Ok(d)
}

/// Decodes exactly `n` wire-form capabilities.
fn decode_caps(p: &[u8], n: usize) -> (r: Result<Vec<Capability>, DecodeError>)
    ensures
        match r {
            Ok(caps) => spec_decode_caps(p@, n as int) == Some(caps@),
            Err(_) => spec_decode_caps(p@, n as int) is None,
        },
    decreases n,
{
    if n == 0 {
        if p.len() == 0 {
            let caps: Vec<Capability> = Vec::new();
            proof {
                assert(caps@ =~= Seq::<Capability>::empty());
            }
            return Ok(caps);
        } else {
            return Err(DecodeError::Malformed);
        }
    }
    if p.len() < 3 {
        return Err(DecodeError::Malformed);
    }
    let kind = match kind_of(p[0]) {
        Some(k) => k,
        None => {
            return Err(DecodeError::Malformed);
        },
    };
    let code = u16_from_le_bytes(slice_subrange(p, 1, 3));
    let mut rest = match decode_caps(slice_subrange(p, 3, p.len()), n - 1) {
        Ok(caps) => caps,
        Err(e) => {
            return Err(e);
        },
    };
    let mut caps: Vec<Capability> = Vec::new();
    caps.push(Capability { kind, code });
    caps.append(&mut rest);
    proof {
        assert(caps@ =~= seq![Capability { kind, code }] + spec_decode_caps(
            p@.subrange(3, p@.len() as int),
            n - 1,
        ).unwrap());
    }
    Ok(caps)
}

/// The tag of every event kind names that kind back.
pub proof fn lemma_kind_round_trip(k: EventKind)
    ensures
        spec_kind_of(spec_kind_tag(k)) == Some(k),
{
}

/// Round trip for one capability list.
pub proof fn lemma_caps_round_trip(caps: Seq<Capability>)
    ensures
        spec_decode_caps(spec_encode_caps(caps), caps.len() as int) == Some(caps),
    decreases caps.len(),
{
    lemma_auto_spec_u16_to_from_le_bytes();
    lemma_encode_caps_len(caps);
    if caps.len() == 0 {
        assert(spec_decode_caps(spec_encode_caps(caps), 0) =~= Some(Seq::<Capability>::empty()));
    } else {
        let enc = spec_encode_caps(caps);
        lemma_encode_caps_len(caps.drop_first());
        assert(enc == spec_encode_cap(caps[0]) + spec_encode_caps(caps.drop_first()));
        assert(enc[0] == spec_kind_tag(caps[0].kind));
        lemma_kind_round_trip(caps[0].kind);
        assert(enc.subrange(1, 3) =~= spec_u16_to_le_bytes(caps[0].code));
        assert(enc.subrange(3, enc.len() as int) =~= spec_encode_caps(caps.drop_first()));
        lemma_caps_round_trip(caps.drop_first());
        assert(seq![
            Capability {
                kind: caps[0].kind,
                code: spec_u16_from_le_bytes(enc.subrange(1, 3)),
            },
        ] + caps.drop_first() =~= caps);
    }
}

/// Round trip for one event payload.
pub proof fn lemma_event_round_trip(e: CanonicalEvent)
    ensures
        spec_decode_event(spec_encode_event(e)) == Some(e),
{
    lemma_auto_spec_u16_to_from_le_bytes();
    lemma_auto_spec_u32_to_from_le_bytes();
    lemma_auto_spec_u64_to_from_le_bytes();
    let p = spec_encode_event(e);
    assert(p.len() == 23);
    assert(p.subrange(0, 8) =~= spec_u64_to_le_bytes(e.device_id));
    assert(p[8] == spec_kind_tag(e.kind));
    lemma_kind_round_trip(e.kind);
    assert(p.subrange(9, 11) =~= spec_u16_to_le_bytes(e.code));
    assert(p.subrange(11, 15) =~= spec_u32_to_le_bytes(e.value as u32));
    assert(p.subrange(15, 23) =~= spec_u64_to_le_bytes(e.timestamp));
    let v = e.value;
    assert(((v as u32) as i32) == v) by (bit_vector);
}

/// Round trip for one descriptor payload.
pub proof fn lemma_descriptor_round_trip(d: DescriptorModel)
    requires
        d.name.len() <= MAX_FIELD_LEN,
        d.capabilities.len() <= MAX_FIELD_LEN,
    ensures
        spec_decode_descriptor(spec_encode_descriptor(d)) == Some(d),
{
    lemma_auto_spec_u16_to_from_le_bytes();
    lemma_auto_spec_u32_to_from_le_bytes();
    lemma_auto_spec_u64_to_from_le_bytes();
    lemma_encode_caps_len(d.capabilities);
    let p = spec_encode_descriptor(d);
    let nlen = d.name.len() as int;
    let ccount = d.capabilities.len() as int;
    assert(p.len() == 20 + nlen + 3 * ccount);
    assert(p.subrange(0, 8) =~= spec_u64_to_le_bytes(d.device_id));
    assert(p.subrange(8, 10) =~= spec_u16_to_le_bytes(d.vendor));
    assert(p.subrange(10, 12) =~= spec_u16_to_le_bytes(d.product));
    assert(p.subrange(12, 16) =~= spec_u32_to_le_bytes(d.name.len() as u32));
    assert(p.subrange(16, 16 + nlen) =~= d.name);
    assert(p.subrange(16 + nlen, 20 + nlen) =~= spec_u32_to_le_bytes(d.capabilities.len() as u32));
    assert(p.subrange(20 + nlen, p.len() as int) =~= spec_encode_caps(d.capabilities));
    lemma_caps_round_trip(d.capabilities);
    assert(spec_decode_descriptor(p) =~= Some(d));
}

/// Round trip for one frame body.
pub proof fn lemma_body_round_trip(m: MessageModel)
    requires
        wf_message(m),
    ensures
        spec_decode_body(spec_body(m)) == Some(m),
{
    lemma_auto_spec_u64_to_from_le_bytes();
    let b = spec_body(m);
    match m {
        MessageModel::Hello { password_proof } => {
            assert(b[0] == 0);
            assert(b.drop_first() =~= password_proof);
            assert(spec_decode_body(b) =~= Some(m));
        },
        MessageModel::DeviceAdded { descriptor } => {
            assert(b[0] == 1);
            assert(b.drop_first() =~= spec_encode_descriptor(descriptor));
            lemma_descriptor_round_trip(descriptor);
            assert(spec_decode_body(b) =~= Some(m));
        },
        MessageModel::DeviceRemoved { device_id } => {
            assert(b[0] == 2);
            assert(b.len() == 9);
            assert(b.subrange(1, 9) =~= spec_u64_to_le_bytes(device_id));
            assert(spec_decode_body(b) =~= Some(m));
        },
        MessageModel::Event { event } => {
            lemma_auto_spec_u16_to_from_le_bytes();
            lemma_auto_spec_u32_to_from_le_bytes();
            assert(b[0] == 3);
            assert(b.len() == 24);
            assert(b.subrange(1, 24) =~= spec_encode_event(event));
            lemma_event_round_trip(event);
            assert(spec_decode_body(b) =~= Some(m));
        },
        MessageModel::Heartbeat => {
            assert(b[0] == 4);
            assert(b.len() == 1);
        },
    }
}

/// Round trip: decoding an encoded frame, even with the rest of the stream
/// already sitting behind it in the buffer, yields the original message in
/// all fields and consumes exactly the frame.
pub proof fn lemma_round_trip(m: MessageModel, rest: Seq<u8>)
    requires
        wf_message(m),
    ensures
        spec_decode(spec_frame(m) + rest) == SpecDecoded::Frame(m, spec_frame(m).len() as int),
{
    lemma_auto_spec_u32_to_from_le_bytes();
    lemma_body_len_bounded(m);
    let body = spec_body(m);
    let s = spec_frame(m) + rest;
    assert(s.subrange(0, 4) =~= spec_u32_to_le_bytes(body.len() as u32));
    assert(spec_u32_from_le_bytes(s.subrange(0, 4)) == body.len() as u32);
    assert(s.len() >= 4 + body.len());
    assert(s.subrange(4, 4 + body.len() as int) =~= body);
    lemma_body_round_trip(m);
    assert(spec_decode(s) =~= SpecDecoded::Frame(m, spec_frame(m).len() as int));
}

/// Round trip for a frame standing alone in the buffer.
pub proof fn lemma_round_trip_single(m: MessageModel)
    requires
        wf_message(m),
    ensures
        spec_decode(spec_frame(m)) == SpecDecoded::Frame(m, spec_frame(m).len() as int),
{
    lemma_round_trip(m, Seq::<u8>::empty());
    assert(spec_frame(m) + Seq::<u8>::empty() =~= spec_frame(m));
}

/// A whole message stream on the wire: the frames, back to back, in order.
pub open spec fn spec_encode_stream(ms: Seq<MessageModel>) -> Seq<u8>
    decreases ms.len(),
{
    if ms.len() == 0 {
        Seq::<u8>::empty()
    } else {
        spec_frame(ms[0]) + spec_encode_stream(ms.drop_first())
    }
}

/// The message sequence a byte stream spells out, when it is exactly a
/// back-to-back sequence of well-formed frames.
pub open spec fn spec_decode_stream(s: Seq<u8>) -> Option<Seq<MessageModel>>
    decreases s.len(),
{
    if s.len() == 0 {
        Some(Seq::<MessageModel>::empty())
    } else {
        match spec_decode(s) {
            SpecDecoded::Frame(m, n) => if 0 < n <= s.len() {
                match spec_decode_stream(s.subrange(n, s.len() as int)) {
                    Some(rest) => Some(seq![m] + rest),
                    None => None,
                }
            } else {
                None
            },
            _ => None,
        }
    }
}

/// Stream round trip: a sequence of encoded frames, concatenated in order
/// over the reliable byte stream, decodes back to exactly that sequence of
/// messages — none lost, none duplicated, none reordered.
pub proof fn lemma_stream_round_trip(ms: Seq<MessageModel>)
    requires
        forall|i: int| 0 <= i < ms.len() ==> wf_message(#[trigger] ms[i]),
    ensures
        spec_decode_stream(spec_encode_stream(ms)) == Some(ms),
    decreases ms.len(),
{
    lemma_auto_spec_u32_to_from_le_bytes();
    if ms.len() == 0 {
        assert(spec_decode_stream(spec_encode_stream(ms)) =~= Some(ms));
    } else {
        let head = ms[0];
        let rest = spec_encode_stream(ms.drop_first());
        let s = spec_encode_stream(ms);
        assert(s == spec_frame(head) + rest);
        assert(wf_message(head));
        lemma_round_trip(head, rest);
        let flen = spec_frame(head).len() as int;
        assert(flen >= 4);
        assert(s.subrange(flen, s.len() as int) =~= rest);
        assert forall|i: int| 0 <= i < ms.drop_first().len() implies wf_message(
            #[trigger] ms.drop_first()[i],
        ) by {
            assert(ms.drop_first()[i] == ms[i + 1]);
        }
        lemma_stream_round_trip(ms.drop_first());
        assert(seq![head] + ms.drop_first() =~= ms);
    }
}

/// Encoding one more capability appends its three bytes.
pub proof fn lemma_encode_caps_take_step(caps: Seq<Capability>, i: int)
    requires
        0 <= i < caps.len(),
    ensures
        spec_encode_caps(caps.take(i + 1)) == spec_encode_caps(caps.take(i)) + spec_encode_cap(
            caps[i],
        ),
    decreases i,
{
    if i == 0 {
        assert(caps.take(1) =~= seq![caps[0]]);
        assert(caps.take(1).drop_first() =~= Seq::<Capability>::empty());
        assert(caps.take(0) =~= Seq::<Capability>::empty());
        assert(spec_encode_caps(Seq::<Capability>::empty()) == Seq::<u8>::empty());
        assert(spec_encode_caps(caps.take(1)) == spec_encode_cap(caps.take(1)[0])
            + spec_encode_caps(caps.take(1).drop_first()));
        assert(spec_encode_caps(caps.take(1)) =~= spec_encode_cap(caps[0]));
    } else {
        lemma_encode_caps_take_step(caps.drop_first(), i - 1);
        assert(caps.take(i + 1).drop_first() =~= caps.drop_first().take(i));
        assert(caps.take(i).drop_first() =~= caps.drop_first().take(i - 1));
        assert(caps.take(i + 1)[0] == caps[0]);
        assert(caps.take(i)[0] == caps[0]);
        assert(caps.drop_first()[i - 1] == caps[i]);
        assert(spec_encode_caps(caps.take(i + 1)) == spec_encode_cap(caps[0]) + spec_encode_caps(
            caps.drop_first().take(i),
        ));
        assert(spec_encode_caps(caps.take(i)) == spec_encode_cap(caps[0]) + spec_encode_caps(
            caps.drop_first().take(i - 1),
        ));
        assert(spec_encode_caps(caps.take(i + 1)) =~= spec_encode_caps(caps.take(i))
            + spec_encode_cap(caps[i]));
    }
}

} // verus!
