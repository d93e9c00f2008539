//! Message types and the outbound frame encoder.
//!
//! A message pairs a type identifier with opaque payload bytes; the per-type
//! payload codecs live outside this crate.  [`write_message`] lays a message
//! out as one wire frame.

use vstd::prelude::*;

use crate::wire::{be_bytes, push_be16, push_be64, spec_frame, MAGIC_HEADER};

verus! {

/// The closed set of message type identifiers the protocol knows.
///
/// The first three tag data-carrying payloads; `Subscribe` tags the
/// control-plane directive that starts or stops a data flow.
#[derive(Clone, Copy, Debug, PartialEq, Eq, Structural)]
pub enum MsgType {
    LightState,
    PacmanLocation,
    FullState,
    Subscribe,
}

impl MsgType {
    /// The 2-byte identifier this type carries in a frame header.
    pub open spec fn id_spec(self) -> u16 {
        match self {
            MsgType::LightState => 0,
            MsgType::PacmanLocation => 1,
            MsgType::FullState => 2,
            MsgType::Subscribe => 15000,
        }
    }

    /// The type whose frame-header identifier is `id`, if any.
    pub open spec fn spec_from_id(id: u16) -> Option<MsgType> {
        if id == 0 {
            Some(MsgType::LightState)
        } else if id == 1 {
            Some(MsgType::PacmanLocation)
        } else if id == 2 {
            Some(MsgType::FullState)
        } else if id == 15000 {
            Some(MsgType::Subscribe)
        } else {
            None
        }
    }

    /// Whether this type tags a data-carrying payload, as opposed to the
    /// control-plane subscribe directive.
    pub open spec fn is_data_spec(self) -> bool {
        self != MsgType::Subscribe
    }

    pub fn id(self) -> (r: u16)
        ensures
            r == self.id_spec(),
    {
        match self {
            MsgType::LightState => 0,
            MsgType::PacmanLocation => 1,
            MsgType::FullState => 2,
            MsgType::Subscribe => 15000,
        }
    }

    pub fn from_id(id: u16) -> (r: Option<MsgType>)
        ensures
            r == MsgType::spec_from_id(id),
    {
        if id == 0 {
            Some(MsgType::LightState)
        } else if id == 1 {
            Some(MsgType::PacmanLocation)
        } else if id == 2 {
            Some(MsgType::FullState)
        } else if id == 15000 {
            Some(MsgType::Subscribe)
        } else {
            None
        }
    }

    pub fn is_data(self) -> (r: bool)
        ensures
            r == self.is_data_spec(),
    {
        match self {
            MsgType::Subscribe => false,
            _ => true,
        }
    }
}

/// Identifiers round-trip through the header field: encoding a type and
/// reading the field back yields the same type.
pub proof fn lemma_msg_type_id_round_trip(t: MsgType)
    ensures
        MsgType::spec_from_id(t.id_spec()) == Some(t),
{
}

/// A message bound for the wire: a type identifier together with the payload
/// bytes its external codec produced.
#[derive(Clone, Debug, PartialEq, Eq)]
pub enum Msg {
    LightState(Vec<u8>),
    PacmanLocation(Vec<u8>),
    FullState(Vec<u8>),
    Subscribe(Vec<u8>),
}

impl Msg {
    pub open spec fn msg_type_spec(self) -> MsgType {
        match self {
            Msg::LightState(_) => MsgType::LightState,
            Msg::PacmanLocation(_) => MsgType::PacmanLocation,
            Msg::FullState(_) => MsgType::FullState,
            Msg::Subscribe(_) => MsgType::Subscribe,
        }
    }

    pub open spec fn payload_spec(self) -> Seq<u8> {
        match self {
            Msg::LightState(b) => b@,
            Msg::PacmanLocation(b) => b@,
            Msg::FullState(b) => b@,
            Msg::Subscribe(b) => b@,
        }
    }

    pub fn msg_type(&self) -> (r: MsgType)
        ensures
            r == self.msg_type_spec(),
    {
        match self {
            Msg::LightState(_) => MsgType::LightState,
            Msg::PacmanLocation(_) => MsgType::PacmanLocation,
            Msg::FullState(_) => MsgType::FullState,
            Msg::Subscribe(_) => MsgType::Subscribe,
        }
    }
}

/// Encodes `message` as one wire frame: magic, type identifier, big-endian
/// payload length, then the payload bytes.
pub fn write_message(message: Msg) -> (r: Vec<u8>)
    ensures
        r@ == spec_frame(message.msg_type_spec().id_spec(), message.payload_spec()),
{
    let t: u16 = message.msg_type().id();
    let payload: Vec<u8> = match message {
        Msg::LightState(b) => b,
        Msg::PacmanLocation(b) => b,
        Msg::FullState(b) => b,
        Msg::Subscribe(b) => b,
    };
    let mut r: Vec<u8> = Vec::new();
    push_be16(&mut r, MAGIC_HEADER);
    push_be16(&mut r, t);
    push_be64(&mut r, payload.len() as u64);
    r.extend_from_slice(payload.as_slice());
    proof {
        assert(r@ =~= (Seq::<u8>::empty() + be_bytes(MAGIC_HEADER as nat, 2) + be_bytes(
            t as nat,
            2,
        ) + be_bytes(payload@.len(), 8)) + payload@);
        assert(r@ =~= spec_frame(t, payload@));
    }
    r
}

} // verus!
