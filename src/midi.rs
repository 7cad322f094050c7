//! Decoding of MIDI short messages into note events.
use vstd::prelude::*;

verus! {

/// Which incoming messages a decoder lets through, by cable and channel.
#[derive(Clone, Copy, Debug, PartialEq, Eq, Structural)]
pub enum Behavior {
    /// Every cable and every channel.
    Omni,
    /// One cable, every channel.
    CableOmni(u8),
    /// One channel, every cable.
    ChannelOmni(u8),
    /// One cable and one channel.
    Specific { cable: u8, channel: u8 },
}

impl Default for Behavior {
    fn default() -> (r: Behavior)
        ensures
            r == Behavior::Omni,
    {
        Behavior::Omni
    }
}

/// A decoded note message.
#[derive(Clone, Copy, Debug, PartialEq, Eq, Structural)]
pub enum Message {
    NoteOn { note: u8, velocity: u8 },
    NoteOff { note: u8, velocity: u8 },
}

/// The channel a status byte addresses: its low nibble.
pub open spec fn channel_of(status: u8) -> u8 {
    (status % 16) as u8
}

/// The kind of a status byte: its high nibble.
pub open spec fn kind_of(status: u8) -> u8 {
    (status / 16) as u8
}

/// Whether a message on `cable` and `channel` passes the filter `behavior`.
pub open spec fn passes(behavior: Behavior, cable: u8, channel: u8) -> bool {
    match behavior {
        Behavior::Omni => true,
        Behavior::CableOmni(c) => c == cable,
        Behavior::ChannelOmni(c) => c == channel,
        Behavior::Specific { cable: c, channel: ch } => c == cable && ch == channel,
    }
}

/// The note message that `bytes`, received on `cable`, decodes to under `behavior`.
pub open spec fn decoded(cable: u8, bytes: Seq<u8>, behavior: Behavior) -> Option<Message> {
    if bytes.len() == 0 || !passes(behavior, cable, channel_of(bytes[0])) {
        None
    } else if bytes.len() == 3 && kind_of(bytes[0]) == 8 {
        Some(Message::NoteOff { note: bytes[1], velocity: bytes[2] })
    } else if bytes.len() == 3 && kind_of(bytes[0]) == 9 {
        if bytes[2] != 0 {
            Some(Message::NoteOn { note: bytes[1], velocity: bytes[2] })
        } else {
            Some(Message::NoteOff { note: bytes[1], velocity: bytes[2] })
        }
    } else {
        None
    }
}

/// Decodes a note-on or note-off message; anything else, or a message that
/// `behavior` filters out, gives `None`. A note-on of velocity zero is a note-off.
pub fn parse_midi(cable: u8, bytes: &[u8], behavior: Behavior) -> (r: Option<Message>)
    ensures
        r == decoded(cable, bytes@, behavior),
{
    if bytes.len() == 0 {
        return None;
    }
    let status = bytes[0];
    let channel = status & 0xF;
    let kind = status & 0xF0;
    assert(channel == status % 16) by (bit_vector)
        requires
            channel == status & 0xF,
    ;
    assert(kind == 0x80 <==> status / 16 == 8) by (bit_vector)
        requires
            kind == status & 0xF0,
    ;
    assert(kind == 0x90 <==> status / 16 == 9) by (bit_vector)
        requires
            kind == status & 0xF0,
    ;
    let pass = match behavior {
        Behavior::Omni => true,
        Behavior::CableOmni(c) => c == cable,
        Behavior::ChannelOmni(c) => c == channel,
        Behavior::Specific { cable: c, channel: ch } => c == cable && ch == channel,
    };
    if !pass {
        return None;
    }
    if kind == 0x80 && bytes.len() == 3 {
        return Some(Message::NoteOff { note: bytes[1], velocity: bytes[2] });
    }
    if kind == 0x90 && bytes.len() == 3 {
        let velocity = bytes[2];
        if velocity != 0 {
            return Some(Message::NoteOn { note: bytes[1], velocity });
        } else {
            return Some(Message::NoteOff { note: bytes[1], velocity });
        }
    }
    None
}

} // verus!
