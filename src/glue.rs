//! The flat encodings that a host boundary carries: channel formats, unit
//! codes, flag words, the bypass declaration and event records.
use vstd::prelude::*;
use crate::kernel::{AllowedChannels, Data, DisplayScale, Event, KernelInfo, KernelType, Unit};

verus! {

/// Readable flag bit.
pub const FLAG_READABLE: u64 = 0x4000_0000;

/// Writable flag bit.
pub const FLAG_WRITABLE: u64 = 0x8000_0000;

/// Logarithmic display flag bit.
pub const FLAG_LOGARITHMIC: u64 = 0x40_0000;

/// The numeric code of a unit.
pub open spec fn unit_code(unit: Unit) -> u64 {
    match unit {
        Unit::Generic => 0,
        Unit::Percent => 3,
        Unit::Second => 4,
        Unit::SampleFrames => 5,
        Unit::Rate => 7,
        Unit::Custom(_) => 26,
    }
}

pub fn convert_unit(unit: &Unit) -> (r: u64)
    ensures
        r == unit_code(*unit),
{
    match unit {
        Unit::Generic => 0,
        Unit::Percent => 3,
        Unit::Second => 4,
        Unit::SampleFrames => 5,
        Unit::Rate => 7,
        Unit::Custom(..) => 26,
    }
}

/// The flags word: bit 30 when readable, bit 31 when writable, bit 22 for a
/// logarithmic display.
pub open spec fn flags_word(readable: bool, writable: bool, scale: DisplayScale) -> u64 {
    ((if readable { FLAG_READABLE } else { 0 }) + (if writable { FLAG_WRITABLE } else { 0 }) + (
    if scale == DisplayScale::Logarithmic {
        FLAG_LOGARITHMIC
    } else {
        0
    })) as u64
}

pub fn convert_flags(readable: bool, writable: bool, scale: &DisplayScale) -> (r: u64)
    ensures
        r == flags_word(readable, writable, *scale),
{
    let r: u64 = if readable { FLAG_READABLE } else { 0 };
    let w: u64 = if writable { FLAG_WRITABLE } else { 0 };
    let l: u64 = match scale {
        DisplayScale::Linear => 0,
        DisplayScale::Logarithmic => FLAG_LOGARITHMIC,
    };
    r + w + l
}

/// The channel count code: -1 for any count, else the count itself.
pub open spec fn channels_code(channels: AllowedChannels) -> int {
    match channels {
        AllowedChannels::AnyChannelCountAllowed => -1,
        AllowedChannels::ChannelCountAllowed(x) => x as int,
    }
}

/// A channel count that the flat encoding can carry.
pub open spec fn encodable(channels: AllowedChannels) -> bool {
    channels_code(channels) <= i32::MAX
}

pub fn serialize_channels(channels: AllowedChannels) -> (r: i32)
    requires
        encodable(channels),
    ensures
        r == channels_code(channels),
{
    match channels {
        AllowedChannels::AnyChannelCountAllowed => -1,
        AllowedChannels::ChannelCountAllowed(x) => x as i32,
    }
}

/// The (input, output) code pairs of every format a kernel supports, in order.
pub fn get_kernel_allowed_channel_formats<V>(info: &KernelInfo<V>) -> (r: Vec<(i32, i32)>)
    requires
        forall|i: int|
            0 <= i < info.formats@.len() ==> encodable(#[trigger] info.formats@[i].input_channels)
                && encodable(info.formats@[i].output_channels),
    ensures
        r@.len() == info.formats@.len(),
        forall|i: int|
            0 <= i < r@.len() ==> #[trigger] r@[i].0 == channels_code(info.formats@[i].input_channels)
                && r@[i].1 == channels_code(info.formats@[i].output_channels),
{
    let mut out: Vec<(i32, i32)> = Vec::new();
    let mut i: usize = 0;
    while i < info.formats.len()
        invariant
            i <= info.formats@.len(),
            out@.len() == i,
            forall|i: int|
                0 <= i < info.formats@.len() ==> encodable(#[trigger] info.formats@[i].input_channels)
                    && encodable(info.formats@[i].output_channels),
            forall|k: int|
                0 <= k < i ==> #[trigger] out@[k].0 == channels_code(info.formats@[k].input_channels)
                    && out@[k].1 == channels_code(info.formats@[k].output_channels),
        decreases info.formats@.len() - i,
    {
        let format = info.formats[i];
        out.push((serialize_channels(format.input_channels), serialize_channels(format.output_channels)));
        i = i + 1;
    }
    out
}

/// 1 when the kernel declares a bypass parameter, else 0.
pub fn get_has_bypass_param<V>(info: &KernelInfo<V>) -> (r: u64)
    ensures
        r == if info.bypass_param is Some { 1u64 } else { 0u64 },
{
    match info.bypass_param {
        None => 0,
        Some(..) => 1,
    }
}

/// The address of the bypass parameter, 0 when there is none.
pub fn get_bypass_param<V>(info: &KernelInfo<V>) -> (r: u64)
    ensures
        r == match info.bypass_param {
            Some(a) => a,
            None => 0u64,
        },
{
    match info.bypass_param {
        None => 0,
        Some(n) => n,
    }
}

/// The kernel classification tag: 0 for an effect, 1 for an instrument.
pub fn get_kernel_type<V>(info: &KernelInfo<V>) -> (r: u32)
    ensures
        r == match info.kernel_type {
            KernelType::Effect => 0u32,
            KernelType::Instrument => 1u32,
        },
{
    match info.kernel_type {
        KernelType::Effect => 0,
        KernelType::Instrument => 1,
    }
}

/// An event record as a host lays it out: a type tag and the fields of
/// every kind of event.
#[derive(Clone, Copy, Debug)]
pub struct GlueEvent<V> {
    pub time: i64,
    pub ty: u64,
    pub param_addr: u64,
    pub param_value: V,
    pub param_ramp_time: u32,
    pub midi_cable: u8,
    pub midi_valid_bytes: u16,
    pub midi_bytes: [u8; 3],
}

/// The event a record stands for: tag 0 is a parameter change, 1 a ramped
/// change and 2 a MIDI message; any other tag stands for no event.
pub open spec fn spec_decode_event<V>(ge: GlueEvent<V>) -> Option<Event<V>> {
    if ge.ty == 0 {
        Some(Event { time: ge.time, data: Data::ParameterChange { address: ge.param_addr, value: ge.param_value } })
    } else if ge.ty == 1 {
        Some(
            Event {
                time: ge.time,
                data: Data::RampedParameterChange {
                    address: ge.param_addr,
                    value: ge.param_value,
                    ramp_time: ge.param_ramp_time,
                },
            },
        )
    } else if ge.ty == 2 {
        Some(
            Event {
                time: ge.time,
                data: Data::MIDIMessage {
                    cable: ge.midi_cable,
                    valid_bytes: ge.midi_valid_bytes,
                    bytes: ge.midi_bytes,
                },
            },
        )
    } else {
        None
    }
}

/// Decodes an event record; `None` for an unknown type tag.
pub fn decode_event<V: Copy>(ge: &GlueEvent<V>) -> (r: Option<Event<V>>)
    ensures
        r == spec_decode_event(*ge),
{
    let data = match ge.ty {
        0 => Data::ParameterChange { address: ge.param_addr, value: ge.param_value },
        1 => Data::RampedParameterChange {
            address: ge.param_addr,
            value: ge.param_value,
            ramp_time: ge.param_ramp_time,
        },
        2 => Data::MIDIMessage {
            cable: ge.midi_cable,
            valid_bytes: ge.midi_valid_bytes,
            bytes: ge.midi_bytes,
        },
        _ => {
            return None;
        },
    };
    Some(Event { time: ge.time, data })
}

} // verus!
