//! The MIDI wire vocabulary: status bytes, control addresses and how a
//! control reports its value.

use vstd::prelude::*;

verus! {

pub const CONTROL_CHANGE: u8 = 0xB0;

pub const NOTE_ON: u8 = 0x90;

/// High-resolution control change puts the low half on the controller 32 above
/// the high half's.
pub const LSB_OFFSET: u8 = 32;

pub const MAX_CONTROLLER: u8 = 127;

/// The largest value a 7-bit control reports.
pub const SEVEN_BIT_MAX: u16 = 127;

/// The largest value a joined 14-bit control reports.
pub const FOURTEEN_BIT_MAX: u16 = 16383;

pub const RELATIVE_CENTRE: i32 = 64;

pub const SEVEN_BIT_WRAP: i32 = 128;

#[derive(Clone, Copy, Debug, PartialEq, Eq, Structural)]
pub enum Resolution {
    SevenBit,
    FourteenBit,
    /// Read off the platter: a steady turn holds one value just off
    /// `RELATIVE_CENTRE` and a faster one sits further off, so it reports speed.
    CentreDelta,
    /// The browse encoder: 1 or 127, one detent either way.
    SignedStep,
}

#[derive(Clone, Copy, Debug, PartialEq, Eq, Structural)]
pub enum Half {
    Msb,
    Lsb,
}

/// Distinct from `Source` because a high-resolution control declares one source
/// but arrives on two addresses, and dispatch has to find it by either.
#[derive(Clone, Copy, Debug, PartialEq, Eq, Hash, Structural)]
pub enum Key {
    ControlChange { channel: u8, controller: u8 },
    Note { channel: u8, note: u8 },
}

/// A high-resolution control names only its high half; the low half is implied
/// at `LSB_OFFSET` above it.
#[derive(Clone, Copy, Debug, PartialEq, Eq, Structural)]
pub enum Source {
    ControlChange { channel: u8, controller: u8, resolution: Resolution },
    Note { channel: u8, note: u8 },
}

/// Why a source has no set of addresses.
#[derive(Clone, Copy, Debug, PartialEq, Eq, Structural)]
pub enum KeysError {
    /// A 14-bit control whose implied low half would pass the last controller.
    NoLowHalf { controller: u8 },
}

/// The controller that carries the low half of `controller`, if there is one.
pub open spec fn low_half_of(controller: u8) -> Option<u8> {
    if controller + LSB_OFFSET <= MAX_CONTROLLER {
        Some((controller + LSB_OFFSET) as u8)
    } else {
        None
    }
}

/// Every address a source arrives on, the high (or only) one first.
pub open spec fn source_keys(source: Source) -> Result<Seq<(Key, Half)>, KeysError> {
    match source {
        Source::Note { channel, note } => Ok(seq![(Key::Note { channel, note }, Half::Msb)]),
        Source::ControlChange { channel, controller, resolution } => {
            let high = (Key::ControlChange { channel, controller }, Half::Msb);
            if resolution != Resolution::FourteenBit {
                Ok(seq![high])
            } else {
                match low_half_of(controller) {
                    Some(low) => Ok(
                        seq![high, (Key::ControlChange { channel, controller: low }, Half::Lsb)],
                    ),
                    None => Err(KeysError::NoLowHalf { controller }),
                }
            }
        },
    }
}

pub open spec fn source_resolution(source: Source) -> Resolution {
    match source {
        Source::ControlChange { resolution, .. } => resolution,
        Source::Note { .. } => Resolution::SevenBit,
    }
}

impl Source {
    pub fn keys(&self) -> (keys: Result<Vec<(Key, Half)>, KeysError>)
        ensures
            match keys {
                Ok(v) => source_keys(*self) == Ok::<Seq<(Key, Half)>, KeysError>(v@),
                Err(e) => source_keys(*self) == Err::<Seq<(Key, Half)>, KeysError>(e),
            },
    {
        match *self {
            Source::Note { channel, note } => {
                let mut v = Vec::new();
                v.push((Key::Note { channel, note }, Half::Msb));
                assert(v@ =~= seq![(Key::Note { channel, note }, Half::Msb)]);
                Ok(v)
            },
            Source::ControlChange { channel, controller, resolution } => {
                let high = (Key::ControlChange { channel, controller }, Half::Msb);
                let mut v = Vec::new();
                v.push(high);
                if resolution != Resolution::FourteenBit {
                    assert(v@ =~= seq![high]);
                    return Ok(v);
                }
                if controller > MAX_CONTROLLER - LSB_OFFSET {
                    return Err(KeysError::NoLowHalf { controller });
                }
                let low = controller + LSB_OFFSET;
                v.push((Key::ControlChange { channel, controller: low }, Half::Lsb));
                assert(v@ =~= seq![high, (Key::ControlChange { channel, controller: low }, Half::Lsb)]);
                Ok(v)
            },
        }
    }

    pub fn resolution(&self) -> (resolution: Resolution)
        ensures
            resolution == source_resolution(*self),
    {
        match *self {
            Source::ControlChange { resolution, .. } => resolution,
            Source::Note { .. } => Resolution::SevenBit,
        }
    }
}

/// How far a relative control moved, or `None` for one that reports a position.
pub open spec fn spec_relative_delta(resolution: Resolution, value: u8) -> Option<i32> {
    match resolution {
        Resolution::CentreDelta => Some((value - RELATIVE_CENTRE) as i32),
        Resolution::SignedStep => Some(
            if value >= RELATIVE_CENTRE {
                (value - SEVEN_BIT_WRAP) as i32
            } else {
                value as i32
            },
        ),
        Resolution::SevenBit | Resolution::FourteenBit => None,
    }
}

/// `None` for anything that reports a position, which has to be read through the
/// binding's range instead.
pub fn relative_delta(resolution: Resolution, value: u8) -> (delta: Option<i32>)
    ensures
        delta == spec_relative_delta(resolution, value),
{
    let value = value as i32;
    match resolution {
        Resolution::CentreDelta => Some(value - RELATIVE_CENTRE),
        Resolution::SignedStep => Some(
            if value >= RELATIVE_CENTRE {
                value - SEVEN_BIT_WRAP
            } else {
                value
            },
        ),
        Resolution::SevenBit | Resolution::FourteenBit => None,
    }
}

/// A relative control reports how far it moved on a seven-bit value. A signed-step
/// encoder counts a detent forward as a small value and a detent back as the
/// same distance below 128 (1 is one forward, 127 one back), so its step is the
/// value taken modulo 128 into the half turn either side of zero. A platter read
/// off its centre reports its distance from 64. A positional control reports no
/// movement at all.
pub proof fn law_a_relative_control_moves_by_its_signed_offset(value: u8)
    requires
        value <= 127,
    ensures
        spec_relative_delta(Resolution::SignedStep, value) matches Some(step) && -64 <= step < 64 && (value
            - step) % 128 == 0,
        spec_relative_delta(Resolution::CentreDelta, value) matches Some(delta) && delta + 64 == value,
        spec_relative_delta(Resolution::SevenBit, value) is None,
        spec_relative_delta(Resolution::FourteenBit, value) is None,
{
}

} // verus!
