//! The light of a cell.

use super::bits::{magnitude, not_a_number, signed, Bits, ZERO};
use super::cell::{CellAmbient, CellRef};
use super::model_index::LightRecord;
use super::numbers::{float_of, to_bits};
use vstd::prelude::*;

verus! {

/// The bits of 0.35, 0.42 and 0.55: the fixed overcast daylight of an exterior. Blue-shifted
/// because sky light is.
pub const OVERCAST_RED: Bits = 0x3EB3_3333;

pub const OVERCAST_GREEN: Bits = 0x3ED7_0A3D;

pub const OVERCAST_BLUE: Bits = 0x3F0C_CCCD;

/// A colour, as it is stored.
#[derive(Debug, Clone, Copy)]
pub enum Colour {
    /// Red, green and blue encoded as sRGB, a byte each.
    Encoded([u8; 3]),
    /// Red, green and blue in linear light.
    Linear([Bits; 3]),
}

/// One point light, in world space.
///
/// A record stores a colour and a radius but no intensity, so the radius is the only control the
/// data gives: whatever turns this into radiance has to supply the scale itself.
#[derive(Debug, Clone, Copy)]
pub struct Light {
    pub position: [Bits; 3],
    /// Red, green and blue encoded as sRGB.
    pub colour: [u8; 3],
    /// The radius the record carries, in world units. Not how far the light reaches.
    pub radius: Bits,
}

/// A cell's fixed lighting, which for an interior is most of its illumination.
#[derive(Debug, Clone, Copy)]
pub struct Ambient {
    pub colour: Colour,
    /// Directional term for interiors faking a sun.
    pub sunlight: Colour,
    pub fog: Colour,
    /// How thickly that fog sits, as the cell records it.
    pub fog_density: Bits,
}

/// The channels of a packed colour: red in the low byte, then green, then blue. The high byte is
/// not a colour's.
pub open spec fn channels(packed: u32) -> [u8; 3] {
    [
        (packed % 0x100) as u8,
        (packed / 0x100 % 0x100) as u8,
        (packed / 0x1_0000 % 0x100) as u8,
    ]
}

/// The channels of a packed colour.
pub fn unpack(packed: u32) -> (r: [u8; 3])
    ensures
        r == channels(packed),
{
    [
        (packed % 0x100) as u8,
        (packed / 0x100 % 0x100) as u8,
        (packed / 0x1_0000 % 0x100) as u8,
    ]
}

/// Whether the bits are of a finite number that is not below zero, as neither of the zeroes is.
pub open spec fn is_density(bits: u32) -> bool {
    &&& magnitude(bits) < 0x7F80_0000
    &&& !signed(bits) || magnitude(bits) == 0
}

/// The density of a cell's fog: what its record says, or none where that is not a density.
pub open spec fn fog_of(bits: u32) -> Bits {
    if is_density(bits) {
        bits
    } else {
        ZERO
    }
}

impl Ambient {
    /// What an interior's record makes of its light.
    pub open spec fn recorded(record: CellAmbient) -> Ambient {
        Ambient {
            colour: Colour::Encoded(channels(record.ambient)),
            sunlight: Colour::Encoded(channels(record.sunlight)),
            fog: Colour::Encoded(channels(record.fog)),
            fog_density: fog_of(record.fog_density),
        }
    }

    /// The lighting an interior's record describes.
    ///
    /// The density is a number's own bits, and any four bytes are *some* number: one that is not
    /// finite or is below zero is read as no fog, because one bad cell should be fog-free rather
    /// than fatal.
    pub fn from_record(record: CellAmbient) -> (r: Ambient)
        ensures
            r == Ambient::recorded(record),
    {
        let bits: u32 = record.fog_density;
        let fog_density: Bits = if bits < 0x7F80_0000 || bits == 0x8000_0000 { bits } else { ZERO };
        Ambient {
            colour: Colour::Encoded(unpack(record.ambient)),
            sunlight: Colour::Encoded(unpack(record.sunlight)),
            fog: Colour::Encoded(unpack(record.fog)),
            fog_density,
        }
    }

    /// An exterior's light: a fixed overcast daylight, with no sun of its own and no fog.
    pub open spec fn overcast() -> Ambient {
        Ambient {
            colour: Colour::Linear([OVERCAST_RED, OVERCAST_GREEN, OVERCAST_BLUE]),
            sunlight: Colour::Linear([ZERO, ZERO, ZERO]),
            fog: Colour::Linear([ZERO, ZERO, ZERO]),
            fog_density: ZERO,
        }
    }

    /// The light of an exterior, which carries none of its own: out of doors the ambient *is* the
    /// sky.
    pub fn outdoors() -> (r: Ambient)
        ensures
            r == Ambient::overcast(),
    {
        Ambient {
            colour: Colour::Linear([OVERCAST_RED, OVERCAST_GREEN, OVERCAST_BLUE]),
            sunlight: Colour::Linear([ZERO, ZERO, ZERO]),
            fog: Colour::Linear([ZERO, ZERO, ZERO]),
            fog_density: ZERO,
        }
    }
}

impl Light {
    /// The light an object casts, standing at `position`.
    pub open spec fn cast(position: [Bits; 3], record: LightRecord) -> Light {
        Light {
            position,
            colour: channels(record.colour),
            radius: float_of(record.radius as int) as u32,
        }
    }

    /// The light an object casts where a reference places it.
    pub fn placed(cell_ref: &CellRef, record: LightRecord) -> (r: Light)
        ensures
            r == Light::cast(cell_ref.position.translation, record),
    {
        Light {
            position: cell_ref.position.translation,
            colour: unpack(record.colour),
            radius: to_bits(record.radius as i64),
        }
    }
}

/// **A cell's fog is never below zero and never anything but a number**, whatever its record holds,
/// and a record that holds a density is taken at its word.
pub proof fn law_fog_is_a_density(bits: u32)
    ensures
        is_density(fog_of(bits)),
        !not_a_number(fog_of(bits)),
        is_density(bits) ==> fog_of(bits) == bits,
{
}

} // verus!
