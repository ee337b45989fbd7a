//! Cells, and what they place.

use super::bits::{is_nan, magnitude, not_a_number, signed, Bits};
use super::rounding::power_of_two;
use crate::text::same;
use vstd::arithmetic::power2::{lemma_pow2_pos, pow2};
use vstd::prelude::*;

verus! {

/// Names a cell: an interior by its name, an exterior by its square of the world's grid.
#[derive(Debug)]
pub enum CellId {
    Interior(String),
    Exterior { x: i32, y: i32 },
}

/// What a [`CellId`] names.
#[verifier::ext_equal]
pub enum CellName {
    Interior(Seq<char>),
    Exterior(i32, i32),
}

impl View for CellId {
    type V = CellName;

    open spec fn view(&self) -> CellName {
        match self {
            CellId::Interior(name) => CellName::Interior(name@),
            CellId::Exterior { x, y } => CellName::Exterior(*x, *y),
        }
    }
}

/// Where something stands and how it is turned.
#[derive(Debug, Clone, Copy)]
pub struct Position {
    pub translation: [Bits; 3],
    pub rotation: [Bits; 3],
}

/// One object a cell places.
#[derive(Debug)]
pub struct CellRef {
    pub object_id: String,
    pub position: Position,
    pub scale: Bits,
    pub deleted: bool,
    /// The cell a door opens into, where it names one.
    pub destination_cell: Option<String>,
    /// Where a traveller arrives, for a door that travels.
    pub destination: Option<Position>,
}

/// A cell's fixed lighting, as its record carries it. Colours are packed with red in the low byte.
#[derive(Debug, Clone, Copy)]
pub struct CellAmbient {
    pub ambient: u32,
    pub sunlight: u32,
    pub fog: u32,
    /// The bits of a density. Any four bytes are some number, so these may be none at all.
    pub fog_density: u32,
}

/// What a cell's record says of the cell itself.
#[derive(Debug, Clone, Copy)]
pub struct CellRecord {
    pub interior: bool,
    /// Whether the cell has water: said of an interior, true of every exterior.
    pub has_water: bool,
    pub grid_x: i32,
    pub grid_y: i32,
    pub water_height: Option<Bits>,
    pub ambient: Option<CellAmbient>,
}

/// The square of the grid a world coordinate falls in: the coordinate over the 8,192 units a cell
/// spans, rounded down, and kept within thirty-two bits. A coordinate so small that dividing it
/// leaves nothing is in the square at zero, and so is one that is no number.
pub open spec fn grid_square(a: Bits) -> int {
    let m = magnitude(a);
    let exponent = m / 0x80_0000;
    let digits = m % 0x80_0000 + 0x80_0000;
    if not_a_number(a) || m <= 0x1000 {
        0
    } else if exponent < 163 {
        let unit = pow2((163 - exponent) as nat) as int;
        if exponent < 139 {
            if signed(a) {
                -1
            } else {
                0
            }
        } else if signed(a) {
            -((digits + unit - 1) / unit)
        } else {
            digits / unit
        }
    } else if exponent >= 172 {
        if signed(a) {
            i32::MIN as int
        } else {
            i32::MAX as int
        }
    } else {
        let whole = digits * pow2((exponent - 163) as nat);
        if signed(a) {
            if whole > 0x8000_0000 {
                i32::MIN as int
            } else {
                -whole
            }
        } else if whole > i32::MAX {
            i32::MAX as int
        } else {
            whole
        }
    }
}

/// The square of the grid a world coordinate falls in.
pub fn square_of(a: Bits) -> (r: i32)
    ensures
        r == grid_square(a),
{
    let negative: bool = a >= 0x8000_0000;
    let m: u32 = if negative { a - 0x8000_0000 } else { a };
    if is_nan(a) || m <= 0x1000 {
        return 0;
    }
    let exponent: u32 = m / 0x80_0000;
    let digits: u64 = (m % 0x80_0000) as u64 + 0x80_0000;
    if exponent < 139 {
        return if negative { -1 } else { 0 };
    }
    if exponent >= 172 {
        return if negative { i32::MIN } else { i32::MAX };
    }
    if exponent < 163 {
        let unit: u64 = power_of_two(163 - exponent);
        let down: u64 = digits / unit;
        let up: u64 = (digits + unit - 1) / unit;
        proof {
            assert(digits / unit <= digits && (digits + unit - 1) / unit as int <= digits)
                by (nonlinear_arith)
                requires
                    unit >= 1,
                    digits >= 1,
            ;
        }
        if negative {
            -(up as i32)
        } else {
            down as i32
        }
    } else {
        let unit: u64 = power_of_two(exponent - 163);
        proof {
            vstd::arithmetic::power2::lemma2_to64();
            if exponent - 163 < 8 {
                vstd::arithmetic::power2::lemma_pow2_strictly_increases(
                    (exponent - 163) as nat,
                    8,
                );
            }
            assert(digits * unit <= 0x100_0000 * 256) by (nonlinear_arith)
                requires
                    digits <= 0x100_0000,
                    unit <= 256,
            ;
        }
        let whole: u64 = digits * unit;
        if negative {
            if whole > 0x8000_0000 {
                i32::MIN
            } else {
                (-(whole as i64)) as i32
            }
        } else if whole > 0x7FFF_FFFF {
            i32::MAX
        } else {
            whole as i32
        }
    }
}

impl CellId {
    /// The exterior cell a world position is in.
    pub fn containing(x: Bits, y: Bits) -> (r: CellId)
        ensures
            r@ == CellName::Exterior(grid_square(x) as i32, grid_square(y) as i32),
    {
        CellId::Exterior { x: square_of(x), y: square_of(y) }
    }

    /// Whether two ids name the same cell.
    pub fn is_same(&self, other: &CellId) -> (r: bool)
        ensures
            r == (self@ == other@),
    {
        match (self, other) {
            (CellId::Interior(a), CellId::Interior(b)) => same(a.as_str(), b.as_str()),
            (CellId::Exterior { x: ax, y: ay }, CellId::Exterior { x: bx, y: by }) => {
                *ax == *bx && *ay == *by
            },
            _ => false,
        }
    }

    /// The same id again.
    pub fn again(&self) -> (r: CellId)
        ensures
            r@ == self@,
    {
        match self {
            CellId::Interior(name) => CellId::Interior(name.as_str().to_owned()),
            CellId::Exterior { x, y } => CellId::Exterior { x: *x, y: *y },
        }
    }
}

/// **A square of the grid spans 8,192 units from a whole multiple of them up**: a position on the
/// line between two squares is in the upper one, below zero as above it.
pub proof fn law_squares_are_rounded_down(a: Bits)
    requires
        !not_a_number(a),
        139 <= magnitude(a) / 0x80_0000 < 163,
    ensures
        ({
            let digits = magnitude(a) % 0x80_0000 + 0x80_0000;
            let unit = pow2((163 - magnitude(a) / 0x80_0000) as nat) as int;
            let value = if signed(a) {
                -digits
            } else {
                digits
            };
            grid_square(a) * unit <= value < (grid_square(a) + 1) * unit
        }),
{
    let digits = magnitude(a) % 0x80_0000 + 0x80_0000;
    let unit = pow2((163 - magnitude(a) / 0x80_0000) as nat) as int;
    lemma_pow2_pos((163 - magnitude(a) / 0x80_0000) as nat);
    if signed(a) {
        let up = (digits + unit - 1) / unit;
        assert((-up) * unit <= -digits && -digits < (-up + 1) * unit) by (nonlinear_arith)
            requires
                unit > 0,
                up == (digits + unit - 1) / unit,
        ;
    } else {
        let down = digits / unit;
        assert(down * unit <= digits && digits < (down + 1) * unit) by (nonlinear_arith)
            requires
                unit > 0,
                down == digits / unit,
        ;
    }
}

} // verus!
