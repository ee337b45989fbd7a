//! What falls out of the sky.

use super::bits::{greater, is_greater, Bits, ZERO};
use crate::text::chars;
use vstd::prelude::*;

verus! {

/// Which of the three a weather puts in the air.
#[derive(Debug, Clone, Copy, PartialEq, Eq, Structural)]
pub enum Falling {
    /// Drops: drawn as streaks, and lit as the lenses they are.
    Rain,
    /// Flakes: wider, far slower, and diffuse.
    Snow,
    /// Blown ash or blight, which the wind carries rather than gravity.
    Ash,
}

/// What one section of the settings says of what falls.
#[derive(Debug, Clone, Copy)]
pub struct Fall {
    pub using_precip: Option<Bits>,
    pub max_raindrops: Option<Bits>,
    pub max_snowflakes: Option<Bits>,
}

/// Whose block a weather's fall is read from.
#[derive(Debug, Clone, Copy, PartialEq, Eq, Structural)]
pub enum Source {
    /// Its own, which says what falls and how many are in the air at once.
    Own(Falling, Bits),
    /// Snow's, for a weather with none of its own under one of the northern sheets.
    Snow(Falling, Bits),
    /// Nobody's: it blows ash.
    Ash,
    /// Nothing is in the air.
    Nothing,
}

/// Whether a number is named and above nothing.
pub open spec fn is_positive(number: Option<Bits>) -> bool {
    number matches Some(held) && greater(held, ZERO)
}

/// What one section names, with no fallback to anyone else's: rain where it sets the flag, snow
/// otherwise, and neither where it counts none of them.
pub open spec fn named(fall: Fall) -> Option<(Falling, Bits)> {
    if is_positive(fall.using_precip) {
        if is_positive(fall.max_raindrops) {
            Some((Falling::Rain, fall.max_raindrops->0))
        } else {
            None
        }
    } else if is_positive(fall.max_snowflakes) {
        Some((Falling::Snow, fall.max_snowflakes->0))
    } else {
        None
    }
}

/// Whether a sheet is one of the northern ones.
pub open spec fn is_northern(sheet: Seq<char>) -> bool {
    sheet.len() >= "tx_bm_"@.len() && sheet.take("tx_bm_"@.len() as int) == "tx_bm_"@
}

/// What a weather puts in the air: what its own section names; failing that, snow's own under a
/// northern sheet; failing that, ash where it carries a storm's threshold.
pub open spec fn source_of(own: Fall, sheet: Seq<char>, snow: Fall, storms: bool) -> Source {
    match named(own) {
        Some((kind, count)) => Source::Own(kind, count),
        None => if is_northern(sheet) {
            match named(snow) {
                Some((kind, count)) => Source::Snow(kind, count),
                None => Source::Nothing,
            }
        } else if storms {
            Source::Ash
        } else {
            Source::Nothing
        },
    }
}

/// A number that is named and above nothing.
fn positive(number: Option<Bits>) -> (r: Option<Bits>)
    ensures
        r == (if is_positive(number) {
            number
        } else {
            None
        }),
{
    match number {
        Some(held) => if is_greater(held, ZERO) {
            Some(held)
        } else {
            None
        },
        None => None,
    }
}

impl Fall {
    /// What this section names, with no fallback to anyone else's.
    pub fn named(&self) -> (r: Option<(Falling, Bits)>)
        ensures
            r == named(*self),
    {
        match positive(self.using_precip) {
            Some(_) => match positive(self.max_raindrops) {
                Some(count) => Some((Falling::Rain, count)),
                None => None,
            },
            None => match positive(self.max_snowflakes) {
                Some(count) => Some((Falling::Snow, count)),
                None => None,
            },
        }
    }
}

impl Source {
    /// What a weather puts in the air.
    ///
    /// **A weather with no block of its own is either a blizzard or a storm, and its sheet says
    /// which**: a blizzard is under one of the northern sheets and takes snow's block, and what is
    /// left carrying a threshold is blowing rather than falling.
    pub fn read(own: Fall, sheet: &str, snow: Fall, storms: bool) -> (r: Source)
        ensures
            r == source_of(own, sheet@, snow, storms),
    {
        match own.named() {
            Some((kind, count)) => {
                return Source::Own(kind, count);
            },
            None => {},
        }
        if starts_northern(sheet) {
            return match snow.named() {
                Some((kind, count)) => Source::Snow(kind, count),
                None => Source::Nothing,
            };
        }
        if storms {
            Source::Ash
        } else {
            Source::Nothing
        }
    }
}

/// Whether a sheet is one of the northern ones.
fn starts_northern(sheet: &str) -> (r: bool)
    ensures
        r == is_northern(sheet@),
{
    let all: Vec<char> = chars(sheet);
    let prefix: Vec<char> = chars("tx_bm_");
    if all.len() < prefix.len() {
        return false;
    }
    let mut i: usize = 0;
    while i < prefix.len()
        invariant
            i <= prefix@.len() <= all@.len(),
            all@ == sheet@,
            prefix@ == "tx_bm_"@,
            forall|k: int| 0 <= k < i ==> all@[k] == prefix@[k],
        decreases prefix@.len() - i,
    {
        if all[i] != prefix[i] {
            assert(sheet@.take(prefix@.len() as int)[i as int] != prefix@[i as int]);
            return false;
        }
        i = i + 1;
    }
    assert(sheet@.take(prefix@.len() as int) =~= prefix@);
    true
}

/// **Whatever is counted is above nothing**, so a weather with none in the air is the only one that
/// counts none.
pub proof fn law_what_falls_is_counted(own: Fall, sheet: Seq<char>, snow: Fall, storms: bool)
    ensures
        source_of(own, sheet, snow, storms) matches Source::Own(_, count) ==> greater(count, ZERO),
        source_of(own, sheet, snow, storms) matches Source::Snow(_, count) ==> greater(count, ZERO),
{
}

} // verus!
