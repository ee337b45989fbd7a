//! What a thunderstorm does with the sky.
//!
//! Everything about a flash is drawn from its number, so two runs of the same second draw the same
//! storm.

use super::bits::{greater, is_greater, Bits, ZERO};
use vstd::arithmetic::div_mod::{lemma_mul_mod_noop_left, lemma_mul_mod_noop_right, lemma_small_mod};
use vstd::arithmetic::mul::lemma_mul_is_associative;
use vstd::prelude::*;

verus! {

/// The golden ratio in sixty-four bits.
pub const GOLDEN: u64 = 0x9E37_79B9_7F4A_7C15;

/// The mixer's second multiplier.
pub const MIX: u64 = 0xBF58_476D_1CE4_E5B9;

/// How many strokes a flash carries, from one to this.
pub const STROKES: u64 = 4;

/// How many of the 16,777,216 draws go to the ground: those below twenty-two hundredths.
pub const TO_GROUND: u64 = 3_690_988;

/// Below how many of the draws a flash crawls the deck, where it does not go to the ground: those
/// below thirty-three hundredths.
pub const CRAWLS: u64 = 5_536_482;

/// Below how many of the draws a channel shows in the cloud, where it does neither: those below
/// forty-five hundredths.
pub const SHOWS: u64 = 7_549_747;

/// The bits of 0.6, 4.0 and 0.1: what a storm's threshold and its fade are where the file says
/// nothing, and the slowest it may fade.
pub const USUAL_THRESHOLD: Bits = 0x3F19_999A;

pub const USUAL_DECREMENT: Bits = 0x4080_0000;

pub const LEAST_DECREMENT: Bits = 0x3DCC_CCCD;

/// Which of the four shapes a discharge takes.
///
/// **Nature's own proportions, not a preference.** Cloud-to-ground is a fifth to a quarter of all
/// discharges; well over half happen entirely inside the cloud, and most of those are swallowed by
/// the deck they happen in.
#[derive(Debug, Clone, Copy, PartialEq, Eq, Structural)]
pub enum Discharge {
    /// Inside the cloud with the channel hidden: the deck lights from within and nothing is drawn.
    Sheet,
    /// Inside the cloud with the channel showing through it.
    InCloud,
    /// Along the underside of the deck rather than down out of it, for kilometres.
    Crawler,
    /// Down to the ground, which is the one that lights a landscape.
    ToGround,
}

/// How a weather's lightning is scheduled.
#[derive(Debug, Clone, Copy)]
pub struct Lightning {
    /// How many flashes a second.
    pub frequency: Bits,
    /// How much of the weather has to have arrived first.
    pub threshold: Bits,
    /// How fast a flash fades, in brightness a second.
    pub decrement: Bits,
}

/// Everything about one flash that is drawn from its number. What is drawn in parts of a whole is
/// out of 16,777,216.
#[derive(Debug, Clone, Copy)]
pub struct Drawing {
    pub kind: Discharge,
    /// What the channel's own crookedness is drawn from.
    pub shape: u32,
    /// How many times the channel re-lights.
    pub strokes: u64,
    /// How far through the range of intervals the one after each stroke is.
    pub restrikes: [u32; 4],
    /// Where on the compass it stands.
    pub bearing: u32,
    /// How far off it stands.
    pub away: u32,
    /// Which way its channel leans or runs.
    pub heading: u32,
    /// How far a crawler runs.
    pub run: u32,
}

/// A stable scramble of one number.
///
/// The increment keeps the mixer from handing nought straight back, so that the first flash of a
/// storm is no different from any other.
pub open spec fn hashed(seed: u64) -> u64 {
    let a = seed.wrapping_add(GOLDEN).wrapping_mul(GOLDEN);
    let b = a ^ (a >> 30);
    let c = b.wrapping_mul(MIX);
    let d = c ^ (c >> 27);
    d ^ (d >> 31)
}

/// A draw out of 16,777,216, from a number and what is being drawn.
pub open spec fn draw(seed: u64, what: u64) -> u32 {
    (hashed(seed ^ what) >> 40) as u32
}

/// The shape a draw gives a discharge.
pub open spec fn discharge_of(roll: u32) -> Discharge {
    if roll < TO_GROUND {
        Discharge::ToGround
    } else if roll < CRAWLS {
        Discharge::Crawler
    } else if roll < SHOWS {
        Discharge::InCloud
    } else {
        Discharge::Sheet
    }
}

/// Everything about one flash.
pub open spec fn drawing(index: u64) -> Drawing {
    let seed = hashed(index);
    Drawing {
        kind: discharge_of(draw(seed, 0x9E37_79B9)),
        shape: (seed >> 32) as u32,
        strokes: (1 + (seed >> 8) % STROKES) as u64,
        restrikes: [draw(seed, 1), draw(seed, 2), draw(seed, 3), draw(seed, 4)],
        bearing: draw(seed, 0x85EB_CA6B),
        away: draw(seed, 0xC2B2_AE35),
        heading: draw(seed, 0x27D4_EB2F),
        run: draw(seed, 0x1B87_3593),
    }
}

/// A stable scramble of one number.
pub fn hash(seed: u64) -> (r: u64)
    ensures
        r == hashed(seed),
{
    let a: u64 = seed.wrapping_add(GOLDEN).wrapping_mul(GOLDEN);
    let b: u64 = a ^ (a >> 30);
    let c: u64 = b.wrapping_mul(MIX);
    let d: u64 = c ^ (c >> 27);
    d ^ (d >> 31)
}

/// A draw out of 16,777,216, from a number and what is being drawn.
fn roll(seed: u64, what: u64) -> (r: u32)
    ensures
        r == draw(seed, what),
        r < 0x100_0000,
{
    let held: u64 = hash(seed ^ what);
    assert((held >> 40) < 0x100_0000) by (bit_vector);
    (held >> 40) as u32
}

impl Discharge {
    /// The shape a draw gives a discharge.
    pub fn of(roll: u32) -> (r: Discharge)
        ensures
            r == discharge_of(roll),
    {
        if (roll as u64) < TO_GROUND {
            Discharge::ToGround
        } else if (roll as u64) < CRAWLS {
            Discharge::Crawler
        } else if (roll as u64) < SHOWS {
            Discharge::InCloud
        } else {
            Discharge::Sheet
        }
    }
}

impl Drawing {
    /// Everything about flash `index` of a storm.
    pub fn of(index: u64) -> (r: Drawing)
        ensures
            r == drawing(index),
            1 <= r.strokes <= STROKES,
    {
        let seed: u64 = hash(index);
        Drawing {
            kind: Discharge::of(roll(seed, 0x9E37_79B9)),
            shape: (seed >> 32) as u32,
            strokes: 1 + (seed >> 8) % STROKES,
            restrikes: [roll(seed, 1), roll(seed, 2), roll(seed, 3), roll(seed, 4)],
            bearing: roll(seed, 0x85EB_CA6B),
            away: roll(seed, 0xC2B2_AE35),
            heading: roll(seed, 0x27D4_EB2F),
            run: roll(seed, 0x1B87_3593),
        }
    }
}

/// A weather that never flashes.
pub open spec fn no_lightning() -> Lightning {
    Lightning { frequency: ZERO, threshold: ZERO, decrement: USUAL_DECREMENT }
}

/// The lightning a weather's keys describe: none where it names no frequency above nothing.
pub open spec fn lightning_of(
    frequency: Option<Bits>,
    threshold: Option<Bits>,
    decrement: Option<Bits>,
) -> Lightning {
    match frequency {
        Some(frequency) => if greater(frequency, ZERO) {
            Lightning {
                frequency,
                threshold: match threshold {
                    Some(threshold) => threshold,
                    None => USUAL_THRESHOLD,
                },
                decrement: match decrement {
                    Some(decrement) => super::skeleton::larger(decrement, LEAST_DECREMENT),
                    None => USUAL_DECREMENT,
                },
            }
        } else {
            no_lightning()
        },
        None => no_lightning(),
    }
}

impl Lightning {
    /// A weather that never flashes.
    pub fn none() -> (r: Lightning)
        ensures
            r == no_lightning(),
    {
        Lightning { frequency: ZERO, threshold: ZERO, decrement: USUAL_DECREMENT }
    }

    /// What a weather's own keys say about its lightning, or none where they say nothing.
    pub fn read(
        frequency: Option<Bits>,
        threshold: Option<Bits>,
        decrement: Option<Bits>,
    ) -> (r: Lightning)
        ensures
            r == lightning_of(frequency, threshold, decrement),
    {
        let frequency: Bits = match frequency {
            Some(frequency) => {
                if !is_greater(frequency, ZERO) {
                    return Lightning::none();
                }
                frequency
            },
            None => {
                return Lightning::none();
            },
        };
        Lightning {
            frequency,
            threshold: match threshold {
                Some(threshold) => threshold,
                None => USUAL_THRESHOLD,
            },
            decrement: match decrement {
                Some(decrement) => super::skeleton::max(decrement, LEAST_DECREMENT),
                None => USUAL_DECREMENT,
            },
        }
    }

    /// Whether this weather has lightning at all.
    pub fn strikes(&self) -> (r: bool)
        ensures
            r == greater(self.frequency, ZERO),
    {
        is_greater(self.frequency, ZERO)
    }
}

/// The first of some flashes from `from` on that has a channel and stands ahead, or how many there
/// are.
pub open spec fn first_ahead(kinds: Seq<Discharge>, ahead: Seq<bool>, from: int) -> int
    decreases kinds.len() - from,
{
    if from >= kinds.len() || (kinds[from] != Discharge::Sheet && ahead[from]) {
        from
    } else {
        first_ahead(kinds, ahead, from + 1)
    }
}

/// The first of some flashes from `from` on that has a channel, or how many there are.
pub open spec fn first_channel(kinds: Seq<Discharge>, from: int) -> int
    decreases kinds.len() - from,
{
    if from >= kinds.len() || kinds[from] != Discharge::Sheet {
        from
    } else {
        first_channel(kinds, from + 1)
    }
}

/// Which of a storm's coming flashes to bring forward for an eye that asked for a bolt: the first
/// that has a channel and stands in front, or failing that the first that has a channel at all, or
/// none where all of them are hidden in the deck.
///
/// A channel behind you is worth more than no channel in front of you.
pub fn stage(kinds: &Vec<Discharge>, ahead: &Vec<bool>) -> (r: Option<usize>)
    requires
        ahead@.len() == kinds@.len(),
    ensures
        ({
            let best = first_ahead(kinds@, ahead@, 0);
            let any = first_channel(kinds@, 0);
            match r {
                Some(i) => if best < kinds@.len() {
                    i == best
                } else {
                    any < kinds@.len() && i == any
                },
                None => best >= kinds@.len() && any >= kinds@.len(),
            }
        }),
        r matches Some(i) ==> i < kinds@.len() && kinds@[i as int] != Discharge::Sheet,
{
    let mut anywhere: Option<usize> = None;
    let mut i: usize = 0;
    while i < kinds.len()
        invariant
            i <= kinds@.len(),
            ahead@.len() == kinds@.len(),
            first_ahead(kinds@, ahead@, 0) == first_ahead(kinds@, ahead@, i as int),
            match anywhere {
                Some(k) => k < i && first_channel(kinds@, 0) == k && kinds@[k as int]
                    != Discharge::Sheet,
                None => first_channel(kinds@, 0) == first_channel(kinds@, i as int),
            },
        decreases kinds@.len() - i,
    {
        if kinds[i] != Discharge::Sheet {
            if ahead[i] {
                return Some(i);
            }
            if anywhere.is_none() {
                anywhere = Some(i);
            }
        }
        i = i + 1;
    }
    anywhere
}

/// Folding a number's high bits into its low ones by thirty places loses nothing.
proof fn lemma_fold_30(x: u64, y: u64)
    by (bit_vector)
    requires
        x ^ (x >> 30) == y ^ (y >> 30),
    ensures
        x == y,
{
}

/// Folding a number's high bits into its low ones by twenty-seven places loses nothing.
proof fn lemma_fold_27(x: u64, y: u64)
    by (bit_vector)
    requires
        x ^ (x >> 27) == y ^ (y >> 27),
    ensures
        x == y,
{
}

/// Folding a number's high bits into its low ones by thirty-one places loses nothing.
proof fn lemma_fold_31(x: u64, y: u64)
    by (bit_vector)
    requires
        x ^ (x >> 31) == y ^ (y >> 31),
    ensures
        x == y,
{
}

/// Multiplying by a number that has an inverse loses nothing.
proof fn lemma_multiply(x: u64, by: u64, inverse: u64)
    requires
        (by as int * inverse as int) % 0x1_0000_0000_0000_0000 == 1,
    ensures
        (x.wrapping_mul(by) as int * inverse as int) % 0x1_0000_0000_0000_0000 == x,
{
    let m = 0x1_0000_0000_0000_0000int;
    let (a, b, c) = (x as int, by as int, inverse as int);
    lemma_mul_mod_noop_left(a * b, c, m);
    lemma_mul_is_associative(a, b, c);
    lemma_mul_mod_noop_right(a, b * c, m);
    lemma_small_mod(x as nat, m as nat);
}

/// **No two numbers scramble to the same**, so every flash of a storm has a seed of its own.
pub proof fn law_every_flash_has_its_own_seed(x: u64, y: u64)
    requires
        hashed(x) == hashed(y),
    ensures
        x == y,
{
    let (a, p) = (
        x.wrapping_add(GOLDEN).wrapping_mul(GOLDEN),
        y.wrapping_add(GOLDEN).wrapping_mul(GOLDEN),
    );
    let (b, q) = (a ^ (a >> 30), p ^ (p >> 30));
    let (c, r) = (b.wrapping_mul(MIX), q.wrapping_mul(MIX));
    let (d, s) = (c ^ (c >> 27), r ^ (r >> 27));
    lemma_fold_31(d, s);
    lemma_fold_27(c, r);
    assert((0xBF58_476D_1CE4_E5B9int * 0x96DE_1B17_3F11_9089int) % 0x1_0000_0000_0000_0000 == 1);
    lemma_multiply(b, MIX, 0x96DE_1B17_3F11_9089);
    lemma_multiply(q, MIX, 0x96DE_1B17_3F11_9089);
    lemma_fold_30(a, p);
    assert((0x9E37_79B9_7F4A_7C15int * 0xF1DE_83E1_9937_733Dint) % 0x1_0000_0000_0000_0000 == 1);
    lemma_multiply(x.wrapping_add(GOLDEN), GOLDEN, 0xF1DE_83E1_9937_733D);
    lemma_multiply(y.wrapping_add(GOLDEN), GOLDEN, 0xF1DE_83E1_9937_733D);
}

} // verus!
