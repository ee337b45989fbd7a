//! Which bones move a vertex.

use super::bits::{
    greater, is_greater, not_a_number, rank, ranks_below, Bits, ZERO,
};
use vstd::prelude::*;

verus! {

/// How many bones one vertex may follow.
///
/// Very few vertices follow more, and those lose their smallest share: carrying another slot for
/// them would cost every vertex in the world a part of its weight data.
pub const INFLUENCES: usize = 4;

/// One bone's claim on one vertex, before the claims are cut down to [`INFLUENCES`].
#[derive(Debug, Clone, Copy)]
pub struct Share {
    pub bone: u32,
    pub weight: Bits,
}

/// Which bones move one vertex, and by how much before the weights are scaled to sum to one.
///
/// A vertex following fewer than [`INFLUENCES`] bones pads with zero weights.
#[derive(Debug, Clone, Copy)]
pub struct Influence {
    pub bones: [u8; 4],
    pub weights: [Bits; 4],
}

/// A claim of nothing.
pub open spec fn no_share() -> Share {
    Share { bone: 0, weight: ZERO }
}

/// The first of the weakest among the first `n` of some claims.
pub open spec fn weakest(shares: Seq<Share>, n: nat) -> int
    decreases n,
{
    if n <= 1 {
        0
    } else {
        let before = weakest(shares, (n - 1) as nat);
        if rank(shares[n - 1].weight) < rank(shares[before].weight) {
            n - 1
        } else {
            before
        }
    }
}

/// Slots after one more claim: it takes the weakest one's place where it is stronger.
pub open spec fn claimed(slots: Seq<Share>, share: Share) -> Seq<Share> {
    let at = weakest(slots, INFLUENCES as nat);
    if greater(share.weight, slots[at].weight) {
        slots.update(at, share)
    } else {
        slots
    }
}

/// The slots the first `n` of some claims leave.
pub open spec fn kept(shares: Seq<Share>, n: nat) -> Seq<Share>
    decreases n,
{
    if n == 0 {
        seq![no_share(), no_share(), no_share(), no_share()]
    } else {
        claimed(kept(shares, (n - 1) as nat), shares[n - 1])
    }
}

/// The strongest [`INFLUENCES`] claims on a vertex. Bones are numbered in bytes.
pub open spec fn strongest(shares: Seq<Share>) -> Influence {
    let slots = kept(shares, shares.len());
    Influence {
        bones: [
            (slots[0].bone % 0x100) as u8,
            (slots[1].bone % 0x100) as u8,
            (slots[2].bone % 0x100) as u8,
            (slots[3].bone % 0x100) as u8,
        ],
        weights: [slots[0].weight, slots[1].weight, slots[2].weight, slots[3].weight],
    }
}

/// The weakest claim is no stronger than any.
proof fn lemma_weakest(shares: Seq<Share>, n: nat)
    requires
        1 <= n <= shares.len(),
    ensures
        0 <= weakest(shares, n) < n,
        forall|i: int|
            0 <= i < n ==> rank(shares[weakest(shares, n)].weight) <= rank(
                (#[trigger] shares[i]).weight,
            ),
    decreases n,
{
    if n > 1 {
        lemma_weakest(shares, (n - 1) as nat);
    }
}

/// Four slots are kept, and none holds what is not a number.
proof fn lemma_kept(shares: Seq<Share>, n: nat)
    requires
        n <= shares.len(),
    ensures
        kept(shares, n).len() == INFLUENCES,
        forall|i: int|
            0 <= i < INFLUENCES ==> !not_a_number((#[trigger] kept(shares, n)[i]).weight),
    decreases n,
{
    if n > 0 {
        lemma_kept(shares, (n - 1) as nat);
        lemma_weakest(kept(shares, (n - 1) as nat), INFLUENCES as nat);
    }
}

/// The strongest [`INFLUENCES`] claims on a vertex.
pub fn influence_of(shares: &Vec<Share>) -> (r: Influence)
    ensures
        r == strongest(shares@),
{
    let nothing: Share = Share { bone: 0, weight: ZERO };
    let mut slots: Vec<Share> = vec![nothing, nothing, nothing, nothing];
    assert(slots@ =~= kept(shares@, 0));
    let mut i: usize = 0;
    while i < shares.len()
        invariant
            i <= shares@.len(),
            slots@ == kept(shares@, i as nat),
            slots@.len() == INFLUENCES,
        decreases shares@.len() - i,
    {
        let mut at: usize = 0;
        let mut k: usize = 1;
        while k < INFLUENCES
            invariant
                1 <= k <= INFLUENCES,
                slots@.len() == INFLUENCES,
                at < k,
                at == weakest(slots@, k as nat),
            decreases INFLUENCES - k,
        {
            if ranks_below(slots[k].weight, slots[at].weight) {
                at = k;
            }
            k = k + 1;
        }
        if is_greater(shares[i].weight, slots[at].weight) {
            slots.set(at, shares[i]);
        }
        i = i + 1;
    }
    Influence {
        bones: [
            (slots[0].bone % 0x100) as u8,
            (slots[1].bone % 0x100) as u8,
            (slots[2].bone % 0x100) as u8,
            (slots[3].bone % 0x100) as u8,
        ],
        weights: [slots[0].weight, slots[1].weight, slots[2].weight, slots[3].weight],
    }
}

/// **No claim is dropped while a weaker one is kept**: a claim stronger than what some slot holds
/// is in a slot itself.
pub proof fn law_the_strongest_claims_are_kept(shares: Seq<Share>, n: nat, i: int, slot: int)
    requires
        0 <= i < n <= shares.len(),
        0 <= slot < INFLUENCES,
        greater(shares[i].weight, kept(shares, n)[slot].weight),
    ensures
        kept(shares, n).contains(shares[i]),
    decreases n,
{
    let before = kept(shares, (n - 1) as nat);
    let after = kept(shares, n);
    let share = shares[n - 1];
    let at = weakest(before, INFLUENCES as nat);
    lemma_kept(shares, (n - 1) as nat);
    lemma_weakest(before, INFLUENCES as nat);
    if i == n - 1 {
        if greater(share.weight, before[at].weight) {
            assert(after[at] == share);
        } else {
            assert(after[slot] == before[slot]);
            assert(rank(before[at].weight) <= rank(before[slot].weight));
            assert(false);
        }
    } else if greater(share.weight, before[at].weight) {
        let other = if slot == at {
            at
        } else {
            slot
        };
        if slot == at {
            assert(after[at] == share);
            assert(greater(shares[i].weight, before[at].weight));
        } else {
            assert(after[slot] == before[slot]);
        }
        law_the_strongest_claims_are_kept(shares, (n - 1) as nat, i, other);
        let k = before.index_of(shares[i]);
        assert(before[k] == shares[i]);
        if k == at {
            assert(rank(before[at].weight) <= rank(before[slot].weight));
            assert(false);
        }
        assert(after[k] == shares[i]);
    } else {
        law_the_strongest_claims_are_kept(shares, (n - 1) as nat, i, slot);
    }
}

/// **Everything kept is a claim that was made, or nothing.**
pub proof fn law_only_claims_are_kept(shares: Seq<Share>, n: nat, slot: int)
    requires
        n <= shares.len(),
        0 <= slot < INFLUENCES,
    ensures
        shares.contains(kept(shares, n)[slot]) || kept(shares, n)[slot] == no_share(),
    decreases n,
{
    if n > 0 {
        lemma_kept(shares, (n - 1) as nat);
        lemma_weakest(kept(shares, (n - 1) as nat), INFLUENCES as nat);
        law_only_claims_are_kept(shares, (n - 1) as nat, slot);
        if kept(shares, n)[slot] != kept(shares, (n - 1) as nat)[slot] {
            assert(kept(shares, n)[slot] == shares[n - 1]);
        }
    }
}

} // verus!
