//! What holds of everything that moves: the bones a vertex keeps, the joints of a skeleton and what
//! plays on them.

use super::actor::{body_shares, ActorModel};
use super::bits::{greater, not_a_number, Bits};
use super::influence::{
    kept, law_only_claims_are_kept, law_the_strongest_claims_are_kept, strongest, weakest, Share,
};
use super::nif::{Block, Controller, Keyframes, Link, Nif, Node};
use super::rig::{influences_of, is_motionless, played_by};
use super::skeleton::{
    hung, longest, played, queued, visited, walk_start, walked, ChannelModel, WalkModel, NO_PARENT,
};
use vstd::prelude::*;

verus! {

/// **Each slot of an influence is one claim**: the bone and the weight in it are those of one and
/// the same claim on the vertex, or both are nothing.
pub proof fn law_a_slot_is_one_claim(shares: Seq<Share>, slot: int)
    requires
        0 <= slot < 4,
    ensures
        (strongest(shares).bones@[slot] == 0 && strongest(shares).weights@[slot] == 0)
            || exists|j: int|
            0 <= j < shares.len() && strongest(shares).bones@[slot] == (#[trigger] shares[j]).bone
                % 0x100 && strongest(shares).weights@[slot] == shares[j].weight,
{
    law_only_claims_are_kept(shares, shares.len(), slot);
    let held = kept(shares, shares.len())[slot];
    if shares.contains(held) {
        let j = shares.index_of(held);
        assert(shares[j] == held);
    }
}

/// **No claim is left out that is stronger than one that is kept.**
pub proof fn law_no_stronger_claim_is_left_out(shares: Seq<Share>, i: int, slot: int)
    requires
        0 <= i < shares.len(),
        0 <= slot < 4,
        greater(shares[i].weight, strongest(shares).weights@[slot]),
    ensures
        exists|other: int|
            0 <= other < 4 && #[trigger] strongest(shares).weights@[other] == shares[i].weight
                && strongest(shares).bones@[other] == shares[i].bone % 0x100,
{
    law_the_strongest_claims_are_kept(shares, shares.len(), i, slot);
    lemma_four_kept(shares, shares.len());
    let slots = kept(shares, shares.len());
    let other = slots.index_of(shares[i]);
    assert(slots[other] == shares[i]);
    assert(strongest(shares).weights@[other] == shares[i].weight);
}

/// Four slots are kept, each nothing or one of the claims made so far.
proof fn lemma_four_kept(shares: Seq<Share>, n: nat)
    requires
        n <= shares.len(),
    ensures
        kept(shares, n).len() == 4,
        forall|s: int|
            0 <= s < 4 ==> (#[trigger] kept(shares, n)[s]) == (Share { bone: 0, weight: 0 }) || (
            greater(kept(shares, n)[s].weight, 0) && exists|j: int|
                0 <= j < n && kept(shares, n)[s] == #[trigger] shares[j]),
    decreases n,
{
    if n > 0 {
        lemma_four_kept(shares, (n - 1) as nat);
        let before = kept(shares, (n - 1) as nat);
        let after = kept(shares, n);
        let at = weakest(before, 4);
        reveal_with_fuel(weakest, 4);
        assert forall|s: int| 0 <= s < 4 implies (#[trigger] after[s]) == (Share {
            bone: 0,
            weight: 0,
        }) || (greater(after[s].weight, 0) && exists|j: int|
            0 <= j < n && after[s] == #[trigger] shares[j]) by {
            if after[s] == before[s] {
                if before[s] != (Share { bone: 0, weight: 0 }) {
                    let j = choose|j: int| 0 <= j < n - 1 && before[s] == #[trigger] shares[j];
                    assert(after[s] == shares[j]);
                }
            } else {
                assert(after[s] == shares[n - 1]);
                assert(greater(shares[n - 1].weight, before[at].weight));
                assert(before[at] == before[at]);
            }
        }
    }
}

/// Whether no bone claims a vertex twice.
pub open spec fn claims_are_apart(shares: Seq<Share>) -> bool {
    forall|i: int, j: int|
        #![trigger shares[i], shares[j]]
        0 <= i < j < shares.len() ==> shares[i].bone != shares[j].bone
}

/// Claims of different bones are kept in different slots.
proof fn lemma_kept_apart(shares: Seq<Share>, n: nat)
    requires
        n <= shares.len(),
        claims_are_apart(shares),
    ensures
        forall|a: int, b: int|
            #![trigger kept(shares, n)[a], kept(shares, n)[b]]
            0 <= a < 4 && 0 <= b < 4 && a != b && greater(kept(shares, n)[a].weight, 0) && greater(
                kept(shares, n)[b].weight,
                0,
            ) ==> kept(shares, n)[a].bone != kept(shares, n)[b].bone,
    decreases n,
{
    if n > 0 {
        lemma_kept_apart(shares, (n - 1) as nat);
        lemma_four_kept(shares, (n - 1) as nat);
        let before = kept(shares, (n - 1) as nat);
        let after = kept(shares, n);
        let at = weakest(before, 4);
        reveal_with_fuel(weakest, 4);
        assert forall|a: int, b: int|
            #![trigger after[a], after[b]]
            0 <= a < 4 && 0 <= b < 4 && a != b && greater(after[a].weight, 0) && greater(
                after[b].weight,
                0,
            ) implies after[a].bone != after[b].bone by {
            if after != before {
                if a == at {
                    assert(after[b] == before[b]);
                    let j = choose|j: int| 0 <= j < n - 1 && before[b] == #[trigger] shares[j];
                    assert(shares[j].bone != shares[n - 1].bone);
                } else if b == at {
                    assert(after[a] == before[a]);
                    let j = choose|j: int| 0 <= j < n - 1 && before[a] == #[trigger] shares[j];
                    assert(shares[j].bone != shares[n - 1].bone);
                } else {
                    assert(after[a] == before[a] && after[b] == before[b]);
                }
            } else {
                assert(after[a] == before[a] && after[b] == before[b]);
            }
        }
    }
}

/// **A claim is kept once**: of bones that a byte can number, none that claims a vertex once moves it
/// through two slots.
pub proof fn law_a_claim_is_kept_once(shares: Seq<Share>, a: int, b: int)
    requires
        claims_are_apart(shares),
        forall|i: int| 0 <= i < shares.len() ==> (#[trigger] shares[i]).bone < 0x100,
        0 <= a < b < 4,
        greater(strongest(shares).weights@[a], 0),
        greater(strongest(shares).weights@[b], 0),
    ensures
        strongest(shares).bones@[a] != strongest(shares).bones@[b],
{
    lemma_kept_apart(shares, shares.len());
    lemma_four_kept(shares, shares.len());
    let slots = kept(shares, shares.len());
    let i = choose|i: int| 0 <= i < shares.len() && slots[a] == #[trigger] shares[i];
    let j = choose|j: int| 0 <= j < shares.len() && slots[b] == #[trigger] shares[j];
    assert(shares[i].bone < 0x100 && shares[j].bone < 0x100);
    assert(slots[a].bone != slots[b].bone);
}

/// **Where there is room for every claim, every claim is kept.**
pub proof fn law_four_claims_are_all_kept(shares: Seq<Share>, i: int)
    requires
        shares.len() <= 4,
        0 <= i < shares.len(),
        greater(shares[i].weight, 0),
    ensures
        exists|slot: int|
            0 <= slot < 4 && #[trigger] strongest(shares).weights@[slot] == shares[i].weight
                && strongest(shares).bones@[slot] == shares[i].bone % 0x100,
{
    lemma_room(shares, shares.len());
    lemma_four_kept(shares, shares.len());
    let slots = kept(shares, shares.len());
    assert(slots.contains(shares[i]));
    let slot = slots.index_of(shares[i]);
    assert(strongest(shares).weights@[slot] == shares[i].weight);
}

/// While there is room, nothing is put out.
proof fn lemma_room(shares: Seq<Share>, n: nat)
    requires
        n <= shares.len() <= 4,
    ensures
        kept(shares, n).len() == 4,
        empty_slots(kept(shares, n)) >= 4 - n,
        forall|i: int|
            0 <= i < n && greater((#[trigger] shares[i]).weight, 0) ==> kept(shares, n).contains(
                shares[i],
            ),
    decreases n,
{
    if n > 0 {
        lemma_room(shares, (n - 1) as nat);
        lemma_four_kept(shares, (n - 1) as nat);
        let before = kept(shares, (n - 1) as nat);
        let after = kept(shares, n);
        let at = weakest(before, 4);
        reveal_with_fuel(weakest, 4);
        assert(before[0] == before[0] && before[1] == before[1] && before[2] == before[2]
            && before[3] == before[3]);
        assert(before[at] == (Share { bone: 0, weight: 0 }));
        assert forall|i: int| 0 <= i < n && greater((#[trigger] shares[i]).weight, 0) implies
            after.contains(shares[i]) by {
            if i == n - 1 {
                assert(after[at] == shares[i]);
            } else {
                let k = before.index_of(shares[i]);
                assert(before[k] == shares[i]);
                assert(after[k] == shares[i]);
            }
        }
    }
}

/// How many of four slots hold nothing.
spec fn empty_slots(slots: Seq<Share>) -> int {
    let empty = Share { bone: 0, weight: 0 };
    (if slots[0] == empty {
        1int
    } else {
        0
    }) + (if slots[1] == empty {
        1int
    } else {
        0
    }) + (if slots[2] == empty {
        1int
    } else {
        0
    }) + (if slots[3] == empty {
        1int
    } else {
        0
    })
}

/// **A node plays the keys of its first controller that moves it by keys.**
pub proof fn law_a_node_plays_its_first_keys(
    nif: &Nif,
    link: Link,
    controller: Controller,
    data: Keyframes,
    left: nat,
)
    requires
        nif.at(link) == Some(Block::Controller(controller)),
        controller.keyframe,
        nif.at(controller.data) == Some(Block::Keyframes(data)),
        left > 0,
    ensures
        played(nif, link, left).rotations == data.rotations@,
        played(nif, link, left).translations == data.translations@,
        played(nif, link, left).scales == data.scales@,
{
}

/// **A controller that moves nothing by keys is passed over**, and a chain of none but those plays
/// nothing.
pub proof fn law_other_controllers_are_passed_over(
    nif: &Nif,
    link: Link,
    controller: Controller,
    left: nat,
)
    requires
        nif.at(link) == Some(Block::Controller(controller)),
        !controller.keyframe || !(nif.at(controller.data) matches Some(Block::Keyframes(_))),
    ensures
        played(nif, link, left + 1) == played(nif, controller.next, left),
        nif.at(controller.next) is None ==> {
            let nothing = played(nif, link, left + 1);
            &&& nothing.rotations.len() == 0
            &&& nothing.translations.len() == 0
            &&& nothing.scales.len() == 0
        },
{
    reveal_with_fuel(played, 2);
}

/// Whether a moment comes no later than another.
pub open spec fn by_then(moment: Bits, end: Bits) -> bool {
    !not_a_number(end) && !greater(moment, end)
}

/// **A channel ends with its last key**: none of its tracks says anything later, and it ends with
/// one of them, or at nought where they say nothing.
pub proof fn law_a_channel_ends_with_its_last_key(channel: ChannelModel)
    requires
        channel.rotations.len() > 0 ==> !not_a_number(channel.rotations.last().time),
        channel.translations.len() > 0 ==> !not_a_number(channel.translations.last().time),
        channel.scales.len() > 0 ==> !not_a_number(channel.scales.last().time),
    ensures
        ({
            let end = channel.ends();
            &&& channel.rotations.len() > 0 ==> by_then(channel.rotations.last().time, end)
            &&& channel.translations.len() > 0 ==> by_then(channel.translations.last().time, end)
            &&& channel.scales.len() > 0 ==> by_then(channel.scales.last().time, end)
            &&& end == 0 || (channel.rotations.len() > 0 && end == channel.rotations.last().time)
                || (channel.translations.len() > 0 && end == channel.translations.last().time) || (
            channel.scales.len() > 0 && end == channel.scales.last().time)
        }),
{
}

/// **A clip lasts as long as its longest channel**: none of its channels ends later, and it ends
/// with one of them, or at nought where there is none that ends after that.
pub proof fn law_a_clip_lasts_as_long_as_its_longest(channels: Seq<ChannelModel>, n: nat)
    requires
        n <= channels.len(),
        forall|i: int| 0 <= i < channels.len() ==> !not_a_number((#[trigger] channels[i]).ends()),
    ensures
        !not_a_number(longest(channels, n)),
        forall|i: int|
            0 <= i < n ==> by_then((#[trigger] channels[i]).ends(), longest(channels, n)),
        longest(channels, n) == 0 || exists|i: int|
            0 <= i < n && longest(channels, n) == (#[trigger] channels[i]).ends(),
    decreases n,
{
    if n > 0 {
        law_a_clip_lasts_as_long_as_its_longest(channels, (n - 1) as nat);
        assert(!not_a_number(channels[n - 1].ends()));
    }
}

/// Whether a block hangs from a joint: it is a child of that joint's node, or a root where it hangs
/// from none.
pub open spec fn hangs_from(nif: &Nif, blocks: Seq<u32>, link: Link, joint: u16) -> bool {
    if joint == 0xFFFF {
        nif.roots@.contains(link)
    } else {
        joint < blocks.len() && (nif.at(Link(Some(blocks[joint as int]))) matches Some(
            Block::Node(node),
        ) && node.children@.contains(link))
    }
}

/// Whether a walk so far is true to the graph it walks.
spec fn is_true(nif: &Nif, walk: WalkModel) -> bool {
    &&& walk.parents.len() == walk.blocks.len()
    &&& walk.parents.len() <= 0xFFFF
    &&& walk.by_block.len() == nif.blocks@.len()
    &&& forall|j: int|
        #![trigger walk.blocks[j]]
        0 <= j < walk.blocks.len() ==> (nif.at(Link(Some(walk.blocks[j]))) matches Some(
            Block::Node(_),
        )) && hangs_from(nif, walk.blocks, Link(Some(walk.blocks[j])), walk.parents[j])
    &&& forall|q: int|
        0 <= q < walk.queue.len() ==> hangs_from(
            nif,
            walk.blocks,
            (#[trigger] walk.queue[q]).0,
            walk.queue[q].1,
        )
}

/// What hangs from a joint still does when more joints are numbered.
proof fn lemma_still_hangs(nif: &Nif, blocks: Seq<u32>, block: u32, link: Link, joint: u16)
    requires
        hangs_from(nif, blocks, link, joint),
    ensures
        hangs_from(nif, blocks.push(block), link, joint),
{
    if joint != 0xFFFF {
        assert(blocks.push(block)[joint as int] == blocks[joint as int]);
    }
}

/// A walk stays true to its graph.
proof fn lemma_walk_is_true(nif: &Nif, walk: WalkModel)
    requires
        is_true(nif, walk),
        walked(nif, walk) is Some,
    ensures
        is_true(nif, walked(nif, walk)->0),
        walked(nif, walk)->0.queue.len() == 0,
    decreases NO_PARENT + 1 - walk.parents.len(), walk.queue.len(),
{
    if walk.queue.len() > 0 {
        let (link, parent) = walk.queue[0];
        match nif.at(link) {
            Some(Block::Node(node)) => {
                let block = link.0->0;
                assert(link == Link(Some(block)));
                let next = visited(walk, node, block, parent);
                lemma_visit_is_true(nif, walk, node, block, parent);
                lemma_walk_is_true(nif, next);
            },
            _ => {
                let next = WalkModel { queue: walk.queue.drop_first(), ..walk };
                lemma_drop_is_true(nif, walk);
                lemma_walk_is_true(nif, next);
            },
        }
    }
}

/// Writing joints against children changes no other block, and how many there are.
proof fn lemma_hung(by_block: Seq<u16>, children: Seq<Link>, joint: u16, n: nat, b: int)
    requires
        n <= children.len(),
        0 <= b < by_block.len(),
        by_block.len() <= u32::MAX,
    ensures
        hung(by_block, children, joint, n).len() == by_block.len(),
        hung(by_block, children, joint, n)[b] == (if children.take(n as int).contains(
            Link(Some(b as u32)),
        ) {
            joint
        } else {
            by_block[b]
        }),
    decreases n,
{
    let link = Link(Some(b as u32));
    if n > 0 {
        lemma_hung(by_block, children, joint, (n - 1) as nat, b);
        let (few, more) = (children.take(n - 1), children.take(n as int));
        assert(more =~= few.push(children[n - 1]));
        if few.contains(link) {
            let i = few.index_of(link);
            assert(more[i] == link);
        }
        if children[n - 1] == link {
            assert(more[n - 1] == link);
        }
        if more.contains(link) && children[n - 1] != link {
            let i = more.index_of(link);
            assert(few[i] == link);
        }
    }
}

/// One visit keeps a walk true to its graph.
proof fn lemma_visit_is_true(nif: &Nif, walk: WalkModel, node: Node, block: u32, parent: u16)
    requires
        is_true(nif, walk),
        walk.queue.len() > 0,
        walk.queue[0] == (Link(Some(block)), parent),
        nif.at(Link(Some(block))) == Some(Block::Node(node)),
        walk.parents.len() < 0xFFFF,
    ensures
        is_true(nif, visited(walk, node, block, parent)),
{
    let next = visited(walk, node, block, parent);
    let joint = walk.parents.len() as u16;
    let own = walk.by_block.update(block as int, joint);
    lemma_hung_len(own, node.children@, joint, node.children@.len());
    assert forall|j: int|
        #![trigger next.blocks[j]]
        0 <= j < next.blocks.len() implies (nif.at(Link(Some(next.blocks[j]))) matches Some(
        Block::Node(_),
    )) && hangs_from(nif, next.blocks, Link(Some(next.blocks[j])), next.parents[j]) by {
        if j < walk.blocks.len() {
            assert(next.blocks[j] == walk.blocks[j]);
            lemma_still_hangs(
                nif,
                walk.blocks,
                block,
                Link(Some(walk.blocks[j])),
                walk.parents[j],
            );
        } else {
            lemma_still_hangs(nif, walk.blocks, block, Link(Some(block)), parent);
        }
    }
    let rest = walk.queue.drop_first();
    assert forall|q: int| 0 <= q < next.queue.len() implies hangs_from(
        nif,
        next.blocks,
        (#[trigger] next.queue[q]).0,
        next.queue[q].1,
    ) by {
        if q < rest.len() {
            assert(next.queue[q] == walk.queue[q + 1]);
            lemma_still_hangs(
                nif,
                walk.blocks,
                block,
                walk.queue[q + 1].0,
                walk.queue[q + 1].1,
            );
        } else {
            let k = q - rest.len();
            assert(next.queue[q] == queued(node.children@, joint)[k]);
            assert(next.queue[q] == (node.children@[k], joint));
            assert(node.children@.contains(node.children@[k]));
            assert(next.blocks[joint as int] == block);
        }
    }
}

/// Writing joints against children keeps how many blocks there are.
proof fn lemma_hung_len(by_block: Seq<u16>, children: Seq<Link>, joint: u16, n: nat)
    ensures
        hung(by_block, children, joint, n).len() == by_block.len(),
    decreases n,
{
    if n > 0 {
        lemma_hung_len(by_block, children, joint, (n - 1) as nat);
    }
}

/// A walk starts true to its graph.
proof fn lemma_start_is_true(nif: &Nif)
    ensures
        is_true(nif, walk_start(nif)),
{
    let walk = walk_start(nif);
    assert forall|q: int| 0 <= q < walk.queue.len() implies hangs_from(
        nif,
        walk.blocks,
        (#[trigger] walk.queue[q]).0,
        walk.queue[q].1,
    ) by {
        assert(walk.queue[q].0 == nif.roots@[q]);
    }
}

/// **A joint is a node that hangs from its parent's**: its node is a child of the node its parent
/// is, or a root of the file where it has no parent.
pub proof fn law_a_joint_hangs_from_its_parent(nif: &Nif, j: int)
    requires
        walked(nif, walk_start(nif)) is Some,
        0 <= j < walked(nif, walk_start(nif))->0.blocks.len(),
    ensures
        ({
            let walk = walked(nif, walk_start(nif))->0;
            &&& (nif.at(Link(Some(walk.blocks[j]))) matches Some(Block::Node(_)))
            &&& hangs_from(nif, walk.blocks, Link(Some(walk.blocks[j])), walk.parents[j])
        }),
{
    lemma_start_is_true(nif);
    lemma_walk_is_true(nif, walk_start(nif));
    let walk = walked(nif, walk_start(nif))->0;
    assert(walk.blocks[j] == walk.blocks[j]);
}

/// Whether a joint is the node a link names, hung from a parent.
pub open spec fn is_joint(walk: WalkModel, link: Link, parent: u16) -> bool {
    exists|i: int|
        #![trigger walk.blocks[i]]
        0 <= i < walk.blocks.len() && link == Link(Some(walk.blocks[i])) && walk.parents[i]
            == parent
}

/// Whether every node that hangs from what a walk has numbered is numbered too, or about to be.
spec fn nothing_is_lost(nif: &Nif, walk: WalkModel) -> bool {
    forall|link: Link, parent: u16|
        #![trigger hangs_from(nif, walk.blocks, link, parent)]
        hangs_from(nif, walk.blocks, link, parent) && (nif.at(link) matches Some(Block::Node(_)))
            ==> is_joint(walk, link, parent) || walk.queue.contains((link, parent))
}

/// A walk loses no node.
proof fn lemma_nothing_is_lost(nif: &Nif, walk: WalkModel)
    requires
        is_true(nif, walk),
        nothing_is_lost(nif, walk),
        walked(nif, walk) is Some,
    ensures
        nothing_is_lost(nif, walked(nif, walk)->0),
    decreases NO_PARENT + 1 - walk.parents.len(), walk.queue.len(),
{
    if walk.queue.len() > 0 {
        let (link, parent) = walk.queue[0];
        match nif.at(link) {
            Some(Block::Node(node)) => {
                let block = link.0->0;
                assert(link == Link(Some(block)));
                lemma_visit_is_true(nif, walk, node, block, parent);
                lemma_visit_loses_nothing(nif, walk, node, block, parent);
                lemma_nothing_is_lost(nif, visited(walk, node, block, parent));
            },
            _ => {
                let next = WalkModel { queue: walk.queue.drop_first(), ..walk };
                lemma_drop_is_true(nif, walk);
                assert forall|l: Link, p: u16|
                    #![trigger hangs_from(nif, next.blocks, l, p)]
                    hangs_from(nif, next.blocks, l, p) && (nif.at(l) matches Some(Block::Node(_)))
                    implies is_joint(next, l, p) || next.queue.contains((l, p)) by {
                    assert(hangs_from(nif, walk.blocks, l, p));
                    if walk.queue.contains((l, p)) {
                        let q = walk.queue.index_of((l, p));
                        assert(next.queue[q - 1] == (l, p));
                    } else {
                        let i = choose|i: int|
                            #![trigger walk.blocks[i]]
                            0 <= i < walk.blocks.len() && l == Link(Some(walk.blocks[i]))
                                && walk.parents[i] == p;
                        assert(next.blocks[i] == walk.blocks[i]);
                    }
                }
                lemma_nothing_is_lost(nif, next);
            },
        }
    }
}

/// One visit loses no node.
proof fn lemma_visit_loses_nothing(nif: &Nif, walk: WalkModel, node: Node, block: u32, parent: u16)
    requires
        is_true(nif, walk),
        nothing_is_lost(nif, walk),
        walk.queue.len() > 0,
        walk.queue[0] == (Link(Some(block)), parent),
        nif.at(Link(Some(block))) == Some(Block::Node(node)),
        walk.parents.len() < 0xFFFF,
    ensures
        nothing_is_lost(nif, visited(walk, node, block, parent)),
{
    let next = visited(walk, node, block, parent);
    let joint = walk.parents.len() as u16;
    let rest = walk.queue.drop_first();
    assert forall|l: Link, p: u16|
        #![trigger hangs_from(nif, next.blocks, l, p)]
        hangs_from(nif, next.blocks, l, p) && (nif.at(l) matches Some(Block::Node(_))) implies
        is_joint(next, l, p) || next.queue.contains((l, p)) by {
        if p == joint {
            assert(next.blocks[p as int] == block);
            let k = node.children@.index_of(l);
            assert(queued(node.children@, joint)[k] == (l, p));
            assert(next.queue[rest.len() + k] == (l, p));
        } else {
            if p != 0xFFFF {
                assert(next.blocks[p as int] == walk.blocks[p as int]);
            }
            assert(hangs_from(nif, walk.blocks, l, p));
            if is_joint(walk, l, p) {
                let i = choose|i: int|
                    #![trigger walk.blocks[i]]
                    0 <= i < walk.blocks.len() && l == Link(Some(walk.blocks[i]))
                        && walk.parents[i] == p;
                assert(next.blocks[i] == walk.blocks[i]);
            } else {
                let q = walk.queue.index_of((l, p));
                if q == 0 {
                    assert(next.blocks[joint as int] == block);
                } else {
                    assert(next.queue[q - 1] == (l, p));
                }
            }
        }
    }
}

/// **Every node that hangs from a joint is a joint**, and so is every node that is a root of the
/// file: it is numbered once for each place it hangs at.
pub proof fn law_every_node_is_a_joint(nif: &Nif, link: Link, parent: u16)
    requires
        walked(nif, walk_start(nif)) is Some,
        hangs_from(nif, walked(nif, walk_start(nif))->0.blocks, link, parent),
        nif.at(link) matches Some(Block::Node(_)),
    ensures
        is_joint(walked(nif, walk_start(nif))->0, link, parent),
{
    let start = walk_start(nif);
    lemma_start_is_true(nif);
    assert(nothing_is_lost(nif, start)) by {
        assert forall|l: Link, p: u16|
            #![trigger hangs_from(nif, start.blocks, l, p)]
            hangs_from(nif, start.blocks, l, p) && (nif.at(l) matches Some(Block::Node(_))) implies
            is_joint(start, l, p) || start.queue.contains((l, p)) by {
            let r = nif.roots@.index_of(l);
            assert(start.queue[r] == (l, p));
        }
    }
    lemma_walk_is_true(nif, start);
    lemma_nothing_is_lost(nif, start);
}

/// Whether the joint written against each block is its own, or the one it hangs from; and where the
/// block is a node that has none of its own yet, it is about to be visited.
spec fn is_written(nif: &Nif, walk: WalkModel) -> bool {
    &&& forall|b: u32|
        #![trigger walk.by_block[b as int]]
        b < walk.by_block.len() && walk.by_block[b as int] != 0xFFFF ==> {
            let joint = walk.by_block[b as int];
            &&& joint < walk.blocks.len()
            &&& walk.blocks[joint as int] == b || (hangs_from(
                nif,
                walk.blocks,
                Link(Some(b)),
                joint,
            ) && ((nif.at(Link(Some(b))) matches Some(Block::Node(_))) ==> walk.queue.contains(
                (Link(Some(b)), joint),
            )))
        }
    &&& forall|b: u32, joint: u16|
        #![trigger hangs_from(nif, walk.blocks, Link(Some(b)), joint)]
        b < walk.by_block.len() && joint != 0xFFFF && hangs_from(
            nif,
            walk.blocks,
            Link(Some(b)),
            joint,
        ) ==> walk.by_block[b as int] != 0xFFFF
}

/// One visit writes the joints it should.
proof fn lemma_visit_writes(nif: &Nif, walk: WalkModel, node: Node, block: u32, parent: u16)
    requires
        is_true(nif, walk),
        is_written(nif, walk),
        nif.blocks@.len() <= u32::MAX,
        walk.queue.len() > 0,
        walk.queue[0] == (Link(Some(block)), parent),
        nif.at(Link(Some(block))) == Some(Block::Node(node)),
        walk.parents.len() < 0xFFFF,
    ensures
        is_written(nif, visited(walk, node, block, parent)),
{
    let next = visited(walk, node, block, parent);
    let joint = walk.parents.len() as u16;
    let own = walk.by_block.update(block as int, joint);
    let children = node.children@;
    let rest = walk.queue.drop_first();
    assert(children.take(children.len() as int) =~= children);
    assert(next.blocks[joint as int] == block);
    lemma_hung_len(own, children, joint, children.len());
    assert forall|b: u32|
        #![trigger next.by_block[b as int]]
        b < next.by_block.len() && next.by_block[b as int] != 0xFFFF implies ({
        let j = next.by_block[b as int];
        &&& j < next.blocks.len()
        &&& next.blocks[j as int] == b || (hangs_from(nif, next.blocks, Link(Some(b)), j) && ((
        nif.at(Link(Some(b))) matches Some(Block::Node(_))) ==> next.queue.contains(
            (Link(Some(b)), j),
        )))
    }) by {
        let link = Link(Some(b));
        lemma_hung(own, children, joint, children.len(), b as int);
        if children.contains(link) {
            let k = children.index_of(link);
            assert(queued(children, joint)[k] == (link, joint));
            assert(next.queue[rest.len() + k] == (link, joint));
            assert(hangs_from(nif, next.blocks, link, joint));
        } else if b != block {
            let j = walk.by_block[b as int];
            assert(next.by_block[b as int] == j);
            assert(next.blocks[j as int] == walk.blocks[j as int]);
            if walk.blocks[j as int] != b {
                lemma_still_hangs(nif, walk.blocks, block, link, j);
                if nif.at(link) matches Some(Block::Node(_)) {
                    let q = walk.queue.index_of((link, j));
                    assert(q != 0);
                    assert(next.queue[q - 1] == (link, j));
                }
            }
        }
    }
    assert forall|b: u32, j: u16|
        #![trigger hangs_from(nif, next.blocks, Link(Some(b)), j)]
        b < next.by_block.len() && j != 0xFFFF && hangs_from(
            nif,
            next.blocks,
            Link(Some(b)),
            j,
        ) implies next.by_block[b as int] != 0xFFFF by {
        lemma_hung(own, children, joint, children.len(), b as int);
        if j != joint {
            assert(next.blocks[j as int] == walk.blocks[j as int]);
            assert(hangs_from(nif, walk.blocks, Link(Some(b)), j));
        }
    }
}

/// Passing over what is no node keeps a walk true to its graph.
proof fn lemma_drop_is_true(nif: &Nif, walk: WalkModel)
    requires
        is_true(nif, walk),
        walk.queue.len() > 0,
    ensures
        is_true(nif, WalkModel { queue: walk.queue.drop_first(), ..walk }),
{
    let next = WalkModel { queue: walk.queue.drop_first(), ..walk };
    assert forall|q: int| 0 <= q < next.queue.len() implies hangs_from(
        nif,
        next.blocks,
        (#[trigger] next.queue[q]).0,
        next.queue[q].1,
    ) by {
        assert(next.queue[q] == walk.queue[q + 1]);
    }
}

/// Passing over what is no node keeps the joints that are written.
proof fn lemma_drop_writes(nif: &Nif, walk: WalkModel)
    requires
        is_written(nif, walk),
        walk.queue.len() > 0,
        !(nif.at(walk.queue[0].0) matches Some(Block::Node(_))),
    ensures
        is_written(nif, WalkModel { queue: walk.queue.drop_first(), ..walk }),
{
    let next = WalkModel { queue: walk.queue.drop_first(), ..walk };
    assert forall|b: u32|
        #![trigger next.by_block[b as int]]
        b < next.by_block.len() && next.by_block[b as int] != 0xFFFF implies ({
        let j = next.by_block[b as int];
        &&& j < next.blocks.len()
        &&& next.blocks[j as int] == b || (hangs_from(nif, next.blocks, Link(Some(b)), j) && ((
        nif.at(Link(Some(b))) matches Some(Block::Node(_))) ==> next.queue.contains(
            (Link(Some(b)), j),
        )))
    }) by {
        let j = walk.by_block[b as int];
        if walk.blocks[j as int] != b {
            if nif.at(Link(Some(b))) matches Some(Block::Node(_)) {
                let q = walk.queue.index_of((Link(Some(b)), j));
                assert(walk.queue[q] == (Link(Some(b)), j));
                assert(q != 0);
                assert(next.queue[q - 1] == (Link(Some(b)), j));
            }
        }
    }
}

/// A walk writes the joints it should.
proof fn lemma_walk_writes(nif: &Nif, walk: WalkModel)
    requires
        is_true(nif, walk),
        is_written(nif, walk),
        nif.blocks@.len() <= u32::MAX,
        walked(nif, walk) is Some,
    ensures
        is_written(nif, walked(nif, walk)->0),
    decreases NO_PARENT + 1 - walk.parents.len(), walk.queue.len(),
{
    if walk.queue.len() > 0 {
        let (link, parent) = walk.queue[0];
        match nif.at(link) {
            Some(Block::Node(node)) => {
                let block = link.0->0;
                assert(link == Link(Some(block)));
                lemma_visit_is_true(nif, walk, node, block, parent);
                lemma_visit_writes(nif, walk, node, block, parent);
                lemma_walk_writes(nif, visited(walk, node, block, parent));
            },
            _ => {
                let next = WalkModel { queue: walk.queue.drop_first(), ..walk };
                lemma_drop_is_true(nif, walk);
                lemma_drop_writes(nif, walk);
                lemma_walk_writes(nif, next);
            },
        }
    }
}

/// **A node is its own joint, and anything else is moved by the joint it hangs from**: the joint of
/// a block is the one numbered for it where it is a node, and otherwise one whose node has it among
/// its children. Every block that hangs from a joint has one.
pub proof fn law_a_block_is_moved_by_its_node(nif: &Nif, block: u32)
    requires
        walked(nif, walk_start(nif)) is Some,
        nif.blocks@.len() <= u32::MAX,
        block < nif.blocks@.len(),
    ensures
        ({
            let walk = walked(nif, walk_start(nif))->0;
            let joint = walk.by_block[block as int];
            &&& joint != 0xFFFF ==> joint < walk.blocks.len() && if nif.blocks@[block as int] is Node {
                walk.blocks[joint as int] == block
            } else {
                hangs_from(nif, walk.blocks, Link(Some(block)), joint)
            }
            &&& forall|j: int|
                0 <= j < walk.blocks.len() && (nif.at(
                    Link(Some(#[trigger] walk.blocks[j])),
                ) matches Some(Block::Node(node)) && node.children@.contains(Link(Some(block))))
                    ==> joint != 0xFFFF
        }),
{
    let start = walk_start(nif);
    lemma_start_is_true(nif);
    assert(is_written(nif, start));
    lemma_walk_is_true(nif, start);
    lemma_walk_writes(nif, start);
    let walk = walked(nif, start)->0;
    let joint = walk.by_block[block as int];
    if joint != 0xFFFF {
        assert(walk.blocks[joint as int] == walk.blocks[joint as int]);
    }
    assert forall|j: int|
        0 <= j < walk.blocks.len() && (nif.at(Link(Some(#[trigger] walk.blocks[j]))) matches Some(
            Block::Node(node),
        ) && node.children@.contains(Link(Some(block)))) implies joint != 0xFFFF by {
        assert(hangs_from(nif, walk.blocks, Link(Some(block)), j as u16));
    }
}

/// **A node plays what its own controllers play**, and a model moves where any of its nodes does.
pub proof fn law_a_node_plays_what_its_controllers_do(nif: &Nif, walk: WalkModel, j: int, node: Node)
    requires
        0 <= j < walk.blocks.len(),
        walk.blocks[j] < nif.blocks@.len(),
        nif.blocks@[walk.blocks[j] as int] == Block::Node(node),
    ensures
        played_by(nif, walk.blocks[j]) == played(nif, node.object.controller, nif.blocks@.len()),
        ({
            let keys = played(nif, node.object.controller, nif.blocks@.len());
            keys.rotations.len() > 0 || keys.translations.len() > 0 || keys.scales.len() > 0
        }) ==> !is_motionless(nif, walk),
{
    let keys = played(nif, node.object.controller, nif.blocks@.len());
    assert(played_by(nif, walk.blocks[j]).is_silent() == keys.is_silent());
}

/// **Every vertex follows the strongest of the claims on itself**: as many influences as there are
/// vertices, each of its own.
pub proof fn law_each_vertex_keeps_its_own_claims(shares: Seq<Seq<Share>>, v: int)
    requires
        0 <= v < shares.len(),
    ensures
        influences_of(shares).len() == shares.len(),
        influences_of(shares)[v] == strongest(shares[v]),
{
}

/// **A vertex of a body that nothing claims follows nothing**, and any other what is claimed on it.
pub proof fn law_a_body_keeps_the_claims_on_its_vertices(all: ActorModel, v: int)
    requires
        0 <= v < all.mesh.positions.len(),
    ensures
        v < body_shares(all).len(),
        v < all.held.shares.len() ==> body_shares(all)[v] == all.held.shares[v],
        v >= all.held.shares.len() ==> body_shares(all)[v].len() == 0,
{
}

} // verus!
