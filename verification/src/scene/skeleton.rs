//! The joints of a model and what moves them.

use super::bits::{greater, is_greater, is_nan, not_a_number, Bits, ZERO};
use super::mesh::push_all;
use super::nif::{Block, FloatKey, Link, Nif, Node, QuaternionKey, Transform, VectorKey};
use std::collections::VecDeque;
use vstd::prelude::*;

verus! {

/// Marks a joint with no parent, which is where a skeleton's walk starts.
pub const NO_PARENT: u16 = 0xFFFF;

/// One joint's animation: what the file says it does, channel by channel.
///
/// A channel with no keys means the joint keeps its rest transform in that respect, which is why
/// they are separate rather than one list of poses.
#[derive(Debug)]
pub struct Channel {
    pub rotations: Vec<QuaternionKey>,
    pub translations: Vec<VectorKey>,
    pub scales: Vec<FloatKey>,
}

/// What a [`Channel`] is.
#[verifier::ext_equal]
pub struct ChannelModel {
    pub rotations: Seq<QuaternionKey>,
    pub translations: Seq<VectorKey>,
    pub scales: Seq<FloatKey>,
}

impl View for Channel {
    type V = ChannelModel;

    open spec fn view(&self) -> ChannelModel {
        ChannelModel {
            rotations: self.rotations@,
            translations: self.translations@,
            scales: self.scales@,
        }
    }
}

/// What some channels are.
pub open spec fn all_channels(channels: Seq<Channel>) -> Seq<ChannelModel> {
    Seq::new(channels.len(), |i: int| channels[i]@)
}

/// A channel that says nothing.
pub open spec fn silent() -> ChannelModel {
    ChannelModel {
        rotations: Seq::empty(),
        translations: Seq::empty(),
        scales: Seq::empty(),
    }
}

/// What the first controller on a chain that moves its node by keys plays. A chain longer than
/// `left` goes round in a circle and plays nothing.
pub open spec fn played(nif: &Nif, link: Link, left: nat) -> ChannelModel
    decreases left,
{
    if left == 0 {
        silent()
    } else {
        match nif.at(link) {
            Some(Block::Controller(controller)) => match nif.at(controller.data) {
                Some(Block::Keyframes(data)) if controller.keyframe => ChannelModel {
                    rotations: data.rotations@,
                    translations: data.translations@,
                    scales: data.scales@,
                },
                _ => played(nif, controller.next, (left - 1) as nat),
            },
            _ => silent(),
        }
    }
}

/// The larger of two stored numbers; of a number and none, the number.
pub open spec fn larger(a: Bits, b: Bits) -> Bits {
    if not_a_number(a) || greater(b, a) {
        b
    } else {
        a
    }
}

impl ChannelModel {
    /// Whether this channel moves nothing.
    pub open spec fn is_silent(self) -> bool {
        self.rotations.len() == 0 && self.translations.len() == 0 && self.scales.len() == 0
    }

    /// The last moment any of the three says anything about.
    pub open spec fn ends(self) -> Bits {
        let rotation = if self.rotations.len() > 0 {
            self.rotations.last().time
        } else {
            ZERO
        };
        let translation = if self.translations.len() > 0 {
            self.translations.last().time
        } else {
            ZERO
        };
        let scale = if self.scales.len() > 0 {
            self.scales.last().time
        } else {
            ZERO
        };
        larger(larger(rotation, translation), scale)
    }
}

/// The larger of two stored numbers.
pub fn max(a: Bits, b: Bits) -> (r: Bits)
    ensures
        r == larger(a, b),
{
    if is_nan(a) || is_greater(b, a) {
        b
    } else {
        a
    }
}

impl Channel {
    /// A channel that says nothing.
    pub fn new() -> (r: Channel)
        ensures
            r@ == silent(),
    {
        let r: Channel = Channel {
            rotations: Vec::new(),
            translations: Vec::new(),
            scales: Vec::new(),
        };
        assert(r@ =~= silent());
        r
    }

    /// Whether this joint does not move at all.
    pub fn is_empty(&self) -> (r: bool)
        ensures
            r == self@.is_silent(),
    {
        self.rotations.len() == 0 && self.translations.len() == 0 && self.scales.len() == 0
    }

    /// The last moment any of the three says anything about.
    pub fn duration(&self) -> (r: Bits)
        ensures
            r == self@.ends(),
    {
        let rotation: Bits = if self.rotations.len() > 0 {
            self.rotations[self.rotations.len() - 1].time
        } else {
            ZERO
        };
        let translation: Bits = if self.translations.len() > 0 {
            self.translations[self.translations.len() - 1].time
        } else {
            ZERO
        };
        let scale: Bits = if self.scales.len() > 0 {
            self.scales[self.scales.len() - 1].time
        } else {
            ZERO
        };
        max(max(rotation, translation), scale)
    }

    /// The keyframe controller on a node's chain, as three channels of keys.
    ///
    /// A node carries a chain of controllers driving different things; this takes the first that
    /// moves it and ignores the rest.
    pub fn of(nif: &Nif, controller: Link) -> (r: Channel)
        ensures
            r@ == played(nif, controller, nif.blocks@.len()),
    {
        let mut link: Link = controller;
        let mut left: usize = nif.blocks.len();
        while left > 0
            invariant
                left <= nif.blocks@.len(),
                played(nif, controller, nif.blocks@.len()) == played(nif, link, left as nat),
            decreases left,
        {
            match nif.resolve(link) {
                Some(Block::Controller(controller)) => {
                    if controller.keyframe {
                        match nif.resolve(controller.data) {
                            Some(Block::Keyframes(data)) => {
                                let mut r: Channel = Channel::new();
                                push_all(&mut r.rotations, &data.rotations);
                                push_all(&mut r.translations, &data.translations);
                                push_all(&mut r.scales, &data.scales);
                                assert(r.rotations@ =~= data.rotations@);
                                assert(r.translations@ =~= data.translations@);
                                assert(r.scales@ =~= data.scales@);
                                return r;
                            },
                            _ => {},
                        }
                    }
                    link = controller.next;
                },
                _ => {
                    return Channel::new();
                },
            }
            left = left - 1;
        }
        Channel::new()
    }
}

/// The joints of a model, flattened parents-first out of its node graph.
#[derive(Debug)]
pub struct Skeleton {
    /// One per joint: its parent, or [`NO_PARENT`]. Ordered parents-first, so one forward pass
    /// composes the whole skeleton.
    pub parents: Vec<u16>,
    /// Which block each joint is.
    pub blocks: Vec<u32>,
    /// Each joint in its parent's space, where its channel says nothing.
    pub rest: Vec<Transform>,
    pub channels: Vec<Channel>,
    /// Which joint each block is, or hangs from, parallel to the blocks of the file.
    pub by_block: Vec<u16>,
}

/// A walk through a model's nodes: the joints it has numbered, the joint written against each
/// block, and what it has yet to visit.
#[verifier::ext_equal]
pub struct WalkModel {
    pub parents: Seq<u16>,
    pub blocks: Seq<u32>,
    pub by_block: Seq<u16>,
    pub queue: Seq<(Link, u16)>,
}

/// The joint written against a block.
pub open spec fn joint_in(by_block: Seq<u16>, link: Link) -> Option<u16> {
    match link.0 {
        Some(i) => if i < by_block.len() && by_block[i as int] != NO_PARENT {
            Some(by_block[i as int])
        } else {
            None
        },
        None => None,
    }
}

/// Blocks with a joint written against each of the first `n` children, for those that exist.
pub open spec fn hung(by_block: Seq<u16>, children: Seq<Link>, joint: u16, n: nat) -> Seq<u16>
    decreases n,
{
    if n == 0 {
        by_block
    } else {
        let before = hung(by_block, children, joint, (n - 1) as nat);
        match children[n - 1].0 {
            Some(i) => if i < before.len() {
                before.update(i as int, joint)
            } else {
                before
            },
            None => before,
        }
    }
}

/// Children, each with the joint it hangs from.
pub open spec fn queued(children: Seq<Link>, joint: u16) -> Seq<(Link, u16)> {
    Seq::new(children.len(), |i: int| (children[i], joint))
}

/// A walk that has numbered one node more, and queued its children.
pub open spec fn visited(walk: WalkModel, node: Node, block: u32, parent: u16) -> WalkModel {
    let joint = walk.parents.len() as u16;
    WalkModel {
        parents: walk.parents.push(parent),
        blocks: walk.blocks.push(block),
        by_block: hung(
            walk.by_block.update(block as int, joint),
            node.children@,
            joint,
            node.children@.len(),
        ),
        queue: walk.queue.drop_first() + queued(node.children@, joint),
    }
}

/// Where a walk ends: once nothing is queued, or nowhere where it meets more nodes than can be
/// numbered, as one that goes round in a circle does.
pub open spec fn walked(nif: &Nif, walk: WalkModel) -> Option<WalkModel>
    decreases NO_PARENT + 1 - walk.parents.len(), walk.queue.len(),
{
    if walk.queue.len() == 0 {
        Some(walk)
    } else {
        let (link, parent) = walk.queue[0];
        match nif.at(link) {
            Some(Block::Node(node)) => if walk.parents.len() >= NO_PARENT {
                None
            } else {
                walked(nif, visited(walk, node, link.0->0, parent))
            },
            _ => walked(nif, WalkModel { queue: walk.queue.drop_first(), ..walk }),
        }
    }
}

/// Where a walk starts: at the roots, with no joint written against any block.
pub open spec fn walk_start(nif: &Nif) -> WalkModel {
    WalkModel {
        parents: Seq::empty(),
        blocks: Seq::empty(),
        by_block: Seq::new(nif.blocks@.len(), |i: int| NO_PARENT),
        queue: queued(nif.roots@, NO_PARENT),
    }
}

/// The node a block is.
pub open spec fn node_at(nif: &Nif, block: u32) -> Node {
    nif.blocks@[block as int]->Node_0
}

/// Whether a skeleton is what a walk ended with: each joint's rest transform is its node's, and its
/// channel what its node's controllers play.
pub open spec fn is_skeleton(skeleton: Skeleton, nif: &Nif, walk: WalkModel) -> bool {
    &&& skeleton.parents@ == walk.parents
    &&& skeleton.blocks@ == walk.blocks
    &&& skeleton.by_block@ == walk.by_block
    &&& skeleton.rest@.len() == walk.parents.len()
    &&& skeleton.channels@.len() == walk.parents.len()
    &&& walk.blocks.len() == walk.parents.len()
    &&& walk.by_block.len() == nif.blocks@.len()
    &&& forall|j: int|
        0 <= j < walk.blocks.len() ==> (#[trigger] walk.blocks[j]) < nif.blocks@.len()
            && nif.blocks@[walk.blocks[j] as int] is Node
    &&& forall|j: int|
        0 <= j < skeleton.rest@.len() ==> #[trigger] skeleton.rest@[j] == node_at(
            nif,
            walk.blocks[j],
        ).object.transform
    &&& forall|j: int|
        0 <= j < skeleton.channels@.len() ==> (#[trigger] skeleton.channels@[j])@ == played(
            nif,
            node_at(nif, walk.blocks[j]).object.controller,
            nif.blocks@.len(),
        )
}

/// Writes a joint against each child that exists.
fn hang(by_block: &mut Vec<u16>, children: &Vec<Link>, joint: u16)
    ensures
        final(by_block)@ == hung(old(by_block)@, children@, joint, children@.len()),
        final(by_block)@.len() == old(by_block)@.len(),
{
    let ghost start = by_block@;
    let mut i: usize = 0;
    while i < children.len()
        invariant
            i <= children@.len(),
            by_block@ == hung(start, children@, joint, i as nat),
            by_block@.len() == start.len(),
        decreases children@.len() - i,
    {
        match children[i].0 {
            Some(block) => {
                if (block as usize) < by_block.len() {
                    by_block.set(block as usize, joint);
                }
            },
            None => {},
        }
        i = i + 1;
    }
}

/// Queues children with the joint they hang from.
fn enqueue(queue: &mut VecDeque<(Link, u16)>, children: &Vec<Link>, joint: u16)
    ensures
        final(queue)@ == old(queue)@ + queued(children@, joint),
{
    let ghost start = queue@;
    let mut i: usize = 0;
    assert(queue@ =~= start + queued(children@, joint).take(0));
    while i < children.len()
        invariant
            i <= children@.len(),
            queue@ == start + queued(children@, joint).take(i as int),
        decreases children@.len() - i,
    {
        queue.push_back((children[i], joint));
        i = i + 1;
        assert(queue@ =~= start + queued(children@, joint).take(i as int));
    }
    assert(queued(children@, joint).take(i as int) =~= queued(children@, joint));
}

impl Skeleton {
    /// Walks `nif` from its roots, in an order that puts every parent before its children: a child
    /// is only ever queued by a parent that has already been given its number. `None` where the
    /// graph has more nodes than can be numbered, or goes round in a circle.
    pub fn of(nif: &Nif) -> (r: Option<Skeleton>)
        ensures
            match r {
                Some(skeleton) => walked(nif, walk_start(nif)) matches Some(walk)
                    && is_skeleton(skeleton, nif, walk),
                None => walked(nif, walk_start(nif)) is None,
            },
    {
        let mut s: Skeleton = Skeleton {
            parents: Vec::new(),
            blocks: Vec::new(),
            rest: Vec::new(),
            channels: Vec::new(),
            by_block: Vec::new(),
        };
        let mut i: usize = 0;
        while i < nif.blocks.len()
            invariant
                i <= nif.blocks@.len(),
                s.by_block@ == Seq::new(i as nat, |k: int| NO_PARENT),
                s.parents@.len() == 0,
                s.blocks@.len() == 0,
                s.rest@.len() == 0,
                s.channels@.len() == 0,
            decreases nif.blocks@.len() - i,
        {
            s.by_block.push(NO_PARENT);
            i = i + 1;
            assert(s.by_block@ =~= Seq::new(i as nat, |k: int| NO_PARENT));
        }
        let mut queue: VecDeque<(Link, u16)> = VecDeque::new();
        enqueue(&mut queue, &nif.roots, NO_PARENT);
        assert(s.model(queue@) =~= walk_start(nif));
        while queue.len() > 0
            invariant
                is_skeleton(s, nif, s.model(queue@)),
                s.parents@.len() <= NO_PARENT,
                walked(nif, walk_start(nif)) == walked(nif, s.model(queue@)),
            decreases NO_PARENT - s.parents@.len(), queue@.len(),
        {
            let ghost before = s.model(queue@);
            match queue.pop_front() {
                Some((link, parent)) => {
                    match nif.resolve(link) {
                        Some(Block::Node(node)) => {
                            if s.parents.len() >= NO_PARENT as usize {
                                return None;
                            }
                            match link.0 {
                                Some(block) => {
                                    s.visit(nif, node, block, parent);
                                    let joint: u16 = (s.parents.len() - 1) as u16;
                                    enqueue(&mut queue, &node.children, joint);
                                    assert(s.model(queue@) =~= visited(
                                        before,
                                        *node,
                                        block,
                                        parent,
                                    ));
                                },
                                None => {},
                            }
                        },
                        _ => {
                            assert(s.model(queue@) =~= (WalkModel {
                                queue: before.queue.drop_first(),
                                ..before
                            }));
                        },
                    }
                },
                None => {},
            }
        }
        Some(s)
    }

    /// The walk this skeleton is of, with this much still queued.
    pub open spec fn model(&self, queue: Seq<(Link, u16)>) -> WalkModel {
        WalkModel {
            parents: self.parents@,
            blocks: self.blocks@,
            by_block: self.by_block@,
            queue,
        }
    }

    /// Numbers one node more.
    fn visit(&mut self, nif: &Nif, node: &Node, block: u32, parent: u16)
        requires
            is_skeleton(*old(self), nif, old(self).model(Seq::empty())),
            old(self).parents@.len() < NO_PARENT,
            block < nif.blocks@.len(),
            nif.blocks@[block as int] == Block::Node(*node),
        ensures
            ({
                let joint = old(self).parents@.len() as u16;
                &&& final(self).parents@ == old(self).parents@.push(parent)
                &&& final(self).blocks@ == old(self).blocks@.push(block)
                &&& final(self).by_block@ == hung(
                    old(self).by_block@.update(block as int, joint),
                    node.children@,
                    joint,
                    node.children@.len(),
                )
            }),
            is_skeleton(*final(self), nif, final(self).model(Seq::empty())),
    {
        let joint: u16 = self.parents.len() as u16;
        self.parents.push(parent);
        self.blocks.push(block);
        self.rest.push(node.object.transform);
        self.channels.push(Channel::of(nif, node.object.controller));
        self.by_block.set(block as usize, joint);
        hang(&mut self.by_block, &node.children, joint);
    }

    /// Which joint a block is, or which one it hangs from.
    pub open spec fn joint_at(&self, link: Link) -> Option<u16> {
        joint_in(self.by_block@, link)
    }

    /// Which joint a block is, or for a geometry block, which one it hangs from.
    ///
    /// The format stores no parent link, so the walk records one as it descends: every child gets
    /// its parent's joint written against it, and a child that turns out to be a node overwrites
    /// that with its own when it is reached. What is left for a geometry is where it hangs.
    pub fn joint_of(&self, link: Link) -> (r: Option<u16>)
        ensures
            r == self.joint_at(link),
    {
        match link.0 {
            Some(i) => {
                if (i as usize) < self.by_block.len() && self.by_block[i as usize] != NO_PARENT {
                    Some(self.by_block[i as usize])
                } else {
                    None
                }
            },
            None => None,
        }
    }

    /// Whether nothing in this skeleton moves.
    pub fn is_still(&self) -> (r: bool)
        ensures
            r == (forall|j: int|
                0 <= j < self.channels@.len() ==> (#[trigger] self.channels@[j])@.is_silent()),
    {
        let mut i: usize = 0;
        while i < self.channels.len()
            invariant
                i <= self.channels@.len(),
                forall|j: int| 0 <= j < i ==> (#[trigger] self.channels@[j])@.is_silent(),
            decreases self.channels@.len() - i,
        {
            if !self.channels[i].is_empty() {
                return false;
            }
            i = i + 1;
        }
        true
    }

    /// How long the clip runs before it repeats: as long as its longest channel.
    pub fn duration(&self) -> (r: Bits)
        ensures
            r == longest(all_channels(self.channels@), self.channels@.len()),
    {
        let ghost all = all_channels(self.channels@);
        let mut r: Bits = ZERO;
        let mut i: usize = 0;
        while i < self.channels.len()
            invariant
                i <= self.channels@.len(),
                all == all_channels(self.channels@),
                r == longest(all, i as nat),
            decreases self.channels@.len() - i,
        {
            assert(all[i as int] == self.channels@[i as int]@);
            r = max(r, self.channels[i].duration());
            i = i + 1;
        }
        r
    }
}

/// When the last of the first `n` of some channels ends.
pub open spec fn longest(channels: Seq<ChannelModel>, n: nat) -> Bits
    decreases n,
{
    if n == 0 {
        ZERO
    } else {
        larger(longest(channels, (n - 1) as nat), channels[n - 1].ends())
    }
}

/// Whether every joint's parent was numbered before it.
pub open spec fn parents_first(parents: Seq<u16>) -> bool {
    forall|j: int|
        0 <= j < parents.len() ==> #[trigger] parents[j] == NO_PARENT || parents[j] < j
}

/// Whether everything queued hangs from a joint that has its number.
pub open spec fn queue_is_known(walk: WalkModel) -> bool {
    forall|i: int|
        0 <= i < walk.queue.len() ==> (#[trigger] walk.queue[i]).1 == NO_PARENT || walk.queue[i].1
            < walk.parents.len()
}

/// A walk keeps numbering parents first.
proof fn lemma_walk_is_parents_first(nif: &Nif, walk: WalkModel)
    requires
        walk.parents.len() <= NO_PARENT,
        parents_first(walk.parents),
        queue_is_known(walk),
        walked(nif, walk) is Some,
    ensures
        parents_first(walked(nif, walk)->0.parents),
    decreases NO_PARENT + 1 - walk.parents.len(), walk.queue.len(),
{
    if walk.queue.len() > 0 {
        let (link, parent) = walk.queue[0];
        match nif.at(link) {
            Some(Block::Node(node)) => {
                let next = visited(walk, node, link.0->0, parent);
                assert(parents_first(next.parents)) by {
                    assert forall|j: int| 0 <= j < next.parents.len() implies #[trigger] next.parents[j]
                        == NO_PARENT || next.parents[j] < j by {
                        if j < walk.parents.len() {
                            assert(next.parents[j] == walk.parents[j]);
                        }
                    }
                }
                assert(queue_is_known(next)) by {
                    let kept = walk.queue.drop_first();
                    assert forall|i: int| 0 <= i < next.queue.len() implies (
                    #[trigger] next.queue[i]).1 == NO_PARENT || next.queue[i].1
                        < next.parents.len() by {
                        if i < kept.len() {
                            assert(next.queue[i] == walk.queue[i + 1]);
                        }
                    }
                }
                lemma_walk_is_parents_first(nif, next);
            },
            _ => {
                let next = WalkModel { queue: walk.queue.drop_first(), ..walk };
                assert(queue_is_known(next)) by {
                    assert forall|i: int| 0 <= i < next.queue.len() implies (
                    #[trigger] next.queue[i]).1 == NO_PARENT || next.queue[i].1
                        < next.parents.len() by {
                        assert(next.queue[i] == walk.queue[i + 1]);
                    }
                }
                lemma_walk_is_parents_first(nif, next);
            },
        }
    }
}

/// **Every joint comes after its parent**, so one forward pass composes a whole skeleton.
pub proof fn law_parents_come_first(nif: &Nif)
    requires
        walked(nif, walk_start(nif)) is Some,
    ensures
        parents_first(walked(nif, walk_start(nif))->0.parents),
{
    lemma_walk_is_parents_first(nif, walk_start(nif));
}

/// A walk numbers no more nodes than it has numbers for.
pub proof fn lemma_walk_is_numbered(nif: &Nif, walk: WalkModel)
    requires
        walk.parents.len() <= NO_PARENT,
        walk.blocks.len() == walk.parents.len(),
        walked(nif, walk) is Some,
    ensures
        walked(nif, walk)->0.parents.len() <= NO_PARENT,
        walked(nif, walk)->0.blocks.len() == walked(nif, walk)->0.parents.len(),
    decreases NO_PARENT + 1 - walk.parents.len(), walk.queue.len(),
{
    if walk.queue.len() > 0 {
        let (link, parent) = walk.queue[0];
        match nif.at(link) {
            Some(Block::Node(node)) => {
                lemma_walk_is_numbered(nif, visited(walk, node, link.0->0, parent));
            },
            _ => {
                lemma_walk_is_numbered(nif, WalkModel { queue: walk.queue.drop_first(), ..walk });
            },
        }
    }
}

/// Whether every joint written against a block exists.
pub open spec fn joints_known(by_block: Seq<u16>, joints: nat) -> bool {
    forall|i: int|
        0 <= i < by_block.len() ==> #[trigger] by_block[i] == NO_PARENT || by_block[i] < joints
}

/// Writing a joint that exists against more blocks keeps every joint written one that exists.
proof fn lemma_hung_known(by_block: Seq<u16>, children: Seq<Link>, joint: u16, n: nat, joints: nat)
    requires
        joints_known(by_block, joints),
        joint < joints,
    ensures
        joints_known(hung(by_block, children, joint, n), joints),
        hung(by_block, children, joint, n).len() == by_block.len(),
    decreases n,
{
    if n > 0 {
        lemma_hung_known(by_block, children, joint, (n - 1) as nat, joints);
    }
}

/// A walk writes only joints that exist.
proof fn lemma_walk_knows_its_joints(nif: &Nif, walk: WalkModel)
    requires
        walk.parents.len() <= NO_PARENT,
        walk.by_block.len() == nif.blocks@.len(),
        joints_known(walk.by_block, walk.parents.len()),
        walked(nif, walk) is Some,
    ensures
        joints_known(walked(nif, walk)->0.by_block, walked(nif, walk)->0.parents.len()),
    decreases NO_PARENT + 1 - walk.parents.len(), walk.queue.len(),
{
    if walk.queue.len() > 0 {
        let (link, parent) = walk.queue[0];
        match nif.at(link) {
            Some(Block::Node(node)) => {
                let next = visited(walk, node, link.0->0, parent);
                let joint = walk.parents.len() as u16;
                let own = walk.by_block.update(link.0->0 as int, joint);
                assert(joints_known(own, next.parents.len())) by {
                    assert forall|i: int| 0 <= i < own.len() implies #[trigger] own[i] == NO_PARENT
                        || own[i] < next.parents.len() by {
                        if i != link.0->0 {
                            assert(own[i] == walk.by_block[i]);
                        }
                    }
                }
                lemma_hung_known(
                    own,
                    node.children@,
                    joint,
                    node.children@.len(),
                    next.parents.len(),
                );
                lemma_walk_knows_its_joints(nif, next);
            },
            _ => {
                lemma_walk_knows_its_joints(
                    nif,
                    WalkModel { queue: walk.queue.drop_first(), ..walk },
                );
            },
        }
    }
}

/// **Whatever a block hangs from is a joint that exists.**
pub proof fn law_blocks_hang_from_joints(nif: &Nif)
    requires
        walked(nif, walk_start(nif)) is Some,
    ensures
        joints_known(
            walked(nif, walk_start(nif))->0.by_block,
            walked(nif, walk_start(nif))->0.parents.len(),
        ),
{
    lemma_walk_knows_its_joints(nif, walk_start(nif));
}

} // verus!
