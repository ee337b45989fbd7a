//! A skeleton and the vertices bound to it.

use super::bits::{Bits, ONE};
use super::flatten::GeometrySpan;
use super::influence::{influence_of, strongest, Influence, Share};
use super::nif::{Block, Link, Nif, SkinBone, SkinData, SkinInstance, SkinWeight, Transform};
use super::skeleton::{
    all_channels, is_skeleton, joint_in, longest, walk_start, walked, Channel, ChannelModel,
    Skeleton, WalkModel,
};
use super::static_scene::MeshId;
use vstd::prelude::*;

verus! {

/// How a bone takes a mesh into its own space, as the bind pose left it.
#[derive(Debug, Clone, Copy)]
pub enum Bind {
    /// By the skin's own inverse bind, after undoing where the walk placed the shape of a span.
    Skinned { inverse_bind: Transform, span: u32 },
    /// By undoing where its joint stands at rest.
    Hung,
}

/// One bone a mesh is skinned to.
#[derive(Debug, Clone, Copy)]
pub struct Bone {
    pub joint: u16,
    pub bind: Bind,
}

/// A skeleton, the clip that poses it, and the vertices that follow it.
///
/// **One rig per mesh**, because the two are bound to each other: the influences are indices into
/// this bone list and are parallel to that mesh's vertices.
#[derive(Debug)]
pub struct Rig {
    /// The bind-pose mesh this poses.
    pub mesh: MeshId,
    /// One per joint, its parent.
    pub parents: Vec<u16>,
    /// Each joint in its parent's space, where its channel says nothing.
    pub rest: Vec<Transform>,
    /// One per joint, empty where the joint does not move.
    pub channels: Vec<Channel>,
    /// One per skinned bone.
    pub bones: Vec<Bone>,
    /// One per vertex of `mesh`.
    pub influences: Vec<Influence>,
    /// How long the clip runs before it repeats.
    pub duration: Bits,
}

/// A mesh being bound: its bones, and every vertex's claims.
#[verifier::ext_equal]
pub struct BoundModel {
    pub bones: Seq<Bone>,
    pub shares: Seq<Seq<Share>>,
}

/// What some claims are.
pub open spec fn all_shares(shares: Seq<Vec<Share>>) -> Seq<Seq<Share>> {
    Seq::new(shares.len(), |i: int| shares[i]@)
}

/// Claims with one more on a vertex, where there is such a vertex.
pub open spec fn with_share(shares: Seq<Seq<Share>>, vertex: int, share: Share) -> Seq<Seq<Share>> {
    if 0 <= vertex < shares.len() {
        shares.update(vertex, shares[vertex].push(share))
    } else {
        shares
    }
}

/// Claims with one bone's hold on the first `n` of its weights' vertices.
pub open spec fn with_weights(
    shares: Seq<Seq<Share>>,
    weights: Seq<SkinWeight>,
    first_weight: int,
    first_vertex: int,
    bone: u32,
    n: nat,
) -> Seq<Seq<Share>>
    decreases n,
{
    if n == 0 {
        shares
    } else {
        let before = with_weights(
            shares,
            weights,
            first_weight,
            first_vertex,
            bone,
            (n - 1) as nat,
        );
        let at = first_weight + n - 1;
        if at < weights.len() {
            with_share(
                before,
                first_vertex + weights[at].vertex,
                Share { bone, weight: weights[at].weight },
            )
        } else {
            before
        }
    }
}

/// Claims with the hold of the first `n` of a skin's bones, numbered from `first_bone` on.
pub open spec fn with_skin(
    shares: Seq<Seq<Share>>,
    data: SkinData,
    first_vertex: int,
    first_bone: int,
    n: nat,
) -> Seq<Seq<Share>>
    decreases n,
{
    if n == 0 {
        shares
    } else {
        let bone = data.bones@[n - 1];
        with_weights(
            with_skin(shares, data, first_vertex, first_bone, (n - 1) as nat),
            data.weights@,
            bone.first_weight as int,
            first_vertex,
            (first_bone + n - 1) as u32,
            bone.weight_count as nat,
        )
    }
}

/// Claims with one bone's whole hold on `n` vertices.
pub open spec fn with_run(
    shares: Seq<Seq<Share>>,
    first_vertex: int,
    bone: u32,
    n: nat,
) -> Seq<Seq<Share>>
    decreases n,
{
    if n == 0 {
        shares
    } else {
        with_share(
            with_run(shares, first_vertex, bone, (n - 1) as nat),
            first_vertex + n - 1,
            Share { bone, weight: ONE },
        )
    }
}

/// Bones with the first `n` of a skin's among them, each for the node it names: none where a node
/// is no joint.
pub open spec fn with_bones(
    bones: Seq<Bone>,
    by_block: Seq<u16>,
    data: SkinData,
    skin: SkinInstance,
    span: u32,
    n: nat,
) -> Option<Seq<Bone>>
    decreases n,
{
    if n == 0 {
        Some(bones)
    } else {
        match with_bones(bones, by_block, data, skin, span, (n - 1) as nat) {
            Some(before) => match joint_in(by_block, skin.bones@[n - 1]) {
                Some(joint) => Some(
                    before.push(
                        Bone {
                            joint,
                            bind: Bind::Skinned {
                                inverse_bind: data.bones@[n - 1].inverse_bind,
                                span,
                            },
                        },
                    ),
                ),
                None => None,
            },
            None => None,
        }
    }
}

/// How many bones a skin has on both sides.
pub open spec fn paired(data: SkinData, skin: SkinInstance) -> nat {
    if data.bones@.len() < skin.bones@.len() {
        data.bones@.len()
    } else {
        skin.bones@.len()
    }
}

/// A mesh with one more span bound: a skinned one to the bones its skin names, and one that is not
/// to the node it hangs from. A skin with no data leaves its vertices unclaimed, and a node that is
/// no joint leaves nothing bound at all.
pub open spec fn with_span(
    nif: &Nif,
    by_block: Seq<u16>,
    bound: BoundModel,
    span: GeometrySpan,
    number: u32,
) -> Option<BoundModel> {
    match nif.at(span.skin) {
        Some(Block::Skin(skin)) => match nif.at(skin.data) {
            Some(Block::SkinData(data)) => match with_bones(
                bound.bones,
                by_block,
                data,
                skin,
                number,
                paired(data, skin),
            ) {
                Some(bones) => Some(
                    BoundModel {
                        bones,
                        shares: with_skin(
                            bound.shares,
                            data,
                            span.first_vertex as int,
                            bound.bones.len() as int,
                            data.bones@.len(),
                        ),
                    },
                ),
                None => None,
            },
            _ => Some(bound),
        },
        _ => match joint_in(by_block, Link(Some(span.block))) {
            Some(joint) => Some(
                BoundModel {
                    bones: bound.bones.push(Bone { joint, bind: Bind::Hung }),
                    shares: with_run(
                        bound.shares,
                        span.first_vertex as int,
                        bound.bones.len() as u32,
                        span.vertex_count as nat,
                    ),
                },
            ),
            None => None,
        },
    }
}

/// A mesh of so many vertices with the first `n` of its spans bound.
pub open spec fn bound(
    nif: &Nif,
    by_block: Seq<u16>,
    vertices: nat,
    spans: Seq<GeometrySpan>,
    n: nat,
) -> Option<BoundModel>
    decreases n,
{
    if n == 0 {
        Some(
            BoundModel {
                bones: Seq::empty(),
                shares: Seq::new(vertices, |i: int| Seq::<Share>::empty()),
            },
        )
    } else {
        match bound(nif, by_block, vertices, spans, (n - 1) as nat) {
            Some(before) => with_span(nif, by_block, before, spans[n - 1], (n - 1) as u32),
            None => None,
        }
    }
}

/// What every vertex follows.
pub open spec fn influences_of(shares: Seq<Seq<Share>>) -> Seq<Influence> {
    Seq::new(shares.len(), |i: int| strongest(shares[i]))
}

/// Adds one claim on a vertex, where there is such a vertex.
fn push_share(shares: &mut Vec<Vec<Share>>, vertex: u64, share: Share)
    ensures
        all_shares(final(shares)@) == with_share(all_shares(old(shares)@), vertex as int, share),
        final(shares)@.len() == old(shares)@.len(),
{
    let ghost before = all_shares(shares@);
    if vertex < shares.len() as u64 {
        shares[vertex as usize].push(share);
        assert(all_shares(shares@) =~= with_share(before, vertex as int, share));
    }
}

/// Adds one bone's hold on its weights' vertices.
fn push_weights(
    shares: &mut Vec<Vec<Share>>,
    weights: &Vec<SkinWeight>,
    bone: &SkinBone,
    first_vertex: u32,
    number: u32,
)
    ensures
        all_shares(final(shares)@) == with_weights(
            all_shares(old(shares)@),
            weights@,
            bone.first_weight as int,
            first_vertex as int,
            number,
            bone.weight_count as nat,
        ),
        final(shares)@.len() == old(shares)@.len(),
{
    let ghost start = all_shares(shares@);
    let mut i: u32 = 0;
    while i < bone.weight_count
        invariant
            i <= bone.weight_count,
            all_shares(shares@) == with_weights(
                start,
                weights@,
                bone.first_weight as int,
                first_vertex as int,
                number,
                i as nat,
            ),
            shares@.len() == start.len(),
        decreases bone.weight_count - i,
    {
        let at: u64 = bone.first_weight as u64 + i as u64;
        if at < weights.len() as u64 {
            let weight: SkinWeight = weights[at as usize];
            let vertex: u64 = first_vertex as u64 + weight.vertex as u64;
            push_share(shares, vertex, Share { bone: number, weight: weight.weight });
        }
        i = i + 1;
    }
}

/// Adds the hold of every bone of a skin.
fn push_skin(shares: &mut Vec<Vec<Share>>, data: &SkinData, first_vertex: u32, first_bone: usize)
    ensures
        all_shares(final(shares)@) == with_skin(
            all_shares(old(shares)@),
            *data,
            first_vertex as int,
            first_bone as int,
            data.bones@.len(),
        ),
        final(shares)@.len() == old(shares)@.len(),
{
    let ghost start = all_shares(shares@);
    let mut i: usize = 0;
    while i < data.bones.len()
        invariant
            i <= data.bones@.len(),
            all_shares(shares@) == with_skin(
                start,
                *data,
                first_vertex as int,
                first_bone as int,
                i as nat,
            ),
            shares@.len() == start.len(),
        decreases data.bones@.len() - i,
    {
        let number: u32 = (first_bone as u128 + i as u128) as u32;
        push_weights(shares, &data.weights, &data.bones[i], first_vertex, number);
        i = i + 1;
    }
}

/// Adds one bone's whole hold on a run of vertices.
fn push_run(shares: &mut Vec<Vec<Share>>, first_vertex: u32, count: u32, bone: u32)
    ensures
        all_shares(final(shares)@) == with_run(
            all_shares(old(shares)@),
            first_vertex as int,
            bone,
            count as nat,
        ),
        final(shares)@.len() == old(shares)@.len(),
{
    let ghost start = all_shares(shares@);
    let mut i: u32 = 0;
    while i < count
        invariant
            i <= count,
            all_shares(shares@) == with_run(start, first_vertex as int, bone, i as nat),
            shares@.len() == start.len(),
        decreases count - i,
    {
        push_share(shares, first_vertex as u64 + i as u64, Share { bone, weight: ONE });
        i = i + 1;
    }
}

/// Adds the bones of a skin, each for the node it names. `false` where a node is no joint.
fn push_bones(
    bones: &mut Vec<Bone>,
    skeleton: &Skeleton,
    data: &SkinData,
    skin: &SkinInstance,
    span: u32,
) -> (r: bool)
    ensures
        ({
            let all = with_bones(
                old(bones)@,
                skeleton.by_block@,
                *data,
                *skin,
                span,
                paired(*data, *skin),
            );
            &&& r == (all is Some)
            &&& r ==> final(bones)@ == all->0
        }),
{
    let ghost start = bones@;
    let mut i: usize = 0;
    while i < data.bones.len() && i < skin.bones.len()
        invariant
            i <= paired(*data, *skin),
            start == old(bones)@,
            with_bones(start, skeleton.by_block@, *data, *skin, span, i as nat) == Some(bones@),
        decreases data.bones@.len() - i,
    {
        match skeleton.joint_of(skin.bones[i]) {
            Some(joint) => {
                let inverse_bind: Transform = data.bones[i].inverse_bind;
                bones.push(Bone { joint, bind: Bind::Skinned { inverse_bind, span } });
            },
            None => {
                proof {
                    lemma_no_bones(
                        start,
                        skeleton.by_block@,
                        *data,
                        *skin,
                        span,
                        (i + 1) as nat,
                        paired(*data, *skin),
                    );
                }
                return false;
            },
        }
        i = i + 1;
    }
    true
}

/// Where some of a skin's bones are no joints, so are all of them.
proof fn lemma_no_bones(
    bones: Seq<Bone>,
    by_block: Seq<u16>,
    data: SkinData,
    skin: SkinInstance,
    span: u32,
    m: nat,
    n: nat,
)
    requires
        m <= n,
        with_bones(bones, by_block, data, skin, span, m) is None,
    ensures
        with_bones(bones, by_block, data, skin, span, n) is None,
    decreases n,
{
    if m < n {
        lemma_no_bones(bones, by_block, data, skin, span, m, (n - 1) as nat);
    }
}

/// Where some spans cannot be bound, neither can more of them.
proof fn lemma_stays_unbound(
    nif: &Nif,
    by_block: Seq<u16>,
    vertices: nat,
    spans: Seq<GeometrySpan>,
    m: nat,
    n: nat,
)
    requires
        m <= n,
        bound(nif, by_block, vertices, spans, m) is None,
    ensures
        bound(nif, by_block, vertices, spans, n) is None,
    decreases n,
{
    if m < n {
        lemma_stays_unbound(nif, by_block, vertices, spans, m, (n - 1) as nat);
    }
}

/// Binds one span. `false` where a node it follows is no joint.
fn bind_span(
    nif: &Nif,
    skeleton: &Skeleton,
    span: &GeometrySpan,
    number: u32,
    bones: &mut Vec<Bone>,
    shares: &mut Vec<Vec<Share>>,
) -> (r: bool)
    ensures
        ({
            let after = with_span(
                nif,
                skeleton.by_block@,
                BoundModel { bones: old(bones)@, shares: all_shares(old(shares)@) },
                *span,
                number,
            );
            &&& r == (after is Some)
            &&& r ==> after->0 == (BoundModel {
                bones: final(bones)@,
                shares: all_shares(final(shares)@),
            })
        }),
        final(shares)@.len() == old(shares)@.len(),
{
    match nif.resolve(span.skin) {
        Some(Block::Skin(skin)) => {
            match nif.resolve(skin.data) {
                Some(Block::SkinData(data)) => {
                    let first: usize = bones.len();
                    if !push_bones(bones, skeleton, data, skin, number) {
                        return false;
                    }
                    push_skin(shares, data, span.first_vertex, first);
                    true
                },
                _ => true,
            }
        },
        _ => {
            match skeleton.joint_of(Link(Some(span.block))) {
                Some(joint) => {
                    let bone: u32 = bones.len() as u32;
                    bones.push(Bone { joint, bind: Bind::Hung });
                    push_run(shares, span.first_vertex, span.vertex_count, bone);
                    true
                },
                None => false,
            }
        },
    }
}

/// What every vertex follows.
pub(crate) fn influences(shares: &Vec<Vec<Share>>) -> (r: Vec<Influence>)
    ensures
        r@ == influences_of(all_shares(shares@)),
{
    let mut r: Vec<Influence> = Vec::new();
    let mut i: usize = 0;
    while i < shares.len()
        invariant
            i <= shares@.len(),
            r@ == influences_of(all_shares(shares@)).take(i as int),
        decreases shares@.len() - i,
    {
        r.push(influence_of(&shares[i]));
        i = i + 1;
        assert(r@ =~= influences_of(all_shares(shares@)).take(i as int));
    }
    assert(r@ =~= influences_of(all_shares(shares@)));
    r
}

/// No claims on any of so many vertices.
fn no_claims(vertices: usize) -> (r: Vec<Vec<Share>>)
    ensures
        all_shares(r@) == Seq::new(vertices as nat, |i: int| Seq::<Share>::empty()),
{
    let mut r: Vec<Vec<Share>> = Vec::new();
    let mut i: usize = 0;
    while i < vertices
        invariant
            i <= vertices,
            r@.len() == i,
            forall|k: int| 0 <= k < i ==> (#[trigger] r@[k])@ == Seq::<Share>::empty(),
        decreases vertices - i,
    {
        r.push(Vec::new());
        i = i + 1;
    }
    assert(all_shares(r@) =~= Seq::new(vertices as nat, |i: int| Seq::<Share>::empty()));
    r
}

/// Whether every joint of a walk's model plays nothing.
pub open spec fn is_motionless(nif: &Nif, walk: WalkModel) -> bool {
    forall|j: int|
        0 <= j < walk.blocks.len() ==> #[trigger] played_by(nif, walk.blocks[j]).is_silent()
}

/// What the node a block is plays.
pub open spec fn played_by(nif: &Nif, block: u32) -> ChannelModel {
    super::skeleton::played(
        nif,
        super::skeleton::node_at(nif, block).object.controller,
        nif.blocks@.len(),
    )
}

/// What binding a model comes to: nothing where its nodes cannot be numbered, where nothing in it
/// moves, where something in it follows a node that is no joint, or where it has no bones or more
/// than a byte can number.
pub open spec fn binding(nif: &Nif, vertices: nat, spans: Seq<GeometrySpan>) -> Option<BoundModel> {
    match walked(nif, walk_start(nif)) {
        Some(walk) => if is_motionless(nif, walk) {
            None
        } else {
            match bound(nif, walk.by_block, vertices, spans, spans.len()) {
                Some(all) => if 0 < all.bones.len() <= u8::MAX {
                    Some(all)
                } else {
                    None
                },
                None => None,
            }
        },
        None => None,
    }
}

impl Rig {
    /// Builds the rig for a model, or `None` where nothing in it moves.
    ///
    /// `spans` is where each shape's vertices landed in the mesh. Every one of them is bound to
    /// something: a skinned one to the bones its skin names, and one that is not rigidly to the
    /// node it hangs from, which is what carries a creature's static pieces along with the skeleton.
    pub fn from_nif(
        nif: &Nif,
        mesh: MeshId,
        vertices: usize,
        spans: &Vec<GeometrySpan>,
    ) -> (r: Option<Rig>)
        ensures
            match r {
                Some(rig) => {
                    let walk = walked(nif, walk_start(nif))->0;
                    &&& binding(nif, vertices as nat, spans@) matches Some(all)
                    &&& rig.mesh == mesh
                    &&& rig.parents@ == walk.parents
                    &&& rig.rest@ == Seq::new(
                        walk.blocks.len(),
                        |j: int|
                            super::skeleton::node_at(nif, walk.blocks[j]).object.transform,
                    )
                    &&& all_channels(rig.channels@) == Seq::new(
                        walk.blocks.len(),
                        |j: int| played_by(nif, walk.blocks[j]),
                    )
                    &&& rig.bones@ == all.bones
                    &&& rig.influences@ == influences_of(all.shares)
                    &&& rig.duration == longest(
                        all_channels(rig.channels@),
                        rig.channels@.len(),
                    )
                },
                None => binding(nif, vertices as nat, spans@) is None,
            },
    {
        let skeleton: Skeleton = match Skeleton::of(nif) {
            Some(skeleton) => skeleton,
            None => {
                return None;
            },
        };
        let ghost walk = walked(nif, walk_start(nif))->0;
        assert(is_skeleton(skeleton, nif, walk));
        proof {
            lemma_still(skeleton, nif, walk);
        }
        if skeleton.is_still() {
            return None;
        }
        let mut bones: Vec<Bone> = Vec::new();
        let mut shares: Vec<Vec<Share>> = no_claims(vertices);
        let mut i: usize = 0;
        while i < spans.len()
            invariant
                i <= spans@.len(),
                bound(nif, skeleton.by_block@, vertices as nat, spans@, i as nat) == Some(
                    (BoundModel { bones: bones@, shares: all_shares(shares@) }),
                ),
                walk == walked(nif, walk_start(nif))->0,
                walked(nif, walk_start(nif)) is Some,
                is_skeleton(skeleton, nif, walk),
            decreases spans@.len() - i,
        {
            if !bind_span(nif, &skeleton, &spans[i], i as u32, &mut bones, &mut shares) {
                proof {
                    lemma_stays_unbound(
                        nif,
                        skeleton.by_block@,
                        vertices as nat,
                        spans@,
                        (i + 1) as nat,
                        spans@.len(),
                    );
                }
                return None;
            }
            i = i + 1;
        }
        if bones.len() == 0 || bones.len() > 255 {
            return None;
        }
        let duration: Bits = skeleton.duration();
        let influences: Vec<Influence> = influences(&shares);
        assert(skeleton.rest@ =~= Seq::new(
            walk.blocks.len(),
            |j: int| super::skeleton::node_at(nif, walk.blocks[j]).object.transform,
        ));
        assert(all_channels(skeleton.channels@) =~= Seq::new(
            walk.blocks.len(),
            |j: int| played_by(nif, walk.blocks[j]),
        ));
        Some(
            Rig {
                mesh,
                parents: skeleton.parents,
                rest: skeleton.rest,
                channels: skeleton.channels,
                bones,
                influences,
                duration,
            },
        )
    }
}

/// A skeleton whose channels are all silent is of a model in which nothing moves.
pub proof fn lemma_still(skeleton: Skeleton, nif: &Nif, walk: WalkModel)
    requires
        is_skeleton(skeleton, nif, walk),
    ensures
        is_motionless(nif, walk) == (forall|j: int|
            0 <= j < skeleton.channels@.len() ==> (#[trigger] skeleton.channels@[j])@.is_silent()),
{
    if is_motionless(nif, walk) {
        assert forall|j: int| 0 <= j < skeleton.channels@.len() implies (
        #[trigger] skeleton.channels@[j])@.is_silent() by {
            assert(played_by(nif, walk.blocks[j]).is_silent());
        }
    }
    if forall|j: int|
        0 <= j < skeleton.channels@.len() ==> (#[trigger] skeleton.channels@[j])@.is_silent() {
        assert forall|j: int| 0 <= j < walk.blocks.len() implies #[trigger] played_by(
            nif,
            walk.blocks[j],
        ).is_silent() by {
            assert(skeleton.channels@[j]@.is_silent());
        }
    }
}

/// Claims stay one list per vertex.
proof fn lemma_claims_stay(shares: Seq<Seq<Share>>, data: SkinData, first_vertex: int, first_bone: int, n: nat)
    ensures
        with_skin(shares, data, first_vertex, first_bone, n).len() == shares.len(),
    decreases n,
{
    if n > 0 {
        lemma_claims_stay(shares, data, first_vertex, first_bone, (n - 1) as nat);
        let bone = data.bones@[n - 1];
        lemma_weights_stay(
            with_skin(shares, data, first_vertex, first_bone, (n - 1) as nat),
            data.weights@,
            bone.first_weight as int,
            first_vertex,
            (first_bone + n - 1) as u32,
            bone.weight_count as nat,
        );
    }
}

/// Claims stay one list per vertex.
proof fn lemma_weights_stay(
    shares: Seq<Seq<Share>>,
    weights: Seq<SkinWeight>,
    first_weight: int,
    first_vertex: int,
    bone: u32,
    n: nat,
)
    ensures
        with_weights(shares, weights, first_weight, first_vertex, bone, n).len() == shares.len(),
    decreases n,
{
    if n > 0 {
        lemma_weights_stay(shares, weights, first_weight, first_vertex, bone, (n - 1) as nat);
    }
}

/// Claims stay one list per vertex.
proof fn lemma_run_stays(shares: Seq<Seq<Share>>, first_vertex: int, bone: u32, n: nat)
    ensures
        with_run(shares, first_vertex, bone, n).len() == shares.len(),
    decreases n,
{
    if n > 0 {
        lemma_run_stays(shares, first_vertex, bone, (n - 1) as nat);
    }
}

/// Bones of a skin follow joints.
proof fn lemma_bones_follow(
    bones: Seq<Bone>,
    by_block: Seq<u16>,
    joints: nat,
    data: SkinData,
    skin: SkinInstance,
    span: u32,
    n: nat,
)
    requires
        super::skeleton::joints_known(by_block, joints),
        bones_follow(bones, joints),
        with_bones(bones, by_block, data, skin, span, n) is Some,
    ensures
        bones_follow(with_bones(bones, by_block, data, skin, span, n)->0, joints),
    decreases n,
{
    if n > 0 {
        lemma_bones_follow(bones, by_block, joints, data, skin, span, (n - 1) as nat);
    }
}

/// Whether every bone follows a joint that exists.
pub open spec fn bones_follow(bones: Seq<Bone>, joints: nat) -> bool {
    forall|i: int| 0 <= i < bones.len() ==> (#[trigger] bones[i]).joint < joints
}

/// Binding keeps one list of claims per vertex and gives every bone a joint that exists.
proof fn lemma_bound(
    nif: &Nif,
    by_block: Seq<u16>,
    joints: nat,
    vertices: nat,
    spans: Seq<GeometrySpan>,
    n: nat,
)
    requires
        super::skeleton::joints_known(by_block, joints),
        bound(nif, by_block, vertices, spans, n) is Some,
    ensures
        bound(nif, by_block, vertices, spans, n)->0.shares.len() == vertices,
        bones_follow(bound(nif, by_block, vertices, spans, n)->0.bones, joints),
    decreases n,
{
    if n > 0 {
        lemma_bound(nif, by_block, joints, vertices, spans, (n - 1) as nat);
        let before = bound(nif, by_block, vertices, spans, (n - 1) as nat)->0;
        let span = spans[n - 1];
        match nif.at(span.skin) {
            Some(Block::Skin(skin)) => match nif.at(skin.data) {
                Some(Block::SkinData(data)) => {
                    lemma_claims_stay(
                        before.shares,
                        data,
                        span.first_vertex as int,
                        before.bones.len() as int,
                        data.bones@.len(),
                    );
                    lemma_bones_follow(
                        before.bones,
                        by_block,
                        joints,
                        data,
                        skin,
                        (n - 1) as u32,
                        paired(data, skin),
                    );
                },
                _ => {},
            },
            _ => {
                lemma_run_stays(
                    before.shares,
                    span.first_vertex as int,
                    before.bones.len() as u32,
                    span.vertex_count as nat,
                );
            },
        }
    }
}

/// **A rig has one influence per vertex of the mesh it poses**, every bone follows a joint that
/// exists, and a byte numbers every bone.
pub proof fn law_a_rig_fits_its_mesh(nif: &Nif, vertices: nat, spans: Seq<GeometrySpan>)
    requires
        binding(nif, vertices, spans) is Some,
    ensures
        influences_of(binding(nif, vertices, spans)->0.shares).len() == vertices,
        bones_follow(
            binding(nif, vertices, spans)->0.bones,
            walked(nif, walk_start(nif))->0.parents.len(),
        ),
        0 < binding(nif, vertices, spans)->0.bones.len() <= u8::MAX,
{
    let walk = walked(nif, walk_start(nif))->0;
    super::skeleton::law_blocks_hang_from_joints(nif);
    lemma_bound(nif, walk.by_block, walk.parents.len(), vertices, spans, spans.len());
}

} // verus!
