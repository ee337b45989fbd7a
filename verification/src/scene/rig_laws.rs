//! What holds of every rig: which bones its vertices follow, and how strongly.

use super::claims::{
    bones_grow, continues, is_listed, lemma_skin_listed, lists, lists_once, with_listed,
    with_skin_listed,
};
use super::flatten::GeometrySpan;
use super::influence::Share;
use super::nif::{Block, Link, Nif, SkinData, SkinInstance, SkinWeight};
use super::rig::{
    binding, bound, with_bones, with_run, with_skin, with_span, with_weights, Bind, Bone,
    BoundModel,
};
use super::skeleton::{joint_in, walk_start, walked};
use vstd::prelude::*;

verus! {

/// The skin of a span and the data of it, where it is skinned and has some.
pub open spec fn skin_of(nif: &Nif, span: GeometrySpan) -> Option<(SkinInstance, SkinData)> {
    match nif.at(span.skin) {
        Some(Block::Skin(skin)) => match nif.at(skin.data) {
            Some(Block::SkinData(data)) => Some((skin, data)),
            _ => None,
        },
        _ => None,
    }
}

/// Whether a span has a skin at all.
pub open spec fn is_skinned(nif: &Nif, span: GeometrySpan) -> bool {
    nif.at(span.skin) matches Some(Block::Skin(_))
}

/// Whether every skin of some spans has a node for each of its bones.
pub open spec fn skins_are_whole(nif: &Nif, spans: Seq<GeometrySpan>) -> bool {
    forall|s: int|
        #![trigger spans[s]]
        0 <= s < spans.len() ==> (skin_of(nif, spans[s]) matches Some((skin, data))
            ==> skin.bones@.len() == data.bones@.len())
}

/// How many bones the first `n` of some spans are bound by: as many as its skin has for one that is
/// skinned, and one for one that is not.
pub open spec fn bones_before(nif: &Nif, spans: Seq<GeometrySpan>, n: nat) -> nat
    decreases n,
{
    if n == 0 {
        0
    } else {
        bones_before(nif, spans, (n - 1) as nat) + if is_skinned(nif, spans[n - 1]) {
            match skin_of(nif, spans[n - 1]) {
                Some((_, data)) => data.bones@.len(),
                None => 0,
            }
        } else {
            1
        }
    }
}

/// Whether a claim on a vertex is one that a span makes, its bones numbered from `first_bone` on:
/// one that its skin lists, or a whole hold on each vertex of a span that has no skin.
pub open spec fn is_claim_of(
    nif: &Nif,
    span: GeometrySpan,
    first_bone: int,
    vertex: int,
    share: Share,
) -> bool {
    if is_skinned(nif, span) {
        skin_of(nif, span) matches Some((_, data)) && is_listed(
            data,
            span.first_vertex as int,
            first_bone,
            vertex,
            share,
        )
    } else {
        &&& span.first_vertex <= vertex < span.first_vertex + span.vertex_count
        &&& share.bone == first_bone
        &&& share.weight == 0x3F80_0000
    }
}

/// One bone's weights, on one vertex.
proof fn lemma_weights_on(
    shares: Seq<Seq<Share>>,
    weights: Seq<SkinWeight>,
    first_weight: int,
    first_vertex: int,
    bone: u32,
    n: nat,
    u: int,
)
    requires
        0 <= u < shares.len(),
        0 <= first_vertex,
    ensures
        with_weights(shares, weights, first_weight, first_vertex, bone, n).len() == shares.len(),
        with_weights(shares, weights, first_weight, first_vertex, bone, n)[u] == with_listed(
            shares[u],
            weights,
            first_weight,
            first_vertex,
            bone,
            u,
            n,
        ),
    decreases n,
{
    if n > 0 {
        lemma_weights_on(
            shares,
            weights,
            first_weight,
            first_vertex,
            bone,
            (n - 1) as nat,
            u,
        );
    }
}

/// A skin's weights, on one vertex.
proof fn lemma_skin_on(
    shares: Seq<Seq<Share>>,
    data: SkinData,
    first_vertex: int,
    first_bone: int,
    n: nat,
    u: int,
)
    requires
        0 <= u < shares.len(),
        0 <= first_vertex,
    ensures
        with_skin(shares, data, first_vertex, first_bone, n).len() == shares.len(),
        with_skin(shares, data, first_vertex, first_bone, n)[u] == with_skin_listed(
            shares[u],
            data,
            first_vertex,
            first_bone,
            u,
            n,
        ),
    decreases n,
{
    if n > 0 {
        lemma_skin_on(shares, data, first_vertex, first_bone, (n - 1) as nat, u);
        let bone = data.bones@[n - 1];
        lemma_weights_on(
            with_skin(shares, data, first_vertex, first_bone, (n - 1) as nat),
            data.weights@,
            bone.first_weight as int,
            first_vertex,
            (first_bone + n - 1) as u32,
            bone.weight_count as nat,
            u,
        );
    }
}

/// A whole hold on a run, on one vertex.
proof fn lemma_run_on(shares: Seq<Seq<Share>>, first_vertex: int, bone: u32, n: nat, u: int)
    requires
        0 <= u < shares.len(),
        0 <= first_vertex,
    ensures
        with_run(shares, first_vertex, bone, n).len() == shares.len(),
        with_run(shares, first_vertex, bone, n)[u] == (if first_vertex <= u < first_vertex + n {
            shares[u].push(Share { bone, weight: 0x3F80_0000 })
        } else {
            shares[u]
        }),
    decreases n,
{
    if n > 0 {
        lemma_run_on(shares, first_vertex, bone, (n - 1) as nat, u);
    }
}

/// A skin's bones follow the joints its nodes are, in order, after the bones there were.
proof fn lemma_bones_on(
    bones: Seq<Bone>,
    by_block: Seq<u16>,
    data: SkinData,
    skin: SkinInstance,
    span: u32,
    n: nat,
)
    requires
        with_bones(bones, by_block, data, skin, span, n) is Some,
    ensures
        ({
            let after = with_bones(bones, by_block, data, skin, span, n)->0;
            &&& after.len() == bones.len() + n
            &&& after.take(bones.len() as int) == bones
            &&& forall|k: int|
                0 <= k < n ==> joint_in(by_block, #[trigger] skin.bones@[k]) == Some(
                    after[bones.len() + k].joint,
                ) && after[bones.len() + k].bind == (Bind::Skinned {
                    inverse_bind: data.bones@[k].inverse_bind,
                    span,
                })
        }),
    decreases n,
{
    if n == 0 {
        assert(bones.take(bones.len() as int) =~= bones);
    } else {
        lemma_bones_on(bones, by_block, data, skin, span, (n - 1) as nat);
        let before = with_bones(bones, by_block, data, skin, span, (n - 1) as nat)->0;
        let after = with_bones(bones, by_block, data, skin, span, n)->0;
        assert(after.take(bones.len() as int) =~= before.take(bones.len() as int));
        assert forall|k: int| 0 <= k < n implies joint_in(by_block, #[trigger] skin.bones@[k])
            == Some(after[bones.len() + k].joint) && after[bones.len() + k].bind == (
        Bind::Skinned { inverse_bind: data.bones@[k].inverse_bind, span }) by {
            if k < n - 1 {
                assert(after[bones.len() + k] == before[bones.len() + k]);
            }
        }
    }
}

/// Whether the bones that bind a span are those its own skin or place says.
pub open spec fn bones_are_of(
    nif: &Nif,
    by_block: Seq<u16>,
    span: GeometrySpan,
    number: int,
    first_bone: int,
    bones: Seq<Bone>,
) -> bool {
    if is_skinned(nif, span) {
        skin_of(nif, span) matches Some((skin, data)) ==> forall|k: int|
            0 <= k < data.bones@.len() ==> first_bone + k < bones.len() && joint_in(
                by_block,
                #[trigger] skin.bones@[k],
            ) == Some(bones[first_bone + k].joint) && bones[first_bone + k].bind == (
            Bind::Skinned { inverse_bind: data.bones@[k].inverse_bind, span: number as u32 })
    } else {
        &&& first_bone < bones.len()
        &&& joint_in(by_block, Link(Some(span.block))) == Some(bones[first_bone].joint)
        &&& bones[first_bone].bind == Bind::Hung
    }
}

/// Whether some claims hold everything a span says of a vertex.
pub open spec fn holds_claims_of(
    nif: &Nif,
    span: GeometrySpan,
    first_bone: int,
    vertex: int,
    claims: Seq<Share>,
) -> bool {
    if is_skinned(nif, span) {
        skin_of(nif, span) matches Some((_, data)) ==> forall|k: int, i: int|
            #![trigger data.bones@[k], data.weights@[i]]
            0 <= k < data.bones@.len() && lists(data.bones@[k], data.weights@, i)
                && span.first_vertex + data.weights@[i].vertex == vertex ==> claims.contains(
                Share { bone: (first_bone + k) as u32, weight: data.weights@[i].weight },
            )
    } else {
        span.first_vertex <= vertex < span.first_vertex + span.vertex_count ==> claims.contains(
            Share { bone: first_bone as u32, weight: 0x3F80_0000 },
        )
    }
}

/// What binding one span adds.
proof fn lemma_span_on(
    nif: &Nif,
    by_block: Seq<u16>,
    before: BoundModel,
    span: GeometrySpan,
    number: u32,
    u: int,
)
    requires
        with_span(nif, by_block, before, span, number) is Some,
        with_span(nif, by_block, before, span, number)->0.bones.len() <= u32::MAX,
        skin_of(nif, span) matches Some((skin, data)) ==> skin.bones@.len() == data.bones@.len(),
        0 <= u < before.shares.len(),
    ensures
        ({
            let after = with_span(nif, by_block, before, span, number)->0;
            let f = before.bones.len() as int;
            &&& after.shares.len() == before.shares.len()
            &&& after.bones.len() == f + (if is_skinned(nif, span) {
                match skin_of(nif, span) {
                    Some((_, data)) => data.bones@.len(),
                    None => 0,
                }
            } else {
                1
            })
            &&& after.bones.take(f) == before.bones
            &&& bones_are_of(nif, by_block, span, number as int, f, after.bones)
            &&& continues(before.shares[u], after.shares[u])
            &&& holds_claims_of(nif, span, f, u, after.shares[u])
            &&& forall|j: int|
                before.shares[u].len() <= j < after.shares[u].len() ==> f <= (
                #[trigger] after.shares[u][j]).bone < after.bones.len() && is_claim_of(
                    nif,
                    span,
                    f,
                    u,
                    after.shares[u][j],
                )
            &&& (skin_of(nif, span) matches Some((_, data)) ==> lists_once(data)) ==> bones_grow(
                after.shares[u],
                before.shares[u].len() as int,
            )
        }),
{
    let f = before.bones.len() as int;
    let claims = before.shares[u];
    let after = with_span(nif, by_block, before, span, number)->0;
    assert(claims.take(claims.len() as int) =~= claims);
    assert(before.bones.take(f) =~= before.bones);
    if is_skinned(nif, span) {
        match skin_of(nif, span) {
            Some((skin, data)) => {
                lemma_bones_on(before.bones, by_block, data, skin, number, data.bones@.len());
                lemma_skin_on(
                    before.shares,
                    data,
                    span.first_vertex as int,
                    f,
                    data.bones@.len(),
                    u,
                );
                lemma_skin_listed(
                    claims,
                    data,
                    span.first_vertex as int,
                    f,
                    u,
                    data.bones@.len(),
                );
            },
            None => {},
        }
    } else {
        lemma_run_on(
            before.shares,
            span.first_vertex as int,
            f as u32,
            span.vertex_count as nat,
            u,
        );
        assert(after.bones.take(f) =~= before.bones);
        if span.first_vertex <= u < span.first_vertex + span.vertex_count {
            assert(after.shares[u].take(claims.len() as int) =~= claims);
            assert(after.shares[u][claims.len() as int] == Share {
                bone: f as u32,
                weight: 0x3F80_0000,
            });
        }
    }
}

/// Binding more spans only adds bones.
proof fn lemma_bones_only_grow(
    nif: &Nif,
    by_block: Seq<u16>,
    vertices: nat,
    spans: Seq<GeometrySpan>,
    n: nat,
)
    requires
        0 < n <= spans.len(),
        skins_are_whole(nif, spans),
        bound(nif, by_block, vertices, spans, n) is Some,
    ensures
        bound(nif, by_block, vertices, spans, (n - 1) as nat) is Some,
        bound(nif, by_block, vertices, spans, (n - 1) as nat)->0.bones.len() <= bound(
            nif,
            by_block,
            vertices,
            spans,
            n,
        )->0.bones.len(),
{
    let before = bound(nif, by_block, vertices, spans, (n - 1) as nat)->0;
    match skin_of(nif, spans[n - 1]) {
        Some((skin, data)) => {
            lemma_bones_on(
                before.bones,
                by_block,
                data,
                skin,
                (n - 1) as u32,
                data.bones@.len(),
            );
        },
        None => {},
    }
}

/// Whether a bound mesh is what its first `n` spans say, on one vertex.
spec fn says(
    nif: &Nif,
    by_block: Seq<u16>,
    spans: Seq<GeometrySpan>,
    n: nat,
    all: BoundModel,
    u: int,
) -> bool {
    &&& all.bones.len() == bones_before(nif, spans, n)
    &&& forall|s: int|
        #![trigger spans[s]]
        0 <= s < n ==> bones_before(nif, spans, s as nat) <= all.bones.len() && bones_are_of(
            nif,
            by_block,
            spans[s],
            s,
            bones_before(nif, spans, s as nat) as int,
            all.bones,
        ) && holds_claims_of(
            nif,
            spans[s],
            bones_before(nif, spans, s as nat) as int,
            u,
            all.shares[u],
        )
    &&& forall|j: int|
        0 <= j < all.shares[u].len() ==> (#[trigger] all.shares[u][j]).bone < all.bones.len()
            && exists|s: int|
            #![trigger spans[s]]
            0 <= s < n && is_claim_of(
                nif,
                spans[s],
                bones_before(nif, spans, s as nat) as int,
                u,
                all.shares[u][j],
            )
}

/// What binding some spans comes to, on one vertex.
proof fn lemma_bound_on(
    nif: &Nif,
    by_block: Seq<u16>,
    vertices: nat,
    spans: Seq<GeometrySpan>,
    n: nat,
    u: int,
)
    requires
        n <= spans.len(),
        n <= u32::MAX,
        skins_are_whole(nif, spans),
        bound(nif, by_block, vertices, spans, n) is Some,
        bound(nif, by_block, vertices, spans, n)->0.bones.len() <= u32::MAX,
        0 <= u < vertices,
    ensures
        ({
            let all = bound(nif, by_block, vertices, spans, n)->0;
            &&& all.shares.len() == vertices
            &&& says(nif, by_block, spans, n, all, u)
            &&& (forall|s: int|
                #![trigger spans[s]]
                0 <= s < spans.len() ==> (skin_of(nif, spans[s]) matches Some((_, data))
                    ==> lists_once(data))) ==> bones_grow(all.shares[u], 0)
        }),
    decreases n,
{
    if n > 0 {
        let fewer = (n - 1) as nat;
        let span = spans[n - 1];
        lemma_bones_only_grow(nif, by_block, vertices, spans, n);
        lemma_bound_on(nif, by_block, vertices, spans, fewer, u);
        let before = bound(nif, by_block, vertices, spans, fewer)->0;
        let all = bound(nif, by_block, vertices, spans, n)->0;
        assert(spans[n - 1] == span);
        lemma_span_on(nif, by_block, before, span, (n - 1) as u32, u);
        let f = before.bones.len() as int;
        assert forall|k: int| 0 <= k < f implies #[trigger] all.bones[k] == before.bones[k] by {
            assert(all.bones.take(f)[k] == all.bones[k]);
        }
        let claims = before.shares[u];
        assert forall|j: int| 0 <= j < claims.len() implies #[trigger] all.shares[u][j]
            == claims[j] by {
            assert(all.shares[u].take(claims.len() as int)[j] == all.shares[u][j]);
        }
        assert forall|s: int|
            #![trigger spans[s]]
            0 <= s < n implies bones_before(nif, spans, s as nat) <= all.bones.len()
            && bones_are_of(
            nif,
            by_block,
            spans[s],
            s,
            bones_before(nif, spans, s as nat) as int,
            all.bones,
        ) && holds_claims_of(
            nif,
            spans[s],
            bones_before(nif, spans, s as nat) as int,
            u,
            all.shares[u],
        ) by {
            if s < fewer {
                lemma_stays_of(
                    nif,
                    by_block,
                    spans[s],
                    s,
                    bones_before(nif, spans, s as nat) as int,
                    u,
                    before.bones,
                    all.bones,
                    claims,
                    all.shares[u],
                );
            }
        }
        assert forall|j: int| 0 <= j < all.shares[u].len() implies (
        #[trigger] all.shares[u][j]).bone < all.bones.len() && exists|s: int|
            #![trigger spans[s]]
            0 <= s < n && is_claim_of(
                nif,
                spans[s],
                bones_before(nif, spans, s as nat) as int,
                u,
                all.shares[u][j],
            ) by {
            if j < claims.len() {
                assert(all.shares[u][j] == claims[j]);
                let s = choose|s: int|
                    #![trigger spans[s]]
                    0 <= s < fewer && is_claim_of(
                        nif,
                        spans[s],
                        bones_before(nif, spans, s as nat) as int,
                        u,
                        claims[j],
                    );
                assert(spans[s] == spans[s]);
            } else {
                assert(spans[n - 1] == span);
            }
        }
        if forall|s: int|
            #![trigger spans[s]]
            0 <= s < spans.len() ==> (skin_of(nif, spans[s]) matches Some((_, data)) ==> lists_once(
                data,
            )) {
            assert(spans[n - 1] == span);
            assert forall|i: int, j: int|
                #![trigger all.shares[u][i], all.shares[u][j]]
                0 <= i < j < all.shares[u].len() implies all.shares[u][i].bone
                < all.shares[u][j].bone by {
                if j < claims.len() {
                    assert(all.shares[u][i] == claims[i] && all.shares[u][j] == claims[j]);
                } else if i < claims.len() {
                    assert(all.shares[u][i] == claims[i]);
                    assert(claims[i].bone < before.bones.len());
                }
            }
        }
    }
}

/// What a span says stays said when bones and claims are added after.
proof fn lemma_stays_of(
    nif: &Nif,
    by_block: Seq<u16>,
    span: GeometrySpan,
    number: int,
    first_bone: int,
    u: int,
    bones: Seq<Bone>,
    more_bones: Seq<Bone>,
    claims: Seq<Share>,
    more_claims: Seq<Share>,
)
    requires
        0 <= first_bone,
        bones_are_of(nif, by_block, span, number, first_bone, bones),
        holds_claims_of(nif, span, first_bone, u, claims),
        bones.len() <= more_bones.len(),
        forall|k: int| 0 <= k < bones.len() ==> #[trigger] more_bones[k] == bones[k],
        claims.len() <= more_claims.len(),
        forall|j: int| 0 <= j < claims.len() ==> #[trigger] more_claims[j] == claims[j],
    ensures
        bones_are_of(nif, by_block, span, number, first_bone, more_bones),
        holds_claims_of(nif, span, first_bone, u, more_claims),
{
    assert forall|share: Share| claims.contains(share) implies #[trigger] more_claims.contains(
        share,
    ) by {
        let j = claims.index_of(share);
        assert(more_claims[j] == share);
    }
}

/// **Each weight a skin lists is held by the bone that lists it**: a claim on that vertex, as strong
/// as listed, by the bone that follows the joint of the skin's node in the same place, in the bind pose
/// the skin gives for it.
pub proof fn law_a_listed_weight_is_held_by_its_bone(
    nif: &Nif,
    vertices: nat,
    spans: Seq<GeometrySpan>,
    s: int,
    skin: SkinInstance,
    data: SkinData,
    k: int,
    i: int,
)
    requires
        binding(nif, vertices, spans) is Some,
        spans.len() <= u32::MAX,
        skins_are_whole(nif, spans),
        0 <= s < spans.len(),
        skin_of(nif, spans[s]) == Some((skin, data)),
        0 <= k < data.bones@.len(),
        lists(data.bones@[k], data.weights@, i),
        spans[s].first_vertex + data.weights@[i].vertex < vertices,
    ensures
        ({
            let all = binding(nif, vertices, spans)->0;
            let vertex = spans[s].first_vertex + data.weights@[i].vertex;
            let bone = bones_before(nif, spans, s as nat) + k;
            &&& all.shares[vertex].contains(
                Share { bone: bone as u32, weight: data.weights@[i].weight },
            )
            &&& bone < all.bones.len() <= 255
            &&& joint_in(walked(nif, walk_start(nif))->0.by_block, skin.bones@[k]) == Some(
                all.bones[bone].joint,
            )
            &&& all.bones[bone].bind == (Bind::Skinned {
                inverse_bind: data.bones@[k].inverse_bind,
                span: s as u32,
            })
        }),
{
    let by_block = walked(nif, walk_start(nif))->0.by_block;
    let vertex = spans[s].first_vertex + data.weights@[i].vertex;
    let all = binding(nif, vertices, spans)->0;
    let first_bone = bones_before(nif, spans, s as nat) as int;
    assert(bound(nif, by_block, vertices, spans, spans.len()) == Some(all) && all.bones.len() <= 255);
    assert(bones_are_of(nif, by_block, spans[s], s, first_bone, all.bones) && holds_claims_of(
        nif,
        spans[s],
        first_bone,
        vertex,
        all.shares[vertex],
    )) by {
        lemma_bound_on(nif, by_block, vertices, spans, spans.len(), vertex);
    }
    lemma_listed_entry(
        nif,
        by_block,
        spans[s],
        s,
        first_bone,
        all.bones,
        all.shares[vertex],
        skin,
        data,
        k,
        i,
    );
}

/// What a span says, of one weight of its skin.
proof fn lemma_listed_entry(
    nif: &Nif,
    by_block: Seq<u16>,
    span: GeometrySpan,
    number: int,
    first_bone: int,
    bones: Seq<Bone>,
    claims: Seq<Share>,
    skin: SkinInstance,
    data: SkinData,
    k: int,
    i: int,
)
    requires
        skin_of(nif, span) == Some((skin, data)),
        0 <= k < data.bones@.len(),
        lists(data.bones@[k], data.weights@, i),
        bones_are_of(nif, by_block, span, number, first_bone, bones),
        holds_claims_of(
            nif,
            span,
            first_bone,
            span.first_vertex + data.weights@[i].vertex,
            claims,
        ),
    ensures
        claims.contains(
            Share { bone: (first_bone + k) as u32, weight: data.weights@[i].weight },
        ),
        first_bone + k < bones.len(),
        joint_in(by_block, skin.bones@[k]) == Some(bones[first_bone + k].joint),
        bones[first_bone + k].bind == (Bind::Skinned {
            inverse_bind: data.bones@[k].inverse_bind,
            span: number as u32,
        }),
{
    assert(is_skinned(nif, span));
    assert(data.bones@[k] == data.bones@[k] && data.weights@[i] == data.weights@[i]);
    assert(skin.bones@[k] == skin.bones@[k]);
}

/// **A shape without a skin follows the node it hangs from, whole**: every vertex of it is held by one
/// bone that follows that node's joint, at full weight.
pub proof fn law_a_shape_without_a_skin_follows_its_node(
    nif: &Nif,
    vertices: nat,
    spans: Seq<GeometrySpan>,
    s: int,
    vertex: int,
)
    requires
        binding(nif, vertices, spans) is Some,
        spans.len() <= u32::MAX,
        skins_are_whole(nif, spans),
        0 <= s < spans.len(),
        !is_skinned(nif, spans[s]),
        spans[s].first_vertex <= vertex < spans[s].first_vertex + spans[s].vertex_count,
        vertex < vertices,
    ensures
        ({
            let all = binding(nif, vertices, spans)->0;
            let bone = bones_before(nif, spans, s as nat) as int;
            &&& all.shares[vertex].contains(Share { bone: bone as u32, weight: 0x3F80_0000 })
            &&& bone < all.bones.len()
            &&& joint_in(walked(nif, walk_start(nif))->0.by_block, Link(Some(spans[s].block)))
                == Some(all.bones[bone].joint)
            &&& all.bones[bone].bind == Bind::Hung
        }),
{
    let by_block = walked(nif, walk_start(nif))->0.by_block;
    lemma_bound_on(nif, by_block, vertices, spans, spans.len(), vertex);
    assert(spans[s] == spans[s]);
}

/// **Nothing holds a vertex but what its shape says**: every claim on it is one that a span lists
/// for it, and where no bone lists a vertex twice, no bone holds it twice.
pub proof fn law_nothing_else_holds_a_vertex(
    nif: &Nif,
    vertices: nat,
    spans: Seq<GeometrySpan>,
    vertex: int,
)
    requires
        binding(nif, vertices, spans) is Some,
        spans.len() <= u32::MAX,
        skins_are_whole(nif, spans),
        0 <= vertex < vertices,
    ensures
        ({
            let claims = binding(nif, vertices, spans)->0.shares[vertex];
            &&& forall|j: int|
                0 <= j < claims.len() ==> exists|s: int|
                    #![trigger spans[s]]
                    0 <= s < spans.len() && is_claim_of(
                        nif,
                        spans[s],
                        bones_before(nif, spans, s as nat) as int,
                        vertex,
                        #[trigger] claims[j],
                    )
            &&& (forall|s: int|
                #![trigger spans[s]]
                0 <= s < spans.len() ==> (skin_of(nif, spans[s]) matches Some((_, data))
                    ==> lists_once(data))) ==> bones_grow(claims, 0)
        }),
{
    let by_block = walked(nif, walk_start(nif))->0.by_block;
    lemma_bound_on(nif, by_block, vertices, spans, spans.len(), vertex);
}

/// **A rig has exactly the bones its shapes name**: those of each skin one after the other, and one
/// for each shape that has none.
pub proof fn law_a_rig_has_the_bones_its_shapes_name(
    nif: &Nif,
    vertices: nat,
    spans: Seq<GeometrySpan>,
)
    requires
        binding(nif, vertices, spans) is Some,
        spans.len() <= u32::MAX,
        skins_are_whole(nif, spans),
        vertices > 0,
    ensures
        binding(nif, vertices, spans)->0.bones.len() == bones_before(nif, spans, spans.len()),
{
    let by_block = walked(nif, walk_start(nif))->0.by_block;
    lemma_bound_on(nif, by_block, vertices, spans, spans.len(), 0);
}

} // verus!
