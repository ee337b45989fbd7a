//! What the weights a skin lists come to, vertex by vertex.

use super::influence::Share;
use super::nif::{SkinBone, SkinData, SkinWeight};
use vstd::prelude::*;

verus! {

/// Whether a claim on a vertex is what one of a skin's bones lists: the bone numbered as many past
/// `first_bone` as it stands past the first of the skin, with the weight that is listed, on the vertex
/// as many past `first_vertex` as is listed.
pub open spec fn is_listed(
    data: SkinData,
    first_vertex: int,
    first_bone: int,
    vertex: int,
    share: Share,
) -> bool {
    exists|k: int, i: int|
        #![trigger data.bones@[k], data.weights@[i]]
        0 <= k < data.bones@.len() && lists(data.bones@[k], data.weights@, i) && vertex
            == first_vertex + data.weights@[i].vertex && share.bone == first_bone + k
            && share.weight == data.weights@[i].weight
}

/// Whether a weight is among those a bone lists.
pub open spec fn lists(bone: SkinBone, weights: Seq<SkinWeight>, i: int) -> bool {
    bone.first_weight <= i < bone.first_weight + bone.weight_count && i < weights.len()
}

/// Whether no bone of a skin lists a vertex twice.
pub open spec fn lists_once(data: SkinData) -> bool {
    forall|k: int, i: int, j: int|
        #![trigger data.bones@[k], data.weights@[i], data.weights@[j]]
        0 <= k < data.bones@.len() && lists(data.bones@[k], data.weights@, i) && lists(
            data.bones@[k],
            data.weights@,
            j,
        ) && i != j ==> data.weights@[i].vertex != data.weights@[j].vertex
}

/// Whether the bones of some claims, from the `from`th on, only grow.
pub open spec fn bones_grow(claims: Seq<Share>, from: int) -> bool {
    forall|i: int, j: int|
        #![trigger claims[i], claims[j]]
        from <= i < j < claims.len() ==> claims[i].bone < claims[j].bone
}

/// Whether some claims are others with more after them.
pub open spec fn continues(before: Seq<Share>, after: Seq<Share>) -> bool {
    before.len() <= after.len() && after.take(before.len() as int) == before
}

/// A vertex's claims with those of the first `n` weights of a bone that are on it.
pub open spec fn with_listed(
    claims: Seq<Share>,
    weights: Seq<SkinWeight>,
    first_weight: int,
    first_vertex: int,
    bone: u32,
    vertex: int,
    n: nat,
) -> Seq<Share>
    decreases n,
{
    if n == 0 {
        claims
    } else {
        let before = with_listed(
            claims,
            weights,
            first_weight,
            first_vertex,
            bone,
            vertex,
            (n - 1) as nat,
        );
        let at = first_weight + n - 1;
        if at < weights.len() && first_vertex + weights[at].vertex == vertex {
            before.push(Share { bone, weight: weights[at].weight })
        } else {
            before
        }
    }
}

/// A vertex's claims with those of the first `n` bones of a skin that are on it.
pub open spec fn with_skin_listed(
    claims: Seq<Share>,
    data: SkinData,
    first_vertex: int,
    first_bone: int,
    vertex: int,
    n: nat,
) -> Seq<Share>
    decreases n,
{
    if n == 0 {
        claims
    } else {
        let bone = data.bones@[n - 1];
        with_listed(
            with_skin_listed(claims, data, first_vertex, first_bone, vertex, (n - 1) as nat),
            data.weights@,
            bone.first_weight as int,
            first_vertex,
            (first_bone + n - 1) as u32,
            vertex,
            bone.weight_count as nat,
        )
    }
}

/// One bone adds the weights it lists on a vertex, and nothing else.
proof fn lemma_listed(
    claims: Seq<Share>,
    weights: Seq<SkinWeight>,
    first_weight: int,
    first_vertex: int,
    bone: u32,
    vertex: int,
    n: nat,
)
    requires
        0 <= first_weight,
    ensures
        ({
            let after = with_listed(
                claims,
                weights,
                first_weight,
                first_vertex,
                bone,
                vertex,
                n,
            );
            &&& continues(claims, after)
            &&& forall|i: int|
                first_weight <= i < first_weight + n && i < weights.len() && first_vertex + (
                #[trigger] weights[i]).vertex == vertex ==> after.contains(
                    Share { bone, weight: weights[i].weight },
                )
            &&& forall|j: int|
                claims.len() <= j < after.len() ==> (#[trigger] after[j]).bone == bone
                    && exists|i: int|
                    first_weight <= i < first_weight + n && i < weights.len() && first_vertex + (
                    #[trigger] weights[i]).vertex == vertex && after[j].weight == weights[i].weight
            &&& (forall|i: int, j: int|
                #![trigger weights[i], weights[j]]
                first_weight <= i < j < first_weight + n && j < weights.len() ==> weights[i].vertex
                    != weights[j].vertex) ==> after.len() <= claims.len() + 1
        }),
    decreases n,
{
    if n > 0 {
        let fewer = (n - 1) as nat;
        lemma_listed(claims, weights, first_weight, first_vertex, bone, vertex, fewer);
        let before = with_listed(
            claims,
            weights,
            first_weight,
            first_vertex,
            bone,
            vertex,
            fewer,
        );
        let after = with_listed(claims, weights, first_weight, first_vertex, bone, vertex, n);
        let at = first_weight + n - 1;
        let hit = at < weights.len() && first_vertex + weights[at].vertex == vertex;
        assert(after.take(claims.len() as int) =~= before.take(claims.len() as int));
        assert forall|i: int|
            first_weight <= i < first_weight + n && i < weights.len() && first_vertex + (
            #[trigger] weights[i]).vertex == vertex implies after.contains(
            Share { bone, weight: weights[i].weight },
        ) by {
            let share = Share { bone, weight: weights[i].weight };
            if i == at {
                assert(after[before.len() as int] == share);
            } else {
                assert(before.contains(share));
                let k = before.index_of(share);
                assert(after[k] == share);
            }
        }
        assert forall|j: int| claims.len() <= j < after.len() implies (#[trigger] after[j]).bone
            == bone && exists|i: int|
            first_weight <= i < first_weight + n && i < weights.len() && first_vertex + (
            #[trigger] weights[i]).vertex == vertex && after[j].weight == weights[i].weight by {
            if j < before.len() {
                assert(after[j] == before[j]);
                let i = choose|i: int|
                    first_weight <= i < first_weight + fewer && i < weights.len() && first_vertex
                        + (#[trigger] weights[i]).vertex == vertex && before[j].weight
                        == weights[i].weight;
                assert(after[j].weight == weights[i].weight);
            } else {
                assert(after[j].weight == weights[at].weight);
            }
        }
        if forall|i: int, j: int|
            #![trigger weights[i], weights[j]]
            first_weight <= i < j < first_weight + n && j < weights.len() ==> weights[i].vertex
                != weights[j].vertex {
            if hit && before.len() > claims.len() {
                let j = claims.len() as int;
                let i = choose|i: int|
                    first_weight <= i < first_weight + fewer && i < weights.len() && first_vertex
                        + (#[trigger] weights[i]).vertex == vertex && before[j].weight
                        == weights[i].weight;
                assert(weights[i].vertex != weights[at].vertex);
            }
        }
    } else {
        assert(claims.take(claims.len() as int) =~= claims);
    }
}

/// A skin adds the weights its bones list on a vertex, each under its own bone, and nothing else.
pub proof fn lemma_skin_listed(
    claims: Seq<Share>,
    data: SkinData,
    first_vertex: int,
    first_bone: int,
    vertex: int,
    n: nat,
)
    requires
        n <= data.bones@.len(),
        0 <= first_bone,
        first_bone + n <= u32::MAX,
    ensures
        ({
            let after = with_skin_listed(claims, data, first_vertex, first_bone, vertex, n);
            &&& continues(claims, after)
            &&& forall|k: int, i: int|
                #![trigger data.bones@[k], data.weights@[i]]
                0 <= k < n && lists(data.bones@[k], data.weights@, i) && first_vertex
                    + data.weights@[i].vertex == vertex ==> after.contains(
                    Share { bone: (first_bone + k) as u32, weight: data.weights@[i].weight },
                )
            &&& forall|j: int|
                claims.len() <= j < after.len() ==> first_bone <= (#[trigger] after[j]).bone
                    < first_bone + n && is_listed(data, first_vertex, first_bone, vertex, after[j])
            &&& lists_once(data) ==> bones_grow(after, claims.len() as int)
        }),
    decreases n,
{
    let after = with_skin_listed(claims, data, first_vertex, first_bone, vertex, n);
    if n == 0 {
        assert(claims.take(claims.len() as int) =~= claims);
    } else {
        let fewer = (n - 1) as nat;
        let before = with_skin_listed(claims, data, first_vertex, first_bone, vertex, fewer);
        let weights = data.weights@;
        let bone = data.bones@[n - 1];
        let number = (first_bone + n - 1) as u32;
        lemma_skin_listed(claims, data, first_vertex, first_bone, vertex, fewer);
        lemma_listed(
            before,
            weights,
            bone.first_weight as int,
            first_vertex,
            number,
            vertex,
            bone.weight_count as nat,
        );
        assert(after.take(before.len() as int) == before);
        assert(forall|j: int| 0 <= j < before.len() ==> #[trigger] after[j] == before[j]) by {
            assert forall|j: int| 0 <= j < before.len() implies #[trigger] after[j] == before[j] by {
                assert(after.take(before.len() as int)[j] == after[j]);
            }
        }
        assert(after.take(claims.len() as int) =~= before.take(claims.len() as int));
        assert forall|k: int, i: int|
            #![trigger data.bones@[k], data.weights@[i]]
            0 <= k < n && lists(data.bones@[k], weights, i) && first_vertex + weights[i].vertex
                == vertex implies after.contains(
            Share { bone: (first_bone + k) as u32, weight: weights[i].weight },
        ) by {
            let share = Share { bone: (first_bone + k) as u32, weight: weights[i].weight };
            if k < fewer {
                assert(before.contains(share));
                let at = before.index_of(share);
                assert(after[at] == share);
            }
        }
        assert forall|j: int| claims.len() <= j < after.len() implies first_bone <= (
        #[trigger] after[j]).bone < first_bone + n && is_listed(
            data,
            first_vertex,
            first_bone,
            vertex,
            after[j],
        ) by {
            if j < before.len() {
                assert(after[j] == before[j]);
            } else {
                let i = choose|i: int|
                    bone.first_weight <= i < bone.first_weight + bone.weight_count && i
                        < weights.len() && first_vertex + (#[trigger] weights[i]).vertex == vertex
                        && after[j].weight == weights[i].weight;
                assert(data.bones@[n - 1] == bone && lists(bone, weights, i));
                assert(data.weights@[i] == weights[i]);
            }
        }
        if lists_once(data) {
            assert forall|i: int, j: int|
                #![trigger weights[i], weights[j]]
                bone.first_weight <= i < j < bone.first_weight + bone.weight_count && j
                    < weights.len() implies weights[i].vertex != weights[j].vertex by {
                assert(data.bones@[n - 1] == bone);
                assert(lists(bone, weights, i) && lists(bone, weights, j));
            }
            assert forall|i: int, j: int|
                #![trigger after[i], after[j]]
                claims.len() <= i < j < after.len() implies after[i].bone < after[j].bone by {
                assert(after[i] == before[i]);
                if j < before.len() {
                    assert(after[j] == before[j]);
                }
            }
        }
    }
}

} // verus!
