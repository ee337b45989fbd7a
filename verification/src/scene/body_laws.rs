//! What holds of every assembled body: which joints its vertices follow, and where its parts stand.

use super::actor::{
    any_skinned, assembly, first_named, grown, joint_named, part_shapes, part_spans, rewound,
    table_after, with_bones, with_claim, with_held, with_part, with_parts, with_run, with_skin, with_spans, with_weights,
    ActorBind, ActorBone, ActorModel, ActorPart, HeldModel, PartSpanModel,
};
use super::claims::{continues, is_listed, lemma_skin_listed, lists, with_listed, with_skin_listed};
use super::flatten::{flattened, FlatModel, SpanModel};
use super::influence::Share;
use super::material_table::TableModel;
use super::mesh::{stacked, MeshModel};
use super::model_index::lower_case;
use super::nif::{Block, Nif, SkinData, SkinInstance, SkinWeight};
use super::skeleton::{node_at, walk_start, walked};
use vstd::prelude::*;

verus! {

/// The claims on a vertex, of which there are none where no list of them has been started.
pub open spec fn on(shares: Seq<Seq<Share>>, vertex: int) -> Seq<Share> {
    if 0 <= vertex < shares.len() {
        shares[vertex]
    } else {
        Seq::empty()
    }
}

/// Whether a vertex follows a bone, as strongly as a weight says.
pub open spec fn follows(held: HeldModel, vertex: int, weight: u32, bone: ActorBone) -> bool {
    exists|b: int|
        #![trigger held.bones[b]]
        0 <= b < held.bones.len() && held.bones[b] == bone && on(held.shares, vertex).contains(
            Share { bone: b as u32, weight },
        )
}

/// Whether a joint is the first of a skeleton's whose node has a name, whatever its case.
pub open spec fn answers_to(base: &Nif, blocks: Seq<u32>, name: Seq<char>, joint: int) -> bool {
    &&& 0 <= joint < blocks.len()
    &&& lower_case(node_at(base, blocks[joint]).object.name@) == lower_case(name)
    &&& forall|i: int|
        0 <= i < joint ==> lower_case(node_at(base, #[trigger] blocks[i]).object.name@)
            != lower_case(name)
}

/// What a part of a body draws, as its file has it, with the table as the parts before it left it.
pub open spec fn part_flat(
    base: &Nif,
    table: TableModel,
    parts: Seq<ActorPart>,
    files: Seq<Option<Nif>>,
    p: int,
) -> FlatModel {
    let shapes = part_shapes(parts[p], &files[p]->0);
    flattened(&files[p]->0, body_before(base, table, parts, files, p).table, shapes, shapes.len())
}

/// A body of the parts before one.
pub open spec fn body_before(
    base: &Nif,
    table: TableModel,
    parts: Seq<ActorPart>,
    files: Seq<Option<Nif>>,
    p: int,
) -> ActorModel {
    with_parts(base, walked(base, walk_start(base))->0.blocks, table, parts, files, p as nat)
}

/// Whether a part is the first of some that takes its slot out of its file.
pub open spec fn is_first_of_its_slot(parts: Seq<ActorPart>, p: int) -> bool {
    forall|q: int|
        #![trigger parts[q]]
        0 <= q < p ==> parts[q].model@ != parts[p].model@ || parts[q].shape@ != parts[p].shape@
}

/// Whether everything a body holds is held by one that has more.
spec fn extends(before: HeldModel, after: HeldModel) -> bool {
    &&& before.bones.len() <= after.bones.len()
    &&& forall|b: int| 0 <= b < before.bones.len() ==> #[trigger] after.bones[b] == before.bones[b]
    &&& forall|u: int| continues(#[trigger] on(before.shares, u), on(after.shares, u))
}

/// What a vertex follows it still follows where more is held.
proof fn lemma_still_follows(
    before: HeldModel,
    after: HeldModel,
    vertex: int,
    weight: u32,
    bone: ActorBone,
)
    requires
        extends(before, after),
        follows(before, vertex, weight, bone),
    ensures
        follows(after, vertex, weight, bone),
{
    let b = choose|b: int|
        #![trigger before.bones[b]]
        0 <= b < before.bones.len() && before.bones[b] == bone && on(
            before.shares,
            vertex,
        ).contains(Share { bone: b as u32, weight });
    let share = Share { bone: b as u32, weight };
    let (few, more) = (on(before.shares, vertex), on(after.shares, vertex));
    assert(continues(few, more));
    let j = few.index_of(share);
    assert(more.take(few.len() as int)[j] == more[j]);
    assert(more[j] == share);
    assert(after.bones[b] == bone);
}

/// More than more is more.
proof fn lemma_extends(a: HeldModel, b: HeldModel, c: HeldModel)
    requires
        extends(a, b),
        extends(b, c),
    ensures
        extends(a, c),
{
    assert forall|u: int| continues(#[trigger] on(a.shares, u), on(c.shares, u)) by {
        let (x, y, z) = (on(a.shares, u), on(b.shares, u), on(c.shares, u));
        assert(continues(x, y) && continues(y, z));
        assert(z.take(x.len() as int) =~= z.take(y.len() as int).take(x.len() as int));
    }
    assert forall|i: int| 0 <= i < a.bones.len() implies #[trigger] c.bones[i] == a.bones[i] by {
        assert(b.bones[i] == a.bones[i]);
    }
}

/// One claim is on its vertex, and the others stay.
proof fn lemma_claim_on(shares: Seq<Seq<Share>>, vertex: int, share: Share, u: int)
    requires
        0 <= vertex,
    ensures
        on(with_claim(shares, vertex, share), u) == (if u == vertex {
            on(shares, u).push(share)
        } else {
            on(shares, u)
        }),
{
    let room = grown(shares, vertex);
    assert(on(room, u) == on(shares, u));
}

/// One bone's weights, on one vertex.
proof fn lemma_weights_on(
    shares: Seq<Seq<Share>>,
    weights: Seq<SkinWeight>,
    first_weight: int,
    first_vertex: int,
    bone: u32,
    n: nat,
    u: int,
)
    requires
        0 <= first_vertex,
    ensures
        on(with_weights(shares, weights, first_weight, first_vertex, bone, n), u) == with_listed(
            on(shares, u),
            weights,
            first_weight,
            first_vertex,
            bone,
            u,
            n,
        ),
    decreases n,
{
    if n > 0 {
        let fewer = (n - 1) as nat;
        lemma_weights_on(shares, weights, first_weight, first_vertex, bone, fewer, u);
        let before = with_weights(shares, weights, first_weight, first_vertex, bone, fewer);
        let at = first_weight + n - 1;
        if at < weights.len() {
            lemma_claim_on(
                before,
                first_vertex + weights[at].vertex,
                Share { bone, weight: weights[at].weight },
                u,
            );
        }
    }
}

/// A skin's weights, on one vertex.
proof fn lemma_skin_on(
    shares: Seq<Seq<Share>>,
    data: SkinData,
    first_vertex: int,
    first_bone: int,
    n: nat,
    u: int,
)
    requires
        0 <= first_vertex,
    ensures
        on(with_skin(shares, data, first_vertex, first_bone, n), u) == with_skin_listed(
            on(shares, u),
            data,
            first_vertex,
            first_bone,
            u,
            n,
        ),
    decreases n,
{
    if n > 0 {
        lemma_skin_on(shares, data, first_vertex, first_bone, (n - 1) as nat, u);
        let bone = data.bones@[n - 1];
        lemma_weights_on(
            with_skin(shares, data, first_vertex, first_bone, (n - 1) as nat),
            data.weights@,
            bone.first_weight as int,
            first_vertex,
            (first_bone + n - 1) as u32,
            bone.weight_count as nat,
            u,
        );
    }
}

/// A whole hold on a run, on one vertex.
proof fn lemma_run_on(shares: Seq<Seq<Share>>, first_vertex: int, bone: u32, n: nat, u: int)
    requires
        0 <= first_vertex,
    ensures
        on(with_run(shares, first_vertex, bone, n), u) == (if first_vertex <= u < first_vertex + n {
            on(shares, u).push(Share { bone, weight: 0x3F80_0000 })
        } else {
            on(shares, u)
        }),
    decreases n,
{
    if n > 0 {
        lemma_run_on(shares, first_vertex, bone, (n - 1) as nat, u);
        lemma_claim_on(
            with_run(shares, first_vertex, bone, (n - 1) as nat),
            first_vertex + n - 1,
            Share { bone, weight: 0x3F80_0000 },
            u,
        );
    }
}

/// The first joint of a name is the one that answers to it.
proof fn lemma_first_answers(base: &Nif, blocks: Seq<u32>, name: Seq<char>, joint: int, from: int)
    requires
        answers_to(base, blocks, name, joint),
        0 <= from <= joint,
    ensures
        first_named(base, blocks, lower_case(name), from) == joint,
    decreases joint - from,
{
    if from < joint {
        assert(lower_case(node_at(base, blocks[from]).object.name@) != lower_case(name));
        lemma_first_answers(base, blocks, name, joint, from + 1);
    }
}

/// Bones of a skin only add to those there are.
proof fn lemma_bones_grow(
    bones: Seq<ActorBone>,
    base: &Nif,
    blocks: Seq<u32>,
    nif: &Nif,
    data: SkinData,
    skin: SkinInstance,
    part: u32,
    span: u32,
    n: nat,
)
    ensures
        ({
            let after = with_bones(bones, base, blocks, nif, data, skin, part, span, n);
            &&& bones.len() <= after.len() <= bones.len() + n
            &&& forall|b: int| 0 <= b < bones.len() ==> #[trigger] after[b] == bones[b]
        }),
    decreases n,
{
    if n > 0 {
        lemma_bones_grow(bones, base, blocks, nif, data, skin, part, span, (n - 1) as nat);
    }
}

/// Whether each bone of a skin is a node, and a joint answers to the name of it.
pub open spec fn all_answer(
    base: &Nif,
    blocks: Seq<u32>,
    nif: &Nif,
    skin: SkinInstance,
    joints: Seq<int>,
) -> bool {
    &&& joints.len() == skin.bones@.len()
    &&& forall|k: int|
        0 <= k < joints.len() ==> (nif.at(#[trigger] skin.bones@[k]) matches Some(
            Block::Node(node),
        ) && answers_to(base, blocks, node.object.name@, joints[k]))
}

/// Where every bone of a skin is answered to, they follow the joints that answer, in order.
proof fn lemma_bones_answer(
    bones: Seq<ActorBone>,
    base: &Nif,
    blocks: Seq<u32>,
    nif: &Nif,
    data: SkinData,
    skin: SkinInstance,
    joints: Seq<int>,
    part: u32,
    span: u32,
    n: nat,
)
    requires
        all_answer(base, blocks, nif, skin, joints),
        n <= joints.len(),
    ensures
        ({
            let after = with_bones(bones, base, blocks, nif, data, skin, part, span, n);
            &&& after.len() == bones.len() + n
            &&& forall|k: int|
                0 <= k < n ==> after[bones.len() + k] == (ActorBone {
                    joint: #[trigger] joints[k] as u16,
                    bind: ActorBind::Skinned {
                        inverse_bind: data.bones@[k].inverse_bind,
                        part,
                        span,
                    },
                })
        }),
    decreases n,
{
    if n > 0 {
        let fewer = (n - 1) as nat;
        lemma_bones_answer(bones, base, blocks, nif, data, skin, joints, part, span, fewer);
        let before = with_bones(bones, base, blocks, nif, data, skin, part, span, fewer);
        let after = with_bones(bones, base, blocks, nif, data, skin, part, span, n);
        let link = skin.bones@[n - 1];
        let node = nif.at(link)->0->Node_0;
        lemma_first_answers(base, blocks, node.object.name@, joints[n - 1], 0);
        assert forall|k: int| 0 <= k < n implies after[bones.len() + k] == (ActorBone {
            joint: #[trigger] joints[k] as u16,
            bind: ActorBind::Skinned { inverse_bind: data.bones@[k].inverse_bind, part, span },
        }) by {
            if k < fewer {
                assert(after[bones.len() + k] == before[bones.len() + k]);
            }
        }
    }
}

/// Holding one more shape keeps everything that was held.
proof fn lemma_held_extends(
    base: &Nif,
    blocks: Seq<u32>,
    nif: &Nif,
    held: HeldModel,
    span: SpanModel,
    part: u32,
    number: u32,
    base_vertex: int,
    attachment: Option<u16>,
    mirrored: bool,
)
    requires
        0 <= base_vertex,
        ({
            let after = with_held(
                base,
                blocks,
                nif,
                held,
                span,
                part,
                number,
                base_vertex,
                attachment,
                mirrored,
            );
            after.bones.len() <= u8::MAX
        }),
    ensures
        extends(
            held,
            with_held(
                base,
                blocks,
                nif,
                held,
                span,
                part,
                number,
                base_vertex,
                attachment,
                mirrored,
            ),
        ),
{
    let after = with_held(
        base,
        blocks,
        nif,
        held,
        span,
        part,
        number,
        base_vertex,
        attachment,
        mirrored,
    );
    let first_vertex = base_vertex + span.first_vertex;
    assert forall|u: int| continues(#[trigger] on(held.shares, u), on(after.shares, u)) by {
        let claims = on(held.shares, u);
        assert(claims.take(claims.len() as int) =~= claims);
        match nif.at(span.skin) {
            Some(Block::Skin(skin)) => match nif.at(skin.data) {
                Some(Block::SkinData(data)) => {
                    let n = data.bones@.len();
                    if after.bones.len() - held.bones.len() == n {
                        lemma_skin_on(
                            held.shares,
                            data,
                            first_vertex,
                            held.bones.len() as int,
                            n,
                            u,
                        );
                        lemma_skin_listed(
                            claims,
                            data,
                            first_vertex,
                            held.bones.len() as int,
                            u,
                            n,
                        );
                    }
                },
                _ => {},
            },
            _ => {
                if attachment is Some {
                    lemma_run_on(
                        held.shares,
                        first_vertex,
                        held.bones.len() as u32,
                        span.vertex_count as nat,
                        u,
                    );
                    assert(on(after.shares, u).take(claims.len() as int) =~= claims);
                }
            },
        }
    }
    match nif.at(span.skin) {
        Some(Block::Skin(skin)) => match nif.at(skin.data) {
            Some(Block::SkinData(data)) => {
                lemma_bones_grow(
                    held.bones,
                    base,
                    blocks,
                    nif,
                    data,
                    skin,
                    part,
                    number,
                    super::rig::paired(data, skin),
                );
            },
            _ => {},
        },
        _ => {},
    }
}

/// A skinned shape's vertices follow the joints its skin's bones answer to.
proof fn lemma_held_skin(
    base: &Nif,
    blocks: Seq<u32>,
    nif: &Nif,
    held: HeldModel,
    span: SpanModel,
    part: u32,
    number: u32,
    base_vertex: int,
    attachment: Option<u16>,
    mirrored: bool,
    skin: SkinInstance,
    data: SkinData,
    joints: Seq<int>,
    k: int,
    i: int,
)
    requires
        0 <= base_vertex,
        with_held(
            base,
            blocks,
            nif,
            held,
            span,
            part,
            number,
            base_vertex,
            attachment,
            mirrored,
        ).bones.len() <= u8::MAX,
        nif.at(span.skin) == Some(Block::Skin(skin)),
        nif.at(skin.data) == Some(Block::SkinData(data)),
        skin.bones@.len() == data.bones@.len(),
        all_answer(base, blocks, nif, skin, joints),
        0 <= k < data.bones@.len(),
        lists(data.bones@[k], data.weights@, i),
    ensures
        follows(
            with_held(
                base,
                blocks,
                nif,
                held,
                span,
                part,
                number,
                base_vertex,
                attachment,
                mirrored,
            ),
            base_vertex + span.first_vertex + data.weights@[i].vertex,
            data.weights@[i].weight,
            (ActorBone {
                joint: joints[k] as u16,
                bind: ActorBind::Skinned {
                    inverse_bind: data.bones@[k].inverse_bind,
                    part,
                    span: number,
                },
            }),
        ),
{
    let after = with_held(
        base,
        blocks,
        nif,
        held,
        span,
        part,
        number,
        base_vertex,
        attachment,
        mirrored,
    );
    let n = data.bones@.len();
    let f = held.bones.len() as int;
    let first_vertex = base_vertex + span.first_vertex;
    let vertex = first_vertex + data.weights@[i].vertex;
    let weight = data.weights@[i].weight;
    lemma_bones_answer(held.bones, base, blocks, nif, data, skin, joints, part, number, n);
    lemma_skin_on(held.shares, data, first_vertex, f, n, vertex);
    lemma_skin_listed(on(held.shares, vertex), data, first_vertex, f, vertex, n);
    assert(data.bones@[k] == data.bones@[k] && data.weights@[i] == data.weights@[i]);
    assert(on(after.shares, vertex).contains(Share { bone: (f + k) as u32, weight }));
    assert(joints[k] == joints[k]);
    assert(after.bones[f + k].joint == joints[k] as u16);
}

/// Holding some shapes keeps everything that was held.
proof fn lemma_spans_extend(
    base: &Nif,
    blocks: Seq<u32>,
    nif: &Nif,
    held: HeldModel,
    spans: Seq<SpanModel>,
    part: u32,
    base_vertex: int,
    attachment: Option<u16>,
    mirrored: bool,
    m: nat,
    n: nat,
)
    requires
        0 <= base_vertex,
        m <= n,
        with_spans(
            base,
            blocks,
            nif,
            held,
            spans,
            part,
            base_vertex,
            attachment,
            mirrored,
            n,
        ).bones.len() <= u8::MAX,
    ensures
        extends(
            with_spans(
                base,
                blocks,
                nif,
                held,
                spans,
                part,
                base_vertex,
                attachment,
                mirrored,
                m,
            ),
            with_spans(
                base,
                blocks,
                nif,
                held,
                spans,
                part,
                base_vertex,
                attachment,
                mirrored,
                n,
            ),
        ),
    decreases n,
{
    let some = |i: nat|
        with_spans(base, blocks, nif, held, spans, part, base_vertex, attachment, mirrored, i);
    if m < n {
        let fewer = (n - 1) as nat;
        let before = some(fewer);
        let span = spans[n - 1];
        match nif.at(span.skin) {
            Some(Block::Skin(skin)) => match nif.at(skin.data) {
                Some(Block::SkinData(data)) => {
                    lemma_bones_grow(
                        before.bones,
                        base,
                        blocks,
                        nif,
                        data,
                        skin,
                        part,
                        fewer as u32,
                        super::rig::paired(data, skin),
                    );
                },
                _ => {},
            },
            _ => {},
        }
        lemma_spans_extend(
            base,
            blocks,
            nif,
            held,
            spans,
            part,
            base_vertex,
            attachment,
            mirrored,
            m,
            fewer,
        );
        lemma_held_extends(
            base,
            blocks,
            nif,
            before,
            span,
            part,
            fewer as u32,
            base_vertex,
            attachment,
            mirrored,
        );
        lemma_extends(some(m), before, some(n));
    } else {
        lemma_extends_itself(some(n));
    }
}

/// A body holds what it holds.
proof fn lemma_extends_itself(held: HeldModel)
    ensures
        extends(held, held),
{
    assert forall|u: int| continues(#[trigger] on(held.shares, u), on(held.shares, u)) by {
        let claims = on(held.shares, u);
        assert(claims.take(claims.len() as int) =~= claims);
    }
}

/// One more part keeps everything that was held.
proof fn lemma_part_extends(
    base: &Nif,
    blocks: Seq<u32>,
    actor: ActorModel,
    part: ActorPart,
    file: Option<Nif>,
    number: u32,
)
    requires
        with_part(base, blocks, actor, part, file, number).held.bones.len() <= u8::MAX,
    ensures
        extends(actor.held, with_part(base, blocks, actor, part, file, number).held),
{
    lemma_extends_itself(actor.held);
    match file {
        Some(nif) => {
            let shapes = part_shapes(part, &nif);
            let flat = flattened(&nif, actor.table, shapes, shapes.len());
            if !actor.taken.contains((part.model@, part.shape@)) && flat.mesh.positions.len() > 0 {
                lemma_spans_extend(
                    base,
                    blocks,
                    &nif,
                    actor.held,
                    flat.spans,
                    number,
                    actor.mesh.positions.len() as int,
                    joint_named(base, blocks, lower_case(part.bone@)),
                    part.reflected,
                    0,
                    flat.spans.len(),
                );
            }
        },
        None => {},
    }
}

/// More shapes held are more bones.
proof fn lemma_spans_have_more(
    base: &Nif,
    blocks: Seq<u32>,
    nif: &Nif,
    held: HeldModel,
    spans: Seq<SpanModel>,
    part: u32,
    base_vertex: int,
    attachment: Option<u16>,
    mirrored: bool,
    m: nat,
    n: nat,
)
    requires
        m <= n,
    ensures
        with_spans(
            base,
            blocks,
            nif,
            held,
            spans,
            part,
            base_vertex,
            attachment,
            mirrored,
            m,
        ).bones.len() <= with_spans(
            base,
            blocks,
            nif,
            held,
            spans,
            part,
            base_vertex,
            attachment,
            mirrored,
            n,
        ).bones.len(),
    decreases n,
{
    if m < n {
        let fewer = (n - 1) as nat;
        lemma_spans_have_more(
            base,
            blocks,
            nif,
            held,
            spans,
            part,
            base_vertex,
            attachment,
            mirrored,
            m,
            fewer,
        );
        let before = with_spans(
            base,
            blocks,
            nif,
            held,
            spans,
            part,
            base_vertex,
            attachment,
            mirrored,
            fewer,
        );
        match nif.at(spans[n - 1].skin) {
            Some(Block::Skin(skin)) => match nif.at(skin.data) {
                Some(Block::SkinData(data)) => {
                    lemma_bones_grow(
                        before.bones,
                        base,
                        blocks,
                        nif,
                        data,
                        skin,
                        part,
                        fewer as u32,
                        super::rig::paired(data, skin),
                    );
                },
                _ => {},
            },
            _ => {},
        }
    }
}

/// More parts are more bones.
proof fn lemma_part_has_more(
    base: &Nif,
    blocks: Seq<u32>,
    actor: ActorModel,
    part: ActorPart,
    file: Option<Nif>,
    number: u32,
)
    ensures
        actor.held.bones.len() <= with_part(
            base,
            blocks,
            actor,
            part,
            file,
            number,
        ).held.bones.len(),
{
    match file {
        Some(nif) => {
            let shapes = part_shapes(part, &nif);
            let flat = flattened(&nif, actor.table, shapes, shapes.len());
            lemma_spans_have_more(
                base,
                blocks,
                &nif,
                actor.held,
                flat.spans,
                number,
                actor.mesh.positions.len() as int,
                joint_named(base, blocks, lower_case(part.bone@)),
                part.reflected,
                0,
                flat.spans.len(),
            );
        },
        None => {},
    }
}

/// More parts keep everything that was held.
proof fn lemma_parts_extend(
    base: &Nif,
    blocks: Seq<u32>,
    table: TableModel,
    parts: Seq<ActorPart>,
    files: Seq<Option<Nif>>,
    m: nat,
    n: nat,
)
    requires
        m <= n,
        with_parts(base, blocks, table, parts, files, n).held.bones.len() <= u8::MAX,
    ensures
        with_parts(base, blocks, table, parts, files, m).held.bones.len() <= u8::MAX,
        extends(
            with_parts(base, blocks, table, parts, files, m).held,
            with_parts(base, blocks, table, parts, files, n).held,
        ),
    decreases n,
{
    let some = |i: nat| with_parts(base, blocks, table, parts, files, i);
    if m < n {
        let fewer = (n - 1) as nat;
        lemma_part_has_more(
            base,
            blocks,
            some(fewer),
            parts[n - 1],
            files[n - 1],
            fewer as u32,
        );
        lemma_parts_extend(base, blocks, table, parts, files, m, fewer);
        lemma_part_extends(
            base,
            blocks,
            some(fewer),
            parts[n - 1],
            files[n - 1],
            fewer as u32,
        );
        lemma_extends(some(m).held, some(fewer).held, some(n).held);
    } else {
        lemma_extends_itself(some(n).held);
    }
}

/// A slot that is taken was taken by an earlier part.
proof fn lemma_taken_before(
    base: &Nif,
    blocks: Seq<u32>,
    table: TableModel,
    parts: Seq<ActorPart>,
    files: Seq<Option<Nif>>,
    n: nat,
    slot: (Seq<char>, Seq<char>),
)
    requires
        with_parts(base, blocks, table, parts, files, n).taken.contains(slot),
    ensures
        exists|q: int|
            #![trigger parts[q]]
            0 <= q < n && (parts[q].model@, parts[q].shape@) == slot,
    decreases n,
{
    if n > 0 {
        let before = with_parts(base, blocks, table, parts, files, (n - 1) as nat);
        if before.taken.contains(slot) {
            lemma_taken_before(base, blocks, table, parts, files, (n - 1) as nat, slot);
            let q = choose|q: int|
                #![trigger parts[q]]
                0 <= q < n - 1 && (parts[q].model@, parts[q].shape@) == slot;
            assert((parts[q].model@, parts[q].shape@) == slot);
        } else {
            let mine = (parts[n - 1].model@, parts[n - 1].shape@);
            let after = with_parts(base, blocks, table, parts, files, n);
            if after.taken != before.taken {
                assert(after.taken == before.taken.push(mine));
                let j = after.taken.index_of(slot);
                if j < before.taken.len() {
                    assert(before.taken[j] == slot);
                }
            }
            assert((parts[n - 1].model@, parts[n - 1].shape@) == slot);
        }
    }
}

/// What holding one shape of a part comes to in the whole body.
proof fn lemma_span_in_body(
    base: &Nif,
    table: TableModel,
    parts: Seq<ActorPart>,
    files: Seq<Option<Nif>>,
    p: int,
    s: int,
) -> (r: (HeldModel, HeldModel))
    requires
        assembly(base, table, parts, files) is Some,
        0 <= p < parts.len(),
        files[p] is Some,
        is_first_of_its_slot(parts, p),
        part_flat(base, table, parts, files, p).mesh.positions.len() > 0,
        0 <= s < part_flat(base, table, parts, files, p).spans.len(),
    ensures
        r.1 == with_held(
            base,
            walked(base, walk_start(base))->0.blocks,
            &files[p]->0,
            r.0,
            part_flat(base, table, parts, files, p).spans[s],
            p as u32,
            s as u32,
            body_before(base, table, parts, files, p).mesh.positions.len() as int,
            joint_named(
                base,
                walked(base, walk_start(base))->0.blocks,
                lower_case(parts[p].bone@),
            ),
            parts[p].reflected,
        ),
        r.1.bones.len() <= u8::MAX,
        extends(r.1, assembly(base, table, parts, files)->0.held),
{
    let blocks = walked(base, walk_start(base))->0.blocks;
    let all = assembly(base, table, parts, files)->0;
    let nif = files[p]->0;
    let part = parts[p];
    let before = body_before(base, table, parts, files, p);
    let after = with_parts(base, blocks, table, parts, files, (p + 1) as nat);
    let flat = part_flat(base, table, parts, files, p);
    let base_vertex = before.mesh.positions.len() as int;
    let attachment = joint_named(base, blocks, lower_case(part.bone@));
    if before.taken.contains((part.model@, part.shape@)) {
        lemma_taken_before(
            base,
            blocks,
            table,
            parts,
            files,
            p as nat,
            (part.model@, part.shape@),
        );
    }
    lemma_parts_extend(base, blocks, table, parts, files, (p + 1) as nat, parts.len());
    let some = |i: nat|
        with_spans(
            base,
            blocks,
            &nif,
            before.held,
            flat.spans,
            p as u32,
            base_vertex,
            attachment,
            part.reflected,
            i,
        );
    assert(after.held == some(flat.spans.len()));
    lemma_spans_extend(
        base,
        blocks,
        &nif,
        before.held,
        flat.spans,
        p as u32,
        base_vertex,
        attachment,
        part.reflected,
        (s + 1) as nat,
        flat.spans.len(),
    );
    lemma_extends(some((s + 1) as nat), after.held, all.held);
    (some(s as nat), some((s + 1) as nat))
}

/// **A skinned shape's vertices follow the joints its own bones are named for**: each weight a bone
/// of the skin lists is a hold on that vertex, as strong as listed, by a bone that follows the joint
/// of the body's skeleton with that bone's name, in the bind pose the skin gives for it.
pub proof fn law_a_skinned_part_follows_the_joints_it_names(
    base: &Nif,
    table: TableModel,
    parts: Seq<ActorPart>,
    files: Seq<Option<Nif>>,
    p: int,
    s: int,
    skin: SkinInstance,
    data: SkinData,
    joints: Seq<int>,
    k: int,
    i: int,
)
    requires
        assembly(base, table, parts, files) is Some,
        0 <= p < parts.len(),
        files[p] is Some,
        is_first_of_its_slot(parts, p),
        part_flat(base, table, parts, files, p).mesh.positions.len() > 0,
        0 <= s < part_flat(base, table, parts, files, p).spans.len(),
        (files[p]->0).at(part_flat(base, table, parts, files, p).spans[s].skin) == Some(
            Block::Skin(skin),
        ),
        (files[p]->0).at(skin.data) == Some(Block::SkinData(data)),
        skin.bones@.len() == data.bones@.len(),
        all_answer(
            base,
            walked(base, walk_start(base))->0.blocks,
            &files[p]->0,
            skin,
            joints,
        ),
        0 <= k < data.bones@.len(),
        lists(data.bones@[k], data.weights@, i),
    ensures
        follows(
            assembly(base, table, parts, files)->0.held,
            body_before(base, table, parts, files, p).mesh.positions.len() + part_flat(
                base,
                table,
                parts,
                files,
                p,
            ).spans[s].first_vertex + data.weights@[i].vertex,
            data.weights@[i].weight,
            (ActorBone {
                joint: joints[k] as u16,
                bind: ActorBind::Skinned {
                    inverse_bind: data.bones@[k].inverse_bind,
                    part: p as u32,
                    span: s as u32,
                },
            }),
        ),
{
    let blocks = walked(base, walk_start(base))->0.blocks;
    let (held, after) = lemma_span_in_body(base, table, parts, files, p, s);
    let span = part_flat(base, table, parts, files, p).spans[s];
    let base_vertex = body_before(base, table, parts, files, p).mesh.positions.len() as int;
    lemma_held_skin(
        base,
        blocks,
        &files[p]->0,
        held,
        span,
        p as u32,
        s as u32,
        base_vertex,
        joint_named(base, blocks, lower_case(parts[p].bone@)),
        parts[p].reflected,
        skin,
        data,
        joints,
        k,
        i,
    );
    lemma_still_follows(
        after,
        assembly(base, table, parts, files)->0.held,
        base_vertex + span.first_vertex + data.weights@[i].vertex,
        data.weights@[i].weight,
        ActorBone {
            joint: joints[k] as u16,
            bind: ActorBind::Skinned {
                inverse_bind: data.bones@[k].inverse_bind,
                part: p as u32,
                span: s as u32,
            },
        },
    );
}

/// **A shape that is not skinned follows the joint its part hangs from, whole**: every vertex of it
/// is held at full weight by a bone that follows the joint with the name of the part's own bone,
/// mirrored where the part is a reflection.
pub proof fn law_an_attached_part_follows_its_bone(
    base: &Nif,
    table: TableModel,
    parts: Seq<ActorPart>,
    files: Seq<Option<Nif>>,
    p: int,
    s: int,
    joint: int,
    v: int,
)
    requires
        assembly(base, table, parts, files) is Some,
        0 <= p < parts.len(),
        files[p] is Some,
        is_first_of_its_slot(parts, p),
        part_flat(base, table, parts, files, p).mesh.positions.len() > 0,
        0 <= s < part_flat(base, table, parts, files, p).spans.len(),
        !((files[p]->0).at(part_flat(base, table, parts, files, p).spans[s].skin) matches Some(
            Block::Skin(_),
        )),
        answers_to(
            base,
            walked(base, walk_start(base))->0.blocks,
            parts[p].bone@,
            joint,
        ),
        0 <= v < part_flat(base, table, parts, files, p).spans[s].vertex_count,
    ensures
        follows(
            assembly(base, table, parts, files)->0.held,
            body_before(base, table, parts, files, p).mesh.positions.len() + part_flat(
                base,
                table,
                parts,
                files,
                p,
            ).spans[s].first_vertex + v,
            0x3F80_0000,
            (ActorBone {
                joint: joint as u16,
                bind: ActorBind::Attached { mirrored: parts[p].reflected },
            }),
        ),
{
    let blocks = walked(base, walk_start(base))->0.blocks;
    let (held, after) = lemma_span_in_body(base, table, parts, files, p, s);
    let span = part_flat(base, table, parts, files, p).spans[s];
    let base_vertex = body_before(base, table, parts, files, p).mesh.positions.len() as int;
    let first_vertex = base_vertex + span.first_vertex;
    let number = held.bones.len() as u32;
    lemma_first_answers(base, blocks, parts[p].bone@, joint, 0);
    lemma_run_on(held.shares, first_vertex, number, span.vertex_count as nat, first_vertex + v);
    let claims = on(after.shares, first_vertex + v);
    let share = Share { bone: number, weight: 0x3F80_0000 };
    assert(claims[claims.len() - 1] == share);
    let bone = ActorBone {
        joint: joint as u16,
        bind: ActorBind::Attached { mirrored: parts[p].reflected },
    };
    assert(after.bones[held.bones.len() as int] == bone);
    lemma_still_follows(
        after,
        assembly(base, table, parts, files)->0.held,
        first_vertex + v,
        0x3F80_0000,
        bone,
    );
}

/// Whether one mesh begins with another, as far as its vertices, its triangles and its shapes go.
spec fn begins_with(all: ActorModel, first: ActorModel) -> bool {
    &&& first.mesh.positions.len() <= all.mesh.positions.len()
    &&& first.mesh.normals.len() <= all.mesh.normals.len()
    &&& first.mesh.uvs.len() <= all.mesh.uvs.len()
    &&& first.mesh.indices.len() <= all.mesh.indices.len()
    &&& first.spans.len() <= all.spans.len()
    &&& forall|i: int|
        0 <= i < first.mesh.positions.len() ==> #[trigger] all.mesh.positions[i]
            == first.mesh.positions[i]
    &&& forall|i: int|
        0 <= i < first.mesh.normals.len() ==> #[trigger] all.mesh.normals[i]
            == first.mesh.normals[i]
    &&& forall|i: int|
        0 <= i < first.mesh.uvs.len() ==> #[trigger] all.mesh.uvs[i] == first.mesh.uvs[i]
    &&& forall|i: int|
        0 <= i < first.mesh.indices.len() ==> #[trigger] all.mesh.indices[i]
            == first.mesh.indices[i]
    &&& forall|i: int| 0 <= i < first.spans.len() ==> #[trigger] all.spans[i] == first.spans[i]
}

/// Parts are stacked after those before them.
proof fn lemma_parts_begin(
    base: &Nif,
    blocks: Seq<u32>,
    table: TableModel,
    parts: Seq<ActorPart>,
    files: Seq<Option<Nif>>,
    m: nat,
    n: nat,
)
    requires
        m <= n,
    ensures
        begins_with(
            with_parts(base, blocks, table, parts, files, n),
            with_parts(base, blocks, table, parts, files, m),
        ),
    decreases n,
{
    if m < n {
        let fewer = (n - 1) as nat;
        lemma_parts_begin(base, blocks, table, parts, files, m, fewer);
        let before = with_parts(base, blocks, table, parts, files, fewer);
        let after = with_parts(base, blocks, table, parts, files, n);
        assert(begins_with(after, before));
    }
}

/// What the first part of a slot that draws anything adds to the body before it.
proof fn lemma_part_is_added(
    base: &Nif,
    table: TableModel,
    parts: Seq<ActorPart>,
    files: Seq<Option<Nif>>,
    p: int,
)
    requires
        assembly(base, table, parts, files) is Some,
        0 <= p < parts.len(),
        files[p] is Some,
        is_first_of_its_slot(parts, p),
        part_flat(base, table, parts, files, p).mesh.positions.len() > 0,
    ensures
        ({
            let blocks = walked(base, walk_start(base))->0.blocks;
            let before = body_before(base, table, parts, files, p);
            let after = with_parts(base, blocks, table, parts, files, (p + 1) as nat);
            let flat = part_flat(base, table, parts, files, p);
            &&& after.mesh == stacked(
                before.mesh,
                if parts[p].reflected && !any_skinned(flat.spans) {
                    MeshModel { indices: rewound(flat.mesh.indices), ..flat.mesh }
                } else {
                    flat.mesh
                },
            )
            &&& after.spans == before.spans + part_spans(
                flat.spans,
                p as u32,
                before.mesh.positions.len() as u32,
            )
        }),
{
    let blocks = walked(base, walk_start(base))->0.blocks;
    let slot = (parts[p].model@, parts[p].shape@);
    if body_before(base, table, parts, files, p).taken.contains(slot) {
        lemma_taken_before(base, blocks, table, parts, files, p as nat, slot);
    }
}

/// **A part stands in the body as its file has it**: its vertices after those of the parts before
/// it, at their own positions, with their own normals and texture coordinates.
pub proof fn law_a_part_stands_in_the_body(
    base: &Nif,
    table: TableModel,
    parts: Seq<ActorPart>,
    files: Seq<Option<Nif>>,
    p: int,
    i: int,
)
    requires
        assembly(base, table, parts, files) is Some,
        0 <= p < parts.len(),
        files[p] is Some,
        is_first_of_its_slot(parts, p),
        part_flat(base, table, parts, files, p).mesh.positions.len() > 0,
    ensures
        ({
            let body = assembly(base, table, parts, files)->0.mesh;
            let before = body_before(base, table, parts, files, p).mesh;
            let own = part_flat(base, table, parts, files, p).mesh;
            &&& 0 <= i < own.positions.len() ==> body.positions[before.positions.len() + i]
                == own.positions[i]
            &&& 0 <= i < own.normals.len() ==> body.normals[before.normals.len() + i]
                == own.normals[i]
            &&& 0 <= i < own.uvs.len() ==> body.uvs[before.uvs.len() + i] == own.uvs[i]
        }),
{
    let blocks = walked(base, walk_start(base))->0.blocks;
    lemma_part_is_added(base, table, parts, files, p);
    let after = with_parts(base, blocks, table, parts, files, (p + 1) as nat);
    let all = assembly(base, table, parts, files)->0;
    lemma_parts_begin(base, blocks, table, parts, files, (p + 1) as nat, parts.len());
    let before = body_before(base, table, parts, files, p).mesh;
    let own = part_flat(base, table, parts, files, p).mesh;
    assert(begins_with(all, after));
    if 0 <= i < own.positions.len() {
        assert(after.mesh.positions[before.positions.len() + i] == own.positions[i]);
    }
    if 0 <= i < own.normals.len() {
        assert(after.mesh.normals[before.normals.len() + i] == own.normals[i]);
    }
    if 0 <= i < own.uvs.len() {
        assert(after.mesh.uvs[before.uvs.len() + i] == own.uvs[i]);
    }
}

/// **A part's triangles are the ones its file has**, between its own vertices. Those of a reflected
/// part that is not skinned go the other way round, which is what keeps them facing outwards.
pub proof fn law_a_reflected_part_is_turned_round(
    base: &Nif,
    table: TableModel,
    parts: Seq<ActorPart>,
    files: Seq<Option<Nif>>,
    p: int,
    t: int,
)
    requires
        assembly(base, table, parts, files) is Some,
        0 <= p < parts.len(),
        files[p] is Some,
        is_first_of_its_slot(parts, p),
        part_flat(base, table, parts, files, p).mesh.positions.len() > 0,
        0 <= t,
        3 * t + 2 < part_flat(base, table, parts, files, p).mesh.indices.len(),
    ensures
        ({
            let body = assembly(base, table, parts, files)->0.mesh;
            let before = body_before(base, table, parts, files, p).mesh;
            let flat = part_flat(base, table, parts, files, p);
            let own = flat.mesh.indices;
            let at = before.indices.len() + 3 * t;
            let first = before.positions.len();
            let rigid = forall|s: int|
                0 <= s < flat.spans.len() ==> (#[trigger] flat.spans[s]).skin.0 is None;
            &&& body.indices[at] == (own[3 * t] + first) as u32
            &&& parts[p].reflected && rigid ==> {
                &&& body.indices[at + 1] == (own[3 * t + 2] + first) as u32
                &&& body.indices[at + 2] == (own[3 * t + 1] + first) as u32
            }
            &&& !parts[p].reflected || !rigid ==> {
                &&& body.indices[at + 1] == (own[3 * t + 1] + first) as u32
                &&& body.indices[at + 2] == (own[3 * t + 2] + first) as u32
            }
        }),
{
    let blocks = walked(base, walk_start(base))->0.blocks;
    lemma_part_is_added(base, table, parts, files, p);
    let after = with_parts(base, blocks, table, parts, files, (p + 1) as nat);
    let all = assembly(base, table, parts, files)->0;
    lemma_parts_begin(base, blocks, table, parts, files, (p + 1) as nat, parts.len());
    assert(begins_with(all, after));
    let before = body_before(base, table, parts, files, p).mesh;
    let flat = part_flat(base, table, parts, files, p);
    let own = flat.mesh.indices;
    let at = before.indices.len() + 3 * t;
    let turned = rewound(own);
    assert(turned[3 * t] == own[3 * t]);
    assert(turned[3 * t + 1] == own[3 * t + 2]) by {
        assert((3 * t + 1) / 3 == t && (3 * t + 1) % 3 == 1);
    }
    assert(turned[3 * t + 2] == own[3 * t + 1]) by {
        assert((3 * t + 2) / 3 == t && (3 * t + 2) % 3 == 2);
    }
    assert(all.mesh.indices[at] == after.mesh.indices[at]);
    assert(all.mesh.indices[at + 1] == after.mesh.indices[at + 1]);
    assert(all.mesh.indices[at + 2] == after.mesh.indices[at + 2]);
}

/// **Each shape of a body says which part it is of and where that part begins**: the shapes of a
/// part, as its file has them, one after the other behind those of the parts before it.
pub proof fn law_a_shape_of_a_body_says_whose_it_is(
    base: &Nif,
    table: TableModel,
    parts: Seq<ActorPart>,
    files: Seq<Option<Nif>>,
    p: int,
    s: int,
)
    requires
        assembly(base, table, parts, files) is Some,
        0 <= p < parts.len(),
        files[p] is Some,
        is_first_of_its_slot(parts, p),
        part_flat(base, table, parts, files, p).mesh.positions.len() > 0,
        0 <= s < part_flat(base, table, parts, files, p).spans.len(),
    ensures
        assembly(base, table, parts, files)->0.spans[body_before(
            base,
            table,
            parts,
            files,
            p,
        ).spans.len() + s] == (PartSpanModel {
            part: p as u32,
            base_vertex: body_before(base, table, parts, files, p).mesh.positions.len() as u32,
            span: part_flat(base, table, parts, files, p).spans[s],
        }),
{
    let blocks = walked(base, walk_start(base))->0.blocks;
    lemma_part_is_added(base, table, parts, files, p);
    let after = with_parts(base, blocks, table, parts, files, (p + 1) as nat);
    let all = assembly(base, table, parts, files)->0;
    lemma_parts_begin(base, blocks, table, parts, files, (p + 1) as nat, parts.len());
    assert(begins_with(all, after));
    let at = body_before(base, table, parts, files, p).spans.len() + s;
    assert(all.spans[at] == after.spans[at]);
}

/// **A part whose file was not read, or that draws nothing, adds nothing to a body.**
pub proof fn law_what_draws_nothing_adds_nothing(
    base: &Nif,
    table: TableModel,
    parts: Seq<ActorPart>,
    files: Seq<Option<Nif>>,
    p: int,
)
    requires
        0 <= p < parts.len(),
        files[p] is None || part_flat(base, table, parts, files, p).mesh.positions.len() == 0,
    ensures
        ({
            let before = body_before(base, table, parts, files, p);
            let after = body_before(base, table, parts, files, p + 1);
            &&& after.mesh == before.mesh
            &&& after.held == before.held
            &&& after.spans == before.spans
            &&& after.taken == before.taken
        }),
{
}

/// Whether every claim on a vertex is of a bone there is, and is one that a part means.
spec fn all_meant(held: HeldModel, u: int, meant: spec_fn(u32, ActorBind) -> bool) -> bool {
    forall|j: int|
        0 <= j < on(held.shares, u).len() ==> {
            let share = #[trigger] on(held.shares, u)[j];
            share.bone < held.bones.len() && meant(share.weight, held.bones[share.bone as int].bind)
        }
}

/// Where as many bones were added as a skin has, they are its bones in order.
proof fn lemma_whole_skin_bound(
    bones: Seq<ActorBone>,
    base: &Nif,
    blocks: Seq<u32>,
    nif: &Nif,
    data: SkinData,
    skin: SkinInstance,
    part: u32,
    span: u32,
    n: nat,
)
    requires
        with_bones(bones, base, blocks, nif, data, skin, part, span, n).len() == bones.len() + n,
    ensures
        forall|k: int|
            0 <= k < n ==> with_bones(
                bones,
                base,
                blocks,
                nif,
                data,
                skin,
                part,
                span,
                n,
            )[bones.len() + k].bind == (ActorBind::Skinned {
                inverse_bind: (#[trigger] data.bones@[k]).inverse_bind,
                part,
                span,
            }),
    decreases n,
{
    if n > 0 {
        let fewer = (n - 1) as nat;
        lemma_bones_grow(bones, base, blocks, nif, data, skin, part, span, fewer);
        lemma_whole_skin_bound(bones, base, blocks, nif, data, skin, part, span, fewer);
        let before = with_bones(bones, base, blocks, nif, data, skin, part, span, fewer);
        let after = with_bones(bones, base, blocks, nif, data, skin, part, span, n);
        assert forall|k: int| 0 <= k < n implies after[bones.len() + k].bind == (
        ActorBind::Skinned {
            inverse_bind: (#[trigger] data.bones@[k]).inverse_bind,
            part,
            span,
        }) by {
            if k < fewer {
                assert(after[bones.len() + k] == before[bones.len() + k]);
            }
        }
    }
}

/// Whether a hold on a vertex is one that a shape of a part means: one that its skin lists there,
/// or, of a shape that is not skinned, a whole hold on a vertex of its own.
pub open spec fn is_meant_by(
    nif: &Nif,
    span: SpanModel,
    part: u32,
    number: u32,
    base_vertex: int,
    mirrored: bool,
    u: int,
    weight: u32,
    bind: ActorBind,
) -> bool {
    let first_vertex = base_vertex + span.first_vertex;
    match nif.at(span.skin) {
        Some(Block::Skin(skin)) => nif.at(skin.data) matches Some(Block::SkinData(data))
            && exists|k: int, i: int|
            #![trigger data.bones@[k], data.weights@[i]]
            0 <= k < data.bones@.len() && lists(data.bones@[k], data.weights@, i) && first_vertex
                + data.weights@[i].vertex == u && weight == data.weights@[i].weight && bind == (
            ActorBind::Skinned {
                inverse_bind: data.bones@[k].inverse_bind,
                part,
                span: number,
            }),
        _ => {
            &&& first_vertex <= u < first_vertex + span.vertex_count
            &&& weight == 0x3F80_0000
            &&& bind == ActorBind::Attached { mirrored }
        },
    }
}

/// One more shape claims only what it means.
proof fn lemma_held_meant(
    base: &Nif,
    blocks: Seq<u32>,
    nif: &Nif,
    held: HeldModel,
    span: SpanModel,
    part: u32,
    number: u32,
    base_vertex: int,
    attachment: Option<u16>,
    mirrored: bool,
    u: int,
    meant: spec_fn(u32, ActorBind) -> bool,
)
    requires
        0 <= base_vertex,
        with_held(
            base,
            blocks,
            nif,
            held,
            span,
            part,
            number,
            base_vertex,
            attachment,
            mirrored,
        ).bones.len() <= u8::MAX,
        all_meant(held, u, meant),
        forall|weight: u32, bind: ActorBind|
            is_meant_by(nif, span, part, number, base_vertex, mirrored, u, weight, bind)
                ==> #[trigger] meant(weight, bind),
    ensures
        all_meant(
            with_held(
                base,
                blocks,
                nif,
                held,
                span,
                part,
                number,
                base_vertex,
                attachment,
                mirrored,
            ),
            u,
            meant,
        ),
{
    let after = with_held(
        base,
        blocks,
        nif,
        held,
        span,
        part,
        number,
        base_vertex,
        attachment,
        mirrored,
    );
    let first_vertex = base_vertex + span.first_vertex;
    let f = held.bones.len() as int;
    let claims = on(held.shares, u);
    let more = on(after.shares, u);
    lemma_held_extends(
        base,
        blocks,
        nif,
        held,
        span,
        part,
        number,
        base_vertex,
        attachment,
        mirrored,
    );
    assert(continues(claims, more));
    assert forall|j: int| 0 <= j < more.len() implies ({
        let share = #[trigger] more[j];
        share.bone < after.bones.len() && meant(share.weight, after.bones[share.bone as int].bind)
    }) by {
        let share = more[j];
        if j < claims.len() {
            assert(more.take(claims.len() as int)[j] == more[j]);
            assert(claims[j] == share);
            assert(after.bones[share.bone as int] == held.bones[share.bone as int]);
        } else {
            match nif.at(span.skin) {
                Some(Block::Skin(skin)) => match nif.at(skin.data) {
                    Some(Block::SkinData(data)) => {
                        let n = data.bones@.len();
                        lemma_bones_grow(
                            held.bones,
                            base,
                            blocks,
                            nif,
                            data,
                            skin,
                            part,
                            number,
                            super::rig::paired(data, skin),
                        );
                        if after.bones.len() - held.bones.len() == n {
                            lemma_skin_on(held.shares, data, first_vertex, f, n, u);
                            lemma_skin_listed(claims, data, first_vertex, f, u, n);
                            lemma_whole_skin_bound(
                                held.bones,
                                base,
                                blocks,
                                nif,
                                data,
                                skin,
                                part,
                                number,
                                n,
                            );
                            assert(is_listed(data, first_vertex, f, u, share));
                            let (k, i) = choose|k: int, i: int|
                                #![trigger data.bones@[k], data.weights@[i]]
                                0 <= k < data.bones@.len() && lists(
                                    data.bones@[k],
                                    data.weights@,
                                    i,
                                ) && u == first_vertex + data.weights@[i].vertex && share.bone == f
                                    + k && share.weight == data.weights@[i].weight;
                            assert(data.bones@[k] == data.bones@[k]);
                            assert(data.weights@[i] == data.weights@[i]);
                            assert(is_meant_by(
                                nif,
                                span,
                                part,
                                number,
                                base_vertex,
                                mirrored,
                                u,
                                share.weight,
                                after.bones[share.bone as int].bind,
                            ));
                        }
                    },
                    _ => {},
                },
                _ => {
                    lemma_run_on(
                        held.shares,
                        first_vertex,
                        f as u32,
                        span.vertex_count as nat,
                        u,
                    );
                },
            }
        }
    }
}

/// The shapes of a part claim only what they mean.
proof fn lemma_spans_meant(
    base: &Nif,
    blocks: Seq<u32>,
    nif: &Nif,
    held: HeldModel,
    spans: Seq<SpanModel>,
    part: u32,
    base_vertex: int,
    attachment: Option<u16>,
    mirrored: bool,
    n: nat,
    u: int,
    meant: spec_fn(u32, ActorBind) -> bool,
)
    requires
        0 <= base_vertex,
        n <= spans.len(),
        with_spans(
            base,
            blocks,
            nif,
            held,
            spans,
            part,
            base_vertex,
            attachment,
            mirrored,
            n,
        ).bones.len() <= u8::MAX,
        all_meant(held, u, meant),
        forall|s: int, weight: u32, bind: ActorBind|
            #![trigger spans[s], meant(weight, bind)]
            0 <= s < spans.len() && is_meant_by(
                nif,
                spans[s],
                part,
                s as u32,
                base_vertex,
                mirrored,
                u,
                weight,
                bind,
            ) ==> meant(weight, bind),
    ensures
        all_meant(
            with_spans(
                base,
                blocks,
                nif,
                held,
                spans,
                part,
                base_vertex,
                attachment,
                mirrored,
                n,
            ),
            u,
            meant,
        ),
    decreases n,
{
    if n > 0 {
        let fewer = (n - 1) as nat;
        lemma_spans_have_more(
            base,
            blocks,
            nif,
            held,
            spans,
            part,
            base_vertex,
            attachment,
            mirrored,
            fewer,
            n,
        );
        lemma_spans_meant(
            base,
            blocks,
            nif,
            held,
            spans,
            part,
            base_vertex,
            attachment,
            mirrored,
            fewer,
            u,
            meant,
        );
        let before = with_spans(
            base,
            blocks,
            nif,
            held,
            spans,
            part,
            base_vertex,
            attachment,
            mirrored,
            fewer,
        );
        let span = spans[n - 1];
        lemma_held_meant(
            base,
            blocks,
            nif,
            before,
            span,
            part,
            fewer as u32,
            base_vertex,
            attachment,
            mirrored,
            u,
            meant,
        );
    }
}

/// Whether a hold on a vertex is one that a shape of one of some parts means.
pub open spec fn is_meant(
    base: &Nif,
    table: TableModel,
    parts: Seq<ActorPart>,
    files: Seq<Option<Nif>>,
    u: int,
    weight: u32,
    bind: ActorBind,
) -> bool {
    exists|p: int, s: int|
        #![trigger parts[p], part_flat(base, table, parts, files, p).spans[s]]
        0 <= p < parts.len() && files[p] is Some && 0 <= s < part_flat(
            base,
            table,
            parts,
            files,
            p,
        ).spans.len() && is_meant_by(
            &files[p]->0,
            part_flat(base, table, parts, files, p).spans[s],
            p as u32,
            s as u32,
            body_before(base, table, parts, files, p).mesh.positions.len() as int,
            parts[p].reflected,
            u,
            weight,
            bind,
        )
}

/// Some parts claim only what they mean.
proof fn lemma_parts_meant(
    base: &Nif,
    table: TableModel,
    parts: Seq<ActorPart>,
    files: Seq<Option<Nif>>,
    n: nat,
    u: int,
)
    requires
        n <= parts.len(),
        body_before(base, table, parts, files, n as int).held.bones.len() <= u8::MAX,
    ensures
        all_meant(
            body_before(base, table, parts, files, n as int).held,
            u,
            |weight: u32, bind: ActorBind|
                is_meant(base, table, parts, files, u, weight, bind),
        ),
    decreases n,
{
    if n > 0 {
        let blocks = walked(base, walk_start(base))->0.blocks;
        let meant = |weight: u32, bind: ActorBind|
            is_meant(base, table, parts, files, u, weight, bind);
        let p = n - 1;
        let before = body_before(base, table, parts, files, p);
        lemma_part_has_more(base, blocks, before, parts[p], files[p], p as u32);
        lemma_parts_meant(base, table, parts, files, p as nat, u);
        match files[p] {
            Some(nif) => {
                let flat = part_flat(base, table, parts, files, p);
                if !before.taken.contains((parts[p].model@, parts[p].shape@))
                    && flat.mesh.positions.len() > 0 {
                    assert forall|s: int, weight: u32, bind: ActorBind|
                        #![trigger flat.spans[s], meant(weight, bind)]
                        0 <= s < flat.spans.len() && is_meant_by(
                            &nif,
                            flat.spans[s],
                            p as u32,
                            s as u32,
                            before.mesh.positions.len() as int,
                            parts[p].reflected,
                            u,
                            weight,
                            bind,
                        ) implies meant(weight, bind) by {
                        assert(parts[p] == parts[p]);
                        assert(part_flat(base, table, parts, files, p).spans[s] == flat.spans[s]);
                    }
                    lemma_spans_meant(
                        base,
                        blocks,
                        &nif,
                        before.held,
                        flat.spans,
                        p as u32,
                        before.mesh.positions.len() as int,
                        joint_named(base, blocks, lower_case(parts[p].bone@)),
                        parts[p].reflected,
                        flat.spans.len(),
                        u,
                        meant,
                    );
                }
            },
            None => {},
        }
    }
}

/// **Nothing holds a vertex of a body but what a part means for it**: every claim on it is of a bone
/// the body has, and is one that the skin of a shape lists there, under the bind pose of the bone
/// that lists it, or a whole hold by the bone a rigid part hangs from.
pub proof fn law_nothing_else_holds_a_body(
    base: &Nif,
    table: TableModel,
    parts: Seq<ActorPart>,
    files: Seq<Option<Nif>>,
    vertex: int,
    j: int,
)
    requires
        assembly(base, table, parts, files) is Some,
        0 <= j < on(assembly(base, table, parts, files)->0.held.shares, vertex).len(),
    ensures
        ({
            let held = assembly(base, table, parts, files)->0.held;
            let share = on(held.shares, vertex)[j];
            &&& share.bone < held.bones.len()
            &&& is_meant(
                base,
                table,
                parts,
                files,
                vertex,
                share.weight,
                held.bones[share.bone as int].bind,
            )
        }),
{
    lemma_parts_meant(base, table, parts, files, parts.len(), vertex);
}

/// **Assembling a body leaves its materials in the table**, and a skeleton that nothing moves leaves
/// the table as it was.
pub proof fn law_a_body_leaves_its_materials(
    base: &Nif,
    table: TableModel,
    parts: Seq<ActorPart>,
    files: Seq<Option<Nif>>,
)
    ensures
        assembly(base, table, parts, files) matches Some(all) ==> table_after(
            base,
            table,
            parts,
            files,
        ) == all.table,
        walked(base, walk_start(base)) is None ==> table_after(base, table, parts, files) == table,
        parts.len() == 0 ==> table_after(base, table, parts, files) == table,
{
}

} // verus!
