//! What holds of every assembled body.

use super::actor::{
    actor_within_limits, any_skinned, assembly, body_shares, first_named, joint_named,
    lemma_part_stacks, lemma_part_totals_grow, part_shapes, part_totals, with_bones, with_part,
    with_parts, with_run, with_skin, with_spans, with_weights, ActorBone, ActorModel, ActorPart,
    HeldModel,
};
use super::flatten::{
    data_at, drawn_vertices, flattened, flattens, law_spans_cover_the_vertices,
    lemma_limits_suffice, shape_at, spans_cover, with_shape, SpanModel,
};
use super::influence::Share;
use super::material::{no_properties, overridden, Properties};
use super::material_table::TableModel;
use super::mesh::drawable;
use super::model_index::lower_case;
use super::nif::{Block, Link, Nif, SkinData, SkinInstance, SkinWeight};
use super::rig::{influences_of, paired};
use super::skeleton::{lemma_walk_is_numbered, walk_start, walked, NO_PARENT};
use super::walk::{belongs, drawn, drawn_among, drawn_from, skins, DrawnModel, MAX_DEPTH};
use vstd::prelude::*;

verus! {

/// Whether every joint a body's bones follow exists.
pub open spec fn bones_exist(bones: Seq<ActorBone>, joints: nat) -> bool {
    forall|i: int| 0 <= i < bones.len() ==> (#[trigger] bones[i]).joint < joints
}

/// A name is found among the joints, or past the last of them.
proof fn lemma_first_named(nif: &Nif, blocks: Seq<u32>, name: Seq<char>, from: int)
    requires
        0 <= from <= blocks.len(),
    ensures
        from <= first_named(nif, blocks, name, from) <= blocks.len(),
    decreases blocks.len() - from,
{
    if from < blocks.len() {
        lemma_first_named(nif, blocks, name, from + 1);
    }
}

/// A joint found by name exists.
proof fn lemma_joint_exists(nif: &Nif, blocks: Seq<u32>, name: Seq<char>)
    requires
        blocks.len() <= NO_PARENT,
    ensures
        joint_named(nif, blocks, name) matches Some(joint) ==> joint < blocks.len(),
{
    lemma_first_named(nif, blocks, name, 0);
}

/// Bones of a skin follow joints that exist.
proof fn lemma_bones_exist(
    bones: Seq<ActorBone>,
    base: &Nif,
    blocks: Seq<u32>,
    nif: &Nif,
    data: SkinData,
    skin: SkinInstance,
    part: u32,
    span: u32,
    n: nat,
)
    requires
        blocks.len() <= NO_PARENT,
        bones_exist(bones, blocks.len()),
    ensures
        bones_exist(
            with_bones(bones, base, blocks, nif, data, skin, part, span, n),
            blocks.len(),
        ),
    decreases n,
{
    if n > 0 {
        lemma_bones_exist(bones, base, blocks, nif, data, skin, part, span, (n - 1) as nat);
        match nif.at(skin.bones@[n - 1]) {
            Some(Block::Node(node)) => {
                lemma_joint_exists(base, blocks, lower_case(node.object.name@));
            },
            _ => {},
        }
    }
}

/// Whether a body's claims are on vertices below a limit, and its bones follow joints that exist.
spec fn holds_within(held: HeldModel, limit: int, joints: nat) -> bool {
    held.shares.len() <= limit && bones_exist(held.bones, joints)
}

/// One bone's hold stays below a limit where its vertices do.
proof fn lemma_weights_within(
    shares: Seq<Seq<Share>>,
    weights: Seq<SkinWeight>,
    first_weight: int,
    first_vertex: int,
    bone: u32,
    n: nat,
    limit: int,
)
    requires
        shares.len() <= limit,
        0 <= first_weight,
        0 <= first_vertex,
        forall|k: int|
            0 <= k < weights.len() ==> first_vertex + (#[trigger] weights[k]).vertex < limit,
    ensures
        with_weights(shares, weights, first_weight, first_vertex, bone, n).len() <= limit,
    decreases n,
{
    if n > 0 {
        lemma_weights_within(
            shares,
            weights,
            first_weight,
            first_vertex,
            bone,
            (n - 1) as nat,
            limit,
        );
        let at = first_weight + n - 1;
        if at < weights.len() {
            assert(first_vertex + weights[at].vertex < limit);
        }
    }
}

/// A skin's hold stays below a limit where its weights' vertices do.
proof fn lemma_skin_within(
    shares: Seq<Seq<Share>>,
    data: SkinData,
    first_vertex: int,
    first_bone: int,
    n: nat,
    limit: int,
)
    requires
        shares.len() <= limit,
        0 <= first_vertex,
        forall|k: int|
            0 <= k < data.weights@.len() ==> first_vertex + (#[trigger] data.weights@[k]).vertex
                < limit,
    ensures
        with_skin(shares, data, first_vertex, first_bone, n).len() <= limit,
    decreases n,
{
    if n > 0 {
        lemma_skin_within(shares, data, first_vertex, first_bone, (n - 1) as nat, limit);
        let bone = data.bones@[n - 1];
        lemma_weights_within(
            with_skin(shares, data, first_vertex, first_bone, (n - 1) as nat),
            data.weights@,
            bone.first_weight as int,
            first_vertex,
            (first_bone + n - 1) as u32,
            bone.weight_count as nat,
            limit,
        );
    }
}

/// A bone's hold on a run stays below a limit where the run does.
proof fn lemma_run_within(
    shares: Seq<Seq<Share>>,
    first_vertex: int,
    bone: u32,
    n: nat,
    limit: int,
)
    requires
        shares.len() <= limit,
        0 <= first_vertex,
        first_vertex + n <= limit,
    ensures
        with_run(shares, first_vertex, bone, n).len() <= limit,
    decreases n,
{
    if n > 0 {
        lemma_run_within(shares, first_vertex, bone, (n - 1) as nat, limit);
    }
}

/// Whether a shape's skin holds only vertices the shape has.
pub open spec fn skin_holds_its_own(nif: &Nif, block: u32) -> bool {
    nif.at(shape_at(nif, block).skin) matches Some(Block::Skin(skin)) ==> (nif.at(
        skin.data,
    ) matches Some(Block::SkinData(data)) ==> forall|k: int|
        0 <= k < data.weights@.len() ==> (#[trigger] data.weights@[k]).vertex < data_at(
            nif,
            block,
        ).vertices@.len())
}

/// Whether a span is of a shape: its skin, and as many vertices.
pub open spec fn is_span_of(nif: &Nif, span: SpanModel, block: u32) -> bool {
    &&& span.skin == shape_at(nif, block).skin
    &&& span.vertex_count == data_at(nif, block).vertices@.len()
    &&& skin_holds_its_own(nif, block)
}

/// Whether every span is of a shape whose skin holds only its own vertices.
pub open spec fn spans_hold_their_own(nif: &Nif, spans: Seq<SpanModel>) -> bool {
    forall|i: int|
        0 <= i < spans.len() ==> #[trigger] is_span_of(nif, spans[i], spans[i].block)
}

/// The spans of a flattening are of its shapes.
proof fn lemma_spans_are_of_shapes(nif: &Nif, table: TableModel, shapes: Seq<DrawnModel>, n: nat)
    requires
        n <= shapes.len(),
        flattens(nif, table, shapes),
        forall|i: int|
            0 <= i < shapes.len() ==> skin_holds_its_own(nif, (#[trigger] shapes[i]).block),
    ensures
        spans_hold_their_own(nif, flattened(nif, table, shapes, n).spans),
    decreases n,
{
    if n > 0 {
        lemma_spans_are_of_shapes(nif, table, shapes, (n - 1) as nat);
        let before = flattened(nif, table, shapes, (n - 1) as nat);
        let shape = shapes[n - 1];
        let after = with_shape(nif, before, shape);
        assert(skin_holds_its_own(nif, shape.block));
        assert forall|i: int| 0 <= i < after.spans.len() implies #[trigger] is_span_of(
            nif,
            after.spans[i],
            after.spans[i].block,
        ) by {
            if i < before.spans.len() {
                assert(is_span_of(nif, before.spans[i], before.spans[i].block));
            }
        }
    }
}

/// Spans that cover some vertices end within them.
proof fn lemma_spans_end_within(spans: Seq<SpanModel>, end: int, i: int)
    requires
        spans_cover(spans, end),
        0 <= i < spans.len(),
    ensures
        0 <= spans[i].first_vertex,
        spans[i].first_vertex + spans[i].vertex_count <= end,
    decreases spans.len(),
{
    let last = spans.last();
    if i < spans.len() - 1 {
        lemma_spans_end_within(spans.drop_last(), last.first_vertex as int, i);
    }
}

/// Holding a part's shapes claims only vertices of that part.
proof fn lemma_spans_within(
    base: &Nif,
    blocks: Seq<u32>,
    nif: &Nif,
    held: HeldModel,
    spans: Seq<SpanModel>,
    part: u32,
    base_vertex: int,
    attachment: Option<u16>,
    mirrored: bool,
    n: nat,
    vertices: int,
)
    requires
        blocks.len() <= NO_PARENT,
        0 <= base_vertex,
        n <= spans.len(),
        spans_hold_their_own(nif, spans),
        spans_cover(spans, vertices),
        attachment matches Some(joint) ==> joint < blocks.len(),
        holds_within(held, base_vertex + vertices, blocks.len()),
    ensures
        holds_within(
            with_spans(
                base,
                blocks,
                nif,
                held,
                spans,
                part,
                base_vertex,
                attachment,
                mirrored,
                n,
            ),
            base_vertex + vertices,
            blocks.len(),
        ),
    decreases n,
{
    if n > 0 {
        lemma_spans_within(
            base,
            blocks,
            nif,
            held,
            spans,
            part,
            base_vertex,
            attachment,
            mirrored,
            (n - 1) as nat,
            vertices,
        );
        let before = with_spans(
            base,
            blocks,
            nif,
            held,
            spans,
            part,
            base_vertex,
            attachment,
            mirrored,
            (n - 1) as nat,
        );
        let span = spans[n - 1];
        let limit = base_vertex + vertices;
        let first_vertex = base_vertex + span.first_vertex;
        lemma_spans_end_within(spans, vertices, n - 1);
        assert(is_span_of(nif, span, span.block));
        match nif.at(span.skin) {
            Some(Block::Skin(skin)) => match nif.at(skin.data) {
                Some(Block::SkinData(data)) => {
                    lemma_bones_exist(
                        before.bones,
                        base,
                        blocks,
                        nif,
                        data,
                        skin,
                        part,
                        (n - 1) as u32,
                        paired(data, skin),
                    );
                    assert forall|k: int| 0 <= k < data.weights@.len() implies first_vertex + (
                    #[trigger] data.weights@[k]).vertex < limit by {
                        assert(data.weights@[k].vertex < span.vertex_count);
                    }
                    lemma_skin_within(
                        before.shares,
                        data,
                        first_vertex,
                        before.bones.len() as int,
                        data.bones@.len(),
                        limit,
                    );
                },
                _ => {},
            },
            _ => {
                lemma_run_within(
                    before.shares,
                    first_vertex,
                    before.bones.len() as u32,
                    span.vertex_count as nat,
                    limit,
                );
            },
        }
    }
}

/// Whether each part's skins hold only vertices their shapes have.
pub open spec fn parts_hold_their_own(parts: Seq<ActorPart>, files: Seq<Option<Nif>>) -> bool {
    forall|i: int, j: int| #![trigger part_shapes(parts[i], &files[i]->0)[j]]
        0 <= i < parts.len() && files[i] is Some && 0 <= j < part_shapes(
            parts[i],
            &files[i]->0,
        ).len() ==> skin_holds_its_own(
            &files[i]->0,
            part_shapes(parts[i], &files[i]->0)[j].block,
        )
}

/// A body never holds more than its parts could bring, and holds nothing before it has a vertex.
proof fn lemma_parts_sizes(
    base: &Nif,
    blocks: Seq<u32>,
    table: TableModel,
    parts: Seq<ActorPart>,
    files: Seq<Option<Nif>>,
    n: nat,
)
    requires
        n <= parts.len(),
        actor_within_limits(parts, files, table),
    ensures
        ({
            let all = with_parts(base, blocks, table, parts, files, n);
            let totals = part_totals(parts, files, n);
            &&& all.mesh.positions.len() <= totals.0
            &&& all.mesh.indices.len() <= totals.1
            &&& all.table.materials.len() <= table.materials.len() + totals.2
            &&& all.table.textures.len() <= table.textures.len() + totals.2
            &&& all.mesh.positions.len() == 0 ==> all.held.bones.len() == 0
        }),
    decreases n,
{
    if n > 0 {
        lemma_parts_sizes(base, blocks, table, parts, files, (n - 1) as nat);
        let before = with_parts(base, blocks, table, parts, files, (n - 1) as nat);
        let totals = part_totals(parts, files, (n - 1) as nat);
        lemma_part_totals_grow(parts, files, n, parts.len());
        match files[n - 1] {
            Some(nif) => {
                let shapes = part_shapes(parts[n - 1], &nif);
                lemma_limits_suffice(&nif, before.table, shapes);
                lemma_part_stacks(before.mesh, &nif, before.table, shapes, totals.0, totals.1);
            },
            None => {},
        }
    }
}

/// A body's claims are on its own vertices, and its bones follow joints that exist.
proof fn lemma_parts_within(
    base: &Nif,
    blocks: Seq<u32>,
    table: TableModel,
    parts: Seq<ActorPart>,
    files: Seq<Option<Nif>>,
    n: nat,
)
    requires
        n <= parts.len(),
        blocks.len() <= NO_PARENT,
        parts_hold_their_own(parts, files),
        actor_within_limits(parts, files, table),
    ensures
        ({
            let all = with_parts(base, blocks, table, parts, files, n);
            holds_within(all.held, all.mesh.positions.len() as int, blocks.len())
        }),
    decreases n,
{
    if n > 0 {
        lemma_parts_within(base, blocks, table, parts, files, (n - 1) as nat);
        lemma_parts_sizes(base, blocks, table, parts, files, (n - 1) as nat);
        lemma_part_totals_grow(parts, files, n, parts.len());
        let before = with_parts(base, blocks, table, parts, files, (n - 1) as nat);
        let part = parts[n - 1];
        match files[n - 1] {
            Some(nif) => {
                let shapes = part_shapes(part, &nif);
                let flat = flattened(&nif, before.table, shapes, shapes.len());
                lemma_limits_suffice(&nif, before.table, shapes);
                assert forall|j: int| 0 <= j < shapes.len() implies skin_holds_its_own(
                    &nif,
                    (#[trigger] shapes[j]).block,
                ) by {
                    assert(part_shapes(parts[n - 1], &files[n - 1]->0)[j] == shapes[j]);
                }
                lemma_spans_are_of_shapes(&nif, before.table, shapes, shapes.len());
                law_spans_cover_the_vertices(&nif, before.table, shapes, shapes.len());
                lemma_joint_exists(base, blocks, lower_case(part.bone@));
                lemma_spans_within(
                    base,
                    blocks,
                    &nif,
                    before.held,
                    flat.spans,
                    (n - 1) as u32,
                    before.mesh.positions.len() as int,
                    joint_named(base, blocks, lower_case(part.bone@)),
                    part.reflected,
                    flat.spans.len(),
                    flat.mesh.positions.len() as int,
                );
            },
            None => {},
        }
    }
}

/// **A body has one influence per vertex of its mesh, and every bone follows a joint that exists**,
/// where every skin holds only vertices its shape has.
pub proof fn law_a_body_fits_its_mesh(
    base: &Nif,
    table: TableModel,
    parts: Seq<ActorPart>,
    files: Seq<Option<Nif>>,
)
    requires
        assembly(base, table, parts, files) is Some,
        parts_hold_their_own(parts, files),
        actor_within_limits(parts, files, table),
    ensures
        ({
            let all = assembly(base, table, parts, files)->0;
            &&& influences_of(body_shares(all)).len() == all.mesh.positions.len()
            &&& bones_exist(all.held.bones, walked(base, walk_start(base))->0.blocks.len())
        }),
{
    let blocks = walked(base, walk_start(base))->0.blocks;
    lemma_walk_is_numbered(base, walk_start(base));
    lemma_parts_within(base, blocks, table, parts, files, parts.len());
    lemma_parts_sizes(base, blocks, table, parts, files, parts.len());
}

/// **A slot is taken out of a file once**: a part whose slot was taken adds nothing.
pub proof fn law_a_slot_is_taken_once(
    base: &Nif,
    blocks: Seq<u32>,
    actor: ActorModel,
    part: ActorPart,
    file: Option<Nif>,
    number: u32,
)
    requires
        actor.taken.contains((part.model@, part.shape@)),
    ensures
        with_part(base, blocks, actor, part, file, number) == actor,
{
}

/// Whether a shape's name says it belongs to a slot.
pub open spec fn named_for(nif: &Nif, slot: Seq<char>) -> spec_fn(DrawnModel) -> bool {
    |shape: DrawnModel| belongs(shape_at(nif, shape.block).object.name@, slot)
}

/// Whether a shape's name says it belongs to one of the first `n` of some slots.
pub open spec fn named_for_any(nif: &Nif, slots: Seq<Seq<char>>, n: nat) -> spec_fn(
    DrawnModel,
) -> bool {
    |shape: DrawnModel| exists|s: int| 0 <= s < n && #[trigger] named_for(nif, slots[s])(shape)
}

/// Asked for a slot, a walk from one block keeps the shapes of that slot.
proof fn lemma_slot_filters_from(
    nif: &Nif,
    slot: Seq<char>,
    link: Link,
    chain: Seq<u32>,
    inherited: Properties,
    depth: nat,
)
    ensures
        drawn_from(nif, Some(slot), link, chain, inherited, depth) == drawn_from(
            nif,
            None,
            link,
            chain,
            inherited,
            depth,
        ).filter(named_for(nif, slot)),
    decreases MAX_DEPTH + 1 - depth, 0nat,
{
    reveal(Seq::filter);
    if depth <= MAX_DEPTH {
        match nif.at(link) {
            Some(Block::Node(node)) => {
                lemma_slot_filters_among(
                    nif,
                    slot,
                    node.children@,
                    node.children@.len(),
                    chain.push(link.0->0),
                    overridden(nif, inherited, node.object.properties@),
                    depth + 1,
                );
            },
            Some(Block::Geometry(geometry)) => {
                let every = drawn_from(nif, None, link, chain, inherited, depth);
                if every.len() > 0 {
                    assert(shape_at(nif, every.last().block) == geometry);
                    assert(every.drop_last() =~= Seq::<DrawnModel>::empty());
                    assert(every.drop_last().filter(named_for(nif, slot)) =~= Seq::<
                        DrawnModel,
                    >::empty());
                    assert(Seq::<DrawnModel>::empty().push(every.last()) =~= every);
                }
            },
            _ => {},
        }
    }
}

/// Asked for a slot, a walk from several blocks keeps the shapes of that slot.
proof fn lemma_slot_filters_among(
    nif: &Nif,
    slot: Seq<char>,
    links: Seq<Link>,
    n: nat,
    chain: Seq<u32>,
    inherited: Properties,
    depth: nat,
)
    requires
        depth <= MAX_DEPTH + 1,
    ensures
        drawn_among(nif, Some(slot), links, n, chain, inherited, depth) == drawn_among(
            nif,
            None,
            links,
            n,
            chain,
            inherited,
            depth,
        ).filter(named_for(nif, slot)),
    decreases MAX_DEPTH + 1 - depth, n + 1,
{
    if n == 0 {
        reveal(Seq::filter);
    } else {
        let fewer = (n - 1) as nat;
        lemma_slot_filters_among(nif, slot, links, fewer, chain, inherited, depth);
        lemma_slot_filters_from(nif, slot, links[n - 1], chain, inherited, depth);
        Seq::filter_distributes_over_add(
            drawn_among(nif, None, links, fewer, chain, inherited, depth),
            drawn_from(nif, None, links[n - 1], chain, inherited, depth),
            named_for(nif, slot),
        );
    }
}

/// **A slot takes out of a skinned file exactly the shapes named for it**, in the order the whole
/// file draws them.
pub proof fn law_a_slot_takes_its_shapes(nif: &Nif, slot: Seq<char>)
    requires
        skins(nif),
    ensures
        drawn(nif, Some(slot)) == drawn(nif, None).filter(named_for(nif, slot)),
{
    lemma_slot_filters_among(
        nif,
        slot,
        nif.roots@,
        nif.roots@.len(),
        Seq::empty(),
        no_properties(),
        0,
    );
}

/// A slot's shape is one the whole file draws, named for that slot; and every such shape is one of
/// the slot's.
proof fn lemma_slot_shape(nif: &Nif, slot: Seq<char>, shape: DrawnModel)
    requires
        skins(nif),
    ensures
        drawn(nif, Some(slot)).contains(shape) <==> drawn(nif, None).contains(shape) && named_for(
            nif,
            slot,
        )(shape),
{
    let every = drawn(nif, None);
    let pred = named_for(nif, slot);
    law_a_slot_takes_its_shapes(nif, slot);
    if every.filter(pred).contains(shape) {
        let i = every.filter(pred).index_of(shape);
        every.lemma_filter_pred(pred, i);
        every.lemma_filter_contains_rev(pred, shape);
    }
    if every.contains(shape) && pred(shape) {
        let i = every.index_of(shape);
        every.lemma_filter_contains(pred, i);
    }
}

/// Whether no shape a file draws is named for two different ones of some slots.
pub open spec fn slots_are_apart(nif: &Nif, slots: Seq<Seq<char>>) -> bool {
    forall|d: int, s: int, t: int|
        #![trigger drawn(nif, None)[d], slots[s], slots[t]]
        0 <= d < drawn(nif, None).len() && 0 <= s < slots.len() && 0 <= t < slots.len() && slots[s]
            != slots[t] && named_for(nif, slots[s])(drawn(nif, None)[d]) ==> !named_for(nif, slots[t])(
            drawn(nif, None)[d],
        )
}

/// **Different slots take different shapes out of a skinned file**: no shape is taken by two of
/// them.
pub proof fn law_slots_share_no_shape(nif: &Nif, slots: Seq<Seq<char>>, s: int, t: int)
    requires
        skins(nif),
        slots_are_apart(nif, slots),
        0 <= s < slots.len(),
        0 <= t < slots.len(),
        slots[s] != slots[t],
    ensures
        forall|i: int, j: int|
            #![trigger drawn(nif, Some(slots[s]))[i], drawn(nif, Some(slots[t]))[j]]
            0 <= i < drawn(nif, Some(slots[s])).len() && 0 <= j < drawn(nif, Some(slots[t])).len()
                ==> drawn(nif, Some(slots[s]))[i].block != drawn(nif, Some(slots[t]))[j].block,
{
    let every = drawn(nif, None);
    let (a, b) = (drawn(nif, Some(slots[s])), drawn(nif, Some(slots[t])));
    assert forall|i: int, j: int|
        #![trigger a[i], b[j]]
        0 <= i < a.len() && 0 <= j < b.len() implies a[i].block != b[j].block by {
        assert(a.contains(a[i]) && b.contains(b[j]));
        lemma_slot_shape(nif, slots[s], a[i]);
        lemma_slot_shape(nif, slots[t], b[j]);
        let d = every.index_of(a[i]);
        assert(every[d] == a[i]);
        if a[i].block == b[j].block {
            assert(named_for(nif, slots[t])(every[d]));
            assert(named_for(nif, slots[s])(every[d]));
        }
    }
}

/// **Together, slots take out of a skinned file every shape that one of them names**, and nothing
/// that none of them names.
pub proof fn law_slots_take_every_named_shape(nif: &Nif, slots: Seq<Seq<char>>, shape: DrawnModel)
    requires
        skins(nif),
    ensures
        (exists|s: int|
            0 <= s < slots.len() && (#[trigger] drawn(nif, Some(slots[s]))).contains(shape)) <==> (
        drawn(nif, None).contains(shape) && named_for_any(nif, slots, slots.len())(shape)),
{
    if exists|s: int| 0 <= s < slots.len() && (#[trigger] drawn(nif, Some(slots[s]))).contains(
        shape,
    ) {
        let s = choose|s: int|
            0 <= s < slots.len() && (#[trigger] drawn(nif, Some(slots[s]))).contains(shape);
        lemma_slot_shape(nif, slots[s], shape);
    }
    if drawn(nif, None).contains(shape) && named_for_any(nif, slots, slots.len())(shape) {
        let s = choose|s: int| 0 <= s < slots.len() && #[trigger] named_for(nif, slots[s])(shape);
        lemma_slot_shape(nif, slots[s], shape);
        assert(drawn(nif, Some(slots[s])).contains(shape));
    }
}

/// Vertices the first `n` of some slots draw with, each slot counted once however often it is named.
pub open spec fn slot_vertices(nif: &Nif, slots: Seq<Seq<char>>, n: nat) -> nat
    decreases n,
{
    if n == 0 {
        0
    } else {
        let shapes = drawn(nif, Some(slots[n - 1]));
        slot_vertices(nif, slots, (n - 1) as nat) + if slots.take(n - 1).contains(slots[n - 1]) {
            0
        } else {
            drawn_vertices(nif, shapes, shapes.len())
        }
    }
}

/// One more shape at the end does not change what those before it draw with.
proof fn lemma_vertices_of_first(nif: &Nif, shapes: Seq<DrawnModel>, shape: DrawnModel, n: nat)
    requires
        n <= shapes.len(),
    ensures
        drawn_vertices(nif, shapes.push(shape), n) == drawn_vertices(nif, shapes, n),
    decreases n,
{
    if n > 0 {
        lemma_vertices_of_first(nif, shapes, shape, (n - 1) as nat);
    }
}

/// Shapes of either of two kinds that never meet draw with the vertices of the one and of the other.
proof fn lemma_vertices_add(
    nif: &Nif,
    every: Seq<DrawnModel>,
    a: spec_fn(DrawnModel) -> bool,
    b: spec_fn(DrawnModel) -> bool,
    either: spec_fn(DrawnModel) -> bool,
)
    requires
        forall|i: int|
            0 <= i < every.len() ==> either(#[trigger] every[i]) == (a(every[i]) || b(every[i])),
        forall|i: int| 0 <= i < every.len() && a(#[trigger] every[i]) ==> !b(every[i]),
    ensures
        drawn_vertices(nif, every.filter(either), every.filter(either).len()) == drawn_vertices(
            nif,
            every.filter(a),
            every.filter(a).len(),
        ) + drawn_vertices(nif, every.filter(b), every.filter(b).len()),
    decreases every.len(),
{
    reveal(Seq::filter);
    if every.len() > 0 {
        let rest = every.drop_last();
        let last = every.last();
        assert(forall|i: int| 0 <= i < rest.len() ==> #[trigger] rest[i] == every[i]);
        assert(last == every[every.len() - 1]);
        lemma_vertices_add(nif, rest, a, b, either);
        lemma_vertices_of_first(nif, rest.filter(either), last, rest.filter(either).len());
        lemma_vertices_of_first(nif, rest.filter(a), last, rest.filter(a).len());
        lemma_vertices_of_first(nif, rest.filter(b), last, rest.filter(b).len());
    }
}

/// Slots, counted one after the other, draw with the vertices of every shape they name.
proof fn lemma_slot_vertices(nif: &Nif, slots: Seq<Seq<char>>, n: nat)
    requires
        skins(nif),
        slots_are_apart(nif, slots),
        n <= slots.len(),
    ensures
        ({
            let named = drawn(nif, None).filter(named_for_any(nif, slots, n));
            slot_vertices(nif, slots, n) == drawn_vertices(nif, named, named.len())
        }),
    decreases n,
{
    let every = drawn(nif, None);
    let either = named_for_any(nif, slots, n);
    if n == 0 {
        let named = every.filter(either);
        if named.len() > 0 {
            every.lemma_filter_pred(either, 0);
        }
    } else {
        let fewer = (n - 1) as nat;
        let a = named_for_any(nif, slots, fewer);
        let b = named_for(nif, slots[n - 1]);
        lemma_slot_vertices(nif, slots, fewer);
        law_a_slot_takes_its_shapes(nif, slots[n - 1]);
        assert forall|shape: DrawnModel| #[trigger] either(shape) == (a(shape) || b(shape)) by {
            if either(shape) {
                let s = choose|s: int| 0 <= s < n && #[trigger] named_for(nif, slots[s])(shape);
                assert(s < fewer || s == n - 1);
            }
            if b(shape) {
                assert(named_for(nif, slots[n - 1])(shape));
            }
        }
        if slots.take(n - 1).contains(slots[n - 1]) {
            let s = slots.take(n - 1).index_of(slots[n - 1]);
            assert(slots[s] == slots[n - 1]);
            assert forall|shape: DrawnModel| #[trigger] either(shape) == a(shape) by {
                if b(shape) {
                    assert(named_for(nif, slots[s])(shape));
                }
            }
            assert(either =~= a);
        } else {
            assert forall|i: int| 0 <= i < every.len() && a(#[trigger] every[i]) implies !b(
                every[i],
            ) by {
                let s = choose|s: int|
                    0 <= s < fewer && #[trigger] named_for(nif, slots[s])(every[i]);
                assert(slots.take(n - 1)[s] == slots[s]);
                assert(slots[s] != slots[n - 1]);
            }
            lemma_vertices_add(nif, every, a, b, either);
        }
    }
}

/// **Taken slot by slot, a skinned file gives up each vertex once**: as many as all the shapes its
/// slots name draw with.
pub proof fn law_slots_add_up(nif: &Nif, slots: Seq<Seq<char>>)
    requires
        skins(nif),
        slots_are_apart(nif, slots),
    ensures
        ({
            let named = drawn(nif, None).filter(named_for_any(nif, slots, slots.len()));
            slot_vertices(nif, slots, slots.len()) == drawn_vertices(nif, named, named.len())
        }),
{
    lemma_slot_vertices(nif, slots, slots.len());
}

/// A model has the vertices of the shapes it draws.
proof fn lemma_flat_vertices(nif: &Nif, table: TableModel, shapes: Seq<DrawnModel>, n: nat)
    ensures
        flattened(nif, table, shapes, n).mesh.positions.len() == drawn_vertices(nif, shapes, n),
    decreases n,
{
    if n > 0 {
        lemma_flat_vertices(nif, table, shapes, (n - 1) as nat);
    }
}

/// The slots some parts are.
pub open spec fn slots_of(parts: Seq<ActorPart>) -> Seq<Seq<char>> {
    Seq::new(parts.len(), |i: int| parts[i].shape@)
}

/// One file, read for each of some parts.
pub open spec fn read_for_each(nif: Nif, parts: Seq<ActorPart>) -> Seq<Option<Nif>> {
    Seq::new(parts.len(), |i: int| Some(nif))
}

/// Whether a slot of a file is skinned: some shape of it that draws anything is, if any draws
/// anything.
pub open spec fn slot_is_skinned(nif: &Nif, slot: Seq<char>) -> bool {
    let shapes = drawn(nif, Some(slot));
    drawn_vertices(nif, shapes, shapes.len()) > 0 ==> exists|i: int|
        0 <= i < shapes.len() && drawable(data_at(nif, (#[trigger] shapes[i]).block)) && shape_at(
            nif,
            shapes[i].block,
        ).skin.0 is Some
}

/// Whether parts are skinned slots of one file.
pub open spec fn are_slots_of(nif: &Nif, model: Seq<char>, parts: Seq<ActorPart>) -> bool {
    &&& forall|i: int| 0 <= i < parts.len() ==> (#[trigger] parts[i]).model@ == model
    &&& forall|i: int|
        0 <= i < parts.len() ==> slot_is_skinned(nif, (#[trigger] parts[i]).shape@)
}

/// A model with a skinned shape has a skinned span.
proof fn lemma_skinned_span(
    nif: &Nif,
    table: TableModel,
    shapes: Seq<DrawnModel>,
    n: nat,
    i: int,
)
    requires
        0 <= i < n <= shapes.len(),
        drawable(data_at(nif, shapes[i].block)),
        shape_at(nif, shapes[i].block).skin.0 is Some,
    ensures
        any_skinned(flattened(nif, table, shapes, n).spans),
    decreases n,
{
    let before = flattened(nif, table, shapes, (n - 1) as nat);
    let after = flattened(nif, table, shapes, n);
    assert(after == with_shape(nif, before, shapes[n - 1]));
    if i == n - 1 {
        assert(after.spans[before.spans.len() as int].skin.0 is Some);
    } else {
        lemma_skinned_span(nif, table, shapes, (n - 1) as nat, i);
        let k = choose|k: int|
            0 <= k < before.spans.len() && (#[trigger] before.spans[k]).skin.0 is Some;
        assert(after.spans[k] == before.spans[k]);
    }
}

/// Whether a body has taken, of the first `n` of some slots of a file, those that draw anything, and
/// no others.
spec fn has_taken(
    nif: &Nif,
    taken: Seq<(Seq<char>, Seq<char>)>,
    model: Seq<char>,
    slots: Seq<Seq<char>>,
    n: nat,
) -> bool {
    &&& forall|i: int|
        0 <= i < n ==> taken.contains((model, #[trigger] slots[i])) || drawn_vertices(
            nif,
            drawn(nif, Some(slots[i])),
            drawn(nif, Some(slots[i])).len(),
        ) == 0
    &&& forall|k: int|
        0 <= k < taken.len() ==> slots.take(n as int).contains((#[trigger] taken[k]).1)
}

/// Parts of slots of one file add the vertices of one slot after the other.
proof fn lemma_slots_stack(
    base: &Nif,
    blocks: Seq<u32>,
    table: TableModel,
    nif: Nif,
    model: Seq<char>,
    parts: Seq<ActorPart>,
    n: nat,
)
    requires
        n <= parts.len(),
        are_slots_of(&nif, model, parts),
    ensures
        ({
            let all = with_parts(base, blocks, table, parts, read_for_each(nif, parts), n);
            &&& all.mesh.positions.len() == slot_vertices(&nif, slots_of(parts), n)
            &&& has_taken(&nif, all.taken, model, slots_of(parts), n)
        }),
    decreases n,
{
    let slots = slots_of(parts);
    let files = read_for_each(nif, parts);
    if n > 0 {
        let fewer = (n - 1) as nat;
        lemma_slots_stack(base, blocks, table, nif, model, parts, fewer);
        let before = with_parts(base, blocks, table, parts, files, fewer);
        let after = with_parts(base, blocks, table, parts, files, n);
        let part = parts[n - 1];
        let shapes = part_shapes(part, &nif);
        let key = (model, part.shape@);
        let vertices = drawn_vertices(&nif, shapes, shapes.len());
        lemma_flat_vertices(&nif, before.table, shapes, shapes.len());
        assert(slots[n - 1] == part.shape@);
        assert(slot_is_skinned(&nif, part.shape@));
        if vertices > 0 {
            let i = choose|i: int|
                0 <= i < shapes.len() && drawable(
                    data_at(&nif, (#[trigger] shapes[i]).block),
                ) && shape_at(&nif, shapes[i].block).skin.0 is Some;
            lemma_skinned_span(&nif, before.table, shapes, shapes.len(), i);
        }
        assert(before.taken.contains(key) ==> slots.take(n - 1).contains(slots[n - 1])) by {
            if before.taken.contains(key) {
                let k = before.taken.index_of(key);
                assert(slots.take(fewer as int).contains(before.taken[k].1));
            }
        }
        assert(slots.take(n - 1).contains(slots[n - 1]) ==> before.taken.contains(key) || vertices
            == 0) by {
            if slots.take(n - 1).contains(slots[n - 1]) {
                let i = slots.take(n - 1).index_of(slots[n - 1]);
                assert(slots[i] == slots[n - 1]);
            }
        }
        assert forall|i: int| 0 <= i < n implies after.taken.contains((model, #[trigger] slots[i]))
            || drawn_vertices(
            &nif,
            drawn(&nif, Some(slots[i])),
            drawn(&nif, Some(slots[i])).len(),
        ) == 0 by {
            if before.taken.contains((model, slots[i])) {
                let k = before.taken.index_of((model, slots[i]));
                assert(after.taken[k] == (model, slots[i]));
            } else if i == n - 1 && vertices > 0 {
                assert(after.taken[before.taken.len() as int] == key);
            }
        }
        assert forall|k: int| 0 <= k < after.taken.len() implies slots.take(n as int).contains(
            (#[trigger] after.taken[k]).1,
        ) by {
            if k < before.taken.len() {
                assert(after.taken[k] == before.taken[k]);
                let i = slots.take(fewer as int).index_of(before.taken[k].1);
                assert(slots.take(n as int)[i] == before.taken[k].1);
            } else {
                assert(slots.take(n as int)[n - 1] == part.shape@);
            }
        }
    }
}

/// **A body takes a skinned file apart without sharing or losing anything**: parts that are slots of
/// one file have, together, the vertices of each slot once, however often it is named, and those are
/// exactly the vertices of the shapes the slots name.
pub proof fn law_a_body_takes_a_skinned_file_apart(
    base: &Nif,
    table: TableModel,
    nif: Nif,
    model: Seq<char>,
    parts: Seq<ActorPart>,
)
    requires
        skins(&nif),
        slots_are_apart(&nif, slots_of(parts)),
        are_slots_of(&nif, model, parts),
        assembly(base, table, parts, read_for_each(nif, parts)) is Some,
    ensures
        ({
            let all = assembly(base, table, parts, read_for_each(nif, parts))->0;
            let named = drawn(&nif, None).filter(
                named_for_any(&nif, slots_of(parts), parts.len()),
            );
            &&& all.mesh.positions.len() == slot_vertices(&nif, slots_of(parts), parts.len())
            &&& all.mesh.positions.len() == drawn_vertices(&nif, named, named.len())
        }),
{
    let blocks = walked(base, walk_start(base))->0.blocks;
    lemma_slots_stack(base, blocks, table, nif, model, parts, parts.len());
    law_slots_add_up(&nif, slots_of(parts));
}

/// Slots named after others change nothing of what those draw with.
proof fn lemma_slots_before(nif: &Nif, a: Seq<Seq<char>>, b: Seq<Seq<char>>, n: nat)
    requires
        n <= a.len(),
    ensures
        slot_vertices(nif, a + b, n) == slot_vertices(nif, a, n),
    decreases n,
{
    if n > 0 {
        lemma_slots_before(nif, a, b, (n - 1) as nat);
        assert((a + b)[n - 1] == a[n - 1]);
        assert((a + b).take(n - 1) =~= a.take(n - 1));
    }
}

/// Slots named after others add what they draw with where none was named before, and nothing where
/// all were.
proof fn lemma_slots_after(nif: &Nif, a: Seq<Seq<char>>, b: Seq<Seq<char>>, n: nat)
    requires
        n <= b.len(),
    ensures
        (forall|i: int| 0 <= i < b.len() ==> !a.contains(#[trigger] b[i])) ==> slot_vertices(
            nif,
            a + b,
            a.len() + n,
        ) == slot_vertices(nif, a, a.len()) + slot_vertices(nif, b, n),
        (forall|i: int| 0 <= i < b.len() ==> a.contains(#[trigger] b[i])) ==> slot_vertices(
            nif,
            a + b,
            a.len() + n,
        ) == slot_vertices(nif, a, a.len()),
    decreases n,
{
    let all = a + b;
    if n == 0 {
        lemma_slots_before(nif, a, b, a.len());
    } else {
        lemma_slots_after(nif, a, b, (n - 1) as nat);
        let m = a.len() + n;
        let slot = b[n - 1];
        assert(all[m - 1] == slot);
        assert((m - 1) as nat == a.len() + (n - 1) as nat);
        let earlier = all.take(m - 1);
        assert(earlier =~= a + b.take(n - 1));
        if a.contains(slot) {
            let i = a.index_of(slot);
            assert(earlier[i] == slot);
        }
        if b.take(n - 1).contains(slot) {
            let i = b.take(n - 1).index_of(slot);
            assert(earlier[a.len() + i] == slot);
        }
        if earlier.contains(slot) {
            let i = earlier.index_of(slot);
            if i < a.len() {
                assert(a[i] == slot);
            } else {
                assert(b.take(n - 1)[i - a.len()] == slot);
            }
        }
    }
}

/// **Slots of a skinned file part it**: bodies of slots that have none in common have, as one body,
/// the vertices of the one and of the other, and parts whose slots a body has already add nothing.
pub proof fn law_slots_part_a_skinned_file(
    base: &Nif,
    table: TableModel,
    nif: Nif,
    model: Seq<char>,
    a: Seq<ActorPart>,
    b: Seq<ActorPart>,
)
    requires
        are_slots_of(&nif, model, a),
        are_slots_of(&nif, model, b),
        assembly(base, table, a, read_for_each(nif, a)) is Some,
        assembly(base, table, b, read_for_each(nif, b)) is Some,
        assembly(base, table, a + b, read_for_each(nif, a + b)) is Some,
    ensures
        ({
            let one = assembly(base, table, a, read_for_each(nif, a))->0.mesh.positions.len();
            let other = assembly(base, table, b, read_for_each(nif, b))->0.mesh.positions.len();
            let both = assembly(
                base,
                table,
                a + b,
                read_for_each(nif, a + b),
            )->0.mesh.positions.len();
            &&& (forall|i: int|
                0 <= i < b.len() ==> !slots_of(a).contains((#[trigger] b[i]).shape@)) ==> both == one
                + other
            &&& (forall|i: int|
                0 <= i < b.len() ==> slots_of(a).contains((#[trigger] b[i]).shape@)) ==> both == one
        }),
{
    let blocks = walked(base, walk_start(base))->0.blocks;
    let all = a + b;
    assert forall|i: int| 0 <= i < all.len() implies (#[trigger] all[i]).model@ == model
        && slot_is_skinned(&nif, all[i].shape@) by {
        if i < a.len() {
            assert(all[i] == a[i]);
        } else {
            assert(all[i] == b[i - a.len()]);
        }
    }
    lemma_slots_stack(base, blocks, table, nif, model, a, a.len());
    lemma_slots_stack(base, blocks, table, nif, model, b, b.len());
    lemma_slots_stack(base, blocks, table, nif, model, all, all.len());
    assert(slots_of(all) =~= slots_of(a) + slots_of(b));
    lemma_slots_after(&nif, slots_of(a), slots_of(b), b.len());
    assert forall|i: int| 0 <= i < slots_of(b).len() implies #[trigger] slots_of(b)[i]
        == b[i].shape@ by {}
}

} // verus!
