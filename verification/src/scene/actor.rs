//! Building a person out of the dozen files they are stored as.

use super::bits::{Bits, ONE};
use super::flatten::{
    all_spans, flattened, index_total, lemma_flat_sizes, lemma_limits_suffice, vertex_total,
    GeometrySpan, SpanModel,
};
use super::influence::{Influence, Share};
use super::material::slashed;
use super::material_table::{MaterialTable, TableModel};
use super::mesh::{stackable, stacked, Mesh, MeshModel};
use super::model_index::{in_lower_case, lower_case};
use super::nif::{Block, Link, Nif, SkinBone, SkinData, SkinInstance, SkinWeight, Transform};
use super::rig::{all_shares, influences_of, is_motionless, played_by};
use super::skeleton::{all_channels, longest, node_at, walk_start, walked, Channel, Skeleton};
use super::walk::{drawn, DrawnModel};
use crate::text::{chars, same, string_of};
use vstd::prelude::*;

verus! {

/// One piece of a body, and where on the skeleton it belongs.
#[derive(Debug)]
pub struct ActorPart {
    /// Path in the virtual file system.
    pub model: String,
    /// The node it hangs from.
    pub bone: String,
    /// What the file calls the shapes of this slot, for a file that holds more than one.
    pub shape: String,
    /// Whether it is the authored mesh reflected.
    pub reflected: bool,
}

/// How a bone takes a part into its own space.
#[derive(Debug, Clone, Copy)]
pub enum ActorBind {
    /// By the skin's own inverse bind, after undoing where the walk placed the shape of a span.
    Skinned { inverse_bind: Transform, part: u32, span: u32 },
    /// Not at all, a part being authored in its attachment's own space, or by a reflection along
    /// the bone's own length.
    Attached { mirrored: bool },
}

/// One bone of an assembled body.
#[derive(Debug, Clone, Copy)]
pub struct ActorBone {
    pub joint: u16,
    pub bind: ActorBind,
}

/// A body, and the skeleton that moves it.
#[derive(Debug)]
pub struct AssembledActor {
    pub mesh: Mesh,
    /// Which part each shape of the mesh is of, and where it landed in that part's own mesh.
    pub spans: Vec<PartSpan>,
    pub parents: Vec<u16>,
    pub rest: Vec<Transform>,
    pub channels: Vec<Channel>,
    pub bones: Vec<ActorBone>,
    /// One per vertex.
    pub influences: Vec<Influence>,
    /// How long the clip runs before it repeats.
    pub duration: Bits,
}

/// One shape of an assembled body.
#[derive(Debug)]
pub struct PartSpan {
    pub part: u32,
    /// The first vertex of the part the shape is of.
    pub base_vertex: u32,
    pub span: GeometrySpan,
}

/// What a [`PartSpan`] is.
#[verifier::ext_equal]
pub struct PartSpanModel {
    pub part: u32,
    pub base_vertex: u32,
    pub span: SpanModel,
}

impl View for PartSpan {
    type V = PartSpanModel;

    open spec fn view(&self) -> PartSpanModel {
        PartSpanModel { part: self.part, base_vertex: self.base_vertex, span: self.span@ }
    }
}

/// What some part spans are.
pub open spec fn all_part_spans(spans: Seq<PartSpan>) -> Seq<PartSpanModel> {
    Seq::new(spans.len(), |i: int| spans[i]@)
}

/// Where a body part's model is.
pub open spec fn part_path(model: Seq<char>) -> Seq<char> {
    "meshes/"@ + slashed(model)
}

impl ActorPart {
    /// The piece a record puts in a slot, or `None` where it names no model or the slot has no bone
    /// to hang it from.
    pub fn of(
        model: &str,
        bone: Option<&str>,
        shape: Option<&str>,
        reflected: bool,
    ) -> (r: Option<ActorPart>)
        ensures
            (r is Some) == (bone is Some && shape is Some && model@.len() > 0),
            r matches Some(part) ==> {
                &&& part.model@ == part_path(model@)
                &&& part.bone@ == bone->0@
                &&& part.shape@ == shape->0@
                &&& part.reflected == reflected
            },
    {
        match (bone, shape) {
            (Some(bone), Some(shape)) => {
                let all: Vec<char> = chars(model);
                if all.len() == 0 {
                    return None;
                }
                let mut path: Vec<char> = chars("meshes/");
                let mut i: usize = 0;
                while i < all.len()
                    invariant
                        i <= all@.len(),
                        all@ == model@,
                        path@ == "meshes/"@ + slashed(model@).take(i as int),
                    decreases all@.len() - i,
                {
                    let c: char = if all[i] == '\\' { '/' } else { all[i] };
                    path.push(c);
                    i = i + 1;
                    assert(path@ =~= "meshes/"@ + slashed(model@).take(i as int));
                }
                assert(slashed(model@).take(i as int) =~= slashed(model@));
                Some(
                    ActorPart {
                        model: string_of(path.as_slice()),
                        bone: bone.to_owned(),
                        shape: shape.to_owned(),
                        reflected,
                    },
                )
            },
            _ => None,
        }
    }
}

/// The first of a skeleton's joints whose node is named `name` in small letters, or how many there
/// are.
pub open spec fn first_named(nif: &Nif, blocks: Seq<u32>, name: Seq<char>, from: int) -> int
    decreases blocks.len() - from,
{
    if from >= blocks.len() || lower_case(node_at(nif, blocks[from]).object.name@) == name {
        from
    } else {
        first_named(nif, blocks, name, from + 1)
    }
}

/// The joint whose node is named `name` in small letters.
pub open spec fn joint_named(nif: &Nif, blocks: Seq<u32>, name: Seq<char>) -> Option<u16> {
    let at = first_named(nif, blocks, name, 0);
    if at < blocks.len() {
        Some(at as u16)
    } else {
        None
    }
}

/// Claims with room for a vertex.
pub open spec fn grown(shares: Seq<Seq<Share>>, vertex: int) -> Seq<Seq<Share>> {
    if shares.len() <= vertex {
        shares + Seq::new((vertex + 1 - shares.len()) as nat, |i: int| Seq::<Share>::empty())
    } else {
        shares
    }
}

/// Claims with one more on a vertex, made room for.
pub open spec fn with_claim(shares: Seq<Seq<Share>>, vertex: int, share: Share) -> Seq<Seq<Share>> {
    let room = grown(shares, vertex);
    room.update(vertex, room[vertex].push(share))
}

/// Claims with one bone's hold on the first `n` of its weights' vertices.
pub open spec fn with_weights(
    shares: Seq<Seq<Share>>,
    weights: Seq<SkinWeight>,
    first_weight: int,
    first_vertex: int,
    bone: u32,
    n: nat,
) -> Seq<Seq<Share>>
    decreases n,
{
    if n == 0 {
        shares
    } else {
        let before = with_weights(
            shares,
            weights,
            first_weight,
            first_vertex,
            bone,
            (n - 1) as nat,
        );
        let at = first_weight + n - 1;
        if at < weights.len() {
            with_claim(
                before,
                first_vertex + weights[at].vertex,
                Share { bone, weight: weights[at].weight },
            )
        } else {
            before
        }
    }
}

/// Claims with the hold of the first `n` of a skin's bones, numbered from `first_bone` on.
pub open spec fn with_skin(
    shares: Seq<Seq<Share>>,
    data: SkinData,
    first_vertex: int,
    first_bone: int,
    n: nat,
) -> Seq<Seq<Share>>
    decreases n,
{
    if n == 0 {
        shares
    } else {
        let bone = data.bones@[n - 1];
        with_weights(
            with_skin(shares, data, first_vertex, first_bone, (n - 1) as nat),
            data.weights@,
            bone.first_weight as int,
            first_vertex,
            (first_bone + n - 1) as u32,
            bone.weight_count as nat,
        )
    }
}

/// Claims with one bone's whole hold on `n` vertices.
pub open spec fn with_run(
    shares: Seq<Seq<Share>>,
    first_vertex: int,
    bone: u32,
    n: nat,
) -> Seq<Seq<Share>>
    decreases n,
{
    if n == 0 {
        shares
    } else {
        with_claim(
            with_run(shares, first_vertex, bone, (n - 1) as nat),
            first_vertex + n - 1,
            Share { bone, weight: ONE },
        )
    }
}

/// The joint of the skeleton being posed that a part's own bone answers to, by name.
pub open spec fn answering(base: &Nif, blocks: Seq<u32>, nif: &Nif, node: Link) -> Option<u16> {
    match nif.at(node) {
        Some(Block::Node(node)) => joint_named(base, blocks, lower_case(node.object.name@)),
        _ => None,
    }
}

/// Bones with those of the first `n` of a skin's that answer to a joint.
pub open spec fn with_bones(
    bones: Seq<ActorBone>,
    base: &Nif,
    blocks: Seq<u32>,
    nif: &Nif,
    data: SkinData,
    skin: SkinInstance,
    part: u32,
    span: u32,
    n: nat,
) -> Seq<ActorBone>
    decreases n,
{
    if n == 0 {
        bones
    } else {
        let before = with_bones(bones, base, blocks, nif, data, skin, part, span, (n - 1) as nat);
        match answering(base, blocks, nif, skin.bones@[n - 1]) {
            Some(joint) => before.push(
                ActorBone {
                    joint,
                    bind: ActorBind::Skinned {
                        inverse_bind: data.bones@[n - 1].inverse_bind,
                        part,
                        span,
                    },
                },
            ),
            None => before,
        }
    }
}

/// A body's bones and claims.
#[verifier::ext_equal]
pub struct HeldModel {
    pub bones: Seq<ActorBone>,
    pub shares: Seq<Seq<Share>>,
}

/// A body with one more shape of a part held. One that is skinned is held by the bones of its skin
/// that answer to a joint, and by none of them where some do not; one that is not is held by the
/// joint its part hangs from.
pub open spec fn with_held(
    base: &Nif,
    blocks: Seq<u32>,
    nif: &Nif,
    held: HeldModel,
    span: SpanModel,
    part: u32,
    number: u32,
    base_vertex: int,
    attachment: Option<u16>,
    mirrored: bool,
) -> HeldModel {
    let first_vertex = base_vertex + span.first_vertex;
    match nif.at(span.skin) {
        Some(Block::Skin(skin)) => match nif.at(skin.data) {
            Some(Block::SkinData(data)) => {
                let bones = with_bones(
                    held.bones,
                    base,
                    blocks,
                    nif,
                    data,
                    skin,
                    part,
                    number,
                    super::rig::paired(data, skin),
                );
                HeldModel {
                    bones,
                    shares: if bones.len() - held.bones.len() == data.bones@.len() {
                        with_skin(
                            held.shares,
                            data,
                            first_vertex,
                            held.bones.len() as int,
                            data.bones@.len(),
                        )
                    } else {
                        held.shares
                    },
                }
            },
            _ => held,
        },
        _ => match attachment {
            Some(joint) => HeldModel {
                bones: held.bones.push(
                    ActorBone { joint, bind: ActorBind::Attached { mirrored } },
                ),
                shares: with_run(
                    held.shares,
                    first_vertex,
                    held.bones.len() as u32,
                    span.vertex_count as nat,
                ),
            },
            None => held,
        },
    }
}

/// A body with the first `n` of a part's shapes held.
pub open spec fn with_spans(
    base: &Nif,
    blocks: Seq<u32>,
    nif: &Nif,
    held: HeldModel,
    spans: Seq<SpanModel>,
    part: u32,
    base_vertex: int,
    attachment: Option<u16>,
    mirrored: bool,
    n: nat,
) -> HeldModel
    decreases n,
{
    if n == 0 {
        held
    } else {
        with_held(
            base,
            blocks,
            nif,
            with_spans(
                base,
                blocks,
                nif,
                held,
                spans,
                part,
                base_vertex,
                attachment,
                mirrored,
                (n - 1) as nat,
            ),
            spans[n - 1],
            part,
            (n - 1) as u32,
            base_vertex,
            attachment,
            mirrored,
        )
    }
}

/// Triangles wound the other way round: the last two corners of each change places.
pub open spec fn rewound(indices: Seq<u32>) -> Seq<u32> {
    Seq::new(
        indices.len(),
        |i: int|
            if i / 3 * 3 + 3 > indices.len() || i % 3 == 0 {
                indices[i]
            } else if i % 3 == 1 {
                indices[i + 1]
            } else {
                indices[i - 1]
            },
    )
}

/// Whether any of some shapes is skinned.
pub open spec fn any_skinned(spans: Seq<SpanModel>) -> bool {
    exists|i: int| 0 <= i < spans.len() && (#[trigger] spans[i]).skin.0 is Some
}

/// A part's shapes as shapes of the body it is stacked into.
pub open spec fn part_spans(spans: Seq<SpanModel>, part: u32, base_vertex: u32) -> Seq<
    PartSpanModel,
> {
    Seq::new(spans.len(), |i: int| PartSpanModel { part, base_vertex, span: spans[i] })
}

/// A body being assembled: its mesh, the table its materials go into, what holds it, the shapes it
/// is of, and the slots taken out of files that hold several.
#[verifier::ext_equal]
pub struct ActorModel {
    pub mesh: MeshModel,
    pub table: TableModel,
    pub held: HeldModel,
    pub spans: Seq<PartSpanModel>,
    pub taken: Seq<(Seq<char>, Seq<char>)>,
}

/// The shapes a part draws: those of its slot.
pub open spec fn part_shapes(part: ActorPart, nif: &Nif) -> Seq<DrawnModel> {
    drawn(nif, Some(part.shape@))
}

/// A body with one more part. A slot already taken out of its file, a file that was not read and a
/// part that draws nothing add nothing to it. A reflection turns a triangle inside out, so a
/// reflected part that is not skinned is wound the other way round.
pub open spec fn with_part(
    base: &Nif,
    blocks: Seq<u32>,
    actor: ActorModel,
    part: ActorPart,
    file: Option<Nif>,
    number: u32,
) -> ActorModel {
    match file {
        Some(nif) if !actor.taken.contains((part.model@, part.shape@)) => {
            let shapes = part_shapes(part, &nif);
            let flat = flattened(&nif, actor.table, shapes, shapes.len());
            if flat.mesh.positions.len() == 0 {
                ActorModel { table: flat.table, ..actor }
            } else {
                let base_vertex = actor.mesh.positions.len();
                let skinned = any_skinned(flat.spans);
                ActorModel {
                    mesh: stacked(
                        actor.mesh,
                        if part.reflected && !skinned {
                            MeshModel { indices: rewound(flat.mesh.indices), ..flat.mesh }
                        } else {
                            flat.mesh
                        },
                    ),
                    table: flat.table,
                    held: with_spans(
                        base,
                        blocks,
                        &nif,
                        actor.held,
                        flat.spans,
                        number,
                        base_vertex as int,
                        joint_named(base, blocks, lower_case(part.bone@)),
                        part.reflected,
                        flat.spans.len(),
                    ),
                    spans: actor.spans + part_spans(flat.spans, number, base_vertex as u32),
                    taken: if skinned {
                        actor.taken.push((part.model@, part.shape@))
                    } else {
                        actor.taken
                    },
                }
            }
        },
        _ => actor,
    }
}

/// A body of the first `n` of some parts.
pub open spec fn with_parts(
    base: &Nif,
    blocks: Seq<u32>,
    table: TableModel,
    parts: Seq<ActorPart>,
    files: Seq<Option<Nif>>,
    n: nat,
) -> ActorModel
    decreases n,
{
    if n == 0 {
        ActorModel {
            mesh: super::mesh::empty_mesh(),
            table,
            held: HeldModel { bones: Seq::empty(), shares: Seq::empty() },
            spans: Seq::empty(),
            taken: Seq::empty(),
        }
    } else {
        with_part(
            base,
            blocks,
            with_parts(base, blocks, table, parts, files, (n - 1) as nat),
            parts[n - 1],
            files[n - 1],
            (n - 1) as u32,
        )
    }
}

/// What the first `n` of some parts could bring: vertices, indices and shapes.
pub open spec fn part_totals(parts: Seq<ActorPart>, files: Seq<Option<Nif>>, n: nat) -> (
    nat,
    nat,
    nat,
)
    decreases n,
{
    if n == 0 {
        (0, 0, 0)
    } else {
        let before = part_totals(parts, files, (n - 1) as nat);
        match files[n - 1] {
            Some(nif) => {
                let shapes = part_shapes(parts[n - 1], &nif);
                (
                    before.0 + vertex_total(&nif, shapes, shapes.len()),
                    before.1 + index_total(&nif, shapes, shapes.len()),
                    before.2 + shapes.len(),
                )
            },
            None => before,
        }
    }
}

/// Whether everything some parts could bring fits thirty-two bits.
pub open spec fn actor_within_limits(
    parts: Seq<ActorPart>,
    files: Seq<Option<Nif>>,
    table: TableModel,
) -> bool {
    let totals = part_totals(parts, files, parts.len());
    &&& totals.0 + u16::MAX <= u32::MAX
    &&& totals.1 <= u32::MAX
    &&& table.materials.len() + totals.2 < u32::MAX
    &&& table.textures.len() + totals.2 < u32::MAX
}

/// Totals only grow.
pub proof fn lemma_part_totals_grow(parts: Seq<ActorPart>, files: Seq<Option<Nif>>, m: nat, n: nat)
    requires
        m <= n,
    ensures
        part_totals(parts, files, m).0 <= part_totals(parts, files, n).0,
        part_totals(parts, files, m).1 <= part_totals(parts, files, n).1,
        part_totals(parts, files, m).2 <= part_totals(parts, files, n).2,
    decreases n,
{
    if m < n {
        lemma_part_totals_grow(parts, files, m, (n - 1) as nat);
    }
}

/// Whether everything some parts could bring fits thirty-two bits, which is what assembling a body
/// of them asks.
pub fn actor_fits(
    parts: &Vec<ActorPart>,
    files: &Vec<Option<Nif>>,
    materials: &MaterialTable,
) -> (r: bool)
    requires
        files@.len() == parts@.len(),
    ensures
        r == actor_within_limits(parts@, files@, materials@),
{
    let limit: u64 = u32::MAX as u64;
    let listed: u64 = materials.materials().len() as u64;
    let named: u64 = materials.textures().len() as u64;
    let mut vertices: u64 = 0;
    let mut indices: u64 = 0;
    let mut shapes: u64 = 0;
    let mut i: usize = 0;
    while i < parts.len()
        invariant
            i <= parts@.len(),
            limit == u32::MAX,
            files@.len() == parts@.len(),
            part_totals(parts@, files@, i as nat) == (
                vertices as nat,
                indices as nat,
                shapes as nat,
            ),
            vertices <= limit,
            indices <= limit,
            shapes <= limit,
        decreases parts@.len() - i,
    {
        proof {
            lemma_part_totals_grow(parts@, files@, (i + 1) as nat, parts@.len());
        }
        match &files[i] {
            Some(nif) => {
                let ghost all = part_shapes(parts@[i as int], nif);
                match super::flatten::measure(nif, Some(parts[i].shape.as_str())) {
                    Some((v, t, count)) => {
                        if v as u64 > limit - vertices || t as u64 > limit - indices || count as u64
                            > limit - shapes {
                            return false;
                        }
                        vertices = vertices + v as u64;
                        indices = indices + t as u64;
                        shapes = shapes + count as u64;
                    },
                    None => {
                        return false;
                    },
                }
            },
            None => {},
        }
        i = i + 1;
    }
    vertices + 0xFFFF <= limit && listed < limit && named < limit && shapes < limit - listed && shapes
        < limit - named
}

/// Makes room for a vertex's claims, for a mesh being built one part at a time.
fn grow_to(shares: &mut Vec<Vec<Share>>, vertex: u64)
    requires
        vertex < u64::MAX,
    ensures
        all_shares(final(shares)@) == grown(all_shares(old(shares)@), vertex as int),
        final(shares)@.len() > vertex,
{
    let ghost start = all_shares(shares@);
    while shares.len() as u64 <= vertex
        invariant
            vertex < u64::MAX,
            start.len() <= shares@.len(),
            shares@.len() <= vertex + 1 || shares@.len() == start.len(),
            all_shares(shares@) == start + Seq::new(
                (shares@.len() - start.len()) as nat,
                |i: int| Seq::<Share>::empty(),
            ),
        decreases vertex + 1 - shares@.len(),
    {
        let ghost before = all_shares(shares@);
        let nothing: Vec<Share> = Vec::new();
        shares.push(nothing);
        assert(all_shares(shares@) =~= before.push(Seq::<Share>::empty()));
        assert(all_shares(shares@) =~= start + Seq::new(
            (shares@.len() - start.len()) as nat,
            |i: int| Seq::<Share>::empty(),
        ));
    }
    assert(all_shares(shares@) =~= grown(start, vertex as int));
}

/// Adds one claim on a vertex, making room for it.
fn push_claim(shares: &mut Vec<Vec<Share>>, vertex: u64, share: Share)
    requires
        vertex < u64::MAX,
    ensures
        all_shares(final(shares)@) == with_claim(all_shares(old(shares)@), vertex as int, share),
{
    let ghost start = all_shares(shares@);
    grow_to(shares, vertex);
    let ghost room = all_shares(shares@);
    assert(shares@.len() == shares.len());
    shares[vertex as usize].push(share);
    assert(all_shares(shares@) =~= room.update(
        vertex as int,
        room[vertex as int].push(share),
    ));
}

/// Adds one bone's hold on its weights' vertices.
fn push_weights(
    shares: &mut Vec<Vec<Share>>,
    weights: &Vec<SkinWeight>,
    bone: &SkinBone,
    first_vertex: u64,
    number: u32,
)
    requires
        first_vertex <= 0x2_0000_0000,
    ensures
        all_shares(final(shares)@) == with_weights(
            all_shares(old(shares)@),
            weights@,
            bone.first_weight as int,
            first_vertex as int,
            number,
            bone.weight_count as nat,
        ),
{
    let ghost start = all_shares(shares@);
    let mut i: u32 = 0;
    while i < bone.weight_count
        invariant
            i <= bone.weight_count,
            first_vertex <= 0x2_0000_0000,
            all_shares(shares@) == with_weights(
                start,
                weights@,
                bone.first_weight as int,
                first_vertex as int,
                number,
                i as nat,
            ),
        decreases bone.weight_count - i,
    {
        let at: u64 = bone.first_weight as u64 + i as u64;
        if at < weights.len() as u64 {
            let weight: SkinWeight = weights[at as usize];
            let vertex: u64 = first_vertex + weight.vertex as u64;
            push_claim(shares, vertex, Share { bone: number, weight: weight.weight });
        }
        i = i + 1;
    }
}

/// Adds the hold of every bone of a skin.
fn push_skin(shares: &mut Vec<Vec<Share>>, data: &SkinData, first_vertex: u64, first_bone: usize)
    requires
        first_vertex <= 0x2_0000_0000,
    ensures
        all_shares(final(shares)@) == with_skin(
            all_shares(old(shares)@),
            *data,
            first_vertex as int,
            first_bone as int,
            data.bones@.len(),
        ),
{
    let ghost start = all_shares(shares@);
    let mut i: usize = 0;
    while i < data.bones.len()
        invariant
            i <= data.bones@.len(),
            first_vertex <= 0x2_0000_0000,
            all_shares(shares@) == with_skin(
                start,
                *data,
                first_vertex as int,
                first_bone as int,
                i as nat,
            ),
        decreases data.bones@.len() - i,
    {
        let number: u32 = (first_bone as u128 + i as u128) as u32;
        push_weights(shares, &data.weights, &data.bones[i], first_vertex, number);
        i = i + 1;
    }
}

/// Adds one bone's whole hold on a run of vertices.
fn push_run(shares: &mut Vec<Vec<Share>>, first_vertex: u64, count: u32, bone: u32)
    requires
        first_vertex <= 0x2_0000_0000,
    ensures
        all_shares(final(shares)@) == with_run(
            all_shares(old(shares)@),
            first_vertex as int,
            bone,
            count as nat,
        ),
{
    let ghost start = all_shares(shares@);
    let mut i: u32 = 0;
    while i < count
        invariant
            i <= count,
            first_vertex <= 0x2_0000_0000,
            all_shares(shares@) == with_run(start, first_vertex as int, bone, i as nat),
        decreases count - i,
    {
        push_claim(shares, first_vertex + i as u64, Share { bone, weight: ONE });
        i = i + 1;
    }
}

/// The joint whose node is named `name`, which is in small letters.
fn find_named(base: &Nif, skeleton: &Skeleton, name: &str) -> (r: Option<u16>)
    requires
        named_nodes(base, skeleton.blocks@),
    ensures
        r == joint_named(base, skeleton.blocks@, name@),
{
    let ghost blocks = skeleton.blocks@;
    let mut i: usize = 0;
    while i < skeleton.blocks.len()
        invariant
            i <= blocks.len(),
            blocks == skeleton.blocks@,
            named_nodes(base, blocks),
            first_named(base, blocks, name@, 0) == first_named(base, blocks, name@, i as int),
        decreases blocks.len() - i,
    {
        let block: u32 = skeleton.blocks[i];
        assert(blocks[i as int] < base.blocks@.len() && base.blocks@[blocks[i as int] as int] is Node);
        match &base.blocks[block as usize] {
            Block::Node(node) => {
                let own: String = in_lower_case(node.object.name.as_str());
                if same(own.as_str(), name) {
                    return Some(i as u16);
                }
            },
            _ => {},
        }
        i = i + 1;
    }
    None
}

/// Whether every joint of a skeleton is a node.
pub open spec fn named_nodes(base: &Nif, blocks: Seq<u32>) -> bool {
    forall|j: int|
        0 <= j < blocks.len() ==> (#[trigger] blocks[j]) < base.blocks@.len()
            && base.blocks@[blocks[j] as int] is Node
}

/// The joint of the skeleton being posed that a part's own bone answers to.
fn find_answering(base: &Nif, skeleton: &Skeleton, nif: &Nif, node: Link) -> (r: Option<u16>)
    requires
        named_nodes(base, skeleton.blocks@),
    ensures
        r == answering(base, skeleton.blocks@, nif, node),
{
    match nif.resolve(node) {
        Some(Block::Node(node)) => {
            let name: String = in_lower_case(node.object.name.as_str());
            find_named(base, skeleton, name.as_str())
        },
        _ => None,
    }
}

/// Adds those of a skin's bones that answer to a joint.
fn push_bones(
    bones: &mut Vec<ActorBone>,
    base: &Nif,
    skeleton: &Skeleton,
    nif: &Nif,
    data: &SkinData,
    skin: &SkinInstance,
    part: u32,
    span: u32,
)
    requires
        named_nodes(base, skeleton.blocks@),
    ensures
        final(bones)@ == with_bones(
            old(bones)@,
            base,
            skeleton.blocks@,
            nif,
            *data,
            *skin,
            part,
            span,
            super::rig::paired(*data, *skin),
        ),
        old(bones)@.len() <= final(bones)@.len(),
{
    let ghost start = bones@;
    let mut i: usize = 0;
    while i < data.bones.len() && i < skin.bones.len()
        invariant
            i <= super::rig::paired(*data, *skin),
            named_nodes(base, skeleton.blocks@),
            start.len() <= bones@.len(),
            bones@ == with_bones(
                start,
                base,
                skeleton.blocks@,
                nif,
                *data,
                *skin,
                part,
                span,
                i as nat,
            ),
        decreases data.bones@.len() - i,
    {
        match find_answering(base, skeleton, nif, skin.bones[i]) {
            Some(joint) => {
                let inverse_bind: Transform = data.bones[i].inverse_bind;
                bones.push(
                    ActorBone { joint, bind: ActorBind::Skinned { inverse_bind, part, span } },
                );
            },
            None => {},
        }
        i = i + 1;
    }
}

/// What holds a body.
struct Held {
    bones: Vec<ActorBone>,
    shares: Vec<Vec<Share>>,
}

impl View for Held {
    type V = HeldModel;

    closed spec fn view(&self) -> HeldModel {
        HeldModel { bones: self.bones@, shares: all_shares(self.shares@) }
    }
}

impl Held {
    /// Holds one more shape of a part.
    fn hold(
        &mut self,
        base: &Nif,
        skeleton: &Skeleton,
        nif: &Nif,
        span: &GeometrySpan,
        part: u32,
        number: u32,
        base_vertex: u32,
        attachment: Option<u16>,
        mirrored: bool,
    )
        requires
            named_nodes(base, skeleton.blocks@),
        ensures
            final(self)@ == with_held(
                base,
                skeleton.blocks@,
                nif,
                old(self)@,
                span@,
                part,
                number,
                base_vertex as int,
                attachment,
                mirrored,
            ),
    {
        let ghost before = self@;
        let first_vertex: u64 = base_vertex as u64 + span.first_vertex as u64;
        match nif.resolve(span.skin) {
            Some(Block::Skin(skin)) => {
                match nif.resolve(skin.data) {
                    Some(Block::SkinData(data)) => {
                        let first: usize = self.bones.len();
                        push_bones(
                            &mut self.bones,
                            base,
                            skeleton,
                            nif,
                            data,
                            skin,
                            part,
                            number,
                        );
                        if self.bones.len() - first == data.bones.len() {
                            push_skin(&mut self.shares, data, first_vertex, first);
                        }
                    },
                    _ => {},
                }
            },
            _ => {
                match attachment {
                    Some(joint) => {
                        let bone: u32 = self.bones.len() as u32;
                        self.bones.push(
                            ActorBone { joint, bind: ActorBind::Attached { mirrored } },
                        );
                        push_run(&mut self.shares, first_vertex, span.vertex_count, bone);
                    },
                    None => {},
                }
            },
        }
    }
}

/// Winds every triangle the other way round.
fn rewind(indices: &mut Vec<u32>)
    ensures
        final(indices)@ == rewound(old(indices)@),
{
    let ghost start = indices@;
    let mut i: usize = 0;
    while indices.len() - i >= 3
        invariant
            i <= indices@.len(),
            i % 3 == 0,
            indices@.len() == start.len(),
            forall|k: int| 0 <= k < i ==> #[trigger] indices@[k] == rewound(start)[k],
            forall|k: int| i <= k < start.len() ==> #[trigger] indices@[k] == start[k],
        decreases indices@.len() - i,
    {
        let second: u32 = indices[i + 1];
        let third: u32 = indices[i + 2];
        indices.set(i + 1, third);
        indices.set(i + 2, second);
        i = i + 3;
    }
    assert(indices@ =~= rewound(start));
}

/// Whether any of some shapes is skinned.
fn is_skinned(spans: &Vec<GeometrySpan>) -> (r: bool)
    ensures
        r == any_skinned(all_spans(spans@)),
{
    let ghost all = all_spans(spans@);
    let mut i: usize = 0;
    while i < spans.len()
        invariant
            i <= spans@.len(),
            all == all_spans(spans@),
            forall|k: int| 0 <= k < i ==> (#[trigger] all[k]).skin.0 is None,
        decreases spans@.len() - i,
    {
        assert(all[i as int] == spans@[i as int]@);
        if spans[i].skin.0.is_some() {
            return true;
        }
        i = i + 1;
    }
    false
}

/// The slots some parts stand for.
pub open spec fn slots_of(parts: Seq<ActorPart>, taken: Seq<usize>) -> Seq<(Seq<char>, Seq<char>)> {
    Seq::new(
        taken.len(),
        |i: int| (parts[taken[i] as int].model@, parts[taken[i] as int].shape@),
    )
}

/// A body being assembled.
struct Body {
    mesh: Mesh,
    held: Held,
    spans: Vec<PartSpan>,
    /// The parts whose slots were taken out of files that hold several.
    taken: Vec<usize>,
}

/// Whether every part named is one there is.
spec fn all_parts(parts: Seq<ActorPart>, taken: Seq<usize>) -> bool {
    forall|i: int| 0 <= i < taken.len() ==> (#[trigger] taken[i]) < parts.len()
}

impl Body {
    /// What this body is, of some parts and with a table.
    spec fn model(&self, table: TableModel, parts: Seq<ActorPart>) -> ActorModel {
        ActorModel {
            mesh: self.mesh@,
            table,
            held: self.held@,
            spans: all_part_spans(self.spans@),
            taken: slots_of(parts, self.taken@),
        }
    }

    /// Whether a part's slot was taken already.
    fn has_taken(&self, parts: &Vec<ActorPart>, i: usize) -> (r: bool)
        requires
            i < parts@.len(),
            all_parts(parts@, self.taken@),
        ensures
            r == slots_of(parts@, self.taken@).contains(
                (parts@[i as int].model@, parts@[i as int].shape@),
            ),
    {
        let ghost slots = slots_of(parts@, self.taken@);
        let ghost wanted = (parts@[i as int].model@, parts@[i as int].shape@);
        let part: &ActorPart = &parts[i];
        let mut k: usize = 0;
        while k < self.taken.len()
            invariant
                k <= self.taken@.len(),
                i < parts@.len(),
                all_parts(parts@, self.taken@),
                slots == slots_of(parts@, self.taken@),
                *part == parts@[i as int],
                wanted == (part.model@, part.shape@),
                forall|j: int| 0 <= j < k ==> #[trigger] slots[j] != wanted,
            decreases self.taken@.len() - k,
        {
            let other: &ActorPart = &parts[self.taken[k]];
            assert(slots[k as int] == (other.model@, other.shape@));
            if same(other.model.as_str(), part.model.as_str()) && same(
                other.shape.as_str(),
                part.shape.as_str(),
            ) {
                return true;
            }
            k = k + 1;
        }
        false
    }

    /// Holds every shape of a part.
    fn hold_all(
        &mut self,
        base: &Nif,
        skeleton: &Skeleton,
        nif: &Nif,
        spans: &Vec<GeometrySpan>,
        part: &ActorPart,
        number: u32,
        base_vertex: u32,
    )
        requires
            named_nodes(base, skeleton.blocks@),
        ensures
            final(self).held@ == with_spans(
                base,
                skeleton.blocks@,
                nif,
                old(self).held@,
                all_spans(spans@),
                number,
                base_vertex as int,
                joint_named(base, skeleton.blocks@, lower_case(part.bone@)),
                part.reflected,
                spans@.len(),
            ),
            final(self).mesh == old(self).mesh,
            final(self).spans == old(self).spans,
            final(self).taken == old(self).taken,
    {
        let name: String = in_lower_case(part.bone.as_str());
        let attachment: Option<u16> = find_named(base, skeleton, name.as_str());
        let ghost start = self.held@;
        let ghost all = all_spans(spans@);
        let mut i: usize = 0;
        while i < spans.len()
            invariant
                i <= spans@.len(),
                all == all_spans(spans@),
                named_nodes(base, skeleton.blocks@),
                attachment == joint_named(base, skeleton.blocks@, lower_case(part.bone@)),
                self.held@ == with_spans(
                    base,
                    skeleton.blocks@,
                    nif,
                    start,
                    all,
                    number,
                    base_vertex as int,
                    attachment,
                    part.reflected,
                    i as nat,
                ),
                self.mesh == old(self).mesh,
                self.spans == old(self).spans,
                self.taken == old(self).taken,
            decreases spans@.len() - i,
        {
            assert(all[i as int] == spans@[i as int]@);
            self.held.hold(
                base,
                skeleton,
                nif,
                &spans[i],
                number,
                i as u32,
                base_vertex,
                attachment,
                part.reflected,
            );
            i = i + 1;
        }
    }

    /// Lists a part's shapes.
    fn list(&mut self, spans: &Vec<GeometrySpan>, part: u32, base_vertex: u32)
        ensures
            all_part_spans(final(self).spans@) == all_part_spans(old(self).spans@) + part_spans(
                all_spans(spans@),
                part,
                base_vertex,
            ),
            final(self).mesh == old(self).mesh,
            final(self).held == old(self).held,
            final(self).taken == old(self).taken,
    {
        let ghost start = all_part_spans(self.spans@);
        let ghost more = part_spans(all_spans(spans@), part, base_vertex);
        let mut i: usize = 0;
        assert(start =~= start + more.take(0));
        while i < spans.len()
            invariant
                i <= spans@.len(),
                more == part_spans(all_spans(spans@), part, base_vertex),
                all_part_spans(self.spans@) == start + more.take(i as int),
                self.mesh == old(self).mesh,
                self.held == old(self).held,
                self.taken == old(self).taken,
            decreases spans@.len() - i,
        {
            let span: &GeometrySpan = &spans[i];
            let mut chain: Vec<u32> = Vec::new();
            super::mesh::push_all(&mut chain, &span.chain);
            assert(chain@ =~= span.chain@);
            let copy: GeometrySpan = GeometrySpan {
                block: span.block,
                skin: span.skin,
                first_vertex: span.first_vertex,
                vertex_count: span.vertex_count,
                chain,
            };
            let ghost before = all_part_spans(self.spans@);
            let listed: PartSpan = PartSpan { part, base_vertex, span: copy };
            let ghost model = listed@;
            self.spans.push(listed);
            i = i + 1;
            assert(model == more[i - 1]);
            assert(all_part_spans(self.spans@) =~= before.push(model));
            assert(all_part_spans(self.spans@) =~= start + more.take(i as int));
        }
        assert(more.take(i as int) =~= more);
    }
}

/// What one part's own mesh may be, so that it stacks onto what is there.
pub proof fn lemma_part_stacks(
    mesh: MeshModel,
    nif: &Nif,
    table: TableModel,
    shapes: Seq<DrawnModel>,
    vertices: nat,
    indices: nat,
)
    requires
        super::flatten::flattens(nif, table, shapes),
        mesh.positions.len() <= vertices,
        mesh.indices.len() <= indices,
        vertices + vertex_total(nif, shapes, shapes.len()) + u16::MAX <= u32::MAX,
        indices + index_total(nif, shapes, shapes.len()) <= u32::MAX,
    ensures
        ({
            let flat = flattened(nif, table, shapes, shapes.len());
            &&& stackable(mesh, flat.mesh)
            &&& stackable(mesh, MeshModel { indices: rewound(flat.mesh.indices), ..flat.mesh })
            &&& mesh.positions.len() + flat.mesh.positions.len() <= vertices + vertex_total(
                nif,
                shapes,
                shapes.len(),
            )
            &&& mesh.indices.len() + flat.mesh.indices.len() <= indices + index_total(
                nif,
                shapes,
                shapes.len(),
            )
            &&& flat.table.materials.len() <= table.materials.len() + shapes.len()
            &&& flat.table.textures.len() <= table.textures.len() + shapes.len()
        }),
{
    let flat = flattened(nif, table, shapes, shapes.len());
    lemma_flat_sizes(nif, table, shapes, shapes.len());
    super::flatten::lemma_flat_indices(nif, table, shapes, shapes.len());
    let turned = rewound(flat.mesh.indices);
    assert forall|i: int| 0 <= i < turned.len() implies #[trigger] turned[i] + mesh.positions.len()
        <= u32::MAX by {
        let j = if i / 3 * 3 + 3 > turned.len() || i % 3 == 0 {
            i
        } else if i % 3 == 1 {
            i + 1
        } else {
            i - 1
        };
        assert(turned[i] == flat.mesh.indices[j]);
    }
}

impl Body {
    /// Adds one more part that was read and whose slot was not taken.
    fn add_part(
        &mut self,
        base: &Nif,
        skeleton: &Skeleton,
        parts: &Vec<ActorPart>,
        i: usize,
        nif: &Nif,
        materials: &mut MaterialTable,
        Ghost(vertices): Ghost<nat>,
        Ghost(indices): Ghost<nat>,
    )
        requires
            i < parts@.len(),
            all_parts(parts@, old(self).taken@),
            named_nodes(base, skeleton.blocks@),
            old(self).mesh@.wf(),
            old(materials)@.wf(),
            !slots_of(parts@, old(self).taken@).contains(
                (parts@[i as int].model@, parts@[i as int].shape@),
            ),
            old(self).mesh@.positions.len() <= vertices,
            old(self).mesh@.indices.len() <= indices,
            ({
                let shapes = part_shapes(parts@[i as int], nif);
                &&& vertices + vertex_total(nif, shapes, shapes.len()) + u16::MAX <= u32::MAX
                &&& indices + index_total(nif, shapes, shapes.len()) <= u32::MAX
                &&& old(materials)@.materials.len() + shapes.len() < u32::MAX
                &&& old(materials)@.textures.len() + shapes.len() < u32::MAX
            }),
        ensures
            final(self).model(final(materials)@, parts@) == with_part(
                base,
                skeleton.blocks@,
                old(self).model(old(materials)@, parts@),
                parts@[i as int],
                Some(*nif),
                i as u32,
            ),
            all_parts(parts@, final(self).taken@),
            final(self).mesh@.wf(),
            final(materials)@.wf(),
            ({
                let shapes = part_shapes(parts@[i as int], nif);
                &&& final(self).mesh@.positions.len() <= vertices + vertex_total(
                    nif,
                    shapes,
                    shapes.len(),
                )
                &&& final(self).mesh@.indices.len() <= indices + index_total(
                    nif,
                    shapes,
                    shapes.len(),
                )
                &&& final(materials)@.materials.len() <= old(materials)@.materials.len()
                    + shapes.len()
                &&& final(materials)@.textures.len() <= old(materials)@.textures.len()
                    + shapes.len()
            }),
    {
        let part: &ActorPart = &parts[i];
        let ghost start = self.model(materials@, parts@);
        let ghost shapes = part_shapes(*part, nif);
        let ghost flat = flattened(nif, materials@, shapes, shapes.len());
        proof {
            lemma_limits_suffice(nif, materials@, shapes);
            lemma_part_stacks(self.mesh@, nif, materials@, shapes, vertices, indices);
        }
        let mut spans: Vec<GeometrySpan> = Vec::new();
        let mut piece: Mesh = Mesh::from_nif_tracked(
            nif,
            materials,
            &mut spans,
            Some(part.shape.as_str()),
        );
        if piece.positions.len() == 0 {
            return;
        }
        assert(self.mesh.positions@.len() == self.mesh.positions.len());
        let base_vertex: u32 = self.mesh.positions.len() as u32;
        self.hold_all(base, skeleton, nif, &spans, part, i as u32, base_vertex);
        let skinned: bool = is_skinned(&spans);
        if skinned {
            let ghost before = self.taken@;
            self.taken.push(i);
            assert(slots_of(parts@, self.taken@) =~= slots_of(parts@, before).push(
                (part.model@, part.shape@),
            ));
        }
        if part.reflected && !skinned {
            rewind(&mut piece.indices);
        }
        self.list(&spans, i as u32, base_vertex);
        self.mesh.absorb(&piece);
        assert(self.model(materials@, parts@) =~= with_part(
            base,
            skeleton.blocks@,
            start,
            *part,
            Some(*nif),
            i as u32,
        ));
    }
}

/// What a body of some parts comes to: nothing where its skeleton's nodes cannot be numbered, where
/// nothing in that moves, or where the body has no bones or more than a byte can number.
pub open spec fn assembly(
    base: &Nif,
    table: TableModel,
    parts: Seq<ActorPart>,
    files: Seq<Option<Nif>>,
) -> Option<ActorModel> {
    match walked(base, walk_start(base)) {
        Some(walk) => if is_motionless(base, walk) {
            None
        } else {
            let all = with_parts(base, walk.blocks, table, parts, files, parts.len());
            if 0 < all.held.bones.len() <= u8::MAX {
                Some(all)
            } else {
                None
            }
        },
        None => None,
    }
}

/// What assembling a body leaves in a table: the materials of its parts, once there is a skeleton
/// to hang them on.
pub open spec fn table_after(
    base: &Nif,
    table: TableModel,
    parts: Seq<ActorPart>,
    files: Seq<Option<Nif>>,
) -> TableModel {
    match walked(base, walk_start(base)) {
        Some(walk) => if is_motionless(base, walk) {
            table
        } else {
            with_parts(base, walk.blocks, table, parts, files, parts.len()).table
        },
        None => table,
    }
}

/// Every vertex's claims, with at least a list for each vertex of the mesh.
pub open spec fn body_shares(all: ActorModel) -> Seq<Seq<Share>> {
    grown(
        all.held.shares,
        if all.mesh.positions.len() > 0 {
            all.mesh.positions.len() - 1
        } else {
            0
        },
    )
}

impl AssembledActor {
    /// Puts a body together from a base skeleton and the parts hung on it. `files` are what was
    /// read for each part.
    ///
    /// **The skeleton's own body is never drawn.** It carries a placeholder for every part, so only
    /// the joints are taken from the base. A part that was not read is left out rather than failing
    /// the actor: a body missing a wrist is better than no body.
    ///
    /// **A skinned file is a whole region of a body, and gives up one slot of itself at a time**:
    /// it is cut down to the slot asked of it, and a slot already taken out of it is not taken
    /// again. A rigid file is the opposite: the whole of one arm, added twice and mirrored.
    pub fn assemble(
        base: &Nif,
        parts: &Vec<ActorPart>,
        files: &Vec<Option<Nif>>,
        materials: &mut MaterialTable,
    ) -> (r: Option<AssembledActor>)
        requires
            files@.len() == parts@.len(),
            old(materials)@.wf(),
            actor_within_limits(parts@, files@, old(materials)@),
        ensures
            final(materials)@ == table_after(base, old(materials)@, parts@, files@),
            final(materials)@.wf(),
            match r {
                Some(actor) => {
                    let walk = walked(base, walk_start(base))->0;
                    &&& assembly(base, old(materials)@, parts@, files@) matches Some(all)
                    &&& actor.mesh@ == all.mesh
                    &&& actor.mesh@.wf()
                    &&& all_part_spans(actor.spans@) == all.spans
                    &&& actor.parents@ == walk.parents
                    &&& actor.rest@ == Seq::new(
                        walk.blocks.len(),
                        |j: int| node_at(base, walk.blocks[j]).object.transform,
                    )
                    &&& all_channels(actor.channels@) == Seq::new(
                        walk.blocks.len(),
                        |j: int| played_by(base, walk.blocks[j]),
                    )
                    &&& actor.bones@ == all.held.bones
                    &&& actor.influences@ == influences_of(body_shares(all))
                    &&& actor.duration == longest(
                        all_channels(actor.channels@),
                        actor.channels@.len(),
                    )
                },
                None => assembly(base, old(materials)@, parts@, files@) is None,
            },
    {
        let skeleton: Skeleton = match Skeleton::of(base) {
            Some(skeleton) => skeleton,
            None => {
                return None;
            },
        };
        let ghost walk = walked(base, walk_start(base))->0;
        let ghost table = materials@;
        proof {
            super::rig::lemma_still(skeleton, base, walk);
        }
        if skeleton.is_still() {
            return None;
        }
        let mut body: Body = Body {
            mesh: Mesh::new(),
            held: Held { bones: Vec::new(), shares: Vec::new() },
            spans: Vec::new(),
            taken: Vec::new(),
        };
        assert(all_shares(body.held.shares@) =~= Seq::<Seq<Share>>::empty());
        assert(body.model(materials@, parts@) =~= with_parts(
            base,
            walk.blocks,
            table,
            parts@,
            files@,
            0,
        ));
        let mut i: usize = 0;
        while i < parts.len()
            invariant
                i <= parts@.len(),
                files@.len() == parts@.len(),
                walk.blocks == skeleton.blocks@,
                named_nodes(base, skeleton.blocks@),
                actor_within_limits(parts@, files@, table),
                all_parts(parts@, body.taken@),
                body.mesh@.wf(),
                materials@.wf(),
                body.model(materials@, parts@) == with_parts(
                    base,
                    walk.blocks,
                    table,
                    parts@,
                    files@,
                    i as nat,
                ),
                body.mesh@.positions.len() <= part_totals(parts@, files@, i as nat).0,
                body.mesh@.indices.len() <= part_totals(parts@, files@, i as nat).1,
                materials@.materials.len() <= table.materials.len() + part_totals(
                    parts@,
                    files@,
                    i as nat,
                ).2,
                materials@.textures.len() <= table.textures.len() + part_totals(
                    parts@,
                    files@,
                    i as nat,
                ).2,
            decreases parts@.len() - i,
        {
            let ghost totals = part_totals(parts@, files@, i as nat);
            proof {
                lemma_part_totals_grow(parts@, files@, (i + 1) as nat, parts@.len());
            }
            match &files[i] {
                Some(nif) => {
                    if !body.has_taken(parts, i) {
                        body.add_part(
                            base,
                            &skeleton,
                            parts,
                            i,
                            nif,
                            materials,
                            Ghost(totals.0),
                            Ghost(totals.1),
                        );
                    }
                },
                None => {},
            }
            i = i + 1;
        }
        if body.held.bones.len() == 0 || body.held.bones.len() > 255 {
            return None;
        }
        let count: usize = body.mesh.positions.len();
        let last: usize = if count > 0 { count - 1 } else { 0 };
        assert(body.mesh.positions@.len() == count);
        let mut shares: Vec<Vec<Share>> = body.held.shares;
        grow_to(&mut shares, last as u64);
        let influences: Vec<Influence> = super::rig::influences(&shares);
        let duration: Bits = skeleton.duration();
        assert(skeleton.rest@ =~= Seq::new(
            walk.blocks.len(),
            |j: int| node_at(base, walk.blocks[j]).object.transform,
        ));
        assert(all_channels(skeleton.channels@) =~= Seq::new(
            walk.blocks.len(),
            |j: int| played_by(base, walk.blocks[j]),
        ));
        Some(
            AssembledActor {
                mesh: body.mesh,
                spans: body.spans,
                parents: skeleton.parents,
                rest: skeleton.rest,
                channels: skeleton.channels,
                bones: body.held.bones,
                influences,
                duration,
            },
        )
    }
}

} // verus!
