//! Flattening a model's drawn shapes into one mesh.

use super::bits::{Bits, ZERO};
use super::material::{described, textures_after, Material, Properties};
use super::material_table::{first_same, with_material, MaterialTable, TableModel};
use super::mesh::{appended, drawable, empty_mesh, has_room, Mesh, MeshModel};
use super::nif::{Block, Geometry, GeometryData, Link, Nif};
use super::walk::{all_drawn, drawn, find_drawn, slot_text, Drawn, DrawnModel};
use vstd::prelude::*;

verus! {

/// How far a controller chain is followed before it is called a cycle.
pub const CONTROLLER_CHAIN: u32 = 8;

/// Where one shape's vertices landed in a flattened mesh, for a caller that has to bind something
/// per shape to a mesh that no longer has shapes in it.
#[derive(Debug)]
pub struct GeometrySpan {
    /// The shape this came from.
    pub block: u32,
    /// Its skin, or none where it is not skinned.
    pub skin: Link,
    pub first_vertex: u32,
    pub vertex_count: u32,
    /// The blocks whose transforms compose to the shape's placement, from the root down.
    pub chain: Vec<u32>,
}

/// What a [`GeometrySpan`] is.
#[verifier::ext_equal]
pub struct SpanModel {
    pub block: u32,
    pub skin: Link,
    pub first_vertex: u32,
    pub vertex_count: u32,
    pub chain: Seq<u32>,
}

impl View for GeometrySpan {
    type V = SpanModel;

    open spec fn view(&self) -> SpanModel {
        SpanModel {
            block: self.block,
            skin: self.skin,
            first_vertex: self.first_vertex,
            vertex_count: self.vertex_count,
            chain: self.chain@,
        }
    }
}

/// What some spans are.
pub open spec fn all_spans(spans: Seq<GeometrySpan>) -> Seq<SpanModel> {
    Seq::new(spans.len(), |i: int| spans[i]@)
}

/// How far a texture slides each second, by the first controller on a chain that slides one; the
/// chain is followed no further than `left` controllers.
pub open spec fn slid(nif: &Nif, link: Link, left: nat) -> [Bits; 2]
    decreases left,
{
    if left == 0 {
        [ZERO, ZERO]
    } else {
        match nif.at(link) {
            Some(Block::UvController(uv)) => if nif.at(uv.data) matches Some(Block::UvData) {
                uv.scroll
            } else {
                [ZERO, ZERO]
            },
            Some(Block::Controller(other)) => slid(nif, other.next, (left - 1) as nat),
            _ => [ZERO, ZERO],
        }
    }
}

/// The shape a block is.
pub open spec fn shape_at(nif: &Nif, block: u32) -> Geometry {
    nif.blocks@[block as int]->Geometry_0
}

/// The vertices and triangles of the shape a block is.
pub open spec fn data_at(nif: &Nif, block: u32) -> GeometryData {
    nif.at(shape_at(nif, block).data)->0->GeometryData_0
}

/// A mesh being flattened, the table its materials go into, and where each shape landed.
#[verifier::ext_equal]
pub struct FlatModel {
    pub mesh: MeshModel,
    pub table: TableModel,
    pub spans: Seq<SpanModel>,
}

/// The material of a drawn shape, in a table of these texture paths.
pub open spec fn shape_material(nif: &Nif, shape: DrawnModel, textures: Seq<Seq<char>>) -> Material {
    Material {
        scroll: slid(
            nif,
            shape_at(nif, shape.block).object.controller,
            CONTROLLER_CHAIN as nat,
        ),
        ..described(nif, shape.properties, textures)
    }
}

/// A flattening with one more shape in it.
pub open spec fn with_shape(nif: &Nif, flat: FlatModel, shape: DrawnModel) -> FlatModel {
    let material = shape_material(nif, shape, flat.table.textures);
    let data = data_at(nif, shape.block);
    FlatModel {
        mesh: appended(flat.mesh, data, first_same(flat.table.materials, material) as u32),
        table: TableModel {
            materials: with_material(flat.table.materials, material),
            textures: textures_after(nif, shape.properties, flat.table.textures),
        },
        spans: if drawable(data) {
            flat.spans.push(
                SpanModel {
                    block: shape.block,
                    skin: shape_at(nif, shape.block).skin,
                    first_vertex: flat.mesh.positions.len() as u32,
                    vertex_count: data.vertices@.len() as u32,
                    chain: shape.chain,
                },
            )
        } else {
            flat.spans
        },
    }
}

/// A flattening of the first `n` of some shapes, starting from a table.
pub open spec fn flattened(nif: &Nif, table: TableModel, shapes: Seq<DrawnModel>, n: nat) -> FlatModel
    decreases n,
{
    if n == 0 {
        FlatModel { mesh: empty_mesh(), table, spans: Seq::empty() }
    } else {
        with_shape(nif, flattened(nif, table, shapes, (n - 1) as nat), shapes[n - 1])
    }
}

/// Whether a flattening stays within thirty-two bits all the way: its vertices, its indices, its
/// materials and its textures.
pub open spec fn flattens(nif: &Nif, table: TableModel, shapes: Seq<DrawnModel>) -> bool {
    forall|i: int| #![trigger shapes[i]]
        0 <= i < shapes.len() ==> {
            let flat = flattened(nif, table, shapes, i as nat);
            &&& has_room(flat.mesh, data_at(nif, shapes[i].block))
            &&& flat.table.materials.len() < u32::MAX
            &&& flat.table.textures.len() < u32::MAX
        }
}

/// Whether a block is a shape that has its data.
pub open spec fn is_shape(nif: &Nif, block: u32) -> bool {
    &&& block < nif.blocks@.len()
    &&& nif.blocks@[block as int] is Geometry
    &&& nif.at(shape_at(nif, block).data) matches Some(Block::GeometryData(_))
}

/// Everything a walk finds drawn is a shape that has its data.
pub proof fn lemma_drawn_from_shapes(
    nif: &Nif,
    slot: Option<Seq<char>>,
    link: Link,
    chain: Seq<u32>,
    p: Properties,
    depth: nat,
)
    requires
        depth <= super::walk::MAX_DEPTH + 1,
    ensures
        forall|i: int|
            0 <= i < super::walk::drawn_from(nif, slot, link, chain, p, depth).len() ==> is_shape(
                nif,
                (#[trigger] super::walk::drawn_from(nif, slot, link, chain, p, depth)[i]).block,
            ),
    decreases super::walk::MAX_DEPTH + 1 - depth, 0nat,
{
    if depth <= super::walk::MAX_DEPTH {
        match nif.at(link) {
            Some(Block::Node(node)) => {
                lemma_drawn_among_shapes(
                    nif,
                    slot,
                    node.children@,
                    node.children@.len(),
                    chain.push(link.0->0),
                    super::material::overridden(nif, p, node.object.properties@),
                    depth + 1,
                );
            },
            _ => {},
        }
    }
}

/// Everything a walk finds drawn among some blocks is a shape that has its data.
pub proof fn lemma_drawn_among_shapes(
    nif: &Nif,
    slot: Option<Seq<char>>,
    links: Seq<Link>,
    n: nat,
    chain: Seq<u32>,
    p: Properties,
    depth: nat,
)
    requires
        depth <= super::walk::MAX_DEPTH + 1,
    ensures
        forall|i: int|
            0 <= i < super::walk::drawn_among(nif, slot, links, n, chain, p, depth).len()
                ==> is_shape(
                nif,
                (#[trigger] super::walk::drawn_among(nif, slot, links, n, chain, p, depth)[i]).block,
            ),
    decreases super::walk::MAX_DEPTH + 1 - depth, n + 1,
{
    if n > 0 {
        lemma_drawn_among_shapes(nif, slot, links, (n - 1) as nat, chain, p, depth);
        lemma_drawn_from_shapes(nif, slot, links[n - 1], chain, p, depth);
        let before = super::walk::drawn_among(nif, slot, links, (n - 1) as nat, chain, p, depth);
        let more = super::walk::drawn_from(nif, slot, links[n - 1], chain, p, depth);
        let all = super::walk::drawn_among(nif, slot, links, n, chain, p, depth);
        assert forall|i: int| 0 <= i < all.len() implies is_shape(
            nif,
            (#[trigger] all[i]).block,
        ) by {
            if i < before.len() {
                assert(all[i] == before[i]);
            } else {
                assert(all[i] == more[i - before.len()]);
            }
        }
    }
}

/// How far the texture of a shape slides each second.
///
/// Reached from the shape rather than through a controller's own target, which points back at what
/// it drives.
pub fn sliding(nif: &Nif, controller: Link) -> (r: [Bits; 2])
    ensures
        r == slid(nif, controller, CONTROLLER_CHAIN as nat),
{
    let mut link: Link = controller;
    let mut left: u32 = CONTROLLER_CHAIN;
    while left > 0
        invariant
            left <= CONTROLLER_CHAIN,
            slid(nif, controller, CONTROLLER_CHAIN as nat) == slid(nif, link, left as nat),
        decreases left,
    {
        match nif.resolve(link) {
            Some(Block::UvController(uv)) => {
                return match nif.resolve(uv.data) {
                    Some(Block::UvData) => uv.scroll,
                    _ => [ZERO, ZERO],
                };
            },
            Some(Block::Controller(other)) => {
                link = other.next;
            },
            _ => {
                return [ZERO, ZERO];
            },
        }
        left = left - 1;
    }
    [ZERO, ZERO]
}

impl Mesh {
    /// Flattens every shape a model draws into one mesh, interning its materials, and says where
    /// each shape landed.
    ///
    /// The vertices are in their shapes' own spaces: what places them is the chain of transforms
    /// each span names. The table is shared across the whole scene, so the materials are already
    /// the ones a renderer will use.
    pub fn from_nif(nif: &Nif, materials: &mut MaterialTable) -> (r: (Mesh, Vec<GeometrySpan>))
        requires
            flattens(nif, old(materials)@, drawn(nif, None)),
        ensures
            ({
                let shapes = drawn(nif, None);
                (FlatModel { mesh: r.0@, table: final(materials)@, spans: all_spans(r.1@) })
                    == flattened(nif, old(materials)@, shapes, shapes.len())
            }),
            r.0@.wf(),
            old(materials)@.wf() ==> final(materials)@.wf(),
    {
        let mut spans: Vec<GeometrySpan> = Vec::new();
        let mesh: Mesh = Mesh::from_nif_tracked(nif, materials, &mut spans, None);
        (mesh, spans)
    }

    /// As [`Mesh::from_nif`], taking only one body slot out of a file that holds several.
    #[verifier::rlimit(40)]
    pub fn from_nif_tracked(
        nif: &Nif,
        materials: &mut MaterialTable,
        spans: &mut Vec<GeometrySpan>,
        slot: Option<&str>,
    ) -> (mesh: Mesh)
        requires
            flattens(nif, old(materials)@, drawn(nif, slot_text(slot))),
        ensures
            ({
                let shapes = drawn(nif, slot_text(slot));
                (FlatModel {
                    mesh: mesh@,
                    table: final(materials)@,
                    spans: all_spans(final(spans)@),
                }) == flattened(nif, old(materials)@, shapes, shapes.len())
            }),
            mesh@.wf(),
            old(materials)@.wf() ==> final(materials)@.wf(),
    {
        let shapes: Vec<Drawn> = find_drawn(nif, slot);
        let ghost all = all_drawn(shapes@);
        let ghost table = materials@;
        assert(forall|k: int| 0 <= k < all.len() ==> is_shape(nif, (#[trigger] all[k]).block)) by {
            lemma_drawn_among_shapes(
                nif,
                super::walk::effective_slot(nif, slot_text(slot)),
                nif.roots@,
                nif.roots@.len(),
                Seq::empty(),
                super::material::no_properties(),
                0,
            );
        }
        let mut mesh: Mesh = Mesh::new();
        spans.clear();
        assert(all_spans(spans@) =~= Seq::<SpanModel>::empty());
        let mut i: usize = 0;
        while i < shapes.len()
            invariant
                i <= shapes@.len(),
                all == all_drawn(shapes@),
                flattens(nif, table, all),
                forall|k: int| 0 <= k < all.len() ==> is_shape(nif, (#[trigger] all[k]).block),
                mesh@.wf(),
                table.wf() ==> materials@.wf(),
                (FlatModel { mesh: mesh@, table: materials@, spans: all_spans(spans@) })
                    == flattened(nif, table, all, i as nat),
            decreases shapes@.len() - i,
        {
            let shape: &Drawn = &shapes[i];
            let ghost flat = flattened(nif, table, all, i as nat);
            assert(all[i as int] == shape@);
            assert(is_shape(nif, all[i as int].block));
            match &nif.blocks[shape.block as usize] {
                Block::Geometry(geometry) => {
                    match nif.resolve(geometry.data) {
                        Some(Block::GeometryData(data)) => {
                            add_shape(nif, geometry, data, shape, materials, &mut mesh, spans);
                            assert((FlatModel {
                                mesh: mesh@,
                                table: materials@,
                                spans: all_spans(spans@),
                            }) == with_shape(nif, flat, all[i as int]));
                        },
                        _ => {},
                    }
                },
                _ => {},
            }
            i = i + 1;
        }
        mesh
    }
}

/// Adds one shape to a mesh being flattened.
fn add_shape(
    nif: &Nif,
    geometry: &Geometry,
    data: &GeometryData,
    shape: &Drawn,
    materials: &mut MaterialTable,
    mesh: &mut Mesh,
    spans: &mut Vec<GeometrySpan>,
)
    requires
        is_shape(nif, shape.block),
        *geometry == shape_at(nif, shape.block),
        *data == data_at(nif, shape.block),
        old(mesh)@.wf(),
        has_room(old(mesh)@, *data),
        old(materials)@.materials.len() < u32::MAX,
        old(materials)@.textures.len() < u32::MAX,
    ensures
        (FlatModel {
            mesh: final(mesh)@,
            table: final(materials)@,
            spans: all_spans(final(spans)@),
        }) == with_shape(
            nif,
            (FlatModel {
                mesh: old(mesh)@,
                table: old(materials)@,
                spans: all_spans(old(spans)@),
            }),
            shape@,
        ),
        final(mesh)@.wf(),
        old(materials)@.wf() ==> final(materials)@.wf(),
{
    let mut resolved: Material = shape.properties.resolve(nif, materials);
    resolved.scroll = sliding(nif, geometry.object.controller);
    let material: u32 = materials.intern(resolved);
    assert(mesh.positions@.len() == mesh.positions.len());
    let first_vertex: u32 = mesh.positions.len() as u32;
    mesh.append(data, material);
    assert(mesh.positions@.len() == mesh.positions.len());
    let count: u32 = mesh.positions.len() as u32 - first_vertex;
    let ghost before = all_spans(spans@);
    if count != 0 {
        let mut chain: Vec<u32> = Vec::new();
        super::mesh::push_all(&mut chain, &shape.chain);
        assert(chain@ =~= shape.chain@);
        let span: GeometrySpan = GeometrySpan {
            block: shape.block,
            skin: geometry.skin,
            first_vertex,
            vertex_count: count,
            chain,
        };
        let ghost model = span@;
        spans.push(span);
        assert(all_spans(spans@) =~= before.push(model));
    }
}

/// Vertices in the data of the first `n` of some shapes.
pub open spec fn vertex_total(nif: &Nif, shapes: Seq<DrawnModel>, n: nat) -> nat
    decreases n,
{
    if n == 0 {
        0
    } else {
        vertex_total(nif, shapes, (n - 1) as nat) + data_at(nif, shapes[n - 1].block).vertices@.len()
    }
}

/// Indices the triangles of the first `n` of some shapes take.
pub open spec fn index_total(nif: &Nif, shapes: Seq<DrawnModel>, n: nat) -> nat
    decreases n,
{
    if n == 0 {
        0
    } else {
        index_total(nif, shapes, (n - 1) as nat) + data_at(
            nif,
            shapes[n - 1].block,
        ).triangles@.len() * 3
    }
}

/// Whether everything some shapes could add to a mesh and a table fits thirty-two bits.
pub open spec fn within_limits(nif: &Nif, table: TableModel, shapes: Seq<DrawnModel>) -> bool {
    &&& vertex_total(nif, shapes, shapes.len()) + u16::MAX <= u32::MAX
    &&& index_total(nif, shapes, shapes.len()) <= u32::MAX
    &&& table.materials.len() + shapes.len() < u32::MAX
    &&& table.textures.len() + shapes.len() < u32::MAX
}

/// Totals only grow.
proof fn lemma_totals_grow(nif: &Nif, shapes: Seq<DrawnModel>, m: nat, n: nat)
    requires
        m <= n,
    ensures
        vertex_total(nif, shapes, m) <= vertex_total(nif, shapes, n),
        index_total(nif, shapes, m) <= index_total(nif, shapes, n),
    decreases n,
{
    if m < n {
        lemma_totals_grow(nif, shapes, m, (n - 1) as nat);
    }
}

/// A flattening never holds more than its shapes could add.
pub proof fn lemma_flat_sizes(nif: &Nif, table: TableModel, shapes: Seq<DrawnModel>, n: nat)
    ensures
        flattened(nif, table, shapes, n).mesh.positions.len() <= vertex_total(nif, shapes, n),
        flattened(nif, table, shapes, n).mesh.indices.len() <= index_total(nif, shapes, n),
        flattened(nif, table, shapes, n).table.materials.len() <= table.materials.len() + n,
        flattened(nif, table, shapes, n).table.textures.len() <= table.textures.len() + n,
    decreases n,
{
    if n > 0 {
        lemma_flat_sizes(nif, table, shapes, (n - 1) as nat);
    }
}

/// Shapes within limits flatten.
pub proof fn lemma_limits_suffice(nif: &Nif, table: TableModel, shapes: Seq<DrawnModel>)
    requires
        within_limits(nif, table, shapes),
    ensures
        flattens(nif, table, shapes),
{
    assert forall|i: int| #![trigger shapes[i]] 0 <= i < shapes.len() implies {
        let flat = flattened(nif, table, shapes, i as nat);
        &&& has_room(flat.mesh, data_at(nif, shapes[i].block))
        &&& flat.table.materials.len() < u32::MAX
        &&& flat.table.textures.len() < u32::MAX
    } by {
        lemma_flat_sizes(nif, table, shapes, i as nat);
        lemma_totals_grow(nif, shapes, (i + 1) as nat, shapes.len());
    }
}

/// How many vertices and indices a model's drawn shapes bring, and how many shapes there are: `None`
/// where the vertices or the indices alone outgrow thirty-two bits.
pub fn measure(nif: &Nif, slot: Option<&str>) -> (r: Option<(u32, u32, usize)>)
    ensures
        ({
            let shapes = drawn(nif, slot_text(slot));
            let vertices = vertex_total(nif, shapes, shapes.len());
            let indices = index_total(nif, shapes, shapes.len());
            match r {
                Some(sizes) => sizes.0 == vertices && sizes.1 == indices && sizes.2 == shapes.len(),
                None => vertices > u32::MAX || indices > u32::MAX,
            }
        }),
{
    let shapes: Vec<Drawn> = find_drawn(nif, slot);
    let ghost all = all_drawn(shapes@);
    proof {
        lemma_drawn_among_shapes(
            nif,
            super::walk::effective_slot(nif, slot_text(slot)),
            nif.roots@,
            nif.roots@.len(),
            Seq::empty(),
            super::material::no_properties(),
            0,
        );
    }
    let mut vertices: u64 = 0;
    let mut indices: u64 = 0;
    let mut i: usize = 0;
    while i < shapes.len()
        invariant
            i <= shapes@.len(),
            all == all_drawn(shapes@),
            all == drawn(nif, slot_text(slot)),
            forall|k: int| 0 <= k < all.len() ==> is_shape(nif, (#[trigger] all[k]).block),
            vertices == vertex_total(nif, all, i as nat),
            indices == index_total(nif, all, i as nat),
            vertices <= u32::MAX,
            indices <= u32::MAX,
        decreases shapes@.len() - i,
    {
        assert(all[i as int] == shapes@[i as int]@);
        assert(is_shape(nif, all[i as int].block));
        proof {
            lemma_totals_grow(nif, all, (i + 1) as nat, all.len());
        }
        match &nif.blocks[shapes[i].block as usize] {
            Block::Geometry(geometry) => {
                match nif.resolve(geometry.data) {
                    Some(Block::GeometryData(data)) => {
                        let more: u64 = data.vertices.len() as u64;
                        let triangles: u64 = data.triangles.len() as u64;
                        if more > u32::MAX as u64 - vertices || triangles > (u32::MAX as u64
                            - indices) / 3 {
                            return None;
                        }
                        vertices = vertices + more;
                        indices = indices + triangles * 3;
                    },
                    _ => {},
                }
            },
            _ => {},
        }
        i = i + 1;
    }
    Some((vertices as u32, indices as u32, shapes.len()))
}

/// Whether everything a model draws could add to a mesh and a table fits thirty-two bits, which is
/// what flattening it asks.
pub fn fits(nif: &Nif, materials: &MaterialTable, slot: Option<&str>) -> (r: bool)
    ensures
        r == within_limits(nif, materials@, drawn(nif, slot_text(slot))),
        r ==> flattens(nif, materials@, drawn(nif, slot_text(slot))),
{
    match measure(nif, slot) {
        Some((vertices, _, count)) => {
            let listed: u64 = materials.materials().len() as u64;
            let named: u64 = materials.textures().len() as u64;
            let limit: u64 = u32::MAX as u64;
            let r: bool = vertices as u64 + 0xFFFF <= limit && (count as u64) < limit && listed
                < limit - count as u64 && named < limit - count as u64;
            proof {
                if r {
                    lemma_limits_suffice(nif, materials@, drawn(nif, slot_text(slot)));
                }
            }
            r
        },
        None => false,
    }
}

/// No index of a flattening reaches past what its shapes' vertices and a shape's own indices allow.
pub proof fn lemma_flat_indices(nif: &Nif, table: TableModel, shapes: Seq<DrawnModel>, n: nat)
    requires
        flattens(nif, table, shapes),
        n <= shapes.len(),
    ensures
        forall|i: int|
            0 <= i < flattened(nif, table, shapes, n).mesh.indices.len() ==> #[trigger] flattened(
                nif,
                table,
                shapes,
                n,
            ).mesh.indices[i] <= vertex_total(nif, shapes, n) + u16::MAX,
    decreases n,
{
    if n > 0 {
        lemma_flat_indices(nif, table, shapes, (n - 1) as nat);
        lemma_flat_sizes(nif, table, shapes, (n - 1) as nat);
        let before = flattened(nif, table, shapes, (n - 1) as nat).mesh;
        let after = flattened(nif, table, shapes, n).mesh;
        let data = data_at(nif, shapes[n - 1].block);
        assert(has_room(before, data));
        assert forall|i: int| 0 <= i < after.indices.len() implies #[trigger] after.indices[i]
            <= vertex_total(nif, shapes, n) + u16::MAX by {
            if i < before.indices.len() {
                assert(after.indices[i] == before.indices[i]);
            } else {
                let k = i - before.indices.len();
                let added = super::mesh::rebased(data.triangles@, before.positions.len() as int);
                assert(after.indices[i] == added[k]);
            }
        }
    }
}

/// Whether every run draws with a material the table has.
pub open spec fn runs_known(flat: FlatModel) -> bool {
    forall|i: int|
        0 <= i < flat.mesh.submeshes.len() ==> (#[trigger] flat.mesh.submeshes[i]).material
            < flat.table.materials.len()
}

/// **Every run of a flattened model draws with a material the table has.**
pub proof fn law_runs_name_known_materials(
    nif: &Nif,
    table: TableModel,
    shapes: Seq<DrawnModel>,
    n: nat,
)
    requires
        n <= shapes.len(),
        flattens(nif, table, shapes),
    ensures
        runs_known(flattened(nif, table, shapes, n)),
    decreases n,
{
    if n > 0 {
        law_runs_name_known_materials(nif, table, shapes, (n - 1) as nat);
        let before = flattened(nif, table, shapes, (n - 1) as nat);
        let shape = shapes[n - 1];
        let after = with_shape(nif, before, shape);
        let material = shape_material(nif, shape, before.table.textures);
        super::material_table::lemma_first_same(before.table.materials, material);
        assert forall|i: int| 0 <= i < after.mesh.submeshes.len() implies (
        #[trigger] after.mesh.submeshes[i]).material < after.table.materials.len() by {
            if i < before.mesh.submeshes.len() {
                assert(before.mesh.submeshes[i].material < before.table.materials.len());
            }
        }
    }
}

/// Whether spans lie one after the other and cover exactly the first `end` vertices.
pub open spec fn spans_cover(spans: Seq<SpanModel>, end: int) -> bool
    decreases spans.len(),
{
    if spans.len() == 0 {
        end == 0
    } else {
        let last = spans.last();
        &&& last.vertex_count > 0
        &&& last.first_vertex + last.vertex_count == end
        &&& spans_cover(spans.drop_last(), last.first_vertex as int)
    }
}

/// **Every vertex of a flattened model is some shape's**: the spans lie one after the other and
/// cover them all.
pub proof fn law_spans_cover_the_vertices(
    nif: &Nif,
    table: TableModel,
    shapes: Seq<DrawnModel>,
    n: nat,
)
    requires
        n <= shapes.len(),
        flattens(nif, table, shapes),
    ensures
        spans_cover(
            flattened(nif, table, shapes, n).spans,
            flattened(nif, table, shapes, n).mesh.positions.len() as int,
        ),
    decreases n,
{
    if n > 0 {
        law_spans_cover_the_vertices(nif, table, shapes, (n - 1) as nat);
        let before = flattened(nif, table, shapes, (n - 1) as nat);
        let shape = shapes[n - 1];
        let after = with_shape(nif, before, shape);
        if drawable(data_at(nif, shape.block)) {
            assert(after.spans.drop_last() =~= before.spans);
        }
    }
}

/// Vertices the first `n` of some shapes draw with: those of the shapes that draw anything.
pub open spec fn drawn_vertices(nif: &Nif, shapes: Seq<DrawnModel>, n: nat) -> nat
    decreases n,
{
    if n == 0 {
        0
    } else {
        let data = data_at(nif, shapes[n - 1].block);
        drawn_vertices(nif, shapes, (n - 1) as nat) + if drawable(data) {
            data.vertices@.len()
        } else {
            0
        }
    }
}

/// Triangles the first `n` of some shapes draw.
pub open spec fn drawn_triangles(nif: &Nif, shapes: Seq<DrawnModel>, n: nat) -> nat
    decreases n,
{
    if n == 0 {
        0
    } else {
        let data = data_at(nif, shapes[n - 1].block);
        drawn_triangles(nif, shapes, (n - 1) as nat) + if drawable(data) {
            data.triangles@.len()
        } else {
            0
        }
    }
}

/// Whether every triangle of some geometry names vertices it has.
pub open spec fn names_its_own(data: GeometryData) -> bool {
    forall|t: int, corner: int| #![trigger data.triangles@[t]@[corner]]
        0 <= t < data.triangles@.len() && 0 <= corner < 3 ==> data.triangles@[t]@[corner]
            < data.vertices@.len()
}

/// **Flattening neither invents nor loses geometry**: a model has exactly the vertices and the
/// triangles of the shapes it draws, and where those name vertices they have, so does the model.
pub proof fn law_flattening_preserves_geometry(
    nif: &Nif,
    table: TableModel,
    shapes: Seq<DrawnModel>,
    n: nat,
)
    requires
        n <= shapes.len(),
        flattens(nif, table, shapes),
        forall|i: int| 0 <= i < n ==> names_its_own(data_at(nif, (#[trigger] shapes[i]).block)),
    ensures
        ({
            let mesh = flattened(nif, table, shapes, n).mesh;
            &&& mesh.positions.len() == drawn_vertices(nif, shapes, n)
            &&& mesh.indices.len() == drawn_triangles(nif, shapes, n) * 3
            &&& super::sheets::in_range(mesh.indices, mesh.positions.len() as int)
        }),
    decreases n,
{
    if n > 0 {
        law_flattening_preserves_geometry(nif, table, shapes, (n - 1) as nat);
        let before = flattened(nif, table, shapes, (n - 1) as nat).mesh;
        let after = flattened(nif, table, shapes, n).mesh;
        let data = data_at(nif, shapes[n - 1].block);
        assert(has_room(before, data));
        assert(names_its_own(data));
        assert forall|i: int| 0 <= i < after.indices.len() implies #[trigger] after.indices[i]
            < after.positions.len() by {
            if i < before.indices.len() {
                assert(after.indices[i] == before.indices[i]);
            } else {
                let k = i - before.indices.len();
                let added = super::mesh::rebased(data.triangles@, before.positions.len() as int);
                assert(after.indices[i] == added[k]);
                assert(data.triangles@[k / 3]@[k % 3] < data.vertices@.len());
            }
        }
    }
}

} // verus!
