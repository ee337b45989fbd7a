//! One exterior cell's ground, as a mesh.

use super::bits::{Bits, ZERO};
use super::mesh::{covers, Mesh, MeshModel, Submesh};
use super::numbers::{float_of, rounded_int, to_bits, to_rounded};
use vstd::prelude::*;

verus! {

/// Vertices along each side of a cell's heightmap. The last row and column are shared with the
/// neighbouring cells, which is what makes adjacent terrain meet without a seam.
pub const GRID: usize = 65;

/// Quads along each side of a cell.
pub const SPAN: usize = 64;

/// Patches of ground along each side of a cell: half a texture tile each, because the ground is
/// blended between tile centres.
pub const TERRAIN_QUADRANTS: usize = 32;

/// World units along each side of a cell.
pub const CELL_SIZE: i64 = 8192;

/// World units between neighbouring vertices of a heightmap.
pub const SPACING: i64 = 128;

/// A cell's ground: which cell it is, how high it stands, which way it faces and what it is
/// textured with.
#[derive(Debug)]
pub struct Land {
    pub grid_x: i32,
    pub grid_y: i32,
    /// One per vertex, row by row.
    pub heights: Vec<Bits>,
    /// One per vertex, row by row, or fewer where the cell carries none.
    pub normals: Vec<[Bits; 3]>,
    /// One per texture tile, row by row: one past its place in the palette, or zero for the default.
    pub textures: Vec<u16>,
}

/// Whether a stride takes one vertex in a power of two that divides the quads a cell spans.
pub open spec fn is_stride(stride: int) -> bool {
    stride == 1 || stride == 2 || stride == 4 || stride == 8 || stride == 16 || stride == 32 || stride
        == 64
}

/// Where vertex `at` of cell `grid` stands along one axis of the world.
pub open spec fn world(grid: int, at: int) -> int {
    float_of(CELL_SIZE * rounded_int(grid) + SPACING * at)
}

/// The texture coordinate of vertex `at`: one repeat for every four quads.
pub open spec fn tile_coordinate(at: int) -> int {
    if at == 0 {
        0
    } else {
        float_of(at) - 2 * 0x80_0000
    }
}

/// The patch along one axis that the middle of quad `quad` falls in.
pub open spec fn patch(quad: int, stride: int) -> int {
    (quad * stride + stride / 2) / 2
}

/// The material of the patch of ground under the middle of a quad.
pub open spec fn quad_material(materials: Seq<u32>, stride: int, quad: int) -> u32 {
    let quads = SPAN as int / stride;
    materials[patch(quad / quads, stride) * TERRAIN_QUADRANTS + patch(quad % quads, stride)]
}

/// The two triangles of a quad, counter-clockwise seen from above.
pub open spec fn quad_indices(stride: int, quad: int) -> Seq<u32> {
    let quads = SPAN as int / stride;
    let side = quads + 1;
    let corner = (quad / quads) * side + quad % quads;
    let above = corner + side;
    seq![
        corner as u32,
        (corner + 1) as u32,
        (above + 1) as u32,
        corner as u32,
        (above + 1) as u32,
        above as u32,
    ]
}

/// The triangles of those of the first `n` quads that are of one material, in order.
pub open spec fn material_indices(
    materials: Seq<u32>,
    stride: int,
    material: u32,
    n: nat,
) -> Seq<u32>
    decreases n,
{
    if n == 0 {
        Seq::empty()
    } else {
        let before = material_indices(materials, stride, material, (n - 1) as nat);
        if quad_material(materials, stride, n - 1) == material {
            before + quad_indices(stride, n - 1)
        } else {
            before
        }
    }
}

/// How many quads a cell has at a stride.
pub open spec fn quad_count(stride: int) -> nat {
    ((SPAN as int / stride) * (SPAN as int / stride)) as nat
}

/// The triangles of the quads of the first `n` of some materials, one material after the other.
pub open spec fn ground_indices(
    materials: Seq<u32>,
    stride: int,
    used: Seq<u32>,
    n: nat,
) -> Seq<u32>
    decreases n,
{
    if n == 0 {
        Seq::empty()
    } else {
        ground_indices(materials, stride, used, (n - 1) as nat) + material_indices(
            materials,
            stride,
            used[n - 1],
            quad_count(stride),
        )
    }
}

/// Whether `used` is the materials some quad is of, each once, smallest first.
pub open spec fn is_used(materials: Seq<u32>, stride: int, used: Seq<u32>) -> bool {
    &&& forall|i: int, j: int| 0 <= i < j < used.len() ==> #[trigger] used[i] < #[trigger] used[j]
    &&& forall|m: u32| #[trigger]
        used.contains(m) <==> exists|q: int|
            0 <= q < quad_count(stride) && #[trigger] quad_material(materials, stride, q) == m
}

/// One run for each of some materials, each the quads of that material.
pub open spec fn ground_runs(materials: Seq<u32>, stride: int, used: Seq<u32>) -> Seq<Submesh> {
    Seq::new(
        used.len(),
        |i: int|
            Submesh {
                first_index: ground_indices(materials, stride, used, i as nat).len() as u32,
                index_count: material_indices(
                    materials,
                    stride,
                    used[i],
                    quad_count(stride),
                ).len() as u32,
                material: used[i],
                thin: false,
            },
    )
}

/// Vertex `(column, row)` of a cell's ground at a stride.
pub open spec fn ground_position(land: &Land, stride: int, column: int, row: int) -> [Bits; 3] {
    let (x, y) = (column * stride, row * stride);
    [
        world(land.grid_x as int, x) as u32,
        world(land.grid_y as int, y) as u32,
        land.heights@[y * GRID + x],
    ]
}

/// Which way vertex `(column, row)` faces: as the cell says, and zero where it does not say.
pub open spec fn ground_normal(land: &Land, stride: int, column: int, row: int) -> [Bits; 3] {
    let at = row * stride * GRID + column * stride;
    if at < land.normals@.len() {
        land.normals@[at]
    } else {
        [ZERO, ZERO, ZERO]
    }
}

/// The texture coordinates of vertex `(column, row)`.
pub open spec fn ground_uv(stride: int, column: int, row: int) -> [Bits; 2] {
    [tile_coordinate(column * stride) as u32, tile_coordinate(row * stride) as u32]
}

/// The indices of one material's quads are six for each.
proof fn lemma_material_indices(materials: Seq<u32>, stride: int, material: u32, n: nat)
    ensures
        material_indices(materials, stride, material, n).len() <= 6 * n,
    decreases n,
{
    if n > 0 {
        lemma_material_indices(materials, stride, material, (n - 1) as nat);
    }
}

/// A stride divides the quads a cell spans.
proof fn lemma_stride(stride: int)
    requires
        is_stride(stride),
    ensures
        1 <= SPAN as int / stride <= SPAN,
        (SPAN as int / stride) * stride == SPAN,
        quad_count(stride) <= SPAN * SPAN,
        (SPAN as int / stride) * (SPAN as int / stride) == quad_count(stride),
{
    let quads = SPAN as int / stride;
    assert(1 <= quads <= 64 && quads * stride == 64) by (nonlinear_arith)
        requires
            quads == 64int / stride,
            stride == 1 || stride == 2 || stride == 4 || stride == 8 || stride == 16 || stride == 32
                || stride == 64,
    ;
    assert(0 <= quads * quads && quads * quads <= 64 * 64) by (nonlinear_arith)
        requires
            1 <= quads <= 64,
    ;
}

/// A quad's patch lies within the cell.
proof fn lemma_patch_inside(stride: int, quad: int)
    requires
        is_stride(stride),
        0 <= quad < SPAN as int / stride,
    ensures
        0 <= patch(quad, stride) < TERRAIN_QUADRANTS,
        0 <= quad * stride,
        quad * stride + stride <= SPAN,
{
    let quads = SPAN as int / stride;
    lemma_stride(stride);
    assert(0 <= quad * stride && quad * stride + stride <= quads * stride) by (nonlinear_arith)
        requires
            0 <= quad < quads,
            stride >= 1,
    ;
}

/// The material of the patch of ground under the middle of a quad.
fn material_of(materials: &[u32], stride: usize, quad: usize) -> (r: u32)
    requires
        materials@.len() == TERRAIN_QUADRANTS * TERRAIN_QUADRANTS,
        is_stride(stride as int),
        quad < quad_count(stride as int),
    ensures
        r == quad_material(materials@, stride as int, quad as int),
{
    let quads: usize = SPAN / stride;
    let (column, row): (usize, usize) = (quad % quads, quad / quads);
    proof {
        lemma_stride(stride as int);
        assert(row < quads) by (nonlinear_arith)
            requires
                row == quad / quads,
                quad < quads * quads,
                quads > 0,
        ;
        lemma_patch_inside(stride as int, column as int);
        lemma_patch_inside(stride as int, row as int);
    }
    let px: usize = (column * stride + stride / 2) / 2;
    let py: usize = (row * stride + stride / 2) / 2;
    materials[py * TERRAIN_QUADRANTS + px]
}

/// The materials some quad is of, each once, smallest first.
fn used_materials(materials: &[u32], stride: usize) -> (used: Vec<u32>)
    requires
        materials@.len() == TERRAIN_QUADRANTS * TERRAIN_QUADRANTS,
        is_stride(stride as int),
    ensures
        is_used(materials@, stride as int, used@),
        used@.len() <= quad_count(stride as int),
{
    proof {
        lemma_stride(stride as int);
    }
    let quads: usize = SPAN / stride;
    let count: usize = quads * quads;
    let mut used: Vec<u32> = Vec::new();
    let mut quad: usize = 0;
    while quad < count
        invariant
            materials@.len() == TERRAIN_QUADRANTS * TERRAIN_QUADRANTS,
            is_stride(stride as int),
            count == quad_count(stride as int),
            quad <= count,
            used@.len() <= quad,
            forall|i: int, j: int|
                0 <= i < j < used@.len() ==> #[trigger] used@[i] < #[trigger] used@[j],
            forall|m: u32| #[trigger]
                used@.contains(m) <==> exists|q: int|
                    0 <= q < quad && #[trigger] quad_material(materials@, stride as int, q) == m,
        decreases count - quad,
    {
        let material: u32 = material_of(materials, stride, quad);
        let ghost before = used@;
        let mut at: usize = 0;
        while at < used.len() && used[at] < material
            invariant
                at <= used@.len(),
                used@ == before,
                forall|k: int| 0 <= k < at ==> #[trigger] before[k] < material,
            decreases used@.len() - at,
        {
            at = at + 1;
        }
        let present: bool = at < used.len() && used[at] == material;
        if !present {
            used.insert(at, material);
        }
        proof {
            assert(quad_material(materials@, stride as int, quad as int) == material);
            if present {
                assert(before.contains(material)) by {
                    assert(before[at as int] == material);
                }
            } else {
                assert forall|k: int| at <= k < before.len() implies #[trigger] before[k]
                    > material by {
                    if k > at {
                        assert(before[at as int] < before[k]);
                    }
                }
                assert forall|i: int, j: int| 0 <= i < j < used@.len() implies #[trigger] used@[i]
                    < #[trigger] used@[j] by {
                    if i < at {
                        assert(used@[i] == before[i]);
                    } else if i > at {
                        assert(used@[i] == before[i - 1]);
                    }
                    if j < at {
                        assert(used@[j] == before[j]);
                    } else if j > at {
                        assert(used@[j] == before[j - 1]);
                    }
                }
            }
            assert forall|m: u32| #[trigger] used@.contains(m) <==> exists|q: int|
                0 <= q < quad + 1 && #[trigger] quad_material(materials@, stride as int, q)
                    == m by {
                lemma_placed(before, used@, at as int, material, present, m);
                if exists|q: int|
                    0 <= q < quad + 1 && #[trigger] quad_material(materials@, stride as int, q)
                        == m {
                    let q = choose|q: int|
                        0 <= q < quad + 1 && #[trigger] quad_material(materials@, stride as int, q)
                            == m;
                    if q < quad {
                        assert(before.contains(m));
                    }
                }
                if before.contains(m) {
                    let q = choose|q: int|
                        0 <= q < quad && #[trigger] quad_material(materials@, stride as int, q)
                            == m;
                    assert(0 <= q < quad + 1);
                }
            }
        }
        quad = quad + 1;
    }
    used
}

/// What a list holds after a number is put in where it was not.
proof fn lemma_placed(before: Seq<u32>, after: Seq<u32>, at: int, x: u32, present: bool, m: u32)
    requires
        0 <= at <= before.len(),
        present ==> after == before && before.contains(x),
        !present ==> after == before.insert(at, x),
    ensures
        after.contains(m) <==> before.contains(m) || m == x,
{
    if !present {
        if after.contains(m) {
            let k = after.index_of(m);
            if k < at {
                assert(before[k] == m);
            } else if k > at {
                assert(before[k - 1] == m);
            }
        }
        if before.contains(m) {
            let k = before.index_of(m);
            if k < at {
                assert(after[k] == m);
            } else {
                assert(after[k + 1] == m);
            }
        }
        assert(after[at] == x);
    }
}

/// Appends the triangles of the quads of one material.
fn push_quads(indices: &mut Vec<u32>, materials: &[u32], stride: usize, material: u32)
    requires
        materials@.len() == TERRAIN_QUADRANTS * TERRAIN_QUADRANTS,
        is_stride(stride as int),
    ensures
        final(indices)@ == old(indices)@ + material_indices(
            materials@,
            stride as int,
            material,
            quad_count(stride as int),
        ),
{
    proof {
        lemma_stride(stride as int);
    }
    let quads: usize = SPAN / stride;
    let side: usize = quads + 1;
    let count: usize = quads * quads;
    let mut quad: usize = 0;
    assert(indices@ =~= old(indices)@ + Seq::<u32>::empty());
    while quad < count
        invariant
            materials@.len() == TERRAIN_QUADRANTS * TERRAIN_QUADRANTS,
            is_stride(stride as int),
            quads == SPAN as int / stride as int,
            1 <= quads <= 64,
            side == quads + 1,
            count == quads * quads,
            count == quad_count(stride as int),
            quad <= count,
            indices@ == old(indices)@ + material_indices(
                materials@,
                stride as int,
                material,
                quad as nat,
            ),
        decreases count - quad,
    {
        if material_of(materials, stride, quad) == material {
            let (column, row): (usize, usize) = (quad % quads, quad / quads);
            assert(row < quads && row * side + side <= 65 * 65 && 0 <= row * side)
                by (nonlinear_arith)
                requires
                    row == quad / quads,
                    quad < quads * quads,
                    1 <= quads <= 64,
                    side == quads + 1,
            ;
            let corner: u32 = (row * side + column) as u32;
            let above: u32 = corner + side as u32;
            let ghost before = indices@;
            indices.push(corner);
            indices.push(corner + 1);
            indices.push(above + 1);
            indices.push(corner);
            indices.push(above + 1);
            indices.push(above);
            assert(indices@ =~= before + quad_indices(stride as int, quad as int));
            assert(indices@ =~= old(indices)@ + material_indices(
                materials@,
                stride as int,
                material,
                (quad + 1) as nat,
            ));
        }
        quad = quad + 1;
    }
}

/// The ground of some materials takes no more than six indices a quad each.
proof fn lemma_ground_size(materials: Seq<u32>, stride: int, used: Seq<u32>, n: nat)
    requires
        is_stride(stride),
        n <= used.len(),
    ensures
        ground_indices(materials, stride, used, n).len() <= n * (6 * quad_count(stride)),
        n * (6 * quad_count(stride)) <= used.len() * (6 * quad_count(stride)),
    decreases n,
{
    let each = 6 * quad_count(stride);
    assert(n * each <= used.len() * each) by (nonlinear_arith)
        requires
            n <= used.len(),
            each >= 0,
    ;
    if n > 0 {
        lemma_ground_size(materials, stride, used, (n - 1) as nat);
        lemma_material_indices(materials, stride, used[n - 1], quad_count(stride));
        assert(n * each == (n - 1) * each + each) by (nonlinear_arith);
    }
}

/// Where a vertex stands along one axis of the world.
fn coordinate(grid: i32, at: usize) -> (r: Bits)
    requires
        at <= SPAN,
    ensures
        r == world(grid as int, at as int),
{
    let corner: i64 = to_rounded(grid as i64);
    to_bits(CELL_SIZE * corner + SPACING * at as i64)
}

/// The texture coordinate of a vertex.
fn tile(at: usize) -> (r: Bits)
    requires
        at <= SPAN,
    ensures
        r == tile_coordinate(at as int),
{
    if at == 0 {
        return 0;
    }
    proof {
        lemma_small_exponent(at as nat);
    }
    to_bits(at as i64) - 2 * 0x80_0000
}

/// A whole number from one up is stored with room below its exponent.
proof fn lemma_small_exponent(n: nat)
    requires
        1 <= n <= 64,
    ensures
        float_of(n as int) >= 127 * 0x80_0000,
{
    vstd::arithmetic::power2::lemma2_to64();
    let m = super::numbers::size_of(n as int);
    assert(super::numbers::excess(m) == 0);
    assert(m / 1 == m && m % 1 == 0);
    super::numbers::lemma_encoded_at_least(n);
}

/// Whether a mesh is a cell's ground: a vertex for every point of the heightmap the stride takes,
/// row by row, and a run of triangles for every material some quad uses.
pub open spec fn is_ground(mesh: MeshModel, land: &Land, materials: Seq<u32>, stride: int) -> bool {
    let side = SPAN as int / stride + 1;
    &&& mesh.positions.len() == side * side
    &&& forall|i: int|
        0 <= i < side * side ==> #[trigger] mesh.positions[i] == ground_position(
            land,
            stride,
            i % side,
            i / side,
        )
    &&& forall|i: int|
        0 <= i < side * side ==> #[trigger] mesh.normals[i] == ground_normal(
            land,
            stride,
            i % side,
            i / side,
        )
    &&& forall|i: int|
        0 <= i < side * side ==> #[trigger] mesh.uvs[i] == ground_uv(
            stride,
            i % side,
            i / side,
        )
    &&& exists|used: Seq<u32>| #[trigger] is_grouped(mesh, materials, stride, used)
}

/// Whether a mesh's triangles are those of a cell's ground, grouped by the materials its quads use.
pub open spec fn is_grouped(
    mesh: MeshModel,
    materials: Seq<u32>,
    stride: int,
    used: Seq<u32>,
) -> bool {
    &&& is_used(materials, stride, used)
    &&& mesh.indices == ground_indices(materials, stride, used, used.len())
    &&& mesh.submeshes == ground_runs(materials, stride, used)
}

impl Mesh {
    /// Turns one exterior cell's heightmap into terrain, in world space.
    ///
    /// Already placed, unlike a model: a heightmap is only ever the cell it belongs to. Quads are
    /// grouped by the material of the patch their middle falls in, so each material some quad uses
    /// comes out as one run. `stride` takes one vertex in that many on each axis, and keeps the
    /// shared last row and column whatever it is, so two cells built at one stride still meet.
    pub fn from_land(land: &Land, quadrant_materials: &[u32], stride: usize) -> (r: Mesh)
        requires
            quadrant_materials@.len() == TERRAIN_QUADRANTS * TERRAIN_QUADRANTS,
            is_stride(stride as int),
            land.heights@.len() == GRID * GRID,
        ensures
            r@.wf(),
            is_ground(r@, land, quadrant_materials@, stride as int),
    {
        let mut mesh: Mesh = ground_vertices(land, stride);
        let used: Vec<u32> = used_materials(quadrant_materials, stride);
        let ghost materials = quadrant_materials@;
        let ghost s = stride as int;
        let ghost runs = ground_runs(materials, s, used@);
        proof {
            lemma_stride(s);
            assert(used@.len() * (6 * quad_count(s)) <= 4096 * (6 * 4096)) by (nonlinear_arith)
                requires
                    used@.len() <= 4096,
                    quad_count(s) <= 4096,
            ;
        }
        let ghost vertices = mesh@;
        let mut i: usize = 0;
        while i < used.len()
            invariant
                i <= used@.len(),
                is_stride(stride as int),
                s == stride as int,
                materials == quadrant_materials@,
                quadrant_materials@.len() == TERRAIN_QUADRANTS * TERRAIN_QUADRANTS,
                used@.len() * (6 * quad_count(s)) <= 4096 * (6 * 4096),
                runs == ground_runs(materials, s, used@),
                mesh@.positions == vertices.positions,
                mesh@.normals == vertices.normals,
                mesh@.uvs == vertices.uvs,
                mesh@.indices == ground_indices(materials, s, used@, i as nat),
                mesh@.submeshes == runs.take(i as int),
                covers(mesh@.submeshes, mesh@.indices.len() as int),
            decreases used@.len() - i,
        {
            proof {
                lemma_ground_size(materials, s, used@, i as nat);
                lemma_ground_size(materials, s, used@, (i + 1) as nat);
            }
            assert(mesh.indices@.len() == mesh.indices.len());
            let first_index: u32 = mesh.indices.len() as u32;
            push_quads(&mut mesh.indices, quadrant_materials, stride, used[i]);
            assert(mesh.indices@.len() == mesh.indices.len());
            let index_count: u32 = mesh.indices.len() as u32 - first_index;
            let ghost before = mesh.submeshes@;
            mesh.submeshes.push(
                Submesh { first_index, index_count, material: used[i], thin: false },
            );
            proof {
                assert(mesh.submeshes@.last() == runs[i as int]);
                assert(mesh.submeshes@ =~= runs.take(i + 1));
                assert(mesh.submeshes@.drop_last() =~= before);
            }
            i = i + 1;
        }
        proof {
            assert(runs.take(i as int) =~= runs);
            assert(is_grouped(mesh@, quadrant_materials@, stride as int, used@));
        }
        mesh
    }
}

/// The vertices of a cell's ground at a stride.
fn ground_vertices(land: &Land, stride: usize) -> (mesh: Mesh)
    requires
        is_stride(stride as int),
        land.heights@.len() == GRID * GRID,
    ensures
        mesh@.wf(),
        mesh@.indices == Seq::<u32>::empty(),
        mesh@.submeshes == Seq::<Submesh>::empty(),
        ({
            let side = SPAN as int / stride as int + 1;
            &&& mesh@.positions.len() == side * side
            &&& forall|i: int|
                0 <= i < side * side ==> #[trigger] mesh@.positions[i] == ground_position(
                    land,
                    stride as int,
                    i % side,
                    i / side,
                )
            &&& forall|i: int|
                0 <= i < side * side ==> #[trigger] mesh@.normals[i] == ground_normal(
                    land,
                    stride as int,
                    i % side,
                    i / side,
                )
            &&& forall|i: int|
                0 <= i < side * side ==> #[trigger] mesh@.uvs[i] == ground_uv(
                    stride as int,
                    i % side,
                    i / side,
                )
        }),
{
    proof {
        lemma_stride(stride as int);
    }
    let quads: usize = SPAN / stride;
    let side: usize = quads + 1;
    assert(0 <= side * side <= 65 * 65) by (nonlinear_arith)
        requires
            2 <= side <= 65,
    ;
    let count: usize = side * side;
    let mut mesh: Mesh = Mesh::new();
    let mut v: usize = 0;
    while v < count
        invariant
            is_stride(stride as int),
            land.heights@.len() == GRID * GRID,
            quads == SPAN as int / stride as int,
            quads * stride == SPAN,
            1 <= quads <= 64,
            side == quads + 1,
            count == side * side,
            v <= count,
            mesh@.positions.len() == v,
            mesh@.normals.len() == v,
            mesh@.uvs.len() == v,
            mesh@.indices == Seq::<u32>::empty(),
            mesh@.submeshes == Seq::<Submesh>::empty(),
            forall|i: int|
                0 <= i < v ==> #[trigger] mesh@.positions[i] == ground_position(
                    land,
                    stride as int,
                    i % (side as int),
                    i / (side as int),
                ),
            forall|i: int|
                0 <= i < v ==> #[trigger] mesh@.normals[i] == ground_normal(
                    land,
                    stride as int,
                    i % (side as int),
                    i / (side as int),
                ),
            forall|i: int|
                0 <= i < v ==> #[trigger] mesh@.uvs[i] == ground_uv(
                    stride as int,
                    i % (side as int),
                    i / (side as int),
                ),
        decreases count - v,
    {
        let (column, row): (usize, usize) = (v % side, v / side);
        assert(row < side) by (nonlinear_arith)
            requires
                row == v / side,
                v < side * side,
                side > 0,
        ;
        assert(0 <= column * stride <= 64 && 0 <= row * stride <= 64) by (nonlinear_arith)
            requires
                0 <= column <= quads,
                0 <= row <= quads,
                quads * stride == 64,
                stride >= 1,
        ;
        let (x, y): (usize, usize) = (column * stride, row * stride);
        assert(row * stride * GRID == y * GRID) by (nonlinear_arith)
            requires
                y == row * stride,
        ;
        let at: usize = y * GRID + x;
        mesh.positions.push(
            [coordinate(land.grid_x, x), coordinate(land.grid_y, y), land.heights[at]],
        );
        mesh.normals.push(
            if at < land.normals.len() {
                land.normals[at]
            } else {
                [ZERO, ZERO, ZERO]
            },
        );
        mesh.uvs.push([tile(x), tile(y)]);
        v = v + 1;
    }
    mesh
}

/// **A stride samples the heightmap rather than averaging it**: a vertex of the coarse ground is a
/// vertex of the fine one.
pub proof fn law_a_stride_samples(land: &Land, stride: int, column: int, row: int)
    ensures
        ground_position(land, stride, column, row) == ground_position(
            land,
            1,
            column * stride,
            row * stride,
        ),
        ground_normal(land, stride, column, row) == ground_normal(
            land,
            1,
            column * stride,
            row * stride,
        ),
{
}

/// **Neighbouring cells meet**: the last vertex of one stands where the first of the next does, on
/// either axis.
pub proof fn law_neighbours_meet(grid: int)
    requires
        -0x100_0000 < grid,
        grid + 1 < 0x100_0000,
    ensures
        world(grid, SPAN as int) == world(grid + 1, 0),
{
    super::numbers::law_small_numbers_are_exact(grid);
    super::numbers::law_small_numbers_are_exact(grid + 1);
}

/// How many of the first `n` quads are of one material.
spec fn quads_of(materials: Seq<u32>, stride: int, material: u32, n: nat) -> nat
    decreases n,
{
    if n == 0 {
        0
    } else {
        quads_of(materials, stride, material, (n - 1) as nat) + if quad_material(
            materials,
            stride,
            n - 1,
        ) == material {
            1nat
        } else {
            0nat
        }
    }
}

/// How many of the first `n` quads are of the first `k` of some materials.
spec fn quads_among(materials: Seq<u32>, stride: int, used: Seq<u32>, k: nat, n: nat) -> nat
    decreases k,
{
    if k == 0 {
        0
    } else {
        quads_among(materials, stride, used, (k - 1) as nat, n) + quads_of(
            materials,
            stride,
            used[k - 1],
            n,
        )
    }
}

/// One more quad counts once, for the one material it is of.
proof fn lemma_one_more_quad(
    materials: Seq<u32>,
    stride: int,
    used: Seq<u32>,
    k: nat,
    n: nat,
    at: int,
)
    requires
        n > 0,
        k <= used.len(),
        0 <= at < used.len(),
        used[at] == quad_material(materials, stride, n - 1),
        forall|i: int, j: int| 0 <= i < j < used.len() ==> #[trigger] used[i] < #[trigger] used[j],
    ensures
        quads_among(materials, stride, used, k, n) == quads_among(
            materials,
            stride,
            used,
            k,
            (n - 1) as nat,
        ) + if at < k {
            1nat
        } else {
            0nat
        },
    decreases k,
{
    if k > 0 {
        lemma_one_more_quad(materials, stride, used, (k - 1) as nat, n, at);
        if at != k - 1 {
            if at < k - 1 {
                assert(used[at] < used[k - 1]);
            } else {
                assert(used[k - 1] < used[at]);
            }
        }
    }
}

/// Every quad counts once among the materials that are used.
proof fn lemma_every_quad_counts(materials: Seq<u32>, stride: int, used: Seq<u32>, n: nat)
    requires
        is_used(materials, stride, used),
        n <= quad_count(stride),
    ensures
        quads_among(materials, stride, used, used.len(), n) == n,
    decreases n,
{
    if n > 0 {
        lemma_every_quad_counts(materials, stride, used, (n - 1) as nat);
        let m = quad_material(materials, stride, n - 1);
        assert(used.contains(m));
        let at = used.index_of(m);
        assert(used[at] == m);
        lemma_one_more_quad(materials, stride, used, used.len(), n, at);
    } else {
        lemma_no_quads(materials, stride, used, used.len());
    }
}

/// No quads count for nothing.
proof fn lemma_no_quads(materials: Seq<u32>, stride: int, used: Seq<u32>, k: nat)
    ensures
        quads_among(materials, stride, used, k, 0) == 0,
    decreases k,
{
    if k > 0 {
        lemma_no_quads(materials, stride, used, (k - 1) as nat);
    }
}

/// One material's quads take six indices each.
proof fn lemma_six_each(materials: Seq<u32>, stride: int, material: u32, n: nat)
    ensures
        material_indices(materials, stride, material, n).len() == 6 * quads_of(
            materials,
            stride,
            material,
            n,
        ),
    decreases n,
{
    if n > 0 {
        lemma_six_each(materials, stride, material, (n - 1) as nat);
    }
}

/// The ground takes six indices for each quad of its materials.
proof fn lemma_six_each_quad(materials: Seq<u32>, stride: int, used: Seq<u32>, k: nat)
    ensures
        ground_indices(materials, stride, used, k).len() == 6 * quads_among(
            materials,
            stride,
            used,
            k,
            quad_count(stride),
        ),
    decreases k,
{
    if k > 0 {
        lemma_six_each_quad(materials, stride, used, (k - 1) as nat);
        lemma_six_each(materials, stride, used[k - 1], quad_count(stride));
    }
}

/// A quad's triangles are among those of its material.
proof fn lemma_quad_is_there(
    materials: Seq<u32>,
    stride: int,
    material: u32,
    n: nat,
    quad: int,
) -> (at: int)
    requires
        0 <= quad < n,
        quad_material(materials, stride, quad) == material,
    ensures
        0 <= at,
        at + 6 <= material_indices(materials, stride, material, n).len(),
        material_indices(materials, stride, material, n).subrange(at, at + 6) == quad_indices(
            stride,
            quad,
        ),
    decreases n,
{
    let all = material_indices(materials, stride, material, n);
    let before = material_indices(materials, stride, material, (n - 1) as nat);
    if quad == n - 1 {
        assert(all.subrange(before.len() as int, (before.len() + 6) as int) =~= quad_indices(
            stride,
            quad,
        ));
        before.len() as int
    } else {
        let at = lemma_quad_is_there(materials, stride, material, (n - 1) as nat, quad);
        assert(all.subrange(at, at + 6) =~= before.subrange(at, at + 6));
        at
    }
}

/// What stands in one material's part of the ground stands in the ground.
proof fn lemma_part_is_there(
    materials: Seq<u32>,
    stride: int,
    used: Seq<u32>,
    k: nat,
    i: int,
)
    requires
        0 <= i < k <= used.len(),
    ensures
        ({
            let part = material_indices(materials, stride, used[i], quad_count(stride));
            let start = ground_indices(materials, stride, used, i as nat).len() as int;
            let all = ground_indices(materials, stride, used, k);
            &&& start + part.len() <= all.len()
            &&& all.subrange(start, start + part.len()) == part
        }),
    decreases k,
{
    let part = material_indices(materials, stride, used[i], quad_count(stride));
    let start = ground_indices(materials, stride, used, i as nat).len() as int;
    let all = ground_indices(materials, stride, used, k);
    let before = ground_indices(materials, stride, used, (k - 1) as nat);
    if i == k - 1 {
        assert(all.subrange(start, start + part.len()) =~= part);
    } else {
        lemma_part_is_there(materials, stride, used, (k - 1) as nat, i);
        assert(all.subrange(start, start + part.len()) =~= before.subrange(
            start,
            start + part.len(),
        ));
    }
}

/// Whether run `i` of the ground holds a quad's two triangles, from index `at` on.
pub open spec fn covers_quad(
    materials: Seq<u32>,
    stride: int,
    used: Seq<u32>,
    quad: int,
    i: int,
    at: int,
) -> bool {
    let all = ground_indices(materials, stride, used, used.len());
    let run = ground_runs(materials, stride, used)[i];
    &&& 0 <= i < used.len()
    &&& run.material == quad_material(materials, stride, quad)
    &&& run.first_index <= at
    &&& at + 6 <= run.first_index + run.index_count
    &&& run.first_index + run.index_count <= all.len()
    &&& all.subrange(at, at + 6) == quad_indices(stride, quad)
}

/// **The ground covers every quad, and covers it once**: six indices for each quad and no more, and
/// each quad's two triangles in the run of the material under its middle.
pub proof fn law_every_quad_is_covered_once(
    materials: Seq<u32>,
    stride: int,
    used: Seq<u32>,
    quad: int,
)
    requires
        is_stride(stride),
        is_used(materials, stride, used),
        0 <= quad < quad_count(stride),
    ensures
        ground_indices(materials, stride, used, used.len()).len() == 6 * quad_count(stride),
        exists|i: int, at: int| #[trigger]
            covers_quad(materials, stride, used, quad, i, at),
{
    let all = ground_indices(materials, stride, used, used.len());
    lemma_stride(stride);
    lemma_every_quad_counts(materials, stride, used, quad_count(stride));
    lemma_six_each_quad(materials, stride, used, used.len());
    let m = quad_material(materials, stride, quad);
    assert(used.contains(m));
    let i = used.index_of(m);
    assert(used[i] == m);
    let within = lemma_quad_is_there(materials, stride, m, quad_count(stride), quad);
    lemma_part_is_there(materials, stride, used, used.len(), i);
    let part = material_indices(materials, stride, m, quad_count(stride));
    let start = ground_indices(materials, stride, used, i as nat).len() as int;
    let at = start + within;
    assert(all.subrange(at, at + 6) =~= all.subrange(start, start + part.len()).subrange(
        within,
        within + 6,
    ));
    let run = ground_runs(materials, stride, used)[i];
    assert(run.first_index == start && run.index_count == part.len());
    assert(covers_quad(materials, stride, used, quad, i, at));
}

} // verus!
