//! What holds of every cell's ground, said of the ground itself.

use super::bits::Bits;
use super::mesh::MeshModel;
use super::numbers::{excess, float_of, nearest, shortfall, size_of};
use super::terrain::{
    ground_position, is_ground, is_grouped, is_stride, law_every_quad_is_covered_once, quad_indices,
    quad_material, Land,
};
use vstd::arithmetic::power2::{lemma2_to64, lemma_pow2_unfold, pow2};
use vstd::prelude::*;

verus! {

/// A number short of some binary digits has twenty-four once it is given them.
proof fn lemma_shortfall_fills(m: nat)
    requires
        0 < m < 0x100_0000,
    ensures
        0x80_0000 <= m * pow2(shortfall(m)) < 0x100_0000,
        shortfall(m) <= 23,
        m >= 0x80_0000 ==> shortfall(m) == 0,
    decreases 0x100_0000 - m,
{
    lemma2_to64();
    if m >= 0x80_0000 {
        assert(m * pow2(0) == m);
    } else {
        lemma_shortfall_fills(2 * m);
        lemma_pow2_unfold(shortfall(m));
        let p = pow2(shortfall(2 * m)) as int;
        assert((2 * m) * p == m * (2 * p)) by (nonlinear_arith);
        if shortfall(m) > 23 {
            lemma_shortfall_is_small(m, 23);
        }
    }
}

/// A number of at least one is short of no more digits than it takes to fill it.
proof fn lemma_shortfall_is_small(m: nat, d: nat)
    requires
        m >= 1,
        m * pow2(d) >= 0x80_0000,
    ensures
        shortfall(m) <= d,
    decreases d,
{
    lemma2_to64();
    if d == 0 {
        assert(m * pow2(0) == m);
    } else if m < 0x80_0000 {
        lemma_pow2_unfold(d);
        let p = pow2((d - 1) as nat) as int;
        assert((2 * m) * p == m * (2 * p)) by (nonlinear_arith);
        lemma_shortfall_is_small(2 * m, (d - 1) as nat);
    }
}

/// **The bits of a whole number spell it**: the top bit is its sign, and its twenty-four digits times
/// two to the power of what its exponent lacks are its size.
pub proof fn law_bits_spell_the_number(n: int)
    requires
        -0x100_0000 < n < 0x100_0000,
        n != 0,
    ensures
        ({
            let bits = float_of(n);
            let size = if n < 0 {
                -n
            } else {
                n
            };
            let exponent = (bits % 0x8000_0000) / 0x80_0000;
            let digits = 0x80_0000 + bits % 0x80_0000;
            &&& 0 <= bits < 0x1_0000_0000
            &&& (bits >= 0x8000_0000) == (n < 0)
            &&& 127 <= exponent <= 150
            &&& digits == size * pow2((150 - exponent) as nat)
        }),
{
    lemma2_to64();
    let m = size_of(n);
    assert(excess(m) == 0);
    assert(m / 1 == m && m % 1 == 0);
    assert(nearest(m, pow2(0)) == m);
    lemma_shortfall_fills(m);
    let d = shortfall(m);
    let digits = m * pow2(d);
    let bits = float_of(n);
    let sign = if n < 0 {
        0x8000_0000int
    } else {
        0int
    };
    assert(bits == sign + (150 - d) * 0x80_0000 + (digits - 0x80_0000));
    assert(bits % 0x8000_0000 == (150 - d) * 0x80_0000 + (digits - 0x80_0000));
    assert((bits % 0x8000_0000) / 0x80_0000 == 150 - d);
    assert(bits % 0x80_0000 == digits - 0x80_0000);
}

/// **Nought is all bits clear.**
pub proof fn law_nought_is_nought()
    ensures
        float_of(0) == 0,
{
    lemma2_to64();
    assert(excess(0) == 0);
    assert(0nat / 1 == 0 && 0nat % 1 == 0);
}

/// Twice the area of a triangle on the ground, counted in quads: more than nothing where it runs
/// counter-clockwise seen from above.
pub open spec fn doubled_area(side: int, a: int, b: int, c: int) -> int {
    (b % side - a % side) * (c / side - a / side) - (c % side - a % side) * (b / side - a / side)
}

/// Whether a vertex is one of the four corners of a quad.
pub open spec fn is_corner(side: int, column: int, row: int, vertex: int) -> bool {
    &&& vertex % side == column || vertex % side == column + 1
    &&& vertex / side == row || vertex / side == row + 1
}

/// Whether a vertex is one of a triangle's.
pub open spec fn is_one_of(indices: Seq<u32>, from: int, vertex: int) -> bool {
    indices[from] == vertex || indices[from + 1] == vertex || indices[from + 2] == vertex
}

/// Whether the six indices from `at` on are two triangles that cover a quad: both counter-clockwise
/// and half of it, on its corners and on all of them, with nothing between them but a diagonal.
pub open spec fn tiles(indices: Seq<u32>, at: int, side: int, column: int, row: int) -> bool {
    &&& 0 <= at <= indices.len() - 6
    &&& doubled_area(
        side,
        indices[at] as int,
        indices[at + 1] as int,
        indices[at + 2] as int,
    ) == 1
    &&& doubled_area(
        side,
        indices[at + 3] as int,
        indices[at + 4] as int,
        indices[at + 5] as int,
    ) == 1
    &&& forall|vertex: int|
        is_corner(side, column, row, vertex) <==> #[trigger] is_one_of(indices, at, vertex)
            || is_one_of(indices, at + 3, vertex)
    &&& forall|v: int, w: int|
        #![trigger is_one_of(indices, at, v), is_one_of(indices, at + 3, w)]
        v != w && is_one_of(indices, at, v) && is_one_of(indices, at + 3, v) && is_one_of(
            indices,
            at,
            w,
        ) && is_one_of(indices, at + 3, w) ==> v % side != w % side && v / side != w / side
}

/// A corner of the grid is told by its column and its row.
proof fn lemma_corner(side: int, column: int, row: int)
    requires
        0 <= column < side,
        0 <= row,
    ensures
        (row * side + column) % side == column,
        (row * side + column) / side == row,
        row * side + column >= 0,
{
    vstd::arithmetic::div_mod::lemma_fundamental_div_mod_converse(
        row * side + column,
        side,
        row,
        column,
    );
    assert(row * side >= 0) by (nonlinear_arith)
        requires
            row >= 0,
            side >= 0,
    ;
}

/// A vertex in a column and a row is the one that stands there.
proof fn lemma_vertex_at(side: int, vertex: int)
    requires
        side > 0,
    ensures
        vertex == (vertex / side) * side + vertex % side,
{
    vstd::arithmetic::div_mod::lemma_fundamental_div_mod(vertex, side);
    assert(side * (vertex / side) == (vertex / side) * side) by (nonlinear_arith);
}

/// A quad's indices tile it.
proof fn lemma_quad_tiles(stride: int, indices: Seq<u32>, at: int, column: int, row: int)
    requires
        is_stride(stride),
        0 <= column < 64int / stride,
        0 <= row < 64int / stride,
        0 <= at <= indices.len() - 6,
        indices.subrange(at, at + 6) == quad_indices(
            stride,
            row * (64int / stride) + column,
        ),
    ensures
        tiles(indices, at, 64int / stride + 1, column, row),
{
    let quads = 64int / stride;
    let side = quads + 1;
    assert(1 <= quads <= 64) by (nonlinear_arith)
        requires
            quads == 64int / stride,
            stride == 1 || stride == 2 || stride == 4 || stride == 8 || stride == 16 || stride == 32
                || stride == 64,
    ;
    lemma_corner(quads, column, row);
    lemma_corner(side, column, row);
    lemma_corner(side, column + 1, row);
    lemma_corner(side, column, row + 1);
    lemma_corner(side, column + 1, row + 1);
    let a = row * side + column;
    let above = a + side;
    assert((row + 1) * side == row * side + side) by (nonlinear_arith);
    assert(a + side + 1 < 0x1_0000_0000) by (nonlinear_arith)
        requires
            a == row * side + column,
            0 <= row < 64,
            0 <= column < 64,
            2 <= side <= 65,
    ;
    let six = indices.subrange(at, at + 6);
    assert(six[0] == indices[at] && six[1] == indices[at + 1] && six[2] == indices[at + 2] && six[3]
        == indices[at + 3] && six[4] == indices[at + 4] && six[5] == indices[at + 5]);
    assert(indices[at] == a && indices[at + 1] == a + 1 && indices[at + 2] == above + 1);
    assert(indices[at + 3] == a && indices[at + 4] == above + 1 && indices[at + 5] == above);
    assert(a % side == column && a / side == row);
    assert((a + 1) % side == column + 1 && (a + 1) / side == row);
    assert(above % side == column && above / side == row + 1);
    assert((above + 1) % side == column + 1 && (above + 1) / side == row + 1);
    assert(doubled_area(side, a, a + 1, above + 1) == 1int * 1int - 1int * 0int);
    assert(doubled_area(side, a, above + 1, above) == 1int * 1int - 0int * 1int);
    assert forall|v: int, w: int|
        #![trigger is_one_of(indices, at, v), is_one_of(indices, at + 3, w)]
        v != w && is_one_of(indices, at, v) && is_one_of(indices, at + 3, v) && is_one_of(
            indices,
            at,
            w,
        ) && is_one_of(indices, at + 3, w) implies v % side != w % side && v / side != w / side by {
        assert(v == a || v == above + 1);
        assert(w == a || w == above + 1);
    }
    assert forall|vertex: int|
        is_corner(side, column, row, vertex) <==> #[trigger] is_one_of(indices, at, vertex)
            || is_one_of(indices, at + 3, vertex) by {
        lemma_vertex_at(side, vertex);
        if is_corner(side, column, row, vertex) {
            if vertex / side == row {
                assert(vertex == row * side + vertex % side);
            } else {
                assert(vertex == (row + 1) * side + vertex % side);
            }
        }
    }
}

/// **The ground is whole**: each quad between four neighbouring vertices is covered by two triangles,
/// counter-clockwise seen from above, in the run of the material of the patch under its middle, and
/// the ground has six indices for each quad and no more.
pub proof fn law_two_triangles_cover_each_quad(
    mesh: MeshModel,
    land: &Land,
    materials: Seq<u32>,
    stride: int,
    column: int,
    row: int,
)
    requires
        is_stride(stride),
        is_ground(mesh, land, materials, stride),
        0 <= column < 64int / stride,
        0 <= row < 64int / stride,
    ensures
        ({
            let quads = 64int / stride;
            let middle = stride / 2;
            let patch = (row * stride + middle) / 2 * 32 + (column * stride + middle) / 2;
            &&& mesh.indices.len() == 6 * (quads * quads)
            &&& exists|i: int, at: int|
                #![trigger mesh.submeshes[i], tiles(mesh.indices, at, quads + 1, column, row)]
                0 <= i < mesh.submeshes.len() && mesh.submeshes[i].material == materials[patch]
                    && mesh.submeshes[i].first_index <= at && at + 6
                    <= mesh.submeshes[i].first_index + mesh.submeshes[i].index_count && tiles(
                    mesh.indices,
                    at,
                    quads + 1,
                    column,
                    row,
                )
        }),
{
    let quads = 64int / stride;
    let quad = row * quads + column;
    assert(1 <= quads <= 64) by (nonlinear_arith)
        requires
            quads == 64int / stride,
            stride == 1 || stride == 2 || stride == 4 || stride == 8 || stride == 16 || stride == 32
                || stride == 64,
    ;
    lemma_corner(quads, column, row);
    assert(0 <= quad < quads * quads) by (nonlinear_arith)
        requires
            quad == row * quads + column,
            0 <= row < quads,
            0 <= column < quads,
    ;
    let used = choose|used: Seq<u32>| #[trigger] is_grouped(mesh, materials, stride, used);
    law_every_quad_is_covered_once(materials, stride, used, quad);
    let (i, at) = choose|i: int, at: int| #[trigger]
        super::terrain::covers_quad(materials, stride, used, quad, i, at);
    lemma_quad_tiles(stride, mesh.indices, at, column, row);
    assert(mesh.submeshes[i].material == quad_material(materials, stride, quad));
}

/// **A vertex of the ground stands where its cell and its place in it say**: 8192 units a cell and
/// 128 a vertex along each axis, and as high as the heightmap says there.
pub proof fn law_a_ground_vertex_stands_in_its_place(
    mesh: MeshModel,
    land: &Land,
    materials: Seq<u32>,
    stride: int,
    column: int,
    row: int,
)
    requires
        is_stride(stride),
        is_ground(mesh, land, materials, stride),
        -0x100_0000 < land.grid_x < 0x100_0000,
        -0x100_0000 < land.grid_y < 0x100_0000,
        0 <= column <= 64int / stride,
        0 <= row <= 64int / stride,
    ensures
        ({
            let at = row * (64int / stride + 1) + column;
            let (x, y) = (column * stride, row * stride);
            &&& 0 <= at < mesh.positions.len()
            &&& mesh.positions[at]@[0] == float_of(8192 * land.grid_x + 128 * x) as u32
            &&& mesh.positions[at]@[1] == float_of(8192 * land.grid_y + 128 * y) as u32
            &&& mesh.positions[at]@[2] == land.heights@[65 * y + x]
            &&& 65 * y + x < land.normals@.len() ==> mesh.normals[at] == land.normals@[65 * y + x]
        }),
{
    let side = 64int / stride + 1;
    let at = row * side + column;
    assert(1 <= side <= 65) by (nonlinear_arith)
        requires
            side == 64int / stride + 1,
            stride == 1 || stride == 2 || stride == 4 || stride == 8 || stride == 16 || stride == 32
                || stride == 64,
    ;
    lemma_corner(side, column, row);
    assert(at < side * side) by (nonlinear_arith)
        requires
            at == row * side + column,
            0 <= row < side,
            0 <= column < side,
    ;
    super::numbers::law_small_numbers_are_exact(land.grid_x as int);
    super::numbers::law_small_numbers_are_exact(land.grid_y as int);
    assert(mesh.positions[at] == ground_position(land, stride, column, row));
    assert(mesh.normals[at] == super::terrain::ground_normal(land, stride, column, row));
    assert(row * stride * 65 == 65 * (row * stride));
}

/// **The ground repeats its texture every four quads**: a texture coordinate is a quarter of how many
/// vertices it is from the cell's edge, the column's before the row's.
pub proof fn law_a_texture_spans_four_quads(
    mesh: MeshModel,
    land: &Land,
    materials: Seq<u32>,
    stride: int,
    column: int,
    row: int,
)
    requires
        is_stride(stride),
        is_ground(mesh, land, materials, stride),
        0 <= column <= 64int / stride,
        0 <= row <= 64int / stride,
    ensures
        ({
            let at = row * (64int / stride + 1) + column;
            &&& is_quarter_of(mesh.uvs[at]@[0], column * stride)
            &&& is_quarter_of(mesh.uvs[at]@[1], row * stride)
        }),
{
    let quads = 64int / stride;
    let side = quads + 1;
    let at = row * side + column;
    assert(1 <= quads <= 64 && quads * stride == 64) by (nonlinear_arith)
        requires
            quads == 64int / stride,
            stride == 1 || stride == 2 || stride == 4 || stride == 8 || stride == 16 || stride == 32
                || stride == 64,
    ;
    lemma_corner(side, column, row);
    assert(at < side * side) by (nonlinear_arith)
        requires
            at == row * side + column,
            0 <= row < side,
            0 <= column < side,
    ;
    assert(mesh.uvs[at] == super::terrain::ground_uv(stride, column, row));
    assert(0 <= column * stride <= 64 && 0 <= row * stride <= 64) by (nonlinear_arith)
        requires
            0 <= column <= quads,
            0 <= row <= quads,
            quads * stride == 64,
            stride >= 1,
    ;
    lemma_quarter(column * stride);
    lemma_quarter(row * stride);
}

/// Whether some bits are a quarter of a whole number.
pub open spec fn is_quarter_of(bits: Bits, n: int) -> bool {
    if n == 0 {
        bits == 0
    } else {
        &&& 0 <= bits / 0x80_0000 <= 148
        &&& 0x80_0000 + bits % 0x80_0000 == n * pow2((148 - bits / 0x80_0000) as nat)
    }
}

/// A texture coordinate is a quarter of a place.
proof fn lemma_quarter(at: int)
    requires
        0 <= at <= 64,
    ensures
        is_quarter_of(super::terrain::tile_coordinate(at) as u32, at),
{
    if at > 0 {
        law_bits_spell_the_number(at);
        let bits = float_of(at);
        let lower = bits - 0x100_0000;
        assert(lower % 0x80_0000 == bits % 0x80_0000);
        assert(lower / 0x80_0000 == bits / 0x80_0000 - 2);
    }
}

} // verus!
