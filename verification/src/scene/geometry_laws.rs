//! What holds of every mesh: what stacking keeps, and what tells a sheet from a solid.

use super::actor::PartSpanModel;
use super::actor_sheets::{piece_is_open, piece_start, told_by_piece};
use super::bits::{greater, magnitude, not_a_number, Bits};
use super::material::{AlphaMode, Material};
use super::mesh::{stacked, MeshModel};
use super::rounding::eighths;
use super::sheets::{
    bordered, edges, first_places, is_first, is_lone, lone_places, place_of, places_of, told_apart,
};
use vstd::arithmetic::power2::pow2;
use vstd::prelude::*;

verus! {

/// **Stacking a mesh keeps every run of both**: the runs that were there as they were, and those of
/// the other after them, of the same materials and lengths, over the same triangles.
pub proof fn law_stacking_keeps_every_run(mesh: MeshModel, other: MeshModel, r: int, i: int)
    requires
        0 <= r < other.submeshes.len(),
        mesh.indices.len() + other.indices.len() <= u32::MAX,
        other.submeshes[r].first_index + other.submeshes[r].index_count <= other.indices.len(),
        0 <= i < mesh.submeshes.len(),
    ensures
        ({
            let both = stacked(mesh, other);
            let run = both.submeshes[mesh.submeshes.len() + r];
            &&& both.submeshes.len() == mesh.submeshes.len() + other.submeshes.len()
            &&& both.submeshes[i] == mesh.submeshes[i]
            &&& run.material == other.submeshes[r].material
            &&& run.thin == other.submeshes[r].thin
            &&& run.index_count == other.submeshes[r].index_count
            &&& run.first_index == mesh.indices.len() + other.submeshes[r].first_index
        }),
{
}

/// **Telling sheets from solids changes nothing else, and a run is a sheet where its material is not
/// opaque, or where the mesh is open and the run encloses less than six thousandths.**
pub proof fn law_a_sheet_is_cut_out_or_open_and_hollow(
    mesh: MeshModel,
    materials: Seq<Material>,
    volumes: Seq<Bits>,
    i: int,
)
    requires
        0 <= i < mesh.submeshes.len(),
    ensures
        ({
            let told = told_apart(mesh, materials, volumes);
            let run = mesh.submeshes[i];
            let open = bordered(mesh.indices, places_of(mesh.positions));
            &&& told.positions == mesh.positions
            &&& told.normals == mesh.normals
            &&& told.uvs == mesh.uvs
            &&& told.indices == mesh.indices
            &&& told.submeshes.len() == mesh.submeshes.len()
            &&& told.submeshes[i].first_index == run.first_index
            &&& told.submeshes[i].index_count == run.index_count
            &&& told.submeshes[i].material == run.material
            &&& told.submeshes[i].thin <==> (materials[run.material as int].alpha
                != AlphaMode::Opaque || (open && greater(0x3BC4_9BA6, volumes[i])))
        }),
{
}

/// **The sheets of a body are told by the piece a run begins in**, and nothing else changes.
pub proof fn law_a_body_tells_sheets_by_piece(
    mesh: MeshModel,
    spans: Seq<PartSpanModel>,
    materials: Seq<Material>,
    volumes: Seq<Bits>,
    i: int,
)
    requires
        0 <= i < mesh.submeshes.len(),
        mesh.submeshes[i].first_index < mesh.indices.len(),
    ensures
        ({
            let told = told_by_piece(mesh, spans, materials, volumes);
            let run = mesh.submeshes[i];
            let start = piece_start(spans, mesh.indices[run.first_index as int]);
            &&& told.positions == mesh.positions
            &&& told.indices == mesh.indices
            &&& told.submeshes[i].first_index == run.first_index
            &&& told.submeshes[i].index_count == run.index_count
            &&& told.submeshes[i].material == run.material
            &&& told.submeshes[i].thin <==> (materials[run.material as int].alpha
                != AlphaMode::Opaque || (piece_is_open(mesh, spans, start) && greater(
                0x3BC4_9BA6,
                volumes[i],
            )))
        }),
{
}

/// **A vertex is of the last piece that begins at or before it.**
pub proof fn law_a_vertex_is_of_the_last_piece_begun(
    spans: Seq<PartSpanModel>,
    vertex: u32,
    i: int,
)
    ensures
        piece_start(spans, vertex) <= vertex,
        piece_start(spans, vertex) == 0 || exists|k: int|
            0 <= k < spans.len() && (#[trigger] spans[k]).base_vertex == piece_start(spans, vertex),
        0 <= i < spans.len() && spans[i].base_vertex <= vertex ==> spans[i].base_vertex
            <= piece_start(spans, vertex),
    decreases spans.len(),
{
    if spans.len() > 0 {
        let less = spans.drop_last();
        law_a_vertex_is_of_the_last_piece_begun(less, vertex, i);
        if 0 <= i < less.len() {
            assert(less[i] == spans[i]);
        }
        let start = piece_start(spans, vertex);
        if start == piece_start(less, vertex) && start != 0 {
            let k = choose|k: int| 0 <= k < less.len() && (#[trigger] less[k]).base_vertex == start;
            assert(spans[k].base_vertex == start);
        } else if start != 0 {
            assert(spans[spans.len() - 1].base_vertex == start);
        }
    }
}

/// **A triangle has the three edges between its corners**, whichever way each runs.
pub proof fn law_a_triangle_has_three_edges(indices: Seq<u32>, keys: Seq<[i32; 3]>, t: int)
    requires
        0 <= t,
        3 * t + 2 < indices.len(),
    ensures
        ({
            let (a, b, c) = (
                keys[indices[3 * t] as int],
                keys[indices[3 * t + 1] as int],
                keys[indices[3 * t + 2] as int],
            );
            let all = edges(indices, keys);
            &&& 3 * t + 2 < all.len()
            &&& all[3 * t] == set![a, b]
            &&& all[3 * t + 1] == set![b, c]
            &&& all[3 * t + 2] == set![a, c]
        }),
{
    let all = edges(indices, keys);
    assert(3 * t + 2 < (indices.len() / 3) * 3);
    assert((3 * t) % 3 == 0 && (3 * t + 1) % 3 == 1 && (3 * t + 2) % 3 == 2);
    let (a, c) = (keys[indices[3 * t] as int], keys[indices[3 * t + 2] as int]);
    assert(set![c, a] =~= set![a, c]);
}

/// **A closed mesh has no border**: one in which every edge of every triangle is an edge of another
/// too.
pub proof fn law_a_closed_mesh_has_no_border(indices: Seq<u32>, keys: Seq<[i32; 3]>)
    requires
        forall|i: int|
            0 <= i < edges(indices, keys).len() ==> exists|j: int|
                0 <= j < edges(indices, keys).len() && j != i && #[trigger] edges(indices, keys)[j]
                    == #[trigger] edges(indices, keys)[i],
    ensures
        !bordered(indices, keys),
{
    let all = edges(indices, keys);
    assert forall|i: int| !(0 <= i < all.len() && is_lone(all, i)) by {
        if 0 <= i < all.len() {
            let j = choose|j: int|
                0 <= j < all.len() && j != i && #[trigger] all[j] == all[i];
            assert(all[j] == all[i]);
        }
    }
    assert(lone_places(all) =~= Set::empty());
}

/// **A mesh whose triangles share no edge is open**, where it has any triangle that could.
pub proof fn law_a_mesh_that_shares_no_edge_has_a_border(indices: Seq<u32>, keys: Seq<[i32; 3]>)
    requires
        indices.len() >= 3,
        forall|i: int, j: int|
            0 <= i < j < edges(indices, keys).len() ==> #[trigger] edges(indices, keys)[i]
                != #[trigger] edges(indices, keys)[j],
    ensures
        bordered(indices, keys),
{
    let all = edges(indices, keys);
    assert(all.len() >= 3);
    let whole = vstd::set_lib::set_int_range(0, all.len() as int);
    vstd::set_lib::lemma_int_range(0, all.len() as int);
    assert forall|i: int| 0 <= i < all.len() implies is_lone(all, i) && is_first(all, i) by {
        assert forall|j: int| 0 <= j < all.len() && j != i implies #[trigger] all[j] != all[i] by {
            if j < i {
                assert(all[j] != all[i]);
            } else {
                assert(all[i] != all[j]);
            }
        }
    }
    assert(lone_places(all) =~= whole);
    assert(first_places(all) =~= whole);
}

/// **Each coordinate of a place is that coordinate in eighths.**
pub proof fn law_a_place_is_a_position_in_eighths(position: [Bits; 3], axis: int)
    requires
        0 <= axis < 3,
    ensures
        place_of(position)@[axis] == eighths(position@[axis]) as i32,
{
}

/// **A number and its opposite are as many eighths, on either side of nought**, and a number less
/// than a sixteenth is none.
pub proof fn law_opposites_are_opposite_eighths(a: Bits)
    requires
        a < 0x4D80_0000,
    ensures
        eighths((a + 0x8000_0000) as u32) == -eighths(a),
        a < 0x3D80_0000 ==> eighths(a) == 0,
        0x3D80_0000 <= a ==> eighths(a) > 0,
{
    let b = (a + 0x8000_0000) as u32;
    assert(magnitude(a) == a && magnitude(b) == a);
    assert(!not_a_number(a) && !not_a_number(b));
    let exponent = a as int / 0x80_0000;
    let digits = a as int % 0x80_0000 + 0x80_0000;
    vstd::arithmetic::power2::lemma2_to64();
    if exponent >= 147 {
        let p = pow2((exponent - 147) as nat) as int;
        if exponent < 154 {
            vstd::arithmetic::power2::lemma_pow2_strictly_increases((exponent - 147) as nat, 7);
        }
        assert(digits * p < 0x8000_0000) by (nonlinear_arith)
            requires
                0 < digits < 0x100_0000,
                0 <= p <= 128,
        ;
    } else if exponent >= 123 {
        let unit = pow2((147 - exponent) as nat) as int;
        vstd::arithmetic::power2::lemma_pow2_pos((147 - exponent) as nat);
        if exponent > 123 {
            vstd::arithmetic::power2::lemma_pow2_strictly_increases((147 - exponent) as nat, 24);
        }
        assert((digits + unit / 2) / unit <= digits + unit / 2) by (nonlinear_arith)
            requires
                unit > 0,
                digits > 0,
        ;
    }
    if a >= 0x3D80_0000 {
        lemma_some_eighths(a);
    }
}

/// From a sixteenth on there is at least one eighth.
proof fn lemma_some_eighths(a: Bits)
    requires
        0x3D80_0000 <= a < 0x4E00_0000,
    ensures
        eighths(a) > 0,
{
    let exponent = a as int / 0x80_0000;
    let digits = a as int % 0x80_0000 + 0x80_0000;
    assert(123 <= exponent < 156);
    if exponent >= 147 {
        vstd::arithmetic::power2::lemma_pow2_pos((exponent - 147) as nat);
        let p = pow2((exponent - 147) as nat) as int;
        assert(digits * p > 0) by (nonlinear_arith)
            requires
                digits > 0,
                p > 0,
        ;
    } else {
        let k = (147 - exponent) as nat;
        let unit = pow2(k) as int;
        vstd::arithmetic::power2::lemma_pow2_pos(k);
        vstd::arithmetic::power2::lemma2_to64();
        if k < 24 {
            vstd::arithmetic::power2::lemma_pow2_strictly_increases(k, 24);
        }
        assert(unit <= 0x100_0000);
        assert(2 * digits >= unit);
        assert((digits + unit / 2) / unit >= 1) by (nonlinear_arith)
            requires
                unit > 0,
                digits + unit / 2 >= unit,
        ;
    }
}

/// **A mesh is open where more than two in a hundred of its edges have a triangle on one side only.**
pub proof fn law_a_mesh_is_open_past_two_in_a_hundred(indices: Seq<u32>, keys: Seq<[i32; 3]>)
    ensures
        ({
            let all = edges(indices, keys);
            let alone = Set::new(
                |i: int|
                    0 <= i < all.len() && forall|j: int|
                        0 <= j < all.len() && j != i ==> #[trigger] all[j] != all[i],
            );
            let apart = Set::new(
                |i: int|
                    0 <= i < all.len() && forall|j: int| 0 <= j < i ==> #[trigger] all[j] != all[i],
            );
            bordered(indices, keys) <==> 100 * alone.len() > 2 * apart.len()
        }),
{
    let all = edges(indices, keys);
    let alone = Set::new(
        |i: int|
            0 <= i < all.len() && forall|j: int|
                0 <= j < all.len() && j != i ==> #[trigger] all[j] != all[i],
    );
    let apart = Set::new(
        |i: int|
            0 <= i < all.len() && forall|j: int| 0 <= j < i ==> #[trigger] all[j] != all[i],
    );
    assert(lone_places(all) =~= alone);
    assert(first_places(all) =~= apart);
}

} // verus!
