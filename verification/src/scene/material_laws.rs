//! What a model's surfaces are made of, said of the properties its file gives them.

use super::bits::{equal, equal2, equal3};
use super::flatten::{
    drawn_triangles, drawn_vertices, flattened, flattens, shape_material, FlatModel,
};
use super::material::{
    described, overridden, same_kind, same_material, texture_path_of, textures_after, AlphaMode,
    Material, Properties,
};
use super::material_table::{
    first_same, lemma_first_path, lemma_first_same, with_material, TableModel,
};
use super::mesh::{appended, covers, drawable, law_runs_tile_the_indices, MeshModel};
use super::nif::{
    AlphaProperty, Block, Geometry, GeometryData, Link, MaterialProperty, Nif, SourceTexture,
};
use super::walk::DrawnModel;
use vstd::prelude::*;

verus! {

/// **A surface has the colours its material property gives it**: the diffuse it names, the light it
/// gives off, and how much of it is there.
pub proof fn law_colours_come_from_the_material_property(
    nif: &Nif,
    p: Properties,
    textures: Seq<Seq<char>>,
    m: MaterialProperty,
)
    requires
        nif.at(p.material) == Some(Block::Material(m)),
    ensures
        described(nif, p, textures).diffuse == m.diffuse,
        described(nif, p, textures).emissive == m.emissive,
        described(nif, p, textures).opacity == m.alpha,
{
}

/// **A surface without a material property is white, gives no light and is all there.**
pub proof fn law_a_surface_without_a_material_is_white(
    nif: &Nif,
    p: Properties,
    textures: Seq<Seq<char>>,
)
    requires
        !(nif.at(p.material) matches Some(Block::Material(_))),
    ensures
        described(nif, p, textures).diffuse@ == seq![0x3F80_0000u32, 0x3F80_0000u32, 0x3F80_0000u32],
        described(nif, p, textures).emissive@ == seq![0u32, 0u32, 0u32],
        described(nif, p, textures).opacity == 0x3F80_0000,
{
    let r = described(nif, p, textures);
    assert(r.diffuse@ =~= seq![0x3F80_0000u32, 0x3F80_0000u32, 0x3F80_0000u32]);
    assert(r.emissive@ =~= seq![0u32, 0u32, 0u32]);
}

/// **A surface is cut out where its alpha is tested, blended where it is only blended, and solid
/// otherwise.**
pub proof fn law_testing_comes_before_blending(
    nif: &Nif,
    p: Properties,
    textures: Seq<Seq<char>>,
    alpha: AlphaProperty,
)
    ensures
        nif.at(p.alpha) == Some(Block::Alpha(alpha)) && alpha.tests ==> described(
            nif,
            p,
            textures,
        ).alpha == AlphaMode::Mask(alpha.threshold),
        nif.at(p.alpha) == Some(Block::Alpha(alpha)) && !alpha.tests && alpha.blends ==> described(
            nif,
            p,
            textures,
        ).alpha == AlphaMode::Blend,
        nif.at(p.alpha) == Some(Block::Alpha(alpha)) && !alpha.tests && !alpha.blends ==> described(
            nif,
            p,
            textures,
        ).alpha == AlphaMode::Opaque,
        !(nif.at(p.alpha) matches Some(Block::Alpha(_))) ==> described(nif, p, textures).alpha
            == AlphaMode::Opaque,
{
}

/// **A surface is drawn with the texture its slot names**: the number it carries is that of the path
/// of the file named, in the table as it is afterwards, and one whose texture is not in a file of its
/// own carries none.
pub proof fn law_a_surface_names_its_texture(
    nif: &Nif,
    p: Properties,
    textures: Seq<Seq<char>>,
    slot: Link,
    source: SourceTexture,
)
    requires
        nif.at(p.texturing) == Some(Block::Texturing(Some(slot))),
        nif.at(slot) == Some(Block::SourceTexture(source)),
        textures.len() < u32::MAX,
    ensures
        ({
            let after = textures_after(nif, p, textures);
            let named = described(nif, p, textures).base_colour;
            if source.external && source.file_name@.len() > 0 {
                &&& named matches Some(id)
                &&& id.0 < after.len()
                &&& after[id.0 as int] == texture_path_of(source.file_name@)
                &&& textures.len() <= after.len() <= textures.len() + 1
                &&& after.take(textures.len() as int) == textures
            } else {
                named is None && after == textures
            }
        }),
{
    let path = texture_path_of(source.file_name@);
    lemma_first_path(textures, path);
    let after = textures_after(nif, p, textures);
    assert(after.take(textures.len() as int) =~= textures);
}

/// **A surface with no texture slot is untextured.**
pub proof fn law_no_slot_is_no_texture(nif: &Nif, p: Properties, textures: Seq<Seq<char>>)
    requires
        !(nif.at(p.texturing) matches Some(Block::Texturing(Some(_)))),
    ensures
        described(nif, p, textures).base_colour is None,
        textures_after(nif, p, textures) == textures,
{
}

/// **What a model describes is an ordinary surface that stays still**, unless something slides it.
pub proof fn law_a_described_surface_is_still(nif: &Nif, p: Properties, textures: Seq<Seq<char>>)
    ensures
        described(nif, p, textures).kind is Diffuse,
        described(nif, p, textures).scroll@ == seq![0u32, 0u32],
{
    assert(described(nif, p, textures).scroll@ =~= seq![0u32, 0u32]);
}

/// **The last property of a kind is the one in effect, and one that is not set is inherited.**
pub proof fn law_the_last_property_of_a_kind_is_in_effect(
    nif: &Nif,
    p: Properties,
    links: Seq<Link>,
    at: int,
)
    requires
        0 <= at < links.len(),
    ensures
        (nif.at(links[at]) matches Some(Block::Material(_))) && (forall|j: int|
            at < j < links.len() ==> !(nif.at(#[trigger] links[j]) matches Some(
                Block::Material(_),
            ))) ==> overridden(nif, p, links).material == links[at],
        (nif.at(links[at]) matches Some(Block::Texturing(_))) && (forall|j: int|
            at < j < links.len() ==> !(nif.at(#[trigger] links[j]) matches Some(
                Block::Texturing(_),
            ))) ==> overridden(nif, p, links).texturing == links[at],
        (nif.at(links[at]) matches Some(Block::Alpha(_))) && (forall|j: int|
            at < j < links.len() ==> !(nif.at(#[trigger] links[j]) matches Some(
                Block::Alpha(_),
            ))) ==> overridden(nif, p, links).alpha == links[at],
    decreases links.len(),
{
    let rest = links.drop_last();
    assert(links[links.len() - 1] == links.last());
    if at < links.len() - 1 {
        law_the_last_property_of_a_kind_is_in_effect(nif, p, rest, at);
        assert forall|j: int| at < j < rest.len() implies #[trigger] rest[j] == links[j] by {}
        assert(rest[at] == links[at]);
    }
}

/// **A property that nothing sets is inherited.**
pub proof fn law_properties_are_inherited(nif: &Nif, p: Properties, links: Seq<Link>)
    ensures
        (forall|j: int|
            0 <= j < links.len() ==> !(nif.at(#[trigger] links[j]) matches Some(
                Block::Material(_),
            ))) ==> overridden(nif, p, links).material == p.material,
        (forall|j: int|
            0 <= j < links.len() ==> !(nif.at(#[trigger] links[j]) matches Some(
                Block::Texturing(_),
            ))) ==> overridden(nif, p, links).texturing == p.texturing,
        (forall|j: int|
            0 <= j < links.len() ==> !(nif.at(#[trigger] links[j]) matches Some(
                Block::Alpha(_),
            ))) ==> overridden(nif, p, links).alpha == p.alpha,
    decreases links.len(),
{
    if links.len() > 0 {
        let rest = links.drop_last();
        assert(links[links.len() - 1] == links.last());
        law_properties_are_inherited(nif, p, rest);
        assert forall|j: int| 0 <= j < rest.len() implies #[trigger] rest[j] == links[j] by {}
    }
}

/// **Two materials are one where every number of them is, and only there.**
pub proof fn law_materials_are_one_where_all_of_them_is(a: Material, b: Material)
    ensures
        same_material(a, b) <==> {
            &&& a.base_colour == b.base_colour
            &&& a.alpha == b.alpha
            &&& equal(a.opacity, b.opacity)
            &&& forall|c: int|
                0 <= c < 3 ==> equal(#[trigger] a.diffuse@[c], b.diffuse@[c])
            &&& forall|c: int|
                0 <= c < 3 ==> equal(#[trigger] a.emissive@[c], b.emissive@[c])
            &&& forall|c: int| 0 <= c < 2 ==> equal(#[trigger] a.scroll@[c], b.scroll@[c])
            &&& same_kind(a.kind, b.kind)
        },
{
    assert(equal3(a.diffuse, b.diffuse) == (equal(a.diffuse@[0], b.diffuse@[0]) && equal(
        a.diffuse@[1],
        b.diffuse@[1],
    ) && equal(a.diffuse@[2], b.diffuse@[2])));
    assert(equal3(a.emissive, b.emissive) == (equal(a.emissive@[0], b.emissive@[0]) && equal(
        a.emissive@[1],
        b.emissive@[1],
    ) && equal(a.emissive@[2], b.emissive@[2])));
    assert(equal2(a.scroll, b.scroll) == (equal(a.scroll@[0], b.scroll@[0]) && equal(
        a.scroll@[1],
        b.scroll@[1],
    )));
}

/// **Interning a material gives it a number under which the same material is found.**
pub proof fn law_an_interned_material_is_found(materials: Seq<Material>, m: Material)
    ensures
        ({
            let after = with_material(materials, m);
            let number = first_same(materials, m);
            &&& 0 <= number < after.len()
            &&& number < materials.len() ==> same_material(after[number], m)
            &&& number == materials.len() ==> after[number] == m
            &&& after.take(materials.len() as int) == materials
        }),
{
    lemma_first_same(materials, m);
    assert(with_material(materials, m).take(materials.len() as int) =~= materials);
}

/// Whether a shape's data stands in a mesh: its vertices from `first` on, its triangles from
/// `first_triangle` on, and zeroes where it has no normals or no texture coordinates of its own.
pub open spec fn stands_in(
    mesh: MeshModel,
    data: GeometryData,
    first: int,
    first_triangle: int,
) -> bool {
    &&& 0 <= first && first + data.vertices@.len() <= mesh.positions.len()
    &&& first + data.vertices@.len() <= mesh.normals.len()
    &&& first + data.vertices@.len() <= mesh.uvs.len()
    &&& 0 <= first_triangle && 3 * (first_triangle + data.triangles@.len()) <= mesh.indices.len()
    &&& forall|v: int|
        0 <= v < data.vertices@.len() ==> mesh.positions[first + v] == #[trigger] data.vertices@[v]
    &&& forall|v: int|
        #![trigger mesh.normals[first + v]]
        0 <= v < data.vertices@.len() ==> mesh.normals[first + v]@ == if data.normals@.len()
            == data.vertices@.len() {
            data.normals@[v]@
        } else {
            seq![0u32, 0u32, 0u32]
        }
    &&& forall|v: int|
        #![trigger mesh.uvs[first + v]]
        0 <= v < data.vertices@.len() ==> mesh.uvs[first + v]@ == if data.uv_sets@.len() > 0
            && data.uv_sets@[0]@.len() == data.vertices@.len() {
            data.uv_sets@[0]@[v]@
        } else {
            seq![0u32, 0u32]
        }
    &&& forall|t: int, c: int|
        #![trigger data.triangles@[t]@[c]]
        0 <= t < data.triangles@.len() && 0 <= c < 3 ==> mesh.indices[3 * (first_triangle + t) + c]
            == first + data.triangles@[t]@[c]
}

/// What one more piece adds to a mesh.
proof fn lemma_appended_stands(mesh: MeshModel, data: GeometryData, material: u32)
    requires
        drawable(data),
        mesh.normals.len() == mesh.positions.len(),
        mesh.uvs.len() == mesh.positions.len(),
        mesh.indices.len() % 3 == 0,
        super::mesh::has_room(mesh, data),
    ensures
        stands_in(
            appended(mesh, data, material),
            data,
            mesh.positions.len() as int,
            mesh.indices.len() as int / 3,
        ),
{
    let after = appended(mesh, data, material);
    let first = mesh.positions.len() as int;
    let triangle = mesh.indices.len() as int / 3;
    assert forall|v: int| 0 <= v < data.vertices@.len() implies after.positions[first + v]
        == #[trigger] data.vertices@[v] by {}
    assert forall|v: int|
        #![trigger after.normals[first + v]]
        0 <= v < data.vertices@.len() implies after.normals[first + v]@ == if data.normals@.len()
        == data.vertices@.len() {
        data.normals@[v]@
    } else {
        seq![0u32, 0u32, 0u32]
    } by {
        if data.normals@.len() != data.vertices@.len() {
            assert(after.normals[first + v]@ =~= seq![0u32, 0u32, 0u32]);
        }
    }
    assert forall|v: int|
        #![trigger after.uvs[first + v]]
        0 <= v < data.vertices@.len() implies after.uvs[first + v]@ == if data.uv_sets@.len() > 0
        && data.uv_sets@[0]@.len() == data.vertices@.len() {
        data.uv_sets@[0]@[v]@
    } else {
        seq![0u32, 0u32]
    } by {
        if !(data.uv_sets@.len() > 0 && data.uv_sets@[0]@.len() == data.vertices@.len()) {
            assert(after.uvs[first + v]@ =~= seq![0u32, 0u32]);
        }
    }
    assert forall|t: int, c: int|
        #![trigger data.triangles@[t]@[c]]
        0 <= t < data.triangles@.len() && 0 <= c < 3 implies after.indices[3 * (triangle + t) + c]
        == first + data.triangles@[t]@[c] by {
        let k = 3 * t + c;
        assert(k / 3 == t && k % 3 == c);
        let added = super::mesh::rebased(data.triangles@, first);
        assert(after.indices[mesh.indices.len() + k] == added[k]);
    }
}

/// What stands in a mesh stands in it when a piece is added.
proof fn lemma_still_stands(
    mesh: MeshModel,
    more: GeometryData,
    material: u32,
    data: GeometryData,
    first: int,
    first_triangle: int,
)
    requires
        stands_in(mesh, data, first, first_triangle),
    ensures
        stands_in(appended(mesh, more, material), data, first, first_triangle),
{
    let after = appended(mesh, more, material);
    assert forall|v: int|
        #![trigger after.normals[first + v]]
        0 <= v < data.vertices@.len() implies after.normals[first + v] == mesh.normals[first
        + v] by {}
    assert forall|v: int|
        #![trigger after.uvs[first + v]]
        0 <= v < data.vertices@.len() implies after.uvs[first + v] == mesh.uvs[first + v] by {}
    assert forall|t: int, c: int|
        #![trigger data.triangles@[t]@[c]]
        0 <= t < data.triangles@.len() && 0 <= c < 3 implies after.indices[3 * (first_triangle + t)
        + c] == first + data.triangles@[t]@[c] by {
        assert(after.indices[3 * (first_triangle + t) + c] == mesh.indices[3 * (first_triangle + t)
            + c]);
    }
}

/// A flattening is as large as its shapes are.
proof fn lemma_flat_counts(nif: &Nif, table: TableModel, shapes: Seq<DrawnModel>, n: nat)
    ensures
        ({
            let mesh = flattened(nif, table, shapes, n).mesh;
            &&& mesh.positions.len() == drawn_vertices(nif, shapes, n)
            &&& mesh.normals.len() == mesh.positions.len()
            &&& mesh.uvs.len() == mesh.positions.len()
            &&& mesh.indices.len() == 3 * drawn_triangles(nif, shapes, n)
        }),
    decreases n,
{
    if n > 0 {
        lemma_flat_counts(nif, table, shapes, (n - 1) as nat);
    }
}

/// A shape's data stands in a flattening from the vertices of those before it on.
proof fn lemma_flat_stands(
    nif: &Nif,
    table: TableModel,
    shapes: Seq<DrawnModel>,
    n: nat,
    i: int,
)
    requires
        0 <= i < n <= shapes.len(),
        flattens(nif, table, shapes),
        drawable(super::flatten::data_at(nif, shapes[i].block)),
    ensures
        stands_in(
            flattened(nif, table, shapes, n).mesh,
            super::flatten::data_at(nif, shapes[i].block),
            drawn_vertices(nif, shapes, i as nat) as int,
            drawn_triangles(nif, shapes, i as nat) as int,
        ),
    decreases n,
{
    let before = flattened(nif, table, shapes, (n - 1) as nat);
    let shape = shapes[n - 1];
    let data = super::flatten::data_at(nif, shape.block);
    let material = shape_material(nif, shape, before.table.textures);
    let number = first_same(before.table.materials, material) as u32;
    lemma_flat_counts(nif, table, shapes, (n - 1) as nat);
    if i == n - 1 {
        assert(super::mesh::has_room(before.mesh, data));
        assert((3 * drawn_triangles(nif, shapes, i as nat)) as int / 3 == drawn_triangles(
            nif,
            shapes,
            i as nat,
        ));
        lemma_appended_stands(before.mesh, data, number);
    } else {
        lemma_flat_stands(nif, table, shapes, (n - 1) as nat, i);
        lemma_still_stands(
            before.mesh,
            data,
            number,
            super::flatten::data_at(nif, shapes[i].block),
            drawn_vertices(nif, shapes, i as nat) as int,
            drawn_triangles(nif, shapes, i as nat) as int,
        );
    }
}

/// **A flattened model holds each shape it draws as its file has it**: its vertices in order with
/// their normals and texture coordinates, and its triangles on those vertices, the right way round.
pub proof fn law_a_shape_stands_in_its_mesh_as_its_file_has_it(
    nif: &Nif,
    table: TableModel,
    shapes: Seq<DrawnModel>,
    i: int,
    geometry: Geometry,
    data: GeometryData,
)
    requires
        0 <= i < shapes.len(),
        flattens(nif, table, shapes),
        shapes[i].block < nif.blocks@.len(),
        nif.blocks@[shapes[i].block as int] == Block::Geometry(geometry),
        nif.at(geometry.data) == Some(Block::GeometryData(data)),
        data.vertices@.len() > 0,
        data.triangles@.len() > 0,
    ensures
        stands_in(
            flattened(nif, table, shapes, shapes.len()).mesh,
            data,
            drawn_vertices(nif, shapes, i as nat) as int,
            drawn_triangles(nif, shapes, i as nat) as int,
        ),
{
    lemma_flat_stands(nif, table, shapes, shapes.len(), i);
}

/// Whether the triangles from `first` on to `end` are drawn with a material that is the same as one.
pub open spec fn drawn_with(flat: FlatModel, first: nat, end: nat, material: Material) -> bool {
    exists|r: int|
        #![trigger flat.mesh.submeshes[r]]
        0 <= r < flat.mesh.submeshes.len() && flat.mesh.submeshes[r].first_index <= first && end
            <= flat.mesh.submeshes[r].first_index + flat.mesh.submeshes[r].index_count
            && flat.mesh.submeshes[r].material < flat.table.materials.len() && (same_material(
            flat.table.materials[flat.mesh.submeshes[r].material as int],
            material,
        ) || flat.table.materials[flat.mesh.submeshes[r].material as int] == material)
}

/// A shape's triangles are drawn with its own material.
#[verifier::spinoff_prover]
#[verifier::rlimit(40)]
proof fn lemma_flat_materials(
    nif: &Nif,
    table: TableModel,
    shapes: Seq<DrawnModel>,
    n: nat,
    i: int,
)
    requires
        0 <= i < n <= shapes.len(),
        flattens(nif, table, shapes),
        drawable(super::flatten::data_at(nif, shapes[i].block)),
    ensures
        drawn_with(
            flattened(nif, table, shapes, n),
            3 * drawn_triangles(nif, shapes, i as nat),
            3 * drawn_triangles(nif, shapes, (i + 1) as nat),
            shape_material(
                nif,
                shapes[i],
                flattened(nif, table, shapes, i as nat).table.textures,
            ),
        ),
        covers(
            flattened(nif, table, shapes, n).mesh.submeshes,
            flattened(nif, table, shapes, n).mesh.indices.len() as int,
        ),
    decreases n,
{
    let before = flattened(nif, table, shapes, (n - 1) as nat);
    let after = flattened(nif, table, shapes, n);
    let shape = shapes[n - 1];
    let data = super::flatten::data_at(nif, shape.block);
    let material = shape_material(nif, shape, before.table.textures);
    let number = first_same(before.table.materials, material);
    lemma_flat_counts(nif, table, shapes, (n - 1) as nat);
    lemma_flat_counts(nif, table, shapes, n);
    lemma_covered(nif, table, shapes, (n - 1) as nat);
    lemma_covered(nif, table, shapes, n);
    assert(super::mesh::has_room(before.mesh, data));
    law_an_interned_material_is_found(before.table.materials, material);
    assert forall|k: int| 0 <= k < before.table.materials.len() implies #[trigger] after.table.materials[k]
        == before.table.materials[k] by {
        assert(after.table.materials.take(before.table.materials.len() as int)[k]
            == after.table.materials[k]);
    }
    if i == n - 1 {
        let r = after.mesh.submeshes.len() - 1;
        if before.mesh.submeshes.len() > 0 {
            law_runs_tile_the_indices(
                before.mesh.submeshes,
                before.mesh.indices.len() as int,
                before.mesh.submeshes.len() - 1,
            );
        }
        assert(after.mesh.submeshes[r].material == number as u32);
        assert(after.mesh.submeshes[r].first_index <= before.mesh.indices.len());
        law_runs_tile_the_indices(
            after.mesh.submeshes,
            after.mesh.indices.len() as int,
            r,
        );
    } else {
        lemma_flat_materials(nif, table, shapes, (n - 1) as nat, i);
        let first = 3 * drawn_triangles(nif, shapes, i as nat);
        let end = 3 * drawn_triangles(nif, shapes, (i + 1) as nat);
        let own = shape_material(
            nif,
            shapes[i],
            flattened(nif, table, shapes, i as nat).table.textures,
        );
        let r = choose|r: int|
            #![trigger before.mesh.submeshes[r]]
            0 <= r < before.mesh.submeshes.len() && before.mesh.submeshes[r].first_index <= first
                && end <= before.mesh.submeshes[r].first_index
                + before.mesh.submeshes[r].index_count && before.mesh.submeshes[r].material
                < before.table.materials.len() && (same_material(
                before.table.materials[before.mesh.submeshes[r].material as int],
                own,
            ) || before.table.materials[before.mesh.submeshes[r].material as int] == own);
        law_runs_tile_the_indices(
            before.mesh.submeshes,
            before.mesh.indices.len() as int,
            r,
        );
        assert(after.mesh.submeshes[r].material == before.mesh.submeshes[r].material);
        assert(after.mesh.submeshes[r].first_index == before.mesh.submeshes[r].first_index);
        assert(after.mesh.submeshes[r].index_count >= before.mesh.submeshes[r].index_count);
    }
}

/// The runs of a flattening cover its triangles.
proof fn lemma_covered(nif: &Nif, table: TableModel, shapes: Seq<DrawnModel>, n: nat)
    requires
        n <= shapes.len(),
        flattens(nif, table, shapes),
    ensures
        covers(
            flattened(nif, table, shapes, n).mesh.submeshes,
            flattened(nif, table, shapes, n).mesh.indices.len() as int,
        ),
    decreases n,
{
    if n > 0 {
        lemma_covered(nif, table, shapes, (n - 1) as nat);
        let before = flattened(nif, table, shapes, (n - 1) as nat);
        let shape = shapes[n - 1];
        let data = super::flatten::data_at(nif, shape.block);
        let material = shape_material(nif, shape, before.table.textures);
        assert(super::mesh::has_room(before.mesh, data));
        if drawable(data) {
            super::mesh::lemma_run_covers(
                before.mesh.submeshes,
                before.mesh.indices.len() as int,
                (data.triangles@.len() * 3) as u32,
                first_same(before.table.materials, material) as u32,
            );
        }
    }
}

/// **Each shape is drawn with the material its own properties describe.**
#[verifier::spinoff_prover]
#[verifier::rlimit(40)]
pub proof fn law_a_shape_is_drawn_with_its_own_material(
    nif: &Nif,
    table: TableModel,
    shapes: Seq<DrawnModel>,
    i: int,
)
    requires
        0 <= i < shapes.len(),
        flattens(nif, table, shapes),
        drawable(super::flatten::data_at(nif, shapes[i].block)),
    ensures
        ({
            let own = shape_material(
                nif,
                shapes[i],
                flattened(nif, table, shapes, i as nat).table.textures,
            );
            let described = described(
                nif,
                shapes[i].properties,
                flattened(nif, table, shapes, i as nat).table.textures,
            );
            &&& drawn_with(
                flattened(nif, table, shapes, shapes.len()),
                3 * drawn_triangles(nif, shapes, i as nat),
                3 * drawn_triangles(nif, shapes, (i + 1) as nat),
                own,
            )
            &&& own.diffuse == described.diffuse
            &&& own.emissive == described.emissive
            &&& own.opacity == described.opacity
            &&& own.alpha == described.alpha
            &&& own.base_colour == described.base_colour
            &&& own.kind is Diffuse
        }),
{
    lemma_flat_materials(nif, table, shapes, shapes.len(), i);
}

} // verus!
