//! What a cell places, said of the records it is read from.

use super::cell::{grid_square, CellAmbient, CellName, CellRecord, CellRef, Position};
use super::door::{door_of, doors_to, leads};
use super::light::{channels, Colour};
use super::material_table::{first_path, lemma_first_path, lemma_first_same};
use super::mesh::plane;
use super::model_index::{IndexModel, LightRecord};
use super::nif::Nif;
use super::numbers::float_of;
use super::static_scene::{
    furnished, has_extent, is_grounded, lemma_needed_grows, lemma_sources_are_needed, needed, placed,
    with_lighting, with_reference, with_water, CellDetail, Placement, SceneModel,
};
use super::terrain::Land;
use vstd::prelude::*;

verus! {

/// Whether an instance of a scene is the object a reference places: of the model the object has,
/// moved, turned and scaled as the reference says.
pub open spec fn is_object_of(
    scene: SceneModel,
    i: int,
    cell_ref: CellRef,
    models: IndexModel,
) -> bool {
    &&& !cell_ref.deleted
    &&& !models.marks(cell_ref.object_id@)
    &&& scene.instances[i].mesh.0 < scene.sources.len()
    &&& models.model(cell_ref.object_id@) == Some(scene.sources[scene.instances[i].mesh.0 as int])
    &&& scene.instances[i].placement matches Placement::Reference { translation, rotation, scale }
    &&& translation == cell_ref.position.translation
    &&& rotation == cell_ref.position.rotation
    &&& scale == cell_ref.scale
}

/// Whether some numbers only grow, and stay below a limit.
pub open spec fn grow_below(from: Seq<int>, limit: int) -> bool {
    &&& forall|i: int| 0 <= i < from.len() ==> 0 <= #[trigger] from[i] < limit
    &&& forall|i: int, j: int|
        #![trigger from[i], from[j]]
        0 <= i < j < from.len() ==> from[i] < from[j]
}

/// Which reference each instance of a scene is placed by.
proof fn lemma_placed_by(
    refs: Seq<CellRef>,
    models: IndexModel,
    files: Seq<Nif>,
    detail: CellDetail,
    n: nat,
) -> (from: Seq<int>)
    requires
        n <= refs.len(),
        needed(refs, models, n).len() < u32::MAX,
    ensures
        ({
            let scene = placed(refs, models, files, detail, n);
            &&& from.len() == scene.instances.len()
            &&& grow_below(from, n as int)
            &&& forall|i: int|
                0 <= i < from.len() ==> is_object_of(scene, i, refs[#[trigger] from[i]], models)
            &&& forall|j: int|
                #![trigger refs[j]]
                0 <= j < n && !refs[j].deleted && !models.marks(refs[j].object_id@)
                    && models.model(refs[j].object_id@) is Some ==> {
                    let at = first_path(scene.sources, models.model(refs[j].object_id@)->0);
                    &&& at < scene.sources.len()
                    &&& scene.meshes[at].indices.len() > 0 ==> from.contains(j)
                }
            &&& scene.meshes.len() == scene.sources.len()
        }),
    decreases n,
{
    let scene = placed(refs, models, files, detail, n);
    if n == 0 {
        Seq::empty()
    } else {
        let fewer = (n - 1) as nat;
        lemma_needed_grows(refs, models, fewer, n);
        let from = lemma_placed_by(refs, models, files, detail, fewer);
        let before = placed(refs, models, files, detail, fewer);
        lemma_sources_are_needed(refs, models, files, detail, fewer);
        lemma_sources_are_needed(refs, models, files, detail, n);
        let cell_ref = refs[n - 1];
        assert forall|path: Seq<char>| #[trigger] first_path(before.sources, path)
            < before.sources.len() implies first_path(scene.sources, path) == first_path(
            before.sources,
            path,
        ) by {
            lemma_first_stays(before.sources, scene.sources, path);
        }
        assert forall|k: int| 0 <= k < before.sources.len() implies scene.sources[k]
            == before.sources[k] && scene.meshes[k] == before.meshes[k] by {}
        match models.model(cell_ref.object_id@) {
            Some(path) => {
                lemma_first_path(before.sources, path);
                lemma_first_path(scene.sources, path);
            },
            None => {},
        }
        let adds = scene.instances.len() > before.instances.len();
        let after = if adds {
            from.push(n - 1)
        } else {
            from
        };
        assert forall|i: int| 0 <= i < after.len() implies is_object_of(
            scene,
            i,
            refs[#[trigger] after[i]],
            models,
        ) by {
            if i < from.len() {
                assert(after[i] == from[i]);
                assert(scene.instances[i] == before.instances[i]);
                assert(is_object_of(before, i, refs[from[i]], models));
            } else {
                lemma_last_is_placed(before, cell_ref, models, files, detail);
            }
        }
        assert forall|j: int|
            #![trigger refs[j]]
            0 <= j < n && !refs[j].deleted && !models.marks(refs[j].object_id@) && models.model(
                refs[j].object_id@,
            ) is Some implies {
            let at = first_path(scene.sources, models.model(refs[j].object_id@)->0);
            &&& at < scene.sources.len()
            &&& scene.meshes[at].indices.len() > 0 ==> after.contains(j)
        } by {
            if j < n - 1 {
                let path = models.model(refs[j].object_id@)->0;
                assert(first_path(before.sources, path) < before.sources.len());
                let at = first_path(scene.sources, path);
                lemma_first_path(before.sources, path);
                assert(scene.meshes[at] == before.meshes[at]);
                if scene.meshes[at].indices.len() > 0 {
                    let k = from.index_of(j);
                    assert(after[k] == j);
                }
            } else {
                lemma_last_is_placed(before, cell_ref, models, files, detail);
                if adds {
                    assert(after[from.len() as int] == n - 1);
                }
            }
        }
        after
    }
}

/// Where a path is first stays where it is when sources are added after.
proof fn lemma_first_stays(before: Seq<Seq<char>>, after: Seq<Seq<char>>, path: Seq<char>)
    requires
        before.len() <= after.len() <= before.len() + 1,
        forall|k: int| 0 <= k < before.len() ==> #[trigger] after[k] == before[k],
        first_path(before, path) < before.len(),
    ensures
        first_path(after, path) == first_path(before, path),
{
    lemma_first_path(before, path);
    if after.len() > before.len() {
        assert(after.drop_last() =~= before);
    } else {
        assert(after =~= before);
    }
}

/// What one more reference adds to the instances of a scene.
proof fn lemma_last_is_placed(
    before: SceneModel,
    cell_ref: CellRef,
    models: IndexModel,
    files: Seq<Nif>,
    detail: CellDetail,
)
    requires
        before.meshes.len() == before.sources.len(),
        before.sources.len() < u32::MAX,
    ensures
        ({
            let scene = with_reference(before, cell_ref, models, files, detail);
            let last = before.instances.len() as int;
            &&& scene.instances.len() > last ==> scene.instances.len() == last + 1 && is_object_of(
                scene,
                last,
                cell_ref,
                models,
            )
            &&& !cell_ref.deleted && !models.marks(cell_ref.object_id@) && models.model(
                cell_ref.object_id@,
            ) is Some ==> {
                let at = first_path(scene.sources, models.model(cell_ref.object_id@)->0);
                &&& at < scene.sources.len()
                &&& scene.meshes[at].indices.len() > 0 ==> scene.instances.len() > last
            }
        }),
{
    match models.model(cell_ref.object_id@) {
        Some(path) => {
            let scene = with_reference(before, cell_ref, models, files, detail);
            lemma_first_path(before.sources, path);
            lemma_first_path(scene.sources, path);
            if first_path(before.sources, path) < before.sources.len() {
                lemma_first_stays(before.sources, before.sources, path);
            } else {
                assert(before.sources.push(path).drop_last() =~= before.sources);
            }
        },
        None => {},
    }
}

/// **Every object stands where its reference says, turned and scaled as it says**: each instance is
/// placed by a reference of its own, in their order, and is of the model that reference's object has.
pub proof fn law_objects_stand_where_their_references_say(
    refs: Seq<CellRef>,
    models: IndexModel,
    files: Seq<Nif>,
    detail: CellDetail,
)
    requires
        needed(refs, models, refs.len()).len() < u32::MAX,
    ensures
        ({
            let scene = placed(refs, models, files, detail, refs.len());
            exists|from: Seq<int>|
                from.len() == scene.instances.len() && #[trigger] grow_below(
                    from,
                    refs.len() as int,
                ) && forall|i: int|
                    0 <= i < from.len() ==> is_object_of(
                        scene,
                        i,
                        refs[#[trigger] from[i]],
                        models,
                    )
        }),
{
    let from = lemma_placed_by(refs, models, files, detail, refs.len());
    assert(grow_below(from, refs.len() as int));
}

/// **Every reference to something that draws is placed**: one that nobody removed, that is no editor
/// marker and whose model has anything to draw has its instance.
pub proof fn law_every_reference_is_placed(
    refs: Seq<CellRef>,
    models: IndexModel,
    files: Seq<Nif>,
    detail: CellDetail,
    j: int,
)
    requires
        needed(refs, models, refs.len()).len() < u32::MAX,
        0 <= j < refs.len(),
        !refs[j].deleted,
        !models.marks(refs[j].object_id@),
        models.model(refs[j].object_id@) is Some,
    ensures
        ({
            let scene = placed(refs, models, files, detail, refs.len());
            let path = models.model(refs[j].object_id@)->0;
            &&& scene.sources.contains(path)
            &&& scene.meshes[scene.sources.index_of(path)].indices.len() > 0 ==> exists|i: int|
                0 <= i < scene.instances.len() && #[trigger] is_object_of(
                    scene,
                    i,
                    refs[j],
                    models,
                )
        }),
{
    let scene = placed(refs, models, files, detail, refs.len());
    let path = models.model(refs[j].object_id@)->0;
    let from = lemma_placed_by(refs, models, files, detail, refs.len());
    lemma_first_path(scene.sources, path);
    let at = first_path(scene.sources, path);
    assert(refs[j] == refs[j]);
    assert(scene.sources[at] == path);
    super::static_scene::law_meshes_are_shared(refs, models, files, detail, refs.len());
    assert(scene.sources.index_of(path) == at);
    if scene.meshes[at].indices.len() > 0 {
        let i = from.index_of(j);
        assert(from[i] == j);
        assert(is_object_of(scene, i, refs[from[i]], models));
    }
}

/// **A light stands where its object does, in its own colour and as large as its record says**: red,
/// green and blue are the record's three lowest bytes in that order.
pub proof fn law_a_light_is_its_record(
    scene: SceneModel,
    cell_ref: CellRef,
    models: IndexModel,
    light: LightRecord,
)
    requires
        models.light(cell_ref.object_id@) == Some(light),
    ensures
        ({
            let after = super::static_scene::with_light(
                scene,
                cell_ref,
                models,
                CellDetail::Full,
            );
            let far = super::static_scene::with_light(
                scene,
                cell_ref,
                models,
                CellDetail::Distant,
            );
            &&& far == scene
            &&& light.placeable ==> {
                &&& after.lights.len() == scene.lights.len() + 1
                &&& after.lights.take(scene.lights.len() as int) == scene.lights
                &&& after.lights.last().position == cell_ref.position.translation
                &&& after.lights.last().radius == float_of(light.radius as int) as u32
                &&& is_packed(after.lights.last().colour, light.colour)
                &&& after == (SceneModel { lights: after.lights, ..scene })
            }
            &&& !light.placeable ==> after == scene
        }),
{
    let after = super::static_scene::with_light(scene, cell_ref, models, CellDetail::Full);
    lemma_packed(light.colour);
    if light.placeable {
        assert(after.lights.take(scene.lights.len() as int) =~= scene.lights);
    }
}

/// Whether a colour is what a packed one holds: red lowest, then green, then blue.
pub open spec fn is_packed(colour: [u8; 3], packed: u32) -> bool {
    colour@[0] + 0x100 * colour@[1] + 0x1_0000 * colour@[2] == packed as int % 0x100_0000
}

/// A packed colour's channels are its bytes.
proof fn lemma_packed(packed: u32)
    ensures
        is_packed(channels(packed), packed),
{
}

/// **A light a reference places is added, and only in detail**: of the references placed, those whose
/// object casts a light that stands in a cell each add one, and nothing else does.
pub proof fn law_lights_come_from_references(
    scene: SceneModel,
    cell_ref: CellRef,
    models: IndexModel,
    files: Seq<Nif>,
    light: LightRecord,
)
    requires
        !cell_ref.deleted,
        !models.marks(cell_ref.object_id@),
        models.model(cell_ref.object_id@) is Some,
        models.light(cell_ref.object_id@) == Some(light),
        light.placeable,
    ensures
        ({
            let after = with_reference(scene, cell_ref, models, files, CellDetail::Full);
            &&& after.lights.len() == scene.lights.len() + 1
            &&& after.lights.last().position == cell_ref.position.translation
            &&& is_packed(after.lights.last().colour, light.colour)
            &&& after.lights.last().radius == float_of(light.radius as int) as u32
        }),
{
    lemma_packed(light.colour);
}

/// **An object with no model is reported, and one that was removed or marks a place for the editor is
/// passed over.**
pub proof fn law_what_has_no_model_is_reported(
    scene: SceneModel,
    cell_ref: CellRef,
    models: IndexModel,
    files: Seq<Nif>,
    detail: CellDetail,
)
    ensures
        ({
            let after = with_reference(scene, cell_ref, models, files, detail);
            &&& cell_ref.deleted || models.marks(cell_ref.object_id@) ==> after == scene
            &&& !cell_ref.deleted && !models.marks(cell_ref.object_id@) && models.model(
                cell_ref.object_id@,
            ) is None ==> after.without_model == scene.without_model.push(cell_ref.object_id@)
                && after.instances == scene.instances && after.lights == scene.lights
                && after.meshes == scene.meshes
        }),
{
}

/// **An interior is lit as its record says**: its ambient, its sunlight and its fog each in the colour
/// of its own field, and no sky.
pub proof fn law_an_interior_is_lit_by_its_record(
    scene: SceneModel,
    cell: CellRecord,
    record: CellAmbient,
)
    requires
        cell.interior,
        cell.ambient == Some(record),
    ensures
        ({
            let after = with_lighting(scene, cell);
            &&& !after.sunlit
            &&& after.ambient matches Some(ambient)
            &&& ambient.colour matches Colour::Encoded(colour)
            &&& is_packed(colour, record.ambient)
            &&& ambient.sunlight matches Colour::Encoded(sunlight)
            &&& is_packed(sunlight, record.sunlight)
            &&& ambient.fog matches Colour::Encoded(fog)
            &&& is_packed(fog, record.fog)
            &&& record.fog_density < 0x7F80_0000 ==> ambient.fog_density == record.fog_density
            &&& 0x7F80_0000 <= record.fog_density && record.fog_density != 0x8000_0000
                ==> ambient.fog_density == 0
        }),
{
    lemma_packed(record.ambient);
    lemma_packed(record.sunlight);
    lemma_packed(record.fog);
}

/// **An exterior has a sky, and a fixed overcast light without fog; an interior that records no light
/// has neither.**
pub proof fn law_only_an_exterior_has_a_sky(scene: SceneModel, cell: CellRecord)
    ensures
        with_lighting(scene, cell).sunlit == !cell.interior,
        cell.interior && cell.ambient is None ==> with_lighting(scene, cell).ambient is None,
        !cell.interior ==> {
            &&& with_lighting(scene, cell).ambient matches Some(ambient)
            &&& ambient.colour matches Colour::Linear(colour)
            &&& colour@ == seq![0x3EB3_3333u32, 0x3ED7_0A3Du32, 0x3F0C_CCCDu32]
            &&& ambient.sunlight matches Colour::Linear(sunlight)
            &&& sunlight@ == seq![0u32, 0u32, 0u32]
            &&& ambient.fog matches Colour::Linear(fog)
            &&& fog@ == seq![0u32, 0u32, 0u32]
            &&& ambient.fog_density == 0
        },
        with_lighting(scene, cell).instances == scene.instances,
        with_lighting(scene, cell).lights == scene.lights,
        with_lighting(scene, cell).meshes == scene.meshes,
{
    if !cell.interior {
        match with_lighting(scene, cell).ambient {
            Some(ambient) => {
                match ambient.colour {
                    Colour::Linear(colour) => {
                        assert(colour@ =~= seq![0x3EB3_3333u32, 0x3ED7_0A3Du32, 0x3F0C_CCCDu32]);
                    },
                    _ => {},
                }
                match ambient.sunlight {
                    Colour::Linear(sunlight) => {
                        assert(sunlight@ =~= seq![0u32, 0u32, 0u32]);
                    },
                    _ => {},
                }
                match ambient.fog {
                    Colour::Linear(fog) => {
                        assert(fog@ =~= seq![0u32, 0u32, 0u32]);
                    },
                    _ => {},
                }
            },
            None => {},
        }
    }
}

/// **Water lies where its cell has it**: over an exterior's own square at sea level, and through an
/// interior that holds anything at the height its record names. It is one more mesh, placed once, with
/// a surface of its own.
pub proof fn law_water_lies_where_its_cell_has_it(scene: SceneModel, cell: CellRecord)
    requires
        cell.has_water,
        scene.meshes.len() < u32::MAX,
        scene.table.materials.len() < u32::MAX,
    ensures
        ({
            let after = with_water(scene, cell);
            let wet = !cell.interior || has_extent(scene);
            &&& !wet ==> after == scene
            &&& wet ==> {
                &&& after.instances.len() == scene.instances.len() + 1
                &&& after.instances.take(scene.instances.len() as int) == scene.instances
                &&& after.instances.last().mesh.0 == scene.meshes.len()
                &&& after.meshes.len() == scene.meshes.len() + 1
                &&& after.lights == scene.lights
                &&& after.meshes.last().submeshes.len() == 1
                &&& after.meshes.last().submeshes[0].material < after.table.materials.len()
                &&& after.table.materials[after.meshes.last().submeshes[0].material as int].kind
                    is Water
            }
            &&& !cell.interior ==> after.water_level == Some(0u32)
            &&& !cell.interior ==> {
                &&& after.instances.last().placement matches Placement::Sea { grid_x, grid_y }
                &&& grid_x == cell.grid_x
                &&& grid_y == cell.grid_y
            }
            &&& cell.interior && has_extent(scene) && cell.water_height is Some ==> {
                &&& after.water_level == cell.water_height
                &&& after.instances.last().placement matches Placement::Pool { level }
                &&& Some(level) == cell.water_height
            }
        }),
{
    let after = with_water(scene, cell);
    let surface = super::static_scene::water_material();
    lemma_first_same(scene.table.materials, surface);
    if !cell.interior || has_extent(scene) {
        assert(after.instances.take(scene.instances.len() as int) =~= scene.instances);
    }
}

/// **Water is a level square one unit across about its middle**, two triangles of one material facing
/// up.
pub proof fn law_water_is_a_unit_square(material: u32, i: int)
    requires
        0 <= i < 4,
    ensures
        ({
            let mesh = plane(material);
            let (half, minus_half) = (0x3F00_0000u32, 0xBF00_0000u32);
            &&& mesh.positions.len() == 4
            &&& mesh.positions[i]@[2] == 0
            &&& mesh.positions[i]@[0] == half || mesh.positions[i]@[0] == minus_half
            &&& mesh.positions[i]@[1] == half || mesh.positions[i]@[1] == minus_half
            &&& mesh.positions[0]@[0] == minus_half && mesh.positions[0]@[1] == minus_half
            &&& mesh.positions[1]@[0] == half && mesh.positions[1]@[1] == minus_half
            &&& mesh.positions[2]@[0] == half && mesh.positions[2]@[1] == half
            &&& mesh.positions[3]@[0] == minus_half && mesh.positions[3]@[1] == half
            &&& mesh.normals[i]@ == seq![0u32, 0u32, 0x3F80_0000u32]
            &&& mesh.indices == seq![0u32, 1u32, 2u32, 0u32, 2u32, 3u32]
            &&& mesh.submeshes.len() == 1
            &&& mesh.submeshes[0].material == material
            &&& mesh.submeshes[0].first_index == 0
            &&& mesh.submeshes[0].index_count == 6
        }),
{
    assert(plane(material).normals[i]@ =~= seq![0u32, 0u32, 0x3F80_0000u32]);
}

/// **Ground is placed where its vertices already are**, once, as one more mesh of its own.
pub proof fn law_ground_is_placed_as_it_is(
    scene: SceneModel,
    before: SceneModel,
    land: &Land,
    palette: Seq<Seq<char>>,
    detail: CellDetail,
)
    requires
        is_grounded(scene, before, land, palette, detail),
        before.meshes.len() < u32::MAX,
    ensures
        scene.instances.len() == before.instances.len() + 1,
        scene.instances.take(before.instances.len() as int) == before.instances,
        scene.instances.last().placement is World,
        scene.instances.last().mesh.0 == before.meshes.len(),
        scene.meshes.len() == before.meshes.len() + 1,
        scene.lights == before.lights,
        scene.water_level == before.water_level,
        scene.ambient == before.ambient,
        scene.sunlit == before.sunlit,
{
    assert(scene.instances.take(before.instances.len() as int) =~= before.instances);
}

/// **Up close every vertex of the ground is taken, and from afar one in four.**
pub proof fn law_distant_ground_takes_one_vertex_in_four()
    ensures
        CellDetail::Full.takes_every() == 1,
        CellDetail::Distant.takes_every() == 4,
{
}

/// **A door opens where its reference says**: the traveller arrives at the point it names facing the
/// way it names, in the interior it names, or failing that in the square of the world that point is
/// in.
pub proof fn law_a_door_opens_where_its_reference_says(cell_ref: CellRef, position: Position)
    requires
        cell_ref.destination == Some(position),
    ensures
        ({
            &&& door_of(cell_ref) matches Some(door)
            &&& door.arrival == position.translation
            &&& door.bearing == position.rotation@[2]
            &&& cell_ref.destination_cell matches Some(name) ==> door.destination
                == CellName::Interior(name@)
            &&& cell_ref.destination_cell is None ==> {
                &&& door.destination matches CellName::Exterior(x, y)
                &&& x == grid_square(position.translation@[0]) as i32
                &&& y == grid_square(position.translation@[1]) as i32
            }
        }),
{
}

/// **A reference with no destination is no door, and neither is one that was removed or that marks a
/// place for the editor.**
pub proof fn law_what_does_not_travel_is_no_door(
    cell_ref: CellRef,
    models: IndexModel,
    destination: CellName,
)
    ensures
        cell_ref.destination is None ==> door_of(cell_ref) is None,
        cell_ref.destination is None || cell_ref.deleted || models.marks(cell_ref.object_id@)
            ==> !leads(cell_ref, models, destination),
{
}

/// **Every door found is some reference's that was neither removed nor a marker, and they come in the
/// order of their references.**
pub proof fn law_doors_found_are_references(
    refs: Seq<CellRef>,
    models: IndexModel,
    destination: CellName,
    n: nat,
) -> (from: Seq<int>)
    requires
        n <= refs.len(),
    ensures
        from.len() == doors_to(refs, models, destination, n).len(),
        grow_below(from, n as int),
        forall|i: int|
            0 <= i < from.len() ==> {
                let cell_ref = refs[#[trigger] from[i]];
                &&& !cell_ref.deleted
                &&& !models.marks(cell_ref.object_id@)
                &&& door_of(cell_ref) == Some(doors_to(refs, models, destination, n)[i])
            },
    decreases n,
{
    if n == 0 {
        Seq::empty()
    } else {
        let from = law_doors_found_are_references(
            refs,
            models,
            destination,
            (n - 1) as nat,
        );
        if leads(refs[n - 1], models, destination) {
            from.push(n - 1)
        } else {
            from
        }
    }
}

/// **The square at zero begins at zero and spans 8192 units, and the one before it ends there.**
pub proof fn law_the_first_square_begins_at_nought(a: u32)
    requires
        a < 0x4600_0000,
    ensures
        grid_square(a) == 0,
        0x1000 < a ==> grid_square((a + 0x8000_0000) as u32) == -1,
{
    assert(a / 0x80_0000 < 140);
    if 139 <= a / 0x80_0000 {
        let exponent = a / 0x80_0000;
        assert(exponent == 139);
        vstd::arithmetic::power2::lemma2_to64();
        assert(vstd::arithmetic::power2::pow2(24) == 0x100_0000);
        let digits = a % 0x80_0000 + 0x80_0000;
        assert(digits / 0x100_0000 == 0);
        assert((digits + 0x100_0000 - 1) / 0x100_0000 == 1);
    }
}

/// **Each mesh of a cell is its own model's**: the one its source names, flattened whole.
pub proof fn law_each_mesh_is_its_own_model(
    refs: Seq<CellRef>,
    models: IndexModel,
    files: Seq<Nif>,
    detail: CellDetail,
    n: nat,
    k: int,
) -> (table: super::material_table::TableModel)
    requires
        0 <= k < placed(refs, models, files, detail, n).meshes.len(),
    ensures
        ({
            let scene = placed(refs, models, files, detail, n);
            let shapes = super::walk::drawn(&files[k], None);
            let flat = super::flatten::flattened(&files[k], table, shapes, shapes.len());
            &&& scene.meshes.len() == scene.sources.len()
            &&& scene.meshes.len() == scene.spans.len()
            &&& scene.meshes[k] == flat.mesh
            &&& scene.spans[k] == flat.spans
        }),
    decreases n,
{
    lemma_parallel(refs, models, files, detail, n);
    let before = placed(refs, models, files, detail, (n - 1) as nat);
    lemma_parallel(refs, models, files, detail, (n - 1) as nat);
    if k < before.meshes.len() {
        law_each_mesh_is_its_own_model(refs, models, files, detail, (n - 1) as nat, k)
    } else {
        before.table
    }
}

/// A scene's meshes, sources and spans are parallel.
proof fn lemma_parallel(
    refs: Seq<CellRef>,
    models: IndexModel,
    files: Seq<Nif>,
    detail: CellDetail,
    n: nat,
)
    ensures
        ({
            let scene = placed(refs, models, files, detail, n);
            scene.meshes.len() == scene.sources.len() && scene.meshes.len() == scene.spans.len()
        }),
    decreases n,
{
    if n > 0 {
        lemma_parallel(refs, models, files, detail, (n - 1) as nat);
    }
}

/// **A cell is furnished with its objects, lit and watered**: what its references place is there
/// first, its lights are theirs, and a dry cell has nothing more placed in it.
pub proof fn law_a_cell_is_furnished_with_its_objects(
    cell: CellRecord,
    refs: Seq<CellRef>,
    models: IndexModel,
    files: Seq<Nif>,
    detail: CellDetail,
    i: int,
)
    ensures
        ({
            let objects = placed(refs, models, files, detail, refs.len());
            let all = furnished(cell, refs, models, files, detail);
            &&& all.lights == objects.lights
            &&& all.without_model == objects.without_model
            &&& all.sunlit == !cell.interior
            &&& objects.instances.len() <= all.instances.len()
            &&& 0 <= i < objects.instances.len() ==> all.instances[i] == objects.instances[i]
            &&& 0 <= i < objects.meshes.len() ==> all.meshes[i] == objects.meshes[i]
            &&& !cell.has_water ==> all.instances == objects.instances && all.water_level
                == objects.water_level
        }),
{
}

/// **References place objects and lights, and nothing else**: they leave a cell without ambient light,
/// sun and water, and a cell without references is bare.
pub proof fn law_references_light_and_flood_nothing(
    refs: Seq<CellRef>,
    models: IndexModel,
    files: Seq<Nif>,
    detail: CellDetail,
    n: nat,
)
    ensures
        ({
            let scene = placed(refs, models, files, detail, n);
            &&& scene.ambient is None
            &&& !scene.sunlit
            &&& scene.water_level is None
            &&& n == 0 ==> {
                &&& scene.meshes.len() == 0 && scene.spans.len() == 0 && scene.sources.len() == 0
                &&& scene.instances.len() == 0 && scene.lights.len() == 0
                &&& scene.table.materials.len() == 0 && scene.table.textures.len() == 0
                &&& scene.without_model.len() == 0
            }
        }),
    decreases n,
{
    if n > 0 {
        law_references_light_and_flood_nothing(refs, models, files, detail, (n - 1) as nat);
    }
}

/// **A room is flooded where anything stands in it**: one instance with a vertex is enough, at any
/// place among them.
pub proof fn law_a_room_is_flooded_where_anything_stands(
    scene: SceneModel,
    cell: CellRecord,
    i: int,
)
    requires
        cell.interior,
        cell.has_water,
        0 <= i < scene.instances.len(),
        scene.meshes[scene.instances[i].mesh.0 as int].positions.len() > 0,
    ensures
        cell.water_height is Some ==> with_water(scene, cell).water_level == cell.water_height,
        cell.water_height is None ==> with_water(scene, cell).water_level == Some(0u32),
        with_water(scene, cell).instances.len() == scene.instances.len() + 1,
{
    assert(has_extent(scene));
}

/// **A room that holds nothing stays dry.**
pub proof fn law_an_empty_room_stays_dry(scene: SceneModel, cell: CellRecord)
    requires
        cell.interior,
        forall|i: int|
            0 <= i < scene.instances.len() ==> scene.meshes[(
            #[trigger] scene.instances[i]).mesh.0 as int].positions.len() == 0,
    ensures
        with_water(scene, cell) == scene,
{
}

} // verus!
