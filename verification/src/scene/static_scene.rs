//! Assembling one cell into meshes and placed instances.

use super::bits::{Bits, ZERO};
use super::cell::{CellRecord, CellRef};
use super::decimal::{in_decimal, push_decimal};
use super::flatten::{
    all_spans, fits, flattened, index_total, lemma_limits_suffice, vertex_total, FlatModel,
    GeometrySpan, SpanModel,
};
use super::light::{Ambient, Light};
use super::material::{plain_material, Material, MaterialKind};
use super::material_table::{
    first_path, first_same, lemma_first_path, with_material, with_path, MaterialTable, TableModel,
};
use super::mesh::{plane, Mesh, MeshModel};
use super::model_index::{IndexModel, ModelIndex};
use super::nif::Nif;
use super::terrain::{is_ground, is_stride, Land, GRID};
use super::terrain_materials::{names, patch_numbers, terrain_materials, with_ground};
use super::walk::{drawn, find_drawn, Drawn};
use crate::text::{chars, same, string_of};
use vstd::prelude::*;

verus! {

/// How much of a cell is built, which is what makes a horizon affordable.
///
/// The window the camera stands in is full; everything beyond it is distant, where the heightmap is
/// decimated and the cell's lights are dropped. The lights are the expensive half, not the objects:
/// a lamp a kilometre away reaches nothing on screen.
#[derive(Debug, Clone, Copy, PartialEq, Eq, Structural)]
pub enum CellDetail {
    /// The heightmap at its own resolution, every object the cell places, and its lights.
    Full,
    /// Decimated terrain, water, and the objects — but no lights.
    Distant,
}

impl Default for CellDetail {
    fn default() -> (r: CellDetail)
        ensures
            r == CellDetail::Full,
    {
        CellDetail::Full
    }
}

impl CellDetail {
    /// One vertex in four on each axis.
    pub const DISTANT_STRIDE: usize = 4;

    /// The stride ground is built at.
    pub open spec fn takes_every(self) -> int {
        match self {
            CellDetail::Full => 1,
            CellDetail::Distant => CellDetail::DISTANT_STRIDE as int,
        }
    }

    /// The stride ground is built at for this level of detail.
    pub fn stride(self) -> (r: usize)
        ensures
            r == self.takes_every(),
            is_stride(r as int),
    {
        match self {
            CellDetail::Full => 1,
            CellDetail::Distant => CellDetail::DISTANT_STRIDE,
        }
    }
}

/// Index of a mesh within a scene.
#[derive(Debug, Clone, Copy, PartialEq, Eq, Structural)]
pub struct MeshId(pub u32);

/// How an instance stands in the world.
#[derive(Debug, Clone, Copy)]
pub enum Placement {
    /// Its mesh is in world space already.
    World,
    /// Turned about the negated axes, `z` first and `x` last, then scaled and moved.
    Reference { translation: [Bits; 3], rotation: [Bits; 3], scale: Bits },
    /// A unit square grown to one exterior cell's footprint, at sea level.
    Sea { grid_x: i32, grid_y: i32 },
    /// A unit square grown to what everything placed before it spans, at a height.
    Pool { level: Bits },
}

/// One placed copy of a mesh.
#[derive(Debug, Clone, Copy)]
pub struct Instance {
    pub mesh: MeshId,
    pub placement: Placement,
}

/// Everything one cell places, ready to hand to a renderer.
///
/// Meshes are deduplicated: a cell that places the same crate forty times holds one mesh and forty
/// instances.
#[derive(Debug)]
pub struct StaticScene {
    pub meshes: Vec<Mesh>,
    /// Where each shape of each mesh landed, parallel to `meshes`.
    pub mesh_spans: Vec<Vec<GeometrySpan>>,
    /// What each mesh was loaded from, parallel to `meshes`. Terrain is named by its cell instead
    /// of by a file, because a heightmap belongs to exactly one.
    pub mesh_sources: Vec<String>,
    pub instances: Vec<Instance>,
    /// Every distinct material and texture the cell's meshes name, shared across all of them.
    pub materials: MaterialTable,
    /// Point lights placed in the cell.
    pub lights: Vec<Light>,
    /// The cell's fixed lighting. Absent for an interior that declares none.
    pub ambient: Option<Ambient>,
    /// Whether the cell has a sky, and a sun in it.
    pub sunlit: bool,
    /// Where the cell's water surface sits. Absent for a dry cell.
    pub water_level: Option<Bits>,
    /// References skipped because their record had no model, for reporting.
    pub without_model: Vec<String>,
}

/// What a [`StaticScene`] is.
#[verifier::ext_equal]
pub struct SceneModel {
    pub meshes: Seq<MeshModel>,
    pub spans: Seq<Seq<SpanModel>>,
    pub sources: Seq<Seq<char>>,
    pub instances: Seq<Instance>,
    pub table: TableModel,
    pub lights: Seq<Light>,
    pub ambient: Option<Ambient>,
    pub sunlit: bool,
    pub water_level: Option<Bits>,
    pub without_model: Seq<Seq<char>>,
}

impl View for StaticScene {
    type V = SceneModel;

    open spec fn view(&self) -> SceneModel {
        SceneModel {
            meshes: Seq::new(self.meshes@.len(), |i: int| self.meshes@[i]@),
            spans: Seq::new(self.mesh_spans@.len(), |i: int| all_spans(self.mesh_spans@[i]@)),
            sources: names(self.mesh_sources@),
            instances: self.instances@,
            table: self.materials@,
            lights: self.lights@,
            ambient: self.ambient,
            sunlit: self.sunlit,
            water_level: self.water_level,
            without_model: names(self.without_model@),
        }
    }
}

impl SceneModel {
    /// Every mesh has its source and its spans beside it, and every instance names a mesh.
    pub open spec fn wf(self) -> bool {
        &&& self.meshes.len() == self.sources.len()
        &&& self.meshes.len() == self.spans.len()
        &&& self.table.wf()
        &&& forall|i: int|
            0 <= i < self.instances.len() ==> (#[trigger] self.instances[i]).mesh.0
                < self.meshes.len()
    }
}

/// A scene with nothing in it.
pub open spec fn empty_scene() -> SceneModel {
    SceneModel {
        meshes: Seq::empty(),
        spans: Seq::empty(),
        sources: Seq::empty(),
        instances: Seq::empty(),
        table: TableModel { materials: Seq::empty(), textures: Seq::empty() },
        lights: Seq::empty(),
        ambient: None,
        sunlit: false,
        water_level: None,
        without_model: Seq::empty(),
    }
}

/// What a whole model flattens to, starting from a table.
pub open spec fn model_mesh(nif: &Nif, table: TableModel) -> FlatModel {
    flattened(nif, table, drawn(nif, None), drawn(nif, None).len())
}

/// A scene with one more model's mesh in it.
pub open spec fn with_mesh(scene: SceneModel, path: Seq<char>, nif: &Nif) -> SceneModel {
    let flat = model_mesh(nif, scene.table);
    SceneModel {
        meshes: scene.meshes.push(flat.mesh),
        spans: scene.spans.push(flat.spans),
        sources: scene.sources.push(path),
        table: flat.table,
        ..scene
    }
}

/// A scene with one more object's light in it, where the detail keeps lights and the object casts
/// one that stands in a cell.
pub open spec fn with_light(
    scene: SceneModel,
    cell_ref: CellRef,
    models: IndexModel,
    detail: CellDetail,
) -> SceneModel {
    match models.light(cell_ref.object_id@) {
        Some(light) => if detail == CellDetail::Full && light.placeable {
            SceneModel {
                lights: scene.lights.push(Light::cast(cell_ref.position.translation, light)),
                ..scene
            }
        } else {
            scene
        },
        None => scene,
    }
}

/// A scene with one more instance of a mesh in it, where that mesh draws anything.
pub open spec fn with_instance(scene: SceneModel, mesh: int, placement: Placement) -> SceneModel {
    if scene.meshes[mesh].indices.len() > 0 {
        SceneModel {
            instances: scene.instances.push(Instance { mesh: MeshId(mesh as u32), placement }),
            ..scene
        }
    } else {
        scene
    }
}

/// How a reference places its object.
pub open spec fn placement_of(cell_ref: CellRef) -> Placement {
    Placement::Reference {
        translation: cell_ref.position.translation,
        rotation: cell_ref.position.rotation,
        scale: cell_ref.scale,
    }
}

/// A scene with one more reference in it. `files` are the models in the order they are first
/// needed: a path the scene has no mesh from yet takes the next of them.
pub open spec fn with_reference(
    scene: SceneModel,
    cell_ref: CellRef,
    models: IndexModel,
    files: Seq<Nif>,
    detail: CellDetail,
) -> SceneModel {
    if cell_ref.deleted || models.marks(cell_ref.object_id@) {
        scene
    } else {
        match models.model(cell_ref.object_id@) {
            Some(path) => {
                let at = first_path(scene.sources, path);
                let held = if at < scene.sources.len() {
                    scene
                } else {
                    with_mesh(scene, path, &files[scene.sources.len() as int])
                };
                with_instance(
                    with_light(held, cell_ref, models, detail),
                    at,
                    placement_of(cell_ref),
                )
            },
            None => SceneModel {
                without_model: scene.without_model.push(cell_ref.object_id@),
                ..scene
            },
        }
    }
}

/// What the first `n` of some references place.
pub open spec fn placed(
    refs: Seq<CellRef>,
    models: IndexModel,
    files: Seq<Nif>,
    detail: CellDetail,
    n: nat,
) -> SceneModel
    decreases n,
{
    if n == 0 {
        empty_scene()
    } else {
        with_reference(
            placed(refs, models, files, detail, (n - 1) as nat),
            refs[n - 1],
            models,
            files,
            detail,
        )
    }
}

/// The models the first `n` of some references need, each once, in the order they are first needed.
pub open spec fn needed(refs: Seq<CellRef>, models: IndexModel, n: nat) -> Seq<Seq<char>>
    decreases n,
{
    if n == 0 {
        Seq::empty()
    } else {
        let before = needed(refs, models, (n - 1) as nat);
        let cell_ref = refs[n - 1];
        if cell_ref.deleted || models.marks(cell_ref.object_id@) {
            before
        } else {
            match models.model(cell_ref.object_id@) {
                Some(path) => with_path(before, path),
                None => before,
            }
        }
    }
}

/// How many shapes the first `n` of some models draw.
pub open spec fn shapes_in(files: Seq<Nif>, n: nat) -> nat
    decreases n,
{
    if n == 0 {
        0
    } else {
        shapes_in(files, (n - 1) as nat) + drawn(&files[n - 1], None).len()
    }
}

/// Whether a model's own vertices and indices fit thirty-two bits.
pub open spec fn mesh_within_limits(nif: &Nif) -> bool {
    let shapes = drawn(nif, None);
    &&& vertex_total(nif, shapes, shapes.len()) + u16::MAX <= u32::MAX
    &&& index_total(nif, shapes, shapes.len()) <= u32::MAX
}

/// Whether everything some models and a cell's ground could add to a scene fits thirty-two bits.
pub open spec fn cell_within_limits(files: Seq<Nif>) -> bool {
    &&& files.len() + 2 < u32::MAX
    &&& shapes_in(files, files.len()) + 2048 < u32::MAX
    &&& forall|i: int| 0 <= i < files.len() ==> mesh_within_limits(#[trigger] &files[i])
}

/// What more models draw is no less.
proof fn lemma_shapes_grow(files: Seq<Nif>, m: nat, n: nat)
    requires
        m <= n,
    ensures
        shapes_in(files, m) <= shapes_in(files, n),
    decreases n,
{
    if m < n {
        lemma_shapes_grow(files, m, (n - 1) as nat);
    }
}

/// Whether everything some models and a cell's ground could add to a scene fits thirty-two bits,
/// which is what assembling a cell of them asks.
pub fn cell_fits(files: &Vec<Nif>) -> (r: bool)
    ensures
        r == cell_within_limits(files@),
{
    let limit: u64 = u32::MAX as u64;
    if files.len() as u64 >= limit - 2 {
        return false;
    }
    let mut shapes: u64 = 0;
    let mut i: usize = 0;
    while i < files.len()
        invariant
            i <= files@.len(),
            limit == u32::MAX,
            files@.len() + 2 < limit,
            shapes == shapes_in(files@, i as nat),
            shapes + 2048 < limit,
            forall|k: int| 0 <= k < i ==> mesh_within_limits(#[trigger] &files@[k]),
        decreases files@.len() - i,
    {
        proof {
            lemma_shapes_grow(files@, (i + 1) as nat, files@.len());
        }
        let (whole, more): (bool, u64) = mesh_fits(&files[i]);
        if !whole || more >= limit - 2048 - shapes {
            assert(!mesh_within_limits(&files@[i as int]) || shapes + drawn(
                &files@[i as int],
                None,
            ).len() + 2048 >= limit);
            return false;
        }
        shapes = shapes + more;
        i = i + 1;
    }
    true
}

/// Whether a model's own vertices and indices fit thirty-two bits, and how many shapes it draws.
fn mesh_fits(nif: &Nif) -> (r: (bool, u64))
    ensures
        r.1 == drawn(nif, None).len(),
        r.0 ==> mesh_within_limits(nif),
        !r.0 ==> !mesh_within_limits(nif) || r.1 >= u32::MAX,
{
    let nothing: MaterialTable = MaterialTable::new();
    let whole: bool = fits(nif, &nothing, None);
    let shapes: Vec<Drawn> = find_drawn(nif, None);
    assert(super::walk::all_drawn(shapes@).len() == shapes@.len());
    (whole, shapes.len() as u64)
}

/// Which models some references need, each once, in the order they are first needed.
pub fn models_needed(refs: &Vec<CellRef>, models: &ModelIndex) -> (r: Vec<String>)
    requires
        models.wf(),
    ensures
        names(r@) == needed(refs@, models@, refs@.len()),
{
    let mut paths: Vec<String> = Vec::new();
    let mut i: usize = 0;
    assert(names(paths@) =~= Seq::<Seq<char>>::empty());
    while i < refs.len()
        invariant
            i <= refs@.len(),
            models.wf(),
            names(paths@) == needed(refs@, models@, i as nat),
        decreases refs@.len() - i,
    {
        let cell_ref: &CellRef = &refs[i];
        if !cell_ref.deleted && !models.is_editor_marker(cell_ref.object_id.as_str()) {
            match models.model_of(cell_ref.object_id.as_str()) {
                Some(path) => {
                    let ghost before = names(paths@);
                    let at: usize = find_source(&paths, path);
                    if at == paths.len() {
                        paths.push(path.to_owned());
                        assert(names(paths@) =~= before.push(path@));
                    }
                },
                None => {},
            }
        }
        i = i + 1;
    }
    paths
}

/// Where a path is among some sources, or how many there are.
fn find_source(sources: &Vec<String>, path: &str) -> (at: usize)
    ensures
        at == first_path(names(sources@), path@),
        at <= sources@.len(),
{
    let ghost said = names(sources@);
    proof {
        lemma_first_path(said, path@);
    }
    let mut i: usize = 0;
    while i < sources.len()
        invariant
            i <= sources@.len(),
            said == names(sources@),
            0 <= first_path(said, path@) <= said.len(),
            first_path(said, path@) < said.len() ==> said[first_path(said, path@)] == path@,
            forall|k: int| 0 <= k < first_path(said, path@) ==> #[trigger] said[k] != path@,
            i <= first_path(said, path@),
        decreases sources@.len() - i,
    {
        assert(said[i as int] == sources@[i as int]@);
        if same(sources[i].as_str(), path) {
            return i;
        }
        i = i + 1;
    }
    i
}

/// The surface of all water.
pub open spec fn water_material() -> Material {
    Material { kind: MaterialKind::Water, ..plain_material() }
}

/// Whether a scene places any vertex at all.
pub open spec fn has_extent(scene: SceneModel) -> bool {
    exists|i: int|
        0 <= i < scene.instances.len() && scene.meshes[(
        #[trigger] scene.instances[i]).mesh.0 as int].positions.len() > 0
}

/// How a cell's water stands, where it has any: an exterior's covers its footprint at sea level, an
/// interior's spans what the room holds at the height its record names, and a room that holds
/// nothing has none. The flag decides, not the height: an interior carries a height whether or not
/// it has water.
pub open spec fn water_of(scene: SceneModel, cell: CellRecord) -> Option<(Placement, Bits)> {
    if !cell.has_water {
        None
    } else if !cell.interior {
        Some((Placement::Sea { grid_x: cell.grid_x, grid_y: cell.grid_y }, ZERO))
    } else if has_extent(scene) {
        let level = match cell.water_height {
            Some(level) => level,
            None => ZERO,
        };
        Some((Placement::Pool { level }, level))
    } else {
        None
    }
}

/// A scene with a cell's water in it. Every cell's water is one mesh, under one source.
pub open spec fn with_water(scene: SceneModel, cell: CellRecord) -> SceneModel {
    match water_of(scene, cell) {
        Some((placement, level)) => {
            let material = first_same(scene.table.materials, water_material()) as u32;
            SceneModel {
                meshes: scene.meshes.push(plane(material)),
                spans: scene.spans.push(Seq::empty()),
                sources: scene.sources.push("water"@),
                instances: scene.instances.push(
                    Instance { mesh: MeshId(scene.meshes.len() as u32), placement },
                ),
                table: TableModel {
                    materials: with_material(scene.table.materials, water_material()),
                    ..scene.table
                },
                water_level: Some(level),
                ..scene
            }
        },
        None => scene,
    }
}

/// A scene in a cell's own light: an interior's is what its record says, and an exterior has a sky.
pub open spec fn with_lighting(scene: SceneModel, cell: CellRecord) -> SceneModel {
    if cell.interior {
        SceneModel {
            ambient: match cell.ambient {
                Some(record) => Some(Ambient::recorded(record)),
                None => None,
            },
            sunlit: false,
            ..scene
        }
    } else {
        SceneModel { ambient: Some(Ambient::overcast()), sunlit: true, ..scene }
    }
}

/// What a cell's ground is named by: the cell it belongs to.
pub open spec fn land_source(land: &Land) -> Seq<char> {
    "land:"@ + in_decimal(land.grid_x as int) + seq![','] + in_decimal(land.grid_y as int)
}

/// Whether a scene is another with a cell's ground in it, standing where its vertices are.
pub open spec fn is_grounded(
    scene: SceneModel,
    before: SceneModel,
    land: &Land,
    palette: Seq<Seq<char>>,
    detail: CellDetail,
) -> bool {
    let table = with_ground(before.table, land.textures@, palette);
    &&& scene.meshes.len() == before.meshes.len() + 1
    &&& is_ground(
        scene.meshes.last(),
        land,
        patch_numbers(table, land.textures@, palette),
        detail.takes_every(),
    )
    &&& scene == (SceneModel {
        meshes: before.meshes.push(scene.meshes.last()),
        spans: before.spans.push(Seq::empty()),
        sources: before.sources.push(land_source(land)),
        instances: before.instances.push(
            Instance { mesh: MeshId(before.meshes.len() as u32), placement: Placement::World },
        ),
        table,
        ..before
    })
}

/// What a cell holds before its ground: its objects, its light and its water.
pub open spec fn furnished(
    cell: CellRecord,
    refs: Seq<CellRef>,
    models: IndexModel,
    files: Seq<Nif>,
    detail: CellDetail,
) -> SceneModel {
    with_water(with_lighting(placed(refs, models, files, detail, refs.len()), cell), cell)
}

/// What a reference adds to a scene never outgrows the models it was assembled from.
pub open spec fn within(scene: SceneModel, files: Seq<Nif>) -> bool {
    &&& scene.wf()
    &&& scene.meshes.len() <= files.len()
    &&& scene.table.materials.len() <= shapes_in(files, scene.meshes.len())
    &&& scene.table.textures.len() <= shapes_in(files, scene.meshes.len())
}

impl StaticScene {
    /// A scene with nothing in it.
    pub fn new() -> (r: StaticScene)
        ensures
            r@ == empty_scene(),
            r@.wf(),
    {
        let r: StaticScene = StaticScene {
            meshes: Vec::new(),
            mesh_spans: Vec::new(),
            mesh_sources: Vec::new(),
            instances: Vec::new(),
            materials: MaterialTable::new(),
            lights: Vec::new(),
            ambient: None,
            sunlit: false,
            water_level: None,
            without_model: Vec::new(),
        };
        assert(r@ =~= empty_scene());
        r
    }

    /// Adds a mesh and where it came from.
    fn push_mesh(&mut self, mesh: Mesh, spans: Vec<GeometrySpan>, source: String)
        ensures
            final(self)@ == (SceneModel {
                meshes: old(self)@.meshes.push(mesh@),
                spans: old(self)@.spans.push(all_spans(spans@)),
                sources: old(self)@.sources.push(source@),
                ..old(self)@
            }),
    {
        let ghost before = self@;
        self.meshes.push(mesh);
        self.mesh_spans.push(spans);
        self.mesh_sources.push(source);
        assert(self@.meshes =~= before.meshes.push(mesh@));
        assert(self@.spans =~= before.spans.push(all_spans(spans@)));
        assert(self@.sources =~= before.sources.push(source@));
    }

    /// Adds the mesh of one more model.
    fn add_model(&mut self, path: &str, nif: &Nif, Ghost(files): Ghost<Seq<Nif>>)
        requires
            cell_within_limits(files),
            within(old(self)@, files),
            old(self)@.meshes.len() < files.len(),
            *nif == files[old(self)@.meshes.len() as int],
        ensures
            final(self)@ == with_mesh(old(self)@, path@, nif),
            within(final(self)@, files),
    {
        let ghost before = self@;
        let ghost k = before.meshes.len() as int;
        let ghost shapes = drawn(nif, None);
        proof {
            assert(mesh_within_limits(&files[k]));
            lemma_shapes_grow(files, (k + 1) as nat, files.len());
            lemma_limits_suffice(nif, before.table, shapes);
            super::flatten::lemma_flat_sizes(nif, before.table, shapes, shapes.len());
        }
        let (mesh, spans): (Mesh, Vec<GeometrySpan>) = Mesh::from_nif(nif, &mut self.materials);
        self.push_mesh(mesh, spans, path.to_owned());
        assert(self@ =~= with_mesh(before, path@, nif));
    }

    /// Adds one more reference, and says whether the model it needs was there to add.
    fn add_reference(
        &mut self,
        cell_ref: &CellRef,
        models: &ModelIndex,
        files: &Vec<Nif>,
        detail: CellDetail,
    ) -> (had: bool)
        requires
            models.wf(),
            cell_within_limits(files@),
            within(old(self)@, files@),
        ensures
            had == (with_reference(old(self)@, *cell_ref, models@, files@, detail).sources.len()
                <= files@.len()),
            had ==> final(self)@ == with_reference(
                old(self)@,
                *cell_ref,
                models@,
                files@,
                detail,
            ),
            had ==> within(final(self)@, files@),
    {
        let ghost before = self@;
        if cell_ref.deleted || models.is_editor_marker(cell_ref.object_id.as_str()) {
            return true;
        }
        match models.model_of(cell_ref.object_id.as_str()) {
            None => {
                self.without_model.push(cell_ref.object_id.as_str().to_owned());
                assert(self@.without_model =~= before.without_model.push(cell_ref.object_id@));
                assert(self@ =~= with_reference(before, *cell_ref, models@, files@, detail));
            },
            Some(path) => {
                let at: usize = find_source(&self.mesh_sources, path);
                if at == self.mesh_sources.len() {
                    if at >= files.len() {
                        return false;
                    }
                    self.add_model(path, &files[at], Ghost(files@));
                }
                let ghost held = self@;
                if detail == CellDetail::Full {
                    match models.light_of(cell_ref.object_id.as_str()) {
                        Some(light) => {
                            if light.placeable {
                                self.lights.push(Light::placed(cell_ref, light));
                            }
                        },
                        None => {},
                    }
                }
                let ghost lit = with_light(held, *cell_ref, models@, detail);
                assert(self@ =~= lit);
                assert(self@.meshes[at as int] == self.meshes@[at as int]@);
                if !self.meshes[at].is_empty() {
                    let placement: Placement = Placement::Reference {
                        translation: cell_ref.position.translation,
                        rotation: cell_ref.position.rotation,
                        scale: cell_ref.scale,
                    };
                    self.instances.push(Instance { mesh: MeshId(at as u32), placement });
                }
                assert(self@ =~= with_instance(lit, at as int, placement_of(*cell_ref)));
            },
        }
        true
    }

    /// What a cell's references place, or `None` where a model they need is not among `files`.
    /// `files` are those models in the order of [`models_needed`].
    pub fn of_references(
        refs: &Vec<CellRef>,
        models: &ModelIndex,
        files: &Vec<Nif>,
        detail: CellDetail,
    ) -> (r: Option<StaticScene>)
        requires
            models.wf(),
            cell_within_limits(files@),
        ensures
            (r is Some) == (needed(refs@, models@, refs@.len()).len() <= files@.len()),
            r matches Some(scene) ==> {
                &&& scene@ == placed(refs@, models@, files@, detail, refs@.len())
                &&& within(scene@, files@)
            },
    {
        let mut scene: StaticScene = StaticScene::new();
        let mut i: usize = 0;
        while i < refs.len()
            invariant
                i <= refs@.len(),
                models.wf(),
                cell_within_limits(files@),
                scene@ == placed(refs@, models@, files@, detail, i as nat),
                within(scene@, files@),
            decreases refs@.len() - i,
        {
            proof {
                lemma_sources_are_needed(refs@, models@, files@, detail, (i + 1) as nat);
                lemma_needed_grows(refs@, models@, (i + 1) as nat, refs@.len());
            }
            if !scene.add_reference(&refs[i], models, files, detail) {
                return None;
            }
            i = i + 1;
        }
        proof {
            lemma_sources_are_needed(refs@, models@, files@, detail, refs@.len());
        }
        Some(scene)
    }
}

/// Needing more never needs less.
pub proof fn lemma_needed_grows(refs: Seq<CellRef>, models: IndexModel, m: nat, n: nat)
    requires
        m <= n,
    ensures
        needed(refs, models, m).len() <= needed(refs, models, n).len(),
    decreases n,
{
    if m < n {
        lemma_needed_grows(refs, models, m, (n - 1) as nat);
    }
}

/// A scene's meshes are from exactly the models its references need, in the order they are needed.
pub proof fn lemma_sources_are_needed(
    refs: Seq<CellRef>,
    models: IndexModel,
    files: Seq<Nif>,
    detail: CellDetail,
    n: nat,
)
    ensures
        placed(refs, models, files, detail, n).sources == needed(refs, models, n),
    decreases n,
{
    if n > 0 {
        lemma_sources_are_needed(refs, models, files, detail, (n - 1) as nat);
    }
}

/// Triangles across the first `n` of a scene's instances, counting each placement.
pub open spec fn placed_triangles(scene: SceneModel, n: nat) -> nat
    decreases n,
{
    if n == 0 {
        0
    } else {
        placed_triangles(scene, (n - 1) as nat) + scene.meshes[scene.instances[n
            - 1].mesh.0 as int].indices.len() / 3
    }
}

/// Triangles across the first `n` of a scene's meshes.
pub open spec fn unique_triangles(scene: SceneModel, n: nat) -> nat
    decreases n,
{
    if n == 0 {
        0
    } else {
        unique_triangles(scene, (n - 1) as nat) + scene.meshes[n - 1].indices.len() / 3
    }
}

/// Counting further never counts less.
proof fn lemma_triangles_grow(scene: SceneModel, m: nat, n: nat)
    requires
        m <= n,
    ensures
        placed_triangles(scene, m) <= placed_triangles(scene, n),
        unique_triangles(scene, m) <= unique_triangles(scene, n),
    decreases n,
{
    if m < n {
        lemma_triangles_grow(scene, m, (n - 1) as nat);
    }
}

impl StaticScene {
    /// Whether this scene places any vertex at all.
    pub fn places_anything(&self) -> (r: bool)
        requires
            self@.wf(),
        ensures
            r == has_extent(self@),
    {
        let mut i: usize = 0;
        while i < self.instances.len()
            invariant
                i <= self.instances@.len(),
                self@.wf(),
                forall|k: int|
                    0 <= k < i ==> self@.meshes[(
                    #[trigger] self@.instances[k]).mesh.0 as int].positions.len() == 0,
            decreases self.instances@.len() - i,
        {
            assert(self@.instances[i as int] == self.instances@[i as int]);
            let mesh: usize = self.instances[i].mesh.0 as usize;
            assert(self@.meshes[mesh as int] == self.meshes@[mesh as int]@);
            if self.meshes[mesh].positions.len() > 0 {
                return true;
            }
            i = i + 1;
        }
        false
    }

    /// Adds the cell's water surface, if it has one.
    pub fn add_water(&mut self, cell: &CellRecord)
        requires
            old(self)@.wf(),
            old(self)@.meshes.len() < u32::MAX,
            old(self)@.table.materials.len() < u32::MAX,
        ensures
            final(self)@ == with_water(old(self)@, *cell),
            final(self)@.wf(),
    {
        let ghost before = self@;
        if !cell.has_water {
            return;
        }
        let (placement, level): (Placement, Bits) = if cell.interior {
            if !self.places_anything() {
                return;
            }
            let level: Bits = match cell.water_height {
                Some(level) => level,
                None => ZERO,
            };
            (Placement::Pool { level }, level)
        } else {
            (Placement::Sea { grid_x: cell.grid_x, grid_y: cell.grid_y }, ZERO)
        };
        self.water_level = Some(level);
        let mut surface: Material = Material::plain();
        surface.kind = MaterialKind::Water;
        let material: u32 = self.materials.intern(surface);
        assert(self.meshes@.len() == self.meshes.len());
        let mesh: MeshId = MeshId(self.meshes.len() as u32);
        let spans: Vec<GeometrySpan> = Vec::new();
        assert(all_spans(spans@) =~= Seq::<SpanModel>::empty());
        self.push_mesh(Mesh::water_plane(material), spans, "water".to_owned());
        self.instances.push(Instance { mesh, placement });
        assert(self@ =~= with_water(before, *cell));
    }

    /// Adds a cell's ground.
    fn add_land(&mut self, land: &Land, palette: &[String], detail: CellDetail)
        requires
            old(self)@.wf(),
            land.heights@.len() == GRID * GRID,
            old(self)@.meshes.len() < u32::MAX,
            old(self)@.table.materials.len() + 1024 < u32::MAX,
            old(self)@.table.textures.len() + 256 < u32::MAX,
        ensures
            is_grounded(final(self)@, old(self)@, land, names(palette@), detail),
            final(self)@.wf(),
    {
        let ghost before = self@;
        let patches: Vec<u32> = terrain_materials(land, palette, &mut self.materials);
        assert(self.meshes@.len() == self.meshes.len());
        let mesh: MeshId = MeshId(self.meshes.len() as u32);
        let ground: Mesh = Mesh::from_land(land, patches.as_slice(), detail.stride());
        let mut source: Vec<char> = chars("land:");
        push_decimal(&mut source, land.grid_x);
        source.push(',');
        push_decimal(&mut source, land.grid_y);
        let spans: Vec<GeometrySpan> = Vec::new();
        assert(all_spans(spans@) =~= Seq::<SpanModel>::empty());
        assert(source@ =~= land_source(land));
        self.push_mesh(ground, spans, string_of(source.as_slice()));
        self.instances.push(Instance { mesh, placement: Placement::World });
        assert(self@.meshes.last() == ground@);
        assert(self@ =~= (SceneModel {
            meshes: before.meshes.push(self@.meshes.last()),
            spans: before.spans.push(Seq::empty()),
            sources: before.sources.push(land_source(land)),
            instances: before.instances.push(
                Instance { mesh: MeshId(before.meshes.len() as u32), placement: Placement::World },
            ),
            table: with_ground(before.table, land.textures@, names(palette@)),
            ..before
        }));
    }

    /// Assembles one cell, terrain included, or `None` where a model it needs is not among `files`.
    ///
    /// `files` are those models in the order of [`models_needed`]. An exterior with no ground of its
    /// own is legal and comes back as its objects over no ground at all; an interior has none
    /// whatever it is given.
    pub fn load_cell(
        cell: &CellRecord,
        refs: &Vec<CellRef>,
        models: &ModelIndex,
        files: &Vec<Nif>,
        land: Option<&Land>,
        palette: &[String],
        detail: CellDetail,
    ) -> (r: Option<StaticScene>)
        requires
            models.wf(),
            cell_within_limits(files@),
            land matches Some(land) ==> land.heights@.len() == GRID * GRID,
        ensures
            (r is Some) == (needed(refs@, models@, refs@.len()).len() <= files@.len()),
            r matches Some(scene) ==> {
                &&& scene@.wf()
                &&& match land {
                    Some(land) if !cell.interior => is_grounded(
                        scene@,
                        furnished(*cell, refs@, models@, files@, detail),
                        land,
                        names(palette@),
                        detail,
                    ),
                    _ => scene@ == furnished(*cell, refs@, models@, files@, detail),
                }
            },
    {
        let mut scene: StaticScene = match StaticScene::of_references(refs, models, files, detail) {
            Some(scene) => scene,
            None => {
                return None;
            },
        };
        let ghost objects = scene@;
        proof {
            lemma_shapes_grow(files@, objects.meshes.len(), files@.len());
        }
        if cell.interior {
            scene.ambient =
            match cell.ambient {
                Some(record) => Some(Ambient::from_record(record)),
                None => None,
            };
            scene.sunlit = false;
            assert(scene@ =~= with_lighting(objects, *cell));
            scene.add_water(cell);
            return Some(scene);
        }
        scene.ambient = Some(Ambient::outdoors());
        scene.sunlit = true;
        assert(scene@ =~= with_lighting(objects, *cell));
        scene.add_water(cell);
        match land {
            Some(land) => {
                scene.add_land(land, palette, detail);
            },
            None => {},
        }
        Some(scene)
    }

    /// Triangles across every instance, counting each placement separately.
    pub fn placed_triangle_count(&self) -> (r: usize)
        requires
            self@.wf(),
            placed_triangles(self@, self@.instances.len()) <= usize::MAX,
        ensures
            r == placed_triangles(self@, self@.instances.len()),
    {
        let mut total: usize = 0;
        let mut i: usize = 0;
        while i < self.instances.len()
            invariant
                i <= self.instances@.len(),
                self@.wf(),
                placed_triangles(self@, self@.instances.len()) <= usize::MAX,
                total == placed_triangles(self@, i as nat),
            decreases self.instances@.len() - i,
        {
            proof {
                lemma_triangles_grow(self@, (i + 1) as nat, self@.instances.len());
            }
            assert(self@.instances[i as int] == self.instances@[i as int]);
            let mesh: usize = self.instances[i].mesh.0 as usize;
            assert(self@.meshes[mesh as int] == self.meshes@[mesh as int]@);
            total = total + self.meshes[mesh].triangle_count();
            i = i + 1;
        }
        total
    }

    /// Triangles across distinct meshes, which is what the acceleration structures hold.
    pub fn unique_triangle_count(&self) -> (r: usize)
        requires
            unique_triangles(self@, self@.meshes.len()) <= usize::MAX,
        ensures
            r == unique_triangles(self@, self@.meshes.len()),
    {
        let mut total: usize = 0;
        let mut i: usize = 0;
        while i < self.meshes.len()
            invariant
                i <= self.meshes@.len(),
                unique_triangles(self@, self@.meshes.len()) <= usize::MAX,
                total == unique_triangles(self@, i as nat),
            decreases self.meshes@.len() - i,
        {
            proof {
                lemma_triangles_grow(self@, (i + 1) as nat, self@.meshes.len());
            }
            assert(self@.meshes[i as int] == self.meshes@[i as int]@);
            total = total + self.meshes[i].triangle_count();
            i = i + 1;
        }
        total
    }
}

/// **A cell holds each mesh once**, however often it places it: its sources are all different.
pub proof fn law_meshes_are_shared(
    refs: Seq<CellRef>,
    models: IndexModel,
    files: Seq<Nif>,
    detail: CellDetail,
    n: nat,
)
    ensures
        placed(refs, models, files, detail, n).sources.no_duplicates(),
    decreases n,
{
    if n > 0 {
        law_meshes_are_shared(refs, models, files, detail, (n - 1) as nat);
        let before = placed(refs, models, files, detail, (n - 1) as nat);
        match models.model(refs[n - 1].object_id@) {
            Some(path) => {
                lemma_first_path(before.sources, path);
            },
            None => {},
        }
    }
}

/// **A cell seen from afar places what it places up close**: only its lights are gone.
pub proof fn law_distance_drops_only_the_lights(
    refs: Seq<CellRef>,
    models: IndexModel,
    files: Seq<Nif>,
    n: nat,
)
    ensures
        placed(refs, models, files, CellDetail::Distant, n) == (SceneModel {
            lights: Seq::empty(),
            ..placed(refs, models, files, CellDetail::Full, n)
        }),
    decreases n,
{
    if n > 0 {
        law_distance_drops_only_the_lights(refs, models, files, (n - 1) as nat);
        let near = placed(refs, models, files, CellDetail::Full, (n - 1) as nat);
        let far = placed(refs, models, files, CellDetail::Distant, (n - 1) as nat);
        assert(far.sources == near.sources && far.meshes == near.meshes);
    }
}

/// **Nothing is placed that draws nothing.**
pub proof fn law_instances_draw(
    refs: Seq<CellRef>,
    models: IndexModel,
    files: Seq<Nif>,
    detail: CellDetail,
    n: nat,
)
    requires
        needed(refs, models, n).len() < u32::MAX,
    ensures
        ({
            let scene = placed(refs, models, files, detail, n);
            forall|i: int|
                0 <= i < scene.instances.len() ==> {
                    let mesh = (#[trigger] scene.instances[i]).mesh.0 as int;
                    &&& mesh < scene.meshes.len()
                    &&& scene.meshes[mesh].indices.len() > 0
                }
        }),
        placed(refs, models, files, detail, n).meshes.len() == placed(
            refs,
            models,
            files,
            detail,
            n,
        ).sources.len(),
    decreases n,
{
    if n > 0 {
        lemma_needed_grows(refs, models, (n - 1) as nat, n);
        law_instances_draw(refs, models, files, detail, (n - 1) as nat);
        let before = placed(refs, models, files, detail, (n - 1) as nat);
        let scene = placed(refs, models, files, detail, n);
        lemma_sources_are_needed(refs, models, files, detail, (n - 1) as nat);
        lemma_sources_are_needed(refs, models, files, detail, n);
        match models.model(refs[n - 1].object_id@) {
            Some(path) => {
                lemma_first_path(before.sources, path);
            },
            None => {},
        }
        assert forall|i: int| 0 <= i < scene.instances.len() implies {
            let mesh = (#[trigger] scene.instances[i]).mesh.0 as int;
            &&& mesh < scene.meshes.len()
            &&& scene.meshes[mesh].indices.len() > 0
        } by {
            if i < before.instances.len() {
                assert(scene.instances[i] == before.instances[i]);
            }
        }
    }
}

/// **A dry interior stays dry whatever height its record carries.**
pub proof fn law_the_flag_decides_the_water(scene: SceneModel, cell: CellRecord)
    requires
        !cell.has_water,
    ensures
        with_water(scene, cell) == scene,
{
}

} // verus!
