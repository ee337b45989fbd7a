use std::f32::consts::{FRAC_PI_2, PI};

use rtxmw::scene::bits;
use rtxmw::scene::cell::{square_of, CellAmbient, CellId, CellRecord, CellRef, Position};
use rtxmw::scene::cell_streamer::{Action, Event, Request, Serving};
use rtxmw::scene::door::Door;
use rtxmw::scene::light::{unpack, Ambient, Colour};
use rtxmw::scene::loaded_cell::{decode_read, LoadedCell};
use rtxmw::scene::material::{texture_path, Properties};
use rtxmw::scene::model_index::{LightRecord, ModelIndex, ObjectRecord};
use rtxmw::scene::nif::{
    AlphaProperty, Block, Controller, Geometry, GeometryData, Link, MaterialProperty, Nif, Node,
    Object, SourceTexture, Transform, UvController,
};
use rtxmw::scene::numbers::{to_bits, to_rounded};
use rtxmw::scene::rounding::to_eighths;
use rtxmw::scene::sky_textures::sheet_path;
use rtxmw::scene::static_scene::{
    cell_fits, models_needed, CellDetail, Instance, MeshId, Placement, StaticScene,
};
use rtxmw::scene::terrain::{Land, GRID};
use rtxmw::scene::{
    AlphaMode, Material, MaterialKind, MaterialTable, Mesh, MoonFaces, SkyTextures, TextureId,
};

fn link(to: u32) -> Link {
    Link(Some(to))
}

fn still() -> Transform {
    let (o, l) = (0, 1.0f32.to_bits());
    Transform {
        rotation: [[l, o, o], [o, l, o], [o, o, l]],
        translation: [0; 3],
        scale: l,
    }
}

fn object(name: &str, properties: Vec<Link>) -> Object {
    Object {
        name: name.to_owned(),
        hidden: false,
        transform: still(),
        properties,
        controller: Link::nowhere(),
    }
}

/// One triangle named `name`, textured, under a root.
fn model(name: &str) -> Nif {
    Nif {
        blocks: vec![
            Block::Node(Node {
                object: object("root", vec![link(3)]),
                children: vec![link(1)],
            }),
            Block::Geometry(Geometry {
                object: object(name, Vec::new()),
                data: link(2),
                skin: Link::nowhere(),
            }),
            Block::GeometryData(GeometryData {
                vertices: vec![[0; 3], [1; 3], [2; 3]],
                normals: Vec::new(),
                uv_sets: Vec::new(),
                triangles: vec![[0, 1, 2]],
            }),
            Block::Texturing(Some(link(4))),
            Block::SourceTexture(SourceTexture {
                external: true,
                file_name: "tx_stone.tga".to_owned(),
            }),
        ],
        roots: vec![link(0)],
    }
}

fn reference(id: &str) -> CellRef {
    CellRef {
        object_id: id.to_owned(),
        position: Position {
            translation: [10.0f32, 20.0, 30.0].map(f32::to_bits),
            rotation: [0; 3],
        },
        scale: 1.0f32.to_bits(),
        deleted: false,
        destination_cell: None,
        destination: None,
    }
}

fn cell_with(
    interior: bool,
    has_water: bool,
    grid_x: i32,
    grid_y: i32,
    water_height: Option<f32>,
) -> CellRecord {
    CellRecord {
        interior,
        has_water,
        grid_x,
        grid_y,
        water_height: water_height.map(f32::to_bits),
        ambient: None,
    }
}

/// Where an exterior's water takes a point of the unit plane.
fn at_sea(placement: Placement, point: [f32; 2]) -> [f32; 3] {
    let Placement::Sea { grid_x, grid_y } = placement else {
        panic!("an exterior's water is the sea")
    };
    [
        (grid_x as f32 + 0.5 + point[0]) * 8192.0,
        (grid_y as f32 + 0.5 + point[1]) * 8192.0,
        0.0,
    ]
}

#[test]
fn water_covers_an_exterior_cell_and_an_interior_only_when_it_says_so() {
    // An exterior's water is its own 8,192-unit footprint at sea level. Cell (1, -2) spans x from
    // 8,192 to 16,384 and y from -16,384 to -8,192.
    let mut shore = StaticScene::new();
    shore.add_water(&cell_with(false, true, 1, -2, None));
    assert_eq!(shore.instances.len(), 1);
    assert_eq!(shore.mesh_sources, ["water"]);
    let placed = shore.instances[0].placement;
    assert_eq!(at_sea(placed, [-0.5, -0.5]), [8192.0, -16384.0, 0.0]);
    assert_eq!(at_sea(placed, [0.5, 0.5]), [16384.0, -8192.0, 0.0]);
    assert_eq!(shore.water_level, Some(0));

    // An interior with a height but no flag is a dry room.
    let mut dry = StaticScene::new();
    dry.add_water(&cell_with(true, false, 0, 0, Some(-32.0)));
    assert!(dry.instances.is_empty());
    assert_eq!(dry.water_level, None);

    // One that does have water gets it at the height it names, spanning what the room holds.
    let mut cave = StaticScene::new();
    let material = cave.materials.intern(Material::default());
    cave.meshes.push(Mesh::water_plane(material));
    cave.mesh_spans.push(Vec::new());
    cave.mesh_sources.push("floor".to_owned());
    cave.instances.push(Instance {
        mesh: MeshId(0),
        placement: Placement::World,
    });
    assert!(cave.places_anything());
    cave.add_water(&cell_with(true, true, 0, 0, Some(-32.0)));
    assert_eq!(cave.instances.len(), 2);
    assert!(matches!(
        cave.instances[1].placement,
        Placement::Pool { level } if f32::from_bits(level) == -32.0
    ));
    assert_eq!(cave.water_level, Some((-32.0f32).to_bits()));

    // And nothing at all where there is nothing to put it in.
    let mut empty = StaticScene::new();
    empty.add_water(&cell_with(true, true, 0, 0, Some(0.0)));
    assert!(empty.instances.is_empty());
}

fn index_of(models: &[(&str, &str)]) -> ModelIndex {
    let records: Vec<ObjectRecord> = models
        .iter()
        .map(|(id, path)| record(id, Some(path), None))
        .collect();
    ModelIndex::build(&records)
}

#[test]
fn a_marker_mesh_is_recognised_whichever_separator_precedes_it() {
    let index = index_of(&[
        ("NorthMarker", "meshes/Marker_North.nif"),
        ("Nested", "meshes/x\\Marker_Travel.nif"),
        ("Shouty", "meshes/MARKER_PRISON.NIF"),
        ("ex_nord_door_01", "meshes/d\\Ex_nord_door_01.NIF"),
        // Substring, not prefix: the rule is about the filename beginning with it.
        ("Decoy", "meshes/x\\not_marker_at_all.nif"),
        // Shorter than the prefix, and one whose seventh byte falls inside a character.
        ("Tiny", "meshes/m.nif"),
        ("Accented", "meshes/markeré.nif"),
    ]);

    for id in ["NorthMarker", "Nested", "Shouty"] {
        assert!(index.is_editor_marker(id), "{id} should be a marker");
    }
    for id in ["ex_nord_door_01", "Decoy", "Tiny", "Accented", "Absent"] {
        assert!(!index.is_editor_marker(id), "{id} should not be a marker");
    }
}

#[test]
fn an_object_is_found_however_its_id_is_capitalised() {
    let index = index_of(&[("Ex_Nord_Door", "meshes/door.nif"), ("ÉTÉ", "meshes/summer.nif")]);
    assert_eq!(index.model_of("EX_NORD_DOOR"), Some("meshes/door.nif"));
    // Every letter has a case, not only the ASCII ones.
    assert_eq!(index.model_of("été"), Some("meshes/summer.nif"));
    assert_eq!(index.model_of("nowhere"), None);
    assert_eq!(index.len(), 2);
    assert!(!index.is_empty());
    // The lookups under a name take it as it stands.
    assert_eq!(index.model_under("ex_nord_door"), Some("meshes/door.nif"));
    assert_eq!(index.model_under("Ex_Nord_Door"), None);
}

fn record(id: &str, model: Option<&str>, light: Option<LightRecord>) -> ObjectRecord {
    ObjectRecord {
        deleted: false,
        ignored: false,
        placeable: true,
        id: id.to_owned(),
        model: model.map(str::to_owned),
        light,
    }
}

#[test]
fn an_index_is_built_from_what_can_be_placed() {
    let lamp = LightRecord {
        colour: 0x0012_3456,
        radius: 256,
        placeable: true,
    };
    let mut gone = record("gone", Some("meshes/gone.nif"), None);
    gone.deleted = true;
    let mut other = record("other", Some("meshes/other.nif"), None);
    other.placeable = false;
    let index = ModelIndex::build(&vec![
        record("Lamp", Some("meshes/old.nif"), None),
        record("lamp", Some("meshes/lamp.nif"), Some(lamp)),
        gone,
        other,
    ]);
    // The last record under an id is the one that counts.
    assert_eq!(index.model_of("LAMP"), Some("meshes/lamp.nif"));
    assert_eq!(index.light_of("Lamp").map(|l| l.radius), Some(256));
    assert_eq!(index.light_under("lamp").map(|l| l.colour), Some(0x0012_3456));
    assert_eq!(index.model_of("gone"), None);
    assert_eq!(index.model_of("other"), None);
    assert_eq!(index.light_of("gone").map(|l| l.radius), None);
}

fn door_ref(destination_cell: Option<&str>, translation: [f32; 3], yaw: f32) -> CellRef {
    CellRef {
        object_id: "ex_nord_door_01".into(),
        position: Position {
            translation: [0; 3],
            rotation: [0; 3],
        },
        scale: 1.0f32.to_bits(),
        deleted: false,
        destination_cell: destination_cell.map(str::to_owned),
        destination: Some(Position {
            translation: translation.map(f32::to_bits),
            rotation: [0, 0, yaw.to_bits()],
        }),
    }
}

#[test]
fn a_reference_without_a_destination_is_not_a_door_that_travels() {
    let mut plain = door_ref(None, [0.0; 3], 0.0);
    plain.destination = None;
    assert!(Door::from_ref(&plain).is_none());
}

#[test]
fn a_named_destination_is_an_interior_and_an_unnamed_one_is_the_grid_square_it_lands_in() {
    let inside = Door::from_ref(&door_ref(
        Some("Balmora, Guild of Mages"),
        [1.0, 2.0, 3.0],
        0.0,
    ))
    .expect("a reference with a destination is a door");
    assert!(inside
        .destination
        .is_same(&CellId::Interior("Balmora, Guild of Mages".into())));
    assert_eq!(inside.arrival.map(f32::from_bits), [1.0, 2.0, 3.0]);

    // Seyda Neen's exterior. -10198 / 8192 floors to -2 and -71534 / 8192 to -9.
    let outside = Door::from_ref(&door_ref(None, [-10198.9, -71534.2, 232.0], 0.0))
        .expect("a reference with a destination is a door");
    assert!(outside
        .destination
        .is_same(&CellId::Exterior { x: -2, y: -9 }));
    assert!(!outside
        .destination
        .is_same(&CellId::Exterior { x: -1, y: -8 }));
}

#[test]
fn the_stored_yaw_reads_as_a_compass_bearing() {
    let facing = |yaw: f32| {
        let bearing = f32::from_bits(
            Door::from_ref(&door_ref(Some("anywhere"), [0.0; 3], yaw))
                .expect("a reference with a destination is a door")
                .bearing,
        );
        [bearing.sin(), bearing.cos()]
    };
    let near = |a: [f32; 2], b: [f32; 2]| (a[0] - b[0]).hypot(a[1] - b[1]) < 1e-6;

    // Zero is north, and the quarter turns run clockwise through east.
    assert!(near(facing(0.0), [0.0, 1.0]));
    assert!(near(facing(FRAC_PI_2), [1.0, 0.0]));
    assert!(near(facing(PI), [0.0, -1.0]));
    assert!(near(facing(3.0 * FRAC_PI_2), [-1.0, 0.0]));
}

#[test]
fn only_the_doors_into_a_cell_lead_to_it() {
    let index = index_of(&[("ex_nord_door_01", "meshes/door.nif")]);
    let mut gone = door_ref(Some("Cave"), [3.0; 3], 0.0);
    gone.deleted = true;
    let refs = vec![
        door_ref(Some("Cave"), [1.0; 3], 0.0),
        door_ref(Some("Elsewhere"), [2.0; 3], 0.0),
        gone,
        door_ref(None, [4.0; 3], 0.0),
    ];
    let doors = Door::leading_to(&refs, &index, &CellId::Interior("Cave".into()));
    assert_eq!(doors.len(), 1);
    assert_eq!(doors[0].arrival.map(f32::from_bits), [1.0; 3]);
    let doors = Door::leading_to(&refs, &index, &CellId::Exterior { x: 0, y: 0 });
    assert_eq!(doors.len(), 1);
    assert_eq!(doors[0].arrival.map(f32::from_bits), [4.0; 3]);
}

#[test]
fn a_square_is_rounded_down() {
    let square = |v: f32| square_of(v.to_bits());
    assert_eq!(square(0.0), 0);
    assert_eq!(square(8191.9), 0);
    assert_eq!(square(8192.0), 1);
    assert_eq!(square(-0.001), -1);
    assert_eq!(square(-8192.0), -1);
    assert_eq!(square(-8192.1), -2);
    assert_eq!(square(f32::NAN), 0);
    assert_eq!(square(f32::INFINITY), i32::MAX);
    assert_eq!(square(f32::NEG_INFINITY), i32::MIN);
    assert!(CellId::containing(1.0f32.to_bits(), (-1.0f32).to_bits())
        .is_same(&CellId::Exterior { x: 0, y: -1 }));
    let named = CellId::Interior("Cave".into());
    assert!(named.again().is_same(&named));
}

#[test]
fn an_eighth_is_the_nearest() {
    let eighth = |v: f32| to_eighths(v.to_bits());
    assert_eq!(eighth(1.0), 8);
    assert_eq!(eighth(0.06), 0);
    assert_eq!(eighth(0.0625), 1);
    assert_eq!(eighth(-0.0625), -1);
    assert_eq!(eighth(-50.0), -400);
    assert_eq!(eighth(f32::NAN), 0);
    assert_eq!(eighth(1e30), i32::MAX);
}

#[test]
fn a_whole_number_is_stored_to_the_nearest() {
    for n in [0i64, 1, -1, 128, -73728, 8192, 16_777_217, -16_777_219] {
        assert_eq!(to_bits(n), (n as f32).to_bits(), "{n}");
    }
    assert_eq!(to_rounded(16_777_217), 16_777_216);
    assert_eq!(to_rounded(-128), -128);
}

#[test]
fn stored_numbers_are_ordered_as_numbers() {
    let greater = |a: f32, b: f32| bits::is_greater(a.to_bits(), b.to_bits());
    assert!(greater(1.0, -1.0));
    assert!(greater(-1.0, -2.0));
    assert!(!greater(0.0, -0.0));
    assert!(!greater(f32::NAN, 1.0));
    assert!(!greater(1.0, f32::NAN));
    assert!(greater(f32::INFINITY, f32::MAX));
    assert!(bits::eq(0.0f32.to_bits(), (-0.0f32).to_bits()));
    assert!(!bits::eq(f32::NAN.to_bits(), f32::NAN.to_bits()));
    assert!(bits::is_nan(f32::NAN.to_bits()));
    assert!(bits::ranks_below((-0.0f32).to_bits(), 0.0f32.to_bits()));
    assert!(bits::eq2([1, 2], [1, 2]));
    assert!(!bits::eq3([1, 2, 3], [1, 2, 4]));
}

fn fog_record(fog_density: u32) -> CellAmbient {
    CellAmbient {
        ambient: 0,
        sunlight: 0,
        fog: 0,
        fog_density,
    }
}

#[test]
fn a_malformed_fog_density_reads_as_no_fog_rather_than_as_a_nan() {
    for bits in [
        f32::NAN.to_bits(),
        f32::INFINITY.to_bits(),
        (-1.0f32).to_bits(),
    ] {
        assert_eq!(
            f32::from_bits(Ambient::from_record(fog_record(bits)).fog_density),
            0.0,
            "a density stored as {bits:#010x} should read as no fog"
        );
    }
    // And a real one comes through as itself rather than being sanitised into a default.
    assert_eq!(
        f32::from_bits(Ambient::from_record(fog_record(0.75f32.to_bits())).fog_density),
        0.75
    );
}

/// Linear light from a packed colour.
fn to_linear(packed: u32) -> [f32; 3] {
    unpack(packed).map(|byte| {
        let encoded = byte as f32 / 255.0;
        if encoded <= 0.04045 {
            encoded / 12.92
        } else {
            ((encoded + 0.055) / 1.055).powf(2.4)
        }
    })
}

#[test]
fn a_packed_colour_unpacks_red_first_and_decodes_to_linear() {
    // 0xAABBGGRR, so the low byte is red and the high one is alpha, which is ignored.
    let red = to_linear(0x0000_00FF);
    assert!((red[0] - 1.0).abs() < 1e-5);
    assert_eq!((red[1], red[2]), (0.0, 0.0));
    assert_eq!(to_linear(0xFF00_0000), [0.0; 3]);

    let blue = to_linear(0x00FF_0000);
    assert!((blue[2] - 1.0).abs() < 1e-5);

    // Mid grey is where the two spaces diverge most.
    let grey = to_linear(0x0080_8080);
    assert!((grey[0] - 0.2158).abs() < 1e-3, "got {}", grey[0]);
    for channel in to_linear(0x00FF_FFFF) {
        assert!((channel - 1.0).abs() < 1e-5);
    }
    assert_eq!(unpack(0xFF12_3456), [0x56, 0x34, 0x12]);
}

#[test]
fn a_cell_outdoors_is_lit_by_an_overcast_sky() {
    let Colour::Linear(sky) = Ambient::outdoors().colour else {
        panic!("the sky's own colour is linear")
    };
    assert_eq!(sky.map(f32::from_bits), [0.35, 0.42, 0.55]);
}

#[test]
fn a_texture_name_gains_its_directory_and_loses_its_extension() {
    assert_eq!(texture_path("tx_stone.tga"), "textures/tx_stone.dds");
    assert_eq!(texture_path("tx_stone.dds"), "textures/tx_stone.dds");
    // Backslashes are how the tools write subdirectories.
    assert_eq!(
        texture_path("bookart\\book.tga"),
        "textures/bookart/book.dds"
    );
    // A name that already carries the directory must not gain a second one.
    assert_eq!(
        texture_path("textures/tx_stone.tga"),
        "textures/tx_stone.dds"
    );
    assert_eq!(
        texture_path("Textures\\tx_Stone.TGA"),
        "Textures/tx_Stone.dds"
    );
    // No extension at all is still a DDS lookup.
    assert_eq!(texture_path("tx_stone"), "textures/tx_stone.dds");
    // A path that is already in order stays as it is.
    let path = texture_path("bookart\\book.tga");
    assert_eq!(texture_path(&path), path);
}

#[test]
fn identical_materials_collapse_and_different_ones_do_not() {
    let mut table = MaterialTable::new();
    let stone = table.intern_texture("textures/tx_stone.dds");
    assert_eq!(stone, table.intern_texture("textures/tx_stone.dds"));
    assert_eq!(table.textures().len(), 1);

    let opaque = Material {
        base_colour: Some(stone),
        ..Material::default()
    };
    assert_eq!(table.intern(opaque), 0);
    assert_eq!(table.intern(opaque), 0, "the same material was added twice");

    // The alpha mode alone must separate two otherwise identical materials.
    let masked = Material {
        alpha: AlphaMode::Mask(128),
        ..opaque
    };
    assert_eq!(table.intern(masked), 1);
    assert_eq!(table.materials().len(), 2);

    // So must the emissive colour, which is the only light some interiors have.
    let glowing = Material {
        emissive: [0.5f32.to_bits(); 3],
        ..opaque
    };
    assert_eq!(table.intern(glowing), 2);
    assert!(opaque.is_same(&opaque));
    assert!(!opaque.is_same(&masked));
}

#[test]
fn texture_ids_index_the_path_list_in_insertion_order() {
    let mut table = MaterialTable::new();
    let first = table.intern_texture("a.dds");
    let second = table.intern_texture("b.dds");
    assert_eq!((first, second), (TextureId(0), TextureId(1)));
    assert_eq!(table.textures(), ["a.dds", "b.dds"]);
}

#[test]
fn a_shape_takes_the_last_property_of_each_kind() {
    let nif = Nif {
        blocks: vec![
            Block::Material(MaterialProperty {
                diffuse: [1.0f32.to_bits(); 3],
                emissive: [0; 3],
                alpha: 0.25f32.to_bits(),
            }),
            Block::Alpha(AlphaProperty {
                tests: true,
                blends: false,
                adds: false,
                threshold: 100,
            }),
            Block::Alpha(AlphaProperty {
                tests: false,
                blends: true,
                adds: true,
                threshold: 0,
            }),
        ],
        roots: Vec::new(),
    };
    let mut table = MaterialTable::new();
    let held = Properties::none().overridden_by(&nif, &vec![link(0), link(1)]);
    let material = held.resolve(&nif, &mut table);
    assert_eq!(material.alpha, AlphaMode::Mask(100));
    assert_eq!(f32::from_bits(material.opacity), 0.25);
    assert!(!held.adds(&nif));

    let over = held.overridden_by(&nif, &vec![link(2), link(9)]);
    assert!(over.adds(&nif));
    assert_eq!(over.resolve(&nif, &mut table).alpha, AlphaMode::Blend);
}

#[test]
fn a_model_flattens_to_what_it_draws() {
    let mut table = MaterialTable::new();
    let (mesh, spans) = Mesh::from_nif(&model("Tri Chest"), &mut table);
    assert_eq!(mesh.positions.len(), 3);
    assert_eq!(mesh.indices, vec![0, 1, 2]);
    assert_eq!(table.textures(), ["textures/tx_stone.dds"]);
    assert_eq!(spans.len(), 1);
    assert_eq!((spans[0].block, spans[0].first_vertex, spans[0].vertex_count), (1, 0, 3));
    assert_eq!(spans[0].chain, vec![0, 1]);

    // A marker is not drawn, and neither is what is hidden.
    let (mesh, spans) = Mesh::from_nif(&model("EditorMarker"), &mut table);
    assert!(mesh.is_empty());
    assert!(spans.is_empty());
    let mut hidden = model("Tri Chest");
    if let Block::Geometry(geometry) = &mut hidden.blocks[1] {
        geometry.object.hidden = true;
    }
    assert!(Mesh::from_nif(&hidden, &mut table).0.is_empty());

    // One slot out of a file that holds several.
    let mut spans = Vec::new();
    let mesh = Mesh::from_nif_tracked(&model("Tri Chest"), &mut table, &mut spans, Some("hand"));
    assert_eq!(mesh.positions.len(), 3, "a file with no such slot is taken whole");
}

#[test]
fn a_graph_that_loops_is_still_walked_to_an_end() {
    let mut looped = model("Tri Chest");
    if let Block::Node(node) = &mut looped.blocks[0] {
        node.children.push(link(0));
    }
    let mut table = MaterialTable::new();
    let (mesh, _) = Mesh::from_nif(&looped, &mut table);
    assert!(mesh.positions.len() >= 3);
}

#[test]
fn a_sliding_texture_slides_as_its_controller_says() {
    let scroll = [0.5f32.to_bits(), (-0.25f32).to_bits()];
    let mut nif = model("Tri Water");
    nif.blocks.push(Block::Controller(Controller {
        keyframe: false,
        data: Link::nowhere(),
        next: link(6),
    }));
    nif.blocks.push(Block::UvController(UvController {
        data: link(7),
        scroll,
    }));
    nif.blocks.push(Block::UvData);
    assert_eq!(rtxmw::scene::flatten::sliding(&nif, link(5)), scroll);
    assert_eq!(rtxmw::scene::flatten::sliding(&nif, Link::nowhere()), [0; 2]);
}

#[test]
fn a_cell_shares_one_mesh_between_the_references_that_draw_it() {
    let index = ModelIndex::build(&vec![
        record("crate", Some("meshes/crate.nif"), None),
        record(
            "lamp",
            Some("meshes/lamp.nif"),
            Some(LightRecord {
                colour: 0x0000_80FF,
                radius: 128,
                placeable: true,
            }),
        ),
        record("marker", Some("meshes/marker_x.nif"), None),
    ]);
    let mut gone = reference("lamp");
    gone.deleted = true;
    let refs = vec![
        reference("crate"),
        reference("Crate"),
        reference("lamp"),
        reference("marker"),
        reference("sound"),
        gone,
    ];
    assert_eq!(
        models_needed(&refs, &index),
        ["meshes/crate.nif", "meshes/lamp.nif"]
    );
    let files = vec![model("Tri Crate"), model("Tri Lamp")];
    assert!(cell_fits(&files));

    let full = StaticScene::of_references(&refs, &index, &files, CellDetail::Full)
        .expect("every model is there");
    assert_eq!(full.meshes.len(), 2);
    assert_eq!(full.instances.len(), 3);
    assert_eq!(full.instances[1].mesh, MeshId(0));
    assert_eq!(full.without_model, ["sound"]);
    assert_eq!(full.lights.len(), 1);
    assert_eq!(full.lights[0].colour, [0xFF, 0x80, 0]);
    assert_eq!(f32::from_bits(full.lights[0].radius), 128.0);
    assert_eq!(full.placed_triangle_count(), 3);
    assert_eq!(full.unique_triangle_count(), 2);

    // A distant cell keeps its objects and drops the lights they carry.
    let distant = StaticScene::of_references(&refs, &index, &files, CellDetail::Distant)
        .expect("every model is there");
    assert_eq!(distant.instances.len(), 3);
    assert!(distant.lights.is_empty());
    assert_eq!(CellDetail::default(), CellDetail::Full);
    // A model that could not be had leaves no cell.
    let short = vec![model("Tri Crate")];
    assert!(StaticScene::of_references(&refs, &index, &short, CellDetail::Full).is_none());
    assert_eq!((CellDetail::Full.stride(), CellDetail::Distant.stride()), (1, 4));
}

#[test]
fn a_model_that_draws_nothing_is_held_and_never_placed() {
    let index = index_of(&[("hull", "meshes/hull.nif")]);
    let scene = StaticScene::of_references(
        &vec![reference("hull")],
        &index,
        &vec![model("RootCollisionNode")],
        CellDetail::Full,
    )
    .expect("every model is there");
    assert_eq!(scene.meshes.len(), 1);
    assert!(scene.instances.is_empty());
    assert!(!scene.places_anything());
}

#[test]
fn an_exterior_cell_stands_on_its_ground_under_its_sky() {
    let land = Land {
        grid_x: -2,
        grid_y: -9,
        heights: vec![0; GRID * GRID],
        normals: Vec::new(),
        textures: Vec::new(),
    };
    let index = ModelIndex::build(&vec![record("crate", Some("meshes/crate.nif"), None)]);
    let scene = StaticScene::load_cell(
        &cell_with(false, true, -2, -9, None),
        &vec![reference("crate")],
        &index,
        &vec![model("Tri Crate")],
        Some(&land),
        &[],
        CellDetail::Distant,
    )
    .expect("every model is there");
    assert_eq!(
        scene.mesh_sources,
        ["meshes/crate.nif", "water", "land:-2,-9"]
    );
    assert!(scene.sunlit);
    assert_eq!(scene.meshes[2].positions.len(), 17 * 17);
    assert!(matches!(scene.instances[2].placement, Placement::World));
    assert!(scene
        .materials
        .materials()
        .iter()
        .any(|m| matches!(m.kind, MaterialKind::Water)));

    // A room is lit by what its own record says.
    let mut room = cell_with(true, false, 0, 0, None);
    room.ambient = Some(fog_record(0.5f32.to_bits()));
    let scene = StaticScene::load_cell(
        &room,
        &Vec::new(),
        &index,
        &Vec::new(),
        None,
        &[],
        CellDetail::Full,
    )
    .expect("a room with nothing in it needs no models");
    assert!(!scene.sunlit);
    assert_eq!(scene.ambient.map(|a| a.fog_density), Some(0.5f32.to_bits()));
}

/// An uncompressed picture of `side` texels across, eight bits a channel.
fn picture(side: u8) -> Vec<u8> {
    let mut tga = vec![0u8; 18];
    tga[2] = 2;
    tga[12] = side;
    tga[14] = side;
    tga[16] = 24;
    tga.extend(vec![100u8; side as usize * side as usize * 3]);
    tga
}

#[test]
fn a_sky_without_its_pictures_is_still_a_sky() {
    let faces = MoonFaces::load(&Some(picture(2)), &Some(b"nonsense".to_vec()));
    assert!(faces.masser.is_some());
    assert!(faces.secunda.is_none());

    // The cloud sheet comes with one level and is given the rest; a portrait keeps what it has.
    let sky = SkyTextures::load(&Some(picture(4)), &None, &Some(picture(4)));
    assert_eq!(sky.masser.map(|t| t.levels().len()), Some(1));
    assert!(sky.secunda.is_none());
    assert_eq!(sky.clouds.map(|t| t.levels().len()), Some(3));
    assert!(SkyTextures::load(&None, &None, &None).clouds.is_none());
    assert_eq!(sheet_path("tx_sky_clear.dds"), "textures\\tx_sky_clear.dds");
}

#[test]
fn a_loaded_cell_says_how_many_of_its_textures_are_missing() {
    let mut scene = StaticScene::new();
    scene.materials.intern_texture("textures/here.dds");
    scene.materials.intern_texture("textures/broken.dds");
    scene.materials.intern_texture("textures/gone.dds");
    let tga = picture(1);
    assert!(decode_read(&Some(tga.clone())).is_some());
    assert!(decode_read(&None).is_none());
    let files = vec![Some(tga), Some(b"nonsense".to_vec()), None];
    let cell = LoadedCell::assemble(CellId::Interior("Cave".into()), scene, &files, Vec::new());
    assert_eq!(cell.textures.len(), 3);
    assert!(cell.textures[0].is_some());
    assert_eq!(cell.missing_textures(), 2);
    assert!(cell.id.is_same(&CellId::Interior("Cave".into())));
}

fn asked(name: &str) -> Event {
    Event::Asked(Request {
        id: CellId::Interior(name.into()),
        detail: CellDetail::Full,
    })
}

#[test]
fn a_streamer_answers_what_it_was_asked_in_turn() {
    let (serving, action) = Serving::new().take(asked("Cave"));
    assert_eq!(action, Action::Reach);
    let (serving, action) = serving.take(Event::Reached);
    assert_eq!(action, Action::Load);
    let (serving, action) = serving.take(Event::Loaded);
    assert_eq!(action, Action::Answer);
    let wanted = serving.wanted().expect("something is being answered");
    assert!(wanted.id.is_same(&CellId::Interior("Cave".into())));
    let (serving, action) = serving.take(Event::Answered);
    assert_eq!(action, Action::Listen);
    assert!(serving.wanted().is_none());
    // The game is reached once.
    let (serving, action) = serving.take(asked("Tower"));
    assert_eq!(action, Action::Load);
    let (serving, action) = serving.take(Event::Unheard);
    assert_eq!(action, Action::Stop);
    assert_eq!(serving.take(asked("Cave")).1, Action::Stop);
}

#[test]
fn a_game_that_cannot_be_reached_is_reported_against_what_was_asked() {
    let (serving, _) = Serving::new().take(asked("Cave"));
    let (serving, action) = serving.take(Event::Failed);
    assert_eq!(action, Action::Report);
    assert!(serving.wanted().is_some());

    let (serving, _) = Serving::new().take(asked("Cave"));
    assert_eq!(serving.take(Event::Absent).1, Action::Stop);
    assert_eq!(Serving::new().take(Event::Closed).1, Action::Stop);
}
