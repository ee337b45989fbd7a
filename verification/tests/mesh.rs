use rtxmw::scene::actor::{AssembledActor, PartSpan};
use rtxmw::scene::bounds::ground_below;
use rtxmw::scene::flatten::{fits, measure, GeometrySpan};
use rtxmw::scene::nif::{GeometryData, Link};
use rtxmw::scene::walk::{is_skippable, names_slot};
use rtxmw::scene::{AlphaMode, Material, MaterialTable, Mesh, Submesh};

fn bits(p: [f32; 3]) -> [u32; 3] {
    p.map(f32::to_bits)
}

fn floats(p: [u32; 3]) -> [f32; 3] {
    p.map(f32::from_bits)
}

fn close_run(mesh: &mut Mesh, first_index: u32) {
    mesh.submeshes.push(Submesh {
        first_index,
        index_count: mesh.indices.len() as u32 - first_index,
        material: 0,
        thin: false,
    });
}

/// A closed box of side `size` about the origin, as twelve triangles in one run.
fn box_mesh(size: f32) -> Mesh {
    let h = size / 2.0;
    let mut mesh = Mesh {
        positions: [
            [-1.0, -1.0, -1.0],
            [1.0, -1.0, -1.0],
            [1.0, 1.0, -1.0],
            [-1.0, 1.0, -1.0],
            [-1.0, -1.0, 1.0],
            [1.0, -1.0, 1.0],
            [1.0, 1.0, 1.0],
            [-1.0, 1.0, 1.0],
        ]
        .iter()
        .map(|c: &[f32; 3]| bits(c.map(|v| v * h)))
        .collect(),
        normals: vec![bits([0.0, 0.0, 1.0]); 8],
        uvs: vec![[0; 2]; 8],
        indices: vec![
            0, 2, 1, 0, 3, 2, 4, 5, 6, 4, 6, 7, 0, 1, 5, 0, 5, 4, 1, 2, 6, 1, 6, 5, 2, 3, 7, 2, 7,
            6, 3, 0, 4, 3, 4, 7,
        ],
        submeshes: Vec::new(),
    };
    close_run(&mut mesh, 0);
    mesh
}

/// A flat quad of side `size` in the XY plane, as one run.
fn quad_mesh(size: f32) -> Mesh {
    let h = size / 2.0;
    let mut mesh = Mesh {
        positions: vec![
            bits([-h, -h, 0.0]),
            bits([h, -h, 0.0]),
            bits([h, h, 0.0]),
            bits([-h, h, 0.0]),
        ],
        normals: vec![bits([0.0, 0.0, 1.0]); 4],
        uvs: vec![[0; 2]; 4],
        indices: vec![0, 1, 2, 0, 2, 3],
        submeshes: Vec::new(),
    };
    close_run(&mut mesh, 0);
    mesh
}

/// Appends a cylinder wall of `sides` facets, open at both ends.
fn add_tube(mesh: &mut Mesh, radius: f32, height: f32, sides: u32) {
    let first_index = mesh.indices.len() as u32;
    let base = mesh.positions.len() as u32;
    for step in 0..sides {
        let angle = std::f32::consts::TAU * step as f32 / sides as f32;
        for &z in &[-height / 2.0, height / 2.0] {
            mesh.positions
                .push(bits([radius * angle.cos(), radius * angle.sin(), z]));
            mesh.normals.push(bits([angle.cos(), angle.sin(), 0.0]));
            mesh.uvs.push([0; 2]);
        }
    }
    for step in 0..sides {
        let here = base + step * 2;
        let next = base + ((step + 1) % sides) * 2;
        mesh.indices
            .extend_from_slice(&[here, next, next + 1, here, next + 1, here + 1]);
    }
    close_run(mesh, first_index);
}

fn minus(a: [f32; 3], b: [f32; 3]) -> [f32; 3] {
    [a[0] - b[0], a[1] - b[1], a[2] - b[2]]
}

fn cross(a: [f32; 3], b: [f32; 3]) -> [f32; 3] {
    [
        a[1] * b[2] - a[2] * b[1],
        a[2] * b[0] - a[0] * b[2],
        a[0] * b[1] - a[1] * b[0],
    ]
}

fn dot(a: [f32; 3], b: [f32; 3]) -> f32 {
    a[0] * b[0] + a[1] * b[1] + a[2] * b[2]
}

/// What a run bounds, as a fraction of what a solid of the same surface area would.
fn run_volume(mesh: &Mesh, run: &Submesh) -> f32 {
    let span = run.first_index as usize..(run.first_index + run.index_count) as usize;
    let corners: Vec<[f32; 3]> = mesh.indices[span]
        .iter()
        .map(|i| floats(mesh.positions[*i as usize]))
        .collect();
    let mut centre = [0.0f32; 3];
    for corner in &corners {
        for axis in 0..3 {
            centre[axis] += corner[axis];
        }
    }
    let centre = centre.map(|c| c / corners.len() as f32);
    let (mut volume, mut area) = (0.0, 0.0);
    for triangle in corners.chunks_exact(3) {
        let a = minus(triangle[0], centre);
        let b = minus(triangle[1], centre);
        let c = minus(triangle[2], centre);
        volume += dot(a, cross(b, c)) / 6.0;
        let face = cross(minus(b, a), minus(c, a));
        area += dot(face, face).sqrt() / 2.0;
    }
    if area <= 0.0 {
        return 0.0;
    }
    volume.abs() / area.powf(1.5)
}

fn classify(mesh: &mut Mesh, table: &MaterialTable) {
    let volumes: Vec<u32> = mesh
        .submeshes
        .iter()
        .map(|run| run_volume(mesh, run).to_bits())
        .collect();
    mesh.classify_sheets(table, &volumes);
}

fn opaque_table() -> MaterialTable {
    let mut table = MaterialTable::new();
    table.intern(Material::default());
    table
}

#[test]
fn a_sheet_is_told_from_a_solid_by_its_border_and_what_it_wraps() {
    // A closed box has no border at all, so nothing in it is cloth however its runs are split.
    let mut solid = box_mesh(100.0);
    classify(&mut solid, &opaque_table());
    assert!(!solid.submeshes[0].thin, "a closed box is not cloth");

    // A flat quad is all border and wraps nothing.
    let mut flat = quad_mesh(100.0);
    classify(&mut flat, &opaque_table());
    assert!(flat.submeshes[0].thin);

    // A tube has a border at each end but wraps its own air.
    let mut tube = Mesh::new();
    add_tube(&mut tube, 60.0, 200.0, 12);
    classify(&mut tube, &opaque_table());
    assert!(!tube.submeshes[0].thin, "a wall shell is not cloth");

    // A solid whose top is a run of its own: asking the mesh rather than the run keeps it solid.
    let mut split = box_mesh(100.0);
    let top = split.submeshes[0];
    split.submeshes[0] = Submesh {
        index_count: 6,
        ..top
    };
    split.submeshes.push(Submesh {
        first_index: 6,
        index_count: top.index_count - 6,
        ..top
    });
    classify(&mut split, &opaque_table());
    assert!(
        split.submeshes.iter().all(|run| !run.thin),
        "splitting a solid by material turned it into cloth"
    );

    // The two signals together are still per run.
    let mut boat = Mesh::new();
    add_tube(&mut boat, 60.0, 200.0, 12);
    let sail_first = boat.indices.len() as u32;
    let base = boat.positions.len() as u32;
    let sail = quad_mesh(100.0);
    boat.positions.extend_from_slice(&sail.positions);
    boat.normals.extend_from_slice(&sail.normals);
    boat.uvs.extend_from_slice(&sail.uvs);
    boat.indices.extend(sail.indices.iter().map(|i| i + base));
    close_run(&mut boat, sail_first);
    classify(&mut boat, &opaque_table());
    assert!(!boat.submeshes[0].thin, "the hull");
    assert!(boat.submeshes[1].thin, "the sail");

    // And the material has the last word, over a shape that says the opposite.
    let mut cutout = MaterialTable::new();
    cutout.intern(Material {
        alpha: AlphaMode::Blend,
        ..Material::default()
    });
    let mut foliage = box_mesh(100.0);
    classify(&mut foliage, &cutout);
    assert!(
        foliage.submeshes[0].thin,
        "a cutout is a sheet whatever shape its triangles make"
    );
}

/// A body of these pieces.
fn body(pieces: &[Mesh]) -> AssembledActor {
    let mut mesh = Mesh::new();
    let mut spans = Vec::new();
    for (part, piece) in pieces.iter().enumerate() {
        spans.push(PartSpan {
            part: part as u32,
            base_vertex: mesh.positions.len() as u32,
            span: GeometrySpan {
                block: 0,
                skin: Link::nowhere(),
                first_vertex: 0,
                vertex_count: piece.positions.len() as u32,
                chain: Vec::new(),
            },
        });
        mesh.absorb(piece);
    }
    AssembledActor {
        mesh,
        spans,
        parents: Vec::new(),
        rest: Vec::new(),
        channels: Vec::new(),
        bones: Vec::new(),
        influences: Vec::new(),
        duration: 0,
    }
}

#[test]
fn each_piece_of_a_body_is_told_by_itself() {
    // A box whose flat bottom is a run of its own is solid by itself, whatever is worn with it.
    let solid = || {
        let mut solid = box_mesh(100.0);
        let whole = solid.submeshes[0];
        solid.submeshes[0].index_count = 6;
        solid.submeshes.push(Submesh {
            first_index: 6,
            index_count: whole.index_count - 6,
            ..whole
        });
        solid
    };
    let mut tube = Mesh::new();
    add_tube(&mut tube, 60.0, 200.0, 12);
    let mut actor = body(&[solid(), quad_mesh(90.0), tube, solid()]);
    let volumes: Vec<u32> = actor
        .mesh
        .submeshes
        .iter()
        .map(|run| run_volume(&actor.mesh, run).to_bits())
        .collect();
    actor.classify_sheets(&opaque_table(), &volumes);
    let thin: Vec<bool> = actor.mesh.submeshes.iter().map(|run| run.thin).collect();
    assert_eq!(thin, [false, false, true, false, false, false]);

    // As one mesh it is open, and the flat runs of the boxes would pass for cloth.
    classify(&mut actor.mesh, &opaque_table());
    let thin: Vec<bool> = actor.mesh.submeshes.iter().map(|run| run.thin).collect();
    assert_eq!(thin, [true, false, true, false, true, false]);
}

#[test]
fn winding_does_not_make_a_border() {
    for mut mesh in [box_mesh(100.0), quad_mesh(100.0)] {
        let open = mesh.has_border();
        for triangle in mesh.indices.chunks_exact_mut(3) {
            triangle.swap(1, 2);
        }
        assert_eq!(mesh.has_border(), open);
    }
}

#[test]
fn only_an_open_mesh_has_a_border() {
    assert!(!box_mesh(100.0).has_border());
    assert!(quad_mesh(100.0).has_border());
    assert!(!Mesh::new().has_border());
}

#[test]
fn vertices_split_along_a_seam_make_no_border() {
    // Every triangle of the box gets three vertices of its own, so no two share a number.
    let whole = box_mesh(100.0);
    let mut split = Mesh::new();
    for (number, index) in whole.indices.iter().enumerate() {
        split.positions.push(whole.positions[*index as usize]);
        split.indices.push(number as u32);
    }
    assert!(!split.has_border());

    // Corners an eighth of a unit apart are different corners, and less than half of one are not.
    let mut near = Mesh::new();
    near.positions = split.positions.clone();
    near.indices = split.indices.clone();
    near.positions[0] = bits([-49.96, -50.0, -50.0]);
    assert!(!near.has_border());
    near.positions[0] = bits([-49.875, -50.0, -50.0]);
    assert!(near.has_border());
}

#[test]
fn collision_and_marker_nodes_are_skipped_by_name() {
    assert!(is_skippable("RootCollisionNode"));
    assert!(is_skippable("AvoidNode"));
    assert!(is_skippable("EditorMarker"));
    assert!(is_skippable("Tri EditorMarker"));
    // Case is inconsistent in the shipped data.
    assert!(is_skippable("tri editormarker 01"));

    assert!(!is_skippable("Bip01"));
    assert!(!is_skippable("Tri Chest"));
    // A name merely containing the word is still real geometry.
    assert!(!is_skippable("MyEditorMarkerShelf"));
}

#[test]
fn a_slot_is_named_anywhere_in_a_shape_and_in_any_case() {
    assert!(names_slot("Tri Left Hand 0", "hand"));
    assert!(names_slot("TRI RIGHT HAND 2", "Right Hand"));
    assert!(!names_slot("Tri Chest", "hand"));
    assert!(!names_slot("hand", "left hand"));
}

#[test]
fn adjacent_blocks_sharing_a_material_become_one_submesh() {
    let mut mesh = Mesh::new();
    // Two runs of material 0, then material 1, then material 0 again. Only the adjacent pair may
    // merge.
    mesh.push_run(0, 3, 0);
    mesh.push_run(3, 3, 0);
    mesh.push_run(6, 3, 1);
    mesh.push_run(9, 3, 0);

    assert_eq!(
        mesh.submeshes,
        vec![
            Submesh {
                first_index: 0,
                index_count: 6,
                material: 0,
                thin: false,
            },
            Submesh {
                first_index: 6,
                index_count: 3,
                material: 1,
                thin: false,
            },
            Submesh {
                first_index: 9,
                index_count: 3,
                material: 0,
                thin: false,
            },
        ]
    );
    assert_eq!(mesh.submeshes[0].triangle_count(), 2);
    // The runs must tile the index buffer with no gap, or geometry vanishes at build time.
    let covered: u32 = mesh.submeshes.iter().map(|s| s.index_count).sum();
    assert_eq!(covered, 12);
}

#[test]
fn bounds_cover_every_position() {
    let mut mesh = Mesh::new();
    mesh.positions = vec![
        bits([-1.0, 2.0, 0.0]),
        bits([3.0, -4.0, 5.0]),
        bits([0.0, 0.0, 0.0]),
    ];
    mesh.indices = vec![0, 1, 2];
    let bounds = mesh.bounds().expect("non-empty");
    assert_eq!(floats(bounds.min), [-1.0, -4.0, 0.0]);
    assert_eq!(floats(bounds.max), [3.0, 2.0, 5.0]);
    assert_eq!(minus(floats(bounds.max), floats(bounds.min)), [4.0, 6.0, 5.0]);

    assert!(Mesh::new().bounds().is_none());
}

#[test]
fn a_box_grows_only_where_a_point_is_outside_it() {
    let mut mesh = Mesh::new();
    mesh.positions = vec![bits([0.0, 0.0, 0.0]), bits([1.0, 1.0, 1.0])];
    let held = mesh.bounds().unwrap().holding(bits([0.5, -2.0, 7.0]));
    assert_eq!(floats(held.min), [0.0, -2.0, 0.0]);
    assert_eq!(floats(held.max), [1.0, 1.0, 7.0]);
}

#[test]
fn a_piece_joins_a_mesh_with_its_indices_moved() {
    let piece = GeometryData {
        vertices: vec![bits([0.0, 0.0, 0.0]), bits([1.0, 0.0, 0.0]), bits([0.0, 1.0, 0.0])],
        normals: Vec::new(),
        uv_sets: vec![vec![[1, 2], [3, 4], [5, 6]]],
        triangles: vec![[0, 1, 2]],
    };
    let mut mesh = Mesh::new();
    mesh.append(&piece, 4);
    mesh.append(&piece, 4);
    assert_eq!(mesh.positions.len(), 6);
    // Normals the piece does not have are nothing rather than missing.
    assert_eq!(mesh.normals, vec![[0; 3]; 6]);
    assert_eq!(mesh.uvs[4], [3, 4]);
    assert_eq!(mesh.indices, vec![0, 1, 2, 3, 4, 5]);
    assert_eq!(mesh.submeshes.len(), 1);
    assert_eq!(mesh.triangle_count(), 2);

    // A piece with no triangles brings nothing.
    let bare = GeometryData {
        vertices: vec![[0; 3]],
        normals: Vec::new(),
        uv_sets: Vec::new(),
        triangles: Vec::new(),
    };
    mesh.append(&bare, 9);
    assert_eq!(mesh.positions.len(), 6);
    assert_eq!(mesh.submeshes.len(), 1);
}

#[test]
fn absorbing_a_mesh_keeps_its_runs_in_order() {
    let mut mesh = quad_mesh(10.0);
    mesh.absorb(&box_mesh(10.0));
    assert_eq!(mesh.positions.len(), 12);
    assert_eq!(mesh.indices[6..9], [4, 6, 5]);
    assert_eq!(mesh.submeshes.last().map(|r| r.first_index + r.index_count), Some(42));
    assert!(!mesh.is_empty());
}

#[test]
fn a_water_plane_is_a_unit_square_facing_up() {
    let plane = Mesh::water_plane(3);
    assert_eq!(plane.triangle_count(), 2);
    assert_eq!(floats(plane.positions[0]), [-0.5, -0.5, 0.0]);
    assert_eq!(floats(plane.positions[2]), [0.5, 0.5, 0.0]);
    assert!(plane.normals.iter().all(|n| floats(*n) == [0.0, 0.0, 1.0]));
    assert_eq!(plane.submeshes[0].material, 3);
}

/// The height at which a triangle covers a point of the plan, or nothing where it does not.
fn height_at(corners: [[f32; 3]; 3], at: [f32; 2]) -> Option<f32> {
    let [a, b, c] = corners;
    let (ux, uy) = (b[0] - a[0], b[1] - a[1]);
    let (vx, vy) = (c[0] - a[0], c[1] - a[1]);
    let (ox, oy) = (at[0] - a[0], at[1] - a[1]);
    let area = ux * vy - vx * uy;
    let u = (ox * vy - vx * oy) / area;
    let v = (ux * oy - ox * uy) / area;
    if !(u >= 0.0 && v >= 0.0 && u + v <= 1.0) {
        return None;
    }
    Some(a[2] + u * (b[2] - a[2]) + v * (c[2] - a[2]))
}

/// A horizontal square floor at height `z`, `size` units on a side from the origin.
fn slab(z: f32, size: f32) -> Vec<[[f32; 3]; 3]> {
    let corners = [[0.0, 0.0, z], [size, 0.0, z], [size, size, z], [0.0, size, z]];
    vec![
        [corners[0], corners[1], corners[2]],
        [corners[0], corners[2], corners[3]],
    ]
}

fn dropped(scene: &[[[f32; 3]; 3]], from: [f32; 3]) -> Option<f32> {
    let heights: Vec<u32> = scene
        .iter()
        .filter_map(|triangle| height_at(*triangle, [from[0], from[1]]))
        .map(f32::to_bits)
        .collect();
    ground_below(&heights, from[2].to_bits()).map(f32::from_bits)
}

#[test]
fn the_ground_below_a_point_is_the_highest_surface_under_it() {
    // Three floors stacked at 0, 100 and 250, the top one covering only a quarter of the plan.
    let mut scene = slab(0.0, 100.0);
    scene.extend(slab(100.0, 100.0));
    scene.extend(slab(250.0, 25.0));

    assert_eq!(dropped(&scene, [50.0, 20.0, 300.0]), Some(100.0));
    // From below that floor, the one under it.
    assert_eq!(dropped(&scene, [50.0, 20.0, 60.0]), Some(0.0));
    // Exactly on a surface counts as standing on it rather than falling through.
    assert_eq!(dropped(&scene, [50.0, 20.0, 100.0]), Some(100.0));
    assert_eq!(dropped(&scene, [10.0, 10.0, 300.0]), Some(250.0));
    // Below everything, and outside the plan entirely.
    assert_eq!(dropped(&scene, [50.0, 20.0, -1.0]), None);
    assert_eq!(dropped(&scene, [500.0, 500.0, 300.0]), None);

    // A wall covers no ground.
    scene.push([[0.0, 0.0, 0.0], [0.0, 0.0, 400.0], [100.0, 0.0, 400.0]]);
    assert_eq!(dropped(&scene, [50.0, 20.0, 300.0]), Some(100.0));
    // And a height that is no number is no ground.
    assert_eq!(ground_below(&vec![f32::NAN.to_bits()], 1.0f32.to_bits()), None);
}

#[test]
fn an_empty_model_measures_nothing() {
    let nif = rtxmw::scene::nif::Nif {
        blocks: Vec::new(),
        roots: Vec::new(),
    };
    assert_eq!(measure(&nif, None), Some((0, 0, 0)));
    assert!(fits(&nif, &MaterialTable::new(), None));
}
