use rtxmw::scene::terrain::{Land, GRID, TERRAIN_QUADRANTS};
use rtxmw::scene::terrain_materials::terrain_materials;
use rtxmw::scene::{MaterialKind, MaterialTable, Mesh};

const VERTICES: usize = GRID * GRID;

/// Patches of ground in a cell, which is how many materials the ground wants.
const PATCHES: usize = TERRAIN_QUADRANTS * TERRAIN_QUADRANTS;

/// A heightmap sloping up to the east, on the cell at `(grid_x, grid_y)`.
fn sloping_land(grid_x: i32, grid_y: i32) -> Land {
    Land {
        grid_x,
        grid_y,
        heights: (0..VERTICES)
            .map(|i| ((i % GRID) as f32 * 10.0).to_bits())
            .collect(),
        normals: vec![[0.0f32, 0.0, 1.0].map(f32::to_bits); VERTICES],
        textures: Vec::new(),
    }
}

fn at(mesh: &Mesh, i: usize) -> [f32; 3] {
    mesh.positions[i].map(f32::from_bits)
}

fn plan(p: [f32; 3]) -> [f32; 2] {
    [p[0], p[1]]
}

#[test]
fn terrain_lands_where_its_cell_is() {
    // Cell (-2, -9) is Seyda Neen's, and its south-west corner is at -2 and -9 times the 8,192-unit
    // cell.
    let mesh = Mesh::from_land(&sloping_land(-2, -9), &[0; PATCHES], 1);
    assert_eq!(mesh.positions.len(), VERTICES);
    assert_eq!(plan(at(&mesh, 0)), [-16384.0, -73728.0]);

    // The far corner is one cell along in each direction, *not* one vertex short of it.
    assert_eq!(
        plan(at(&mesh, VERTICES - 1)),
        [-16384.0 + 8192.0, -73728.0 + 8192.0]
    );

    // Height comes through unscaled.
    assert_eq!(at(&mesh, 0)[2], 0.0);
    assert_eq!(at(&mesh, GRID - 1)[2], 640.0);
}

#[test]
fn every_quad_becomes_two_triangles_covering_it() {
    let mesh = Mesh::from_land(&sloping_land(0, 0), &[3; PATCHES], 1);
    // 64 quads a side, two triangles each.
    assert_eq!(mesh.triangle_count(), (GRID - 1) * (GRID - 1) * 2);
    // One material across every tile, so one submesh.
    assert_eq!(mesh.submeshes.len(), 1);
    assert_eq!(mesh.submeshes[0].material, 3);
    assert_eq!(mesh.submeshes[0].index_count as usize, mesh.indices.len());
    assert!(mesh.indices.iter().all(|i| (*i as usize) < VERTICES));

    // Wound counter-clockwise seen from above.
    let corner = |i: usize| at(&mesh, mesh.indices[i] as usize);
    let (a, b, c) = (corner(0), corner(1), corner(2));
    let face = (b[0] - a[0]) * (c[1] - a[1]) - (b[1] - a[1]) * (c[0] - a[0]);
    assert!(face > 0.0, "first triangle faces {face}");
}

#[test]
fn a_stride_samples_the_heightmap_rather_than_averaging_it() {
    let land = sloping_land(3, -4);
    let fine = Mesh::from_land(&land, &[0; PATCHES], 1);
    let coarse = Mesh::from_land(&land, &[0; PATCHES], 4);

    assert_eq!(coarse.positions.len(), 17 * 17);
    assert_eq!(coarse.triangle_count(), 16 * 16 * 2);
    assert_eq!(fine.triangle_count() / coarse.triangle_count(), 16);

    for row in 0..17 {
        for column in 0..17 {
            assert_eq!(
                coarse.positions[row * 17 + column],
                fine.positions[row * 4 * GRID + column * 4],
                "the vertex at ({column}, {row}) of the coarse grid moved"
            );
        }
    }
    // And the shared edge is still shared.
    assert_eq!(plan(at(&coarse, 16)), plan(at(&fine, GRID - 1)));
    assert_eq!(
        *coarse.positions.last().unwrap(),
        *fine.positions.last().unwrap()
    );
}

#[test]
fn a_coarse_quad_takes_the_material_of_the_patch_under_its_middle() {
    let patches: Vec<u32> = (0..PATCHES)
        .map(|p| u32::from(p % TERRAIN_QUADRANTS >= TERRAIN_QUADRANTS / 2))
        .collect();
    for stride in [1, 2, 4, 8] {
        let mesh = Mesh::from_land(&sloping_land(0, 0), &patches, stride);
        assert_eq!(mesh.submeshes.len(), 2, "at stride {stride}");
        let west = mesh.submeshes[0].index_count;
        let east = mesh.submeshes[1].index_count;
        assert_eq!(
            west, east,
            "the split is not down the middle at stride {stride}"
        );
        let quads = (GRID - 1) / stride;
        assert_eq!(
            (west + east) as usize,
            quads * quads * 6,
            "at stride {stride}"
        );
    }

    // A patch the coarse grid never samples must not leave an empty submesh behind.
    let mut lone = vec![0u32; PATCHES];
    lone[0] = 7;
    let mesh = Mesh::from_land(&sloping_land(0, 0), &lone, 8);
    assert_eq!(
        mesh.submeshes.len(),
        1,
        "a material no quad uses became a submesh covering nothing"
    );
    assert!(mesh.submeshes.iter().all(|s| s.index_count > 0));
}

#[test]
fn patches_are_grouped_into_one_submesh_per_material() {
    // Two materials in a chequer, which is the case a single run cannot represent.
    let patches: Vec<u32> = (0..PATCHES)
        .map(|p| ((p / TERRAIN_QUADRANTS + p % TERRAIN_QUADRANTS) % 2) as u32)
        .collect();
    let mesh = Mesh::from_land(&sloping_land(0, 0), &patches, 1);

    assert_eq!(mesh.submeshes.len(), 2);
    // Between them they cover every quad exactly once.
    assert_eq!(mesh.indices.len(), (GRID - 1) * (GRID - 1) * 6);
    let covered: u32 = mesh.submeshes.iter().map(|s| s.index_count).sum();
    assert_eq!(covered as usize, mesh.indices.len());
    assert_eq!(mesh.submeshes[0].first_index, 0);
    assert_eq!(mesh.submeshes[1].first_index, mesh.submeshes[0].index_count);
    // A chequer splits them evenly.
    assert_eq!(mesh.submeshes[0].index_count, mesh.submeshes[1].index_count);
}

#[test]
fn a_cell_without_normals_leaves_them_zero_rather_than_guessing() {
    let mut land = sloping_land(0, 0);
    land.normals.clear();
    let mesh = Mesh::from_land(&land, &[0; PATCHES], 1);
    // Parallel to positions either way, which is what every consumer relies on.
    assert_eq!(mesh.normals.len(), mesh.positions.len());
    assert!(mesh.normals.iter().all(|n| *n == [0; 3]));
}

#[test]
fn neighbouring_cells_meet_along_their_shared_edge() {
    let west = Mesh::from_land(&sloping_land(0, 0), &[0; PATCHES], 4);
    let east = Mesh::from_land(&sloping_land(1, 0), &[0; PATCHES], 4);
    for row in 0..17 {
        assert_eq!(plan(at(&west, row * 17 + 16)), plan(at(&east, row * 17)));
    }
}

fn land_with(textures: Vec<u16>) -> Land {
    Land {
        grid_x: 0,
        grid_y: 0,
        heights: vec![0; VERTICES],
        normals: Vec::new(),
        textures,
    }
}

/// The texture a patch of ground blends *from*: the first of its four.
fn tile_texture(materials: &MaterialTable, patch_material: u32) -> &str {
    let MaterialKind::Terrain(layers) = materials.materials()[patch_material as usize].kind else {
        panic!("ground blends between named textures")
    };
    &materials.textures()[layers.0[0].0 as usize]
}

#[test]
fn a_texture_index_addresses_one_past_its_palette_entry() {
    let palette = ["sand.tga".to_owned(), "rock.tga".to_owned()];
    // Index 1 is the *first* palette entry, not the second; index 0 is not an entry at all.
    let land = land_with(vec![0, 1, 2]);
    let mut materials = MaterialTable::new();
    let patches = terrain_materials(&land, &palette, &mut materials);

    assert_eq!(patches.len(), TERRAIN_QUADRANTS * TERRAIN_QUADRANTS);
    assert_eq!(
        tile_texture(&materials, patches[0]),
        "textures/_land_default.dds"
    );
    // Tile 1 is the second along the bottom row, so the patch centred on it is at quadrant 3.
    assert_eq!(tile_texture(&materials, patches[3]), "textures/sand.dds");
    assert_eq!(tile_texture(&materials, patches[5]), "textures/rock.dds");
    // Tiles the record says nothing about fall back the same way the zero index does.
    assert_eq!(
        tile_texture(&materials, patches[7]),
        "textures/_land_default.dds"
    );
    // One texture per distinct name, not one per tile.
    assert_eq!(materials.textures().len(), 3);
    // And far fewer materials than the 1,024 patches that asked for them.
    assert!(
        materials.materials().len() < 20,
        "{} materials for a cell of three textures",
        materials.materials().len()
    );
}

#[test]
fn an_index_no_palette_entry_claimed_falls_back_rather_than_naming_nothing() {
    let palette = ["sand.tga".to_owned(), String::new(), "rock.tga".to_owned()];
    let land = land_with(vec![2, 3]);
    let mut materials = MaterialTable::new();
    let patches = terrain_materials(&land, &palette, &mut materials);

    assert_eq!(
        tile_texture(&materials, patches[0]),
        "textures/_land_default.dds"
    );
    // Tile 1's centre falls in patch 3.
    assert_eq!(tile_texture(&materials, patches[3]), "textures/rock.dds");
}
