//! Which textures each patch of an exterior cell's ground blends between.

use super::material::{
    plain_material, same_material, texture_path, texture_path_of, Material, MaterialKind,
    TerrainLayers, TextureId,
};
use super::material_table::{
    first_path, first_same, lemma_first_path, lemma_first_same, with_material, with_path,
    MaterialTable, TableModel,
};
use super::terrain::{Land, TERRAIN_QUADRANTS};
use vstd::prelude::*;

verus! {

/// Texture tiles along each side of a cell.
pub const TEXTURE_GRID: usize = 16;

/// What some texture names say.
pub open spec fn names(palette: Seq<String>) -> Seq<Seq<char>> {
    Seq::new(palette.len(), |i: int| palette[i]@)
}

/// The texture a tile is drawn with. Its index is one past its place in the palette: zero, an index
/// past the end and a place nothing claimed all mean the default.
pub open spec fn tile_name(textures: Seq<u16>, palette: Seq<Seq<char>>, tile: int) -> Seq<char> {
    let index: int = if 0 <= tile < textures.len() {
        textures[tile] as int
    } else {
        0
    };
    if 0 < index <= palette.len() && palette[index - 1].len() > 0 {
        palette[index - 1]
    } else {
        "_land_default.dds"@
    }
}

/// Where a tile's texture is looked for.
pub open spec fn tile_path(textures: Seq<u16>, palette: Seq<Seq<char>>, tile: int) -> Seq<char> {
    texture_path_of(tile_name(textures, palette, tile))
}

/// Texture paths with those of the first `n` tiles among them.
pub open spec fn with_tiles(
    paths: Seq<Seq<char>>,
    textures: Seq<u16>,
    palette: Seq<Seq<char>>,
    n: nat,
) -> Seq<Seq<char>>
    decreases n,
{
    if n == 0 {
        paths
    } else {
        with_path(
            with_tiles(paths, textures, palette, (n - 1) as nat),
            tile_path(textures, palette, n - 1),
        )
    }
}

/// The tile at or one on from the square of tile centres a patch sits inside, along one axis.
/// Centres are half a tile in from the grid, and the tiles end at the cell's edge.
pub open spec fn near_tile(patch: int, step: int) -> int {
    let tile = (patch - 1) / 2 + step;
    if tile < 0 {
        0
    } else if tile >= TEXTURE_GRID {
        TEXTURE_GRID - 1
    } else {
        tile
    }
}

/// The id of the tile that is `across` and `up` from the first one a patch blends.
pub open spec fn blended_tile(
    paths: Seq<Seq<char>>,
    textures: Seq<u16>,
    palette: Seq<Seq<char>>,
    patch: int,
    across: int,
    up: int,
) -> TextureId {
    let tile = near_tile(patch / (TERRAIN_QUADRANTS as int), up) * TEXTURE_GRID + near_tile(
        patch % (TERRAIN_QUADRANTS as int),
        across,
    );
    TextureId(first_path(paths, tile_path(textures, palette, tile)) as u32)
}

/// What a patch of ground is made of: the four tiles whose centres it stands between.
pub open spec fn patch_material(
    paths: Seq<Seq<char>>,
    textures: Seq<u16>,
    palette: Seq<Seq<char>>,
    patch: int,
) -> Material {
    Material {
        kind: MaterialKind::Terrain(
            TerrainLayers(
                [
                    blended_tile(paths, textures, palette, patch, 0, 0),
                    blended_tile(paths, textures, palette, patch, 1, 0),
                    blended_tile(paths, textures, palette, patch, 0, 1),
                    blended_tile(paths, textures, palette, patch, 1, 1),
                ],
            ),
        ),
        ..plain_material()
    }
}

/// Materials with those of the first `n` patches among them.
pub open spec fn with_patches(
    materials: Seq<Material>,
    paths: Seq<Seq<char>>,
    textures: Seq<u16>,
    palette: Seq<Seq<char>>,
    n: nat,
) -> Seq<Material>
    decreases n,
{
    if n == 0 {
        materials
    } else {
        with_material(
            with_patches(materials, paths, textures, palette, (n - 1) as nat),
            patch_material(paths, textures, palette, n - 1),
        )
    }
}

/// A table with everything a cell's ground is made of.
pub open spec fn with_ground(
    table: TableModel,
    textures: Seq<u16>,
    palette: Seq<Seq<char>>,
) -> TableModel {
    let paths = with_tiles(
        table.textures,
        textures,
        palette,
        (TEXTURE_GRID * TEXTURE_GRID) as nat,
    );
    TableModel {
        materials: with_patches(
            table.materials,
            paths,
            textures,
            palette,
            (TERRAIN_QUADRANTS * TERRAIN_QUADRANTS) as nat,
        ),
        textures: paths,
    }
}

/// The number of each patch's material, in a table that has them all.
pub open spec fn patch_numbers(
    table: TableModel,
    textures: Seq<u16>,
    palette: Seq<Seq<char>>,
) -> Seq<u32> {
    Seq::new(
        (TERRAIN_QUADRANTS * TERRAIN_QUADRANTS) as nat,
        |i: int|
            first_same(
                table.materials,
                patch_material(table.textures, textures, palette, i),
            ) as u32,
    )
}

/// A path that is listed keeps its id when another is listed.
pub proof fn lemma_path_stays(paths: Seq<Seq<char>>, more: Seq<char>, path: Seq<char>)
    requires
        first_path(paths, path) < paths.len(),
    ensures
        first_path(with_path(paths, more), path) == first_path(paths, path),
{
    lemma_first_path(paths, path);
    let next = with_path(paths, more);
    if next != paths {
        assert(next.drop_last() =~= paths);
    }
}

/// A path just listed is listed.
pub proof fn lemma_path_listed(paths: Seq<Seq<char>>, path: Seq<char>)
    ensures
        first_path(with_path(paths, path), path) == first_path(paths, path),
        first_path(paths, path) < with_path(paths, path).len(),
        with_path(paths, path).len() <= paths.len() + 1,
{
    lemma_first_path(paths, path);
    if first_path(paths, path) == paths.len() {
        assert(paths.push(path).drop_last() =~= paths);
    }
}

/// A material that is listed keeps its number when another is listed.
pub proof fn lemma_material_stays(materials: Seq<Material>, more: Material, m: Material)
    requires
        first_same(materials, m) < materials.len(),
    ensures
        first_same(with_material(materials, more), m) == first_same(materials, m),
{
    lemma_first_same(materials, m);
    let next = with_material(materials, more);
    if next != materials {
        assert(next.drop_last() =~= materials);
    }
}

/// A material just listed is listed.
pub proof fn lemma_material_listed(materials: Seq<Material>, m: Material)
    requires
        same_material(m, m),
    ensures
        first_same(with_material(materials, m), m) == first_same(materials, m),
        first_same(materials, m) < with_material(materials, m).len(),
        with_material(materials, m).len() <= materials.len() + 1,
{
    lemma_first_same(materials, m);
    if first_same(materials, m) == materials.len() {
        assert(materials.push(m).drop_last() =~= materials);
    }
}

/// A patch's material is the same as itself.
proof fn lemma_patch_is_itself(
    paths: Seq<Seq<char>>,
    textures: Seq<u16>,
    palette: Seq<Seq<char>>,
    patch: int,
)
    ensures
        same_material(
            patch_material(paths, textures, palette, patch),
            patch_material(paths, textures, palette, patch),
        ),
{
}

/// The texture a tile is drawn with.
fn tile_texture(land: &Land, palette: &[String], tile: usize) -> (r: String)
    ensures
        r@ == tile_path(land.textures@, names(palette@), tile as int),
{
    let index: usize = if tile < land.textures.len() {
        land.textures[tile] as usize
    } else {
        0
    };
    if 0 < index && index <= palette.len() {
        let name: &String = &palette[index - 1];
        assert(names(palette@)[index - 1] == name@);
        if name.as_str().unicode_len() > 0 {
            return texture_path(name.as_str());
        }
    }
    texture_path("_land_default.dds")
}

/// Which tile a patch blends, along one axis.
fn near(patch: usize, step: usize) -> (r: usize)
    requires
        patch < TERRAIN_QUADRANTS,
        step <= 1,
    ensures
        r == near_tile(patch as int, step as int),
        r < TEXTURE_GRID,
{
    if patch == 0 {
        return 0;
    }
    let tile: usize = (patch - 1) / 2 + step;
    if tile >= TEXTURE_GRID {
        TEXTURE_GRID - 1
    } else {
        tile
    }
}

/// Lists every tile's texture.
fn intern_tiles(land: &Land, palette: &[String], materials: &mut MaterialTable) -> (r: Vec<
    TextureId,
>)
    requires
        old(materials)@.textures.len() + TEXTURE_GRID * TEXTURE_GRID < u32::MAX,
    ensures
        final(materials)@.materials == old(materials)@.materials,
        final(materials)@.textures == with_tiles(
            old(materials)@.textures,
            land.textures@,
            names(palette@),
            (TEXTURE_GRID * TEXTURE_GRID) as nat,
        ),
        old(materials)@.wf() ==> final(materials)@.wf(),
        r@.len() == TEXTURE_GRID * TEXTURE_GRID,
        forall|i: int|
            0 <= i < r@.len() ==> (#[trigger] r@[i]).0 == first_path(
                final(materials)@.textures,
                tile_path(land.textures@, names(palette@), i),
            ),
{
    let ghost start = materials@;
    let mut tiles: Vec<TextureId> = Vec::new();
    let mut i: usize = 0;
    while i < TEXTURE_GRID * TEXTURE_GRID
        invariant
            i <= TEXTURE_GRID * TEXTURE_GRID,
            start.textures.len() + TEXTURE_GRID * TEXTURE_GRID < u32::MAX,
            materials@.textures.len() <= start.textures.len() + i,
            materials@.materials == start.materials,
            materials@.textures == with_tiles(
                start.textures,
                land.textures@,
                names(palette@),
                i as nat,
            ),
            start.wf() ==> materials@.wf(),
            tiles@.len() == i,
            forall|k: int|
                0 <= k < i ==> (#[trigger] tiles@[k]).0 == first_path(
                    materials@.textures,
                    tile_path(land.textures@, names(palette@), k),
                ) && tiles@[k].0 < materials@.textures.len(),
        decreases TEXTURE_GRID * TEXTURE_GRID - i,
    {
        let ghost before = materials@.textures;
        let ghost earlier = tiles@;
        let path: String = tile_texture(land, palette, i);
        let id: TextureId = materials.intern_texture(path.as_str());
        tiles.push(id);
        proof {
            lemma_path_listed(before, path@);
            assert forall|k: int| 0 <= k < i + 1 implies (#[trigger] tiles@[k]).0 == first_path(
                materials@.textures,
                tile_path(land.textures@, names(palette@), k),
            ) && tiles@[k].0 < materials@.textures.len() by {
                if k < i {
                    assert(tiles@[k] == earlier[k]);
                    lemma_path_stays(
                        before,
                        path@,
                        tile_path(land.textures@, names(palette@), k),
                    );
                }
            }
        }
        i = i + 1;
    }
    tiles
}

/// One material per *patch* of a cell's ground, naming the four tiles it blends.
///
/// A patch is half a texture tile, the largest piece of ground whose blend never changes which
/// tiles it draws from: the blend is bilinear between tile centres, so its four corners switch
/// every half tile.
pub fn terrain_materials(
    land: &Land,
    palette: &[String],
    materials: &mut MaterialTable,
) -> (r: Vec<u32>)
    requires
        old(materials)@.textures.len() + TEXTURE_GRID * TEXTURE_GRID < u32::MAX,
        old(materials)@.materials.len() + TERRAIN_QUADRANTS * TERRAIN_QUADRANTS < u32::MAX,
    ensures
        final(materials)@ == with_ground(old(materials)@, land.textures@, names(palette@)),
        old(materials)@.wf() ==> final(materials)@.wf(),
        r@ == patch_numbers(final(materials)@, land.textures@, names(palette@)),
        forall|i: int|
            0 <= i < r@.len() ==> #[trigger] r@[i] < final(materials)@.materials.len(),
{
    let ghost start = materials@;
    let ghost said = names(palette@);
    let tiles: Vec<TextureId> = intern_tiles(land, palette, materials);
    let ghost paths = materials@.textures;
    let mut patches: Vec<u32> = Vec::new();
    let mut i: usize = 0;
    while i < TERRAIN_QUADRANTS * TERRAIN_QUADRANTS
        invariant
            i <= TERRAIN_QUADRANTS * TERRAIN_QUADRANTS,
            start.materials.len() + TERRAIN_QUADRANTS * TERRAIN_QUADRANTS < u32::MAX,
            tiles@.len() == TEXTURE_GRID * TEXTURE_GRID,
            forall|k: int|
                0 <= k < tiles@.len() ==> (#[trigger] tiles@[k]).0 == first_path(
                    paths,
                    tile_path(land.textures@, said, k),
                ),
            materials@.materials.len() <= start.materials.len() + i,
            materials@.textures == paths,
            materials@.materials == with_patches(
                start.materials,
                paths,
                land.textures@,
                said,
                i as nat,
            ),
            start.wf() ==> materials@.wf(),
            patches@.len() == i,
            forall|k: int|
                0 <= k < i ==> #[trigger] patches@[k] == first_same(
                    materials@.materials,
                    patch_material(paths, land.textures@, said, k),
                ) && patches@[k] < materials@.materials.len(),
        decreases TERRAIN_QUADRANTS * TERRAIN_QUADRANTS - i,
    {
        let ghost before = materials@.materials;
        let ghost earlier = patches@;
        let across: usize = i % TERRAIN_QUADRANTS;
        let up: usize = i / TERRAIN_QUADRANTS;
        let (left, right): (usize, usize) = (near(across, 0), near(across, 1));
        let (low, high): (usize, usize) = (near(up, 0), near(up, 1));
        let mut material: Material = Material::plain();
        let layers: [TextureId; 4] = [
            tiles[low * TEXTURE_GRID + left],
            tiles[low * TEXTURE_GRID + right],
            tiles[high * TEXTURE_GRID + left],
            tiles[high * TEXTURE_GRID + right],
        ];
        material.kind = MaterialKind::Terrain(TerrainLayers(layers));
        let ghost wanted = patch_material(paths, land.textures@, said, i as int);
        proof {
            assert(wanted.kind->Terrain_0.0@ =~= layers@);
            assert(wanted.kind->Terrain_0.0 == layers);
            assert(material == wanted);
            lemma_patch_is_itself(paths, land.textures@, said, i as int);
            lemma_material_listed(before, wanted);
        }
        let number: u32 = materials.intern(material);
        patches.push(number);
        proof {
            assert forall|k: int| 0 <= k < i + 1 implies #[trigger] patches@[k] == first_same(
                materials@.materials,
                patch_material(paths, land.textures@, said, k),
            ) && patches@[k] < materials@.materials.len() by {
                if k < i {
                    assert(patches@[k] == earlier[k]);
                    lemma_material_stays(
                        before,
                        wanted,
                        patch_material(paths, land.textures@, said, k),
                    );
                }
            }
        }
        i = i + 1;
    }
    assert(patches@ =~= patch_numbers(materials@, land.textures@, said));
    patches
}

/// **A tile's texture index addresses one past its palette entry**, and an index that names nothing
/// falls back to the default rather than to an empty name.
pub proof fn law_indices_are_one_past_the_palette(
    textures: Seq<u16>,
    palette: Seq<Seq<char>>,
    tile: int,
    entry: int,
)
    requires
        0 <= tile < textures.len(),
        0 <= entry,
        textures[tile] == entry + 1,
    ensures
        entry < palette.len() && palette[entry].len() > 0 ==> tile_name(textures, palette, tile)
            == palette[entry],
        entry >= palette.len() || palette[entry].len() == 0 ==> tile_name(textures, palette, tile)
            == "_land_default.dds"@,
{
}

} // verus!
