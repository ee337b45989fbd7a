//! What holds of the world a cell stands in: how its numbers are ordered, what its ground is made of,
//! what its objects draw with and what its sky does.

use super::bits::{equal, greater, not_a_number, Bits};
use super::bounds::{highest_below, spanned};
use super::forecast::{
    allowed_among, arranged, forecast_of, keys_of, lemma_arranged, lemma_everything_is_arranged,
    position,
};
use super::lightning::{
    discharge_of, draw, drawing, first_ahead, first_channel, hashed, lightning_of, Discharge,
};
use super::material::{texture_path_of, MaterialKind};
use super::material_table::{first_path, first_same, lemma_first_path, lemma_first_same, TableModel};
use super::loaded_cell::is_decoded;
use super::model_index::{indexed, lower_case, ObjectRecord};
use super::sky_textures::is_sheet;
use super::terrain_materials::{
    lemma_material_listed, lemma_material_stays, lemma_path_listed, lemma_path_stays, near_tile,
    patch_material, patch_numbers, tile_name, tile_path, with_ground, with_patches, with_tiles,
};
use crate::texture::error::TextureError;
use crate::texture::refusal_laws::law_a_chain_fits_under_a_picture;
use crate::texture::texture::{decodes_to, lacks_mips, Texture, TextureModel};
use vstd::arithmetic::power2::pow2;
use vstd::prelude::*;

verus! {

/// Whether the bits are of a number that is not below nought, the infinite one among them.
pub open spec fn is_above(a: Bits) -> bool {
    a <= 0x7F80_0000
}

/// Whether the bits are of a number with a minus sign, the infinite one among them.
pub open spec fn is_below(a: Bits) -> bool {
    0x8000_0000 <= a <= 0xFF80_0000
}

/// **Stored numbers are ordered as the numbers they are**: above nought by their bits, below it the
/// other way round, everything below before everything above, and the two noughts as one. What is
/// not a number is neither greater than anything, nor anything than it, nor equal to itself.
pub proof fn law_bits_are_ordered_as_their_numbers(a: Bits, b: Bits)
    ensures
        is_above(a) && is_above(b) ==> (greater(a, b) <==> a > b),
        is_below(a) && is_below(b) ==> (greater(a, b) <==> a < b),
        is_above(a) && is_below(b) ==> (greater(a, b) <==> a != 0 || b != 0x8000_0000),
        is_below(a) && is_above(b) ==> !greater(a, b),
        !is_above(a) && !is_below(a) ==> !greater(a, b) && !greater(b, a) && !equal(a, b) && !equal(
            b,
            a,
        ) && not_a_number(a),
        is_above(a) || is_below(a) ==> equal(a, a) && !not_a_number(a),
        equal(a, b) ==> a == b || (a == 0 && b == 0x8000_0000) || (a == 0x8000_0000 && b == 0),
        equal(0, 0x8000_0000),
{
}

/// **The bounds of a mesh are no wider than it is**: each of its six is a coordinate of a vertex.
pub proof fn law_bounds_touch_the_mesh(points: Seq<[Bits; 3]>, n: nat, axis: int)
    requires
        1 <= n <= points.len(),
        0 <= axis < 3,
    ensures
        exists|i: int| 0 <= i < n && spanned(points, n).min@[axis] == #[trigger] points[i]@[axis],
        exists|i: int| 0 <= i < n && spanned(points, n).max@[axis] == #[trigger] points[i]@[axis],
    decreases n,
{
    if n == 1 {
        assert(spanned(points, n).min@[axis] == points[0]@[axis]);
        assert(spanned(points, n).max@[axis] == points[0]@[axis]);
    } else {
        law_bounds_touch_the_mesh(points, (n - 1) as nat, axis);
        let before = spanned(points, (n - 1) as nat);
        let after = spanned(points, n);
        let last = points[n - 1]@[axis];
        let i = choose|i: int|
            0 <= i < n - 1 && before.min@[axis] == #[trigger] points[i]@[axis];
        let j = choose|j: int|
            0 <= j < n - 1 && before.max@[axis] == #[trigger] points[j]@[axis];
        assert(after.min@[axis] == points[i]@[axis] || after.min@[axis] == points[n - 1]@[axis]);
        assert(after.max@[axis] == points[j]@[axis] || after.max@[axis] == points[n - 1]@[axis]);
    }
}

/// Whether a patch of ground stands between the centres of two neighbouring tiles along one axis, or,
/// at an edge of the cell, beyond the centre of the last. There are two patches to a tile.
pub open spec fn stands_between(patch: int, low: int, high: int) -> bool {
    if patch == 0 {
        low == 0 && high == 0
    } else if patch == 31 {
        low == 15 && high == 15
    } else {
        high == low + 1 && 2 * low + 1 <= patch && patch + 1 <= 2 * high + 1
    }
}

/// The tiles a patch blends are the ones whose centres it stands between.
proof fn lemma_near_tiles(patch: int, low: int, high: int)
    requires
        0 <= patch < 32,
        stands_between(patch, low, high),
    ensures
        near_tile(patch, 0) == low,
        near_tile(patch, 1) == high,
{
}

/// Every tile's path is listed.
proof fn lemma_tiles_listed(
    paths: Seq<Seq<char>>,
    textures: Seq<u16>,
    palette: Seq<Seq<char>>,
    n: nat,
    tile: int,
)
    requires
        0 <= tile < n,
    ensures
        ({
            let after = with_tiles(paths, textures, palette, n);
            first_path(after, tile_path(textures, palette, tile)) < after.len()
        }),
    decreases n,
{
    let before = with_tiles(paths, textures, palette, (n - 1) as nat);
    lemma_path_listed(before, tile_path(textures, palette, n - 1));
    if tile < n - 1 {
        lemma_tiles_listed(paths, textures, palette, (n - 1) as nat, tile);
        lemma_path_stays(
            before,
            tile_path(textures, palette, n - 1),
            tile_path(textures, palette, tile),
        );
    }
}

/// Every patch's material is listed.
proof fn lemma_patches_listed(
    materials: Seq<super::material::Material>,
    paths: Seq<Seq<char>>,
    textures: Seq<u16>,
    palette: Seq<Seq<char>>,
    n: nat,
    patch: int,
)
    requires
        0 <= patch < n,
    ensures
        ({
            let after = with_patches(materials, paths, textures, palette, n);
            first_same(after, patch_material(paths, textures, palette, patch)) < after.len()
        }),
    decreases n,
{
    let before = with_patches(materials, paths, textures, palette, (n - 1) as nat);
    lemma_material_listed(before, patch_material(paths, textures, palette, n - 1));
    if patch < n - 1 {
        lemma_patches_listed(materials, paths, textures, palette, (n - 1) as nat, patch);
        lemma_material_stays(
            before,
            patch_material(paths, textures, palette, n - 1),
            patch_material(paths, textures, palette, patch),
        );
    }
}

/// **A patch of ground blends the four tiles whose centres it stands between**: the nearer row west
/// to east, and the further row after it, each under the number its texture has in the table.
pub proof fn law_a_patch_blends_the_tiles_round_it(
    table: TableModel,
    textures: Seq<u16>,
    palette: Seq<Seq<char>>,
    row: int,
    column: int,
    south: int,
    north: int,
    west: int,
    east: int,
)
    requires
        0 <= row < 32,
        0 <= column < 32,
        stands_between(row, south, north),
        stands_between(column, west, east),
        with_ground(table, textures, palette).textures.len() <= u32::MAX,
        with_ground(table, textures, palette).materials.len() <= u32::MAX,
    ensures
        ({
            let after = with_ground(table, textures, palette);
            let number = patch_numbers(after, textures, palette)[32 * row + column];
            let named = |tile: int| texture_path_of(tile_name(textures, palette, tile));
            &&& number < after.materials.len()
            &&& after.materials[number as int].kind matches MaterialKind::Terrain(layers) && {
                let id = |k: int| layers.0@[k].0 as int;
                &&& after.textures[id(0)] == named(16 * south + west)
                &&& after.textures[id(1)] == named(16 * south + east)
                &&& after.textures[id(2)] == named(16 * north + west)
                &&& after.textures[id(3)] == named(16 * north + east)
            }
        }),
{
    let after = with_ground(table, textures, palette);
    let paths = after.textures;
    let patch = 32 * row + column;
    assert(patch / 32 == row && patch % 32 == column);
    lemma_near_tiles(row, south, north);
    lemma_near_tiles(column, west, east);
    let wanted = patch_material(paths, textures, palette, patch);
    lemma_patches_listed(table.materials, paths, textures, palette, 1024, patch);
    lemma_first_same(after.materials, wanted);
    lemma_tile_found(table, textures, palette, 16 * south + west);
    lemma_tile_found(table, textures, palette, 16 * south + east);
    lemma_tile_found(table, textures, palette, 16 * north + west);
    lemma_tile_found(table, textures, palette, 16 * north + east);
}

/// A tile's texture is found under its number.
proof fn lemma_tile_found(
    table: TableModel,
    textures: Seq<u16>,
    palette: Seq<Seq<char>>,
    tile: int,
)
    requires
        0 <= tile < 256,
    ensures
        ({
            let paths = with_ground(table, textures, palette).textures;
            let at = first_path(paths, tile_path(textures, palette, tile));
            &&& 0 <= at < paths.len()
            &&& paths[at] == texture_path_of(tile_name(textures, palette, tile))
        }),
{
    let paths = with_ground(table, textures, palette).textures;
    lemma_tiles_listed(table.textures, textures, palette, 256, tile);
    lemma_first_path(paths, tile_path(textures, palette, tile));
}

/// Whether a record says something of an object, under an id that may be written in any case.
pub open spec fn is_record_of(record: ObjectRecord, id: Seq<char>) -> bool {
    !record.deleted && !record.ignored && record.placeable && lower_case(record.id@) == lower_case(
        id,
    )
}

/// **An object draws with the model its last record names**, and with none where no record of it
/// names one.
pub proof fn law_an_object_draws_with_its_last_model(
    records: Seq<ObjectRecord>,
    n: nat,
    id: Seq<char>,
    k: int,
)
    requires
        n <= records.len(),
    ensures
        0 <= k < n && is_record_of(records[k], id) && records[k].model is Some && (forall|j: int|
            k < j < n && is_record_of(#[trigger] records[j], id) ==> records[j].model is None)
            ==> indexed(records, n).model(id) == Some(records[k].model->0@),
        (forall|j: int|
            0 <= j < n && is_record_of(#[trigger] records[j], id) ==> records[j].model is None)
            ==> indexed(records, n).model(id) is None,
    decreases n,
{
    if n > 0 {
        law_an_object_draws_with_its_last_model(records, (n - 1) as nat, id, k);
        assert(is_record_of(records[n - 1], id) || !is_record_of(records[n - 1], id));
    }
}

/// **An object casts the light its last record gives it**, and none where no record of it gives one.
pub proof fn law_an_object_casts_its_last_light(
    records: Seq<ObjectRecord>,
    n: nat,
    id: Seq<char>,
    k: int,
)
    requires
        n <= records.len(),
    ensures
        0 <= k < n && is_record_of(records[k], id) && records[k].light is Some && (forall|j: int|
            k < j < n && is_record_of(#[trigger] records[j], id) ==> records[j].light is None)
            ==> indexed(records, n).light(id) == records[k].light,
        (forall|j: int|
            0 <= j < n && is_record_of(#[trigger] records[j], id) ==> records[j].light is None)
            ==> indexed(records, n).light(id) is None,
    decreases n,
{
    if n > 0 {
        law_an_object_casts_its_last_light(records, (n - 1) as nat, id, k);
        assert(is_record_of(records[n - 1], id) || !is_record_of(records[n - 1], id));
    }
}

/// **Discharges come in nature's own proportions**: of every hundred draws, twenty-two go to the
/// ground, eleven more crawl the deck, twelve more show in the cloud, and the rest are hidden in it.
pub proof fn law_discharges_come_in_proportion(roll: u32)
    requires
        roll < 0x100_0000,
    ensures
        discharge_of(roll) == Discharge::ToGround <==> 100 * roll < 22 * 0x100_0000,
        discharge_of(roll) == Discharge::Crawler <==> 22 * 0x100_0000 <= 100 * roll && 100 * roll
            < 33 * 0x100_0000,
        discharge_of(roll) == Discharge::InCloud ==> 33 * 0x100_0000 <= 100 * roll && 100 * roll
            < 45 * 0x100_0000,
        discharge_of(roll) == Discharge::Sheet ==> 45 * 0x100_0000 < 100 * (roll + 1),
{
}

/// **Everything about a flash is drawn on its own**, from the seed its number scrambles to.
pub proof fn law_a_flash_is_drawn_from_its_number(index: u64)
    ensures
        ({
            let seed = hashed(index);
            let flash = drawing(index);
            let drawn = |what: u64| (hashed(seed ^ what) >> 40) as u32;
            &&& 1 <= flash.strokes <= 4
            &&& flash.strokes == 1 + (seed >> 8) % 4
            &&& flash.shape == (seed >> 32) as u32
            &&& flash.kind == discharge_of(drawn(0x9E37_79B9))
            &&& flash.bearing == drawn(0x85EB_CA6B)
            &&& flash.away == drawn(0xC2B2_AE35)
            &&& flash.heading == drawn(0x27D4_EB2F)
            &&& flash.run == drawn(0x1B87_3593)
            &&& forall|k: int|
                0 <= k < 4 ==> #[trigger] flash.restrikes@[k] == drawn((k + 1) as u64)
        }),
{
    let seed = hashed(index);
    let flash = drawing(index);
    assert(flash.restrikes@[0] == draw(seed, 1));
    assert(flash.restrikes@[1] == draw(seed, 2));
    assert(flash.restrikes@[2] == draw(seed, 3));
    assert(flash.restrikes@[3] == draw(seed, 4));
}

/// **A weather's lightning is as often, as late and as lasting as its keys say**, never slower to
/// fade than a tenth a second; and there is none where it is named no more often than never.
pub proof fn law_lightning_is_as_its_keys_say(
    frequency: Option<Bits>,
    threshold: Option<Bits>,
    decrement: Option<Bits>,
)
    ensures
        ({
            let storm = lightning_of(frequency, threshold, decrement);
            let strikes = frequency matches Some(often) && greater(often, 0);
            &&& strikes ==> Some(storm.frequency) == frequency
            &&& !strikes ==> !greater(storm.frequency, 0)
            &&& strikes && threshold is Some ==> Some(storm.threshold) == threshold
            &&& strikes && threshold is None ==> storm.threshold == 0x3F19_999A
            &&& strikes && decrement is None ==> storm.decrement == 0x4080_0000
            &&& !greater(0x3DCC_CCCD, storm.decrement)
            &&& strikes && (decrement matches Some(fade) && greater(fade, 0x3DCC_CCCD))
                ==> Some(storm.decrement) == decrement
        }),
{
}

/// **The flash brought forward is the first that has a channel in front**, and failing one the first
/// that has a channel at all.
pub proof fn law_the_first_channel_is_brought_forward(
    kinds: Seq<Discharge>,
    ahead: Seq<bool>,
    from: int,
)
    requires
        0 <= from <= kinds.len(),
    ensures
        ({
            let best = first_ahead(kinds, ahead, from);
            &&& from <= best <= kinds.len()
            &&& best < kinds.len() ==> kinds[best] != Discharge::Sheet && ahead[best]
            &&& forall|k: int|
                from <= k < best ==> #[trigger] kinds[k] == Discharge::Sheet || !ahead[k]
        }),
        ({
            let any = first_channel(kinds, from);
            &&& from <= any <= kinds.len()
            &&& any < kinds.len() ==> kinds[any] != Discharge::Sheet
            &&& forall|k: int| from <= k < any ==> #[trigger] kinds[k] == Discharge::Sheet
        }),
    decreases kinds.len() - from,
{
    if from < kinds.len() {
        law_the_first_channel_is_brought_forward(kinds, ahead, from + 1);
    }
}

/// **A name is found where it first stands in an order**, and past its end where it does not.
pub proof fn law_a_name_is_found_where_it_first_stands(
    order: Seq<Seq<char>>,
    name: Seq<char>,
    from: int,
)
    requires
        0 <= from <= order.len(),
    ensures
        from <= position(order, name, from) <= order.len(),
        position(order, name, from) < order.len() ==> order[position(order, name, from)] == name,
        forall|k: int|
            from <= k < position(order, name, from) ==> #[trigger] order[k] != name,
    decreases order.len() - from,
{
    if from < order.len() {
        law_a_name_is_found_where_it_first_stands(order, name, from + 1);
    }
}

/// What is allowed among some places is kept.
proof fn lemma_allowed_is_kept(
    places: Seq<int>,
    table: Seq<Seq<char>>,
    allowed: Seq<Seq<char>>,
    n: nat,
    at: int,
)
    requires
        0 <= at < n <= places.len(),
        allowed.contains(table[places[at]]),
    ensures
        allowed_among(places, table, allowed, n).contains(places[at]),
    decreases n,
{
    let before = allowed_among(places, table, allowed, (n - 1) as nat);
    let after = allowed_among(places, table, allowed, n);
    if at == n - 1 {
        assert(after.last() == places[at]);
    } else {
        lemma_allowed_is_kept(places, table, allowed, (n - 1) as nat, at);
        let k = before.index_of(places[at]);
        assert(after[k] == places[at]);
    }
}

/// **A region's forecast has every weather it allows**, and one that allows none has all there are.
pub proof fn law_a_region_keeps_what_it_allows(
    table: Seq<Seq<char>>,
    order: Seq<Seq<char>>,
    allowed: Seq<Seq<char>>,
    k: int,
)
    requires
        0 <= k < table.len(),
    ensures
        allowed.contains(table[k]) ==> forecast_of(table, order, Some(allowed)).contains(k),
        (forall|j: int| 0 <= j < table.len() ==> !allowed.contains(#[trigger] table[j]))
            ==> forecast_of(table, order, Some(allowed)) == forecast_of(table, order, None),
        forecast_of(table, order, None).contains(k),
{
    let keys = keys_of(table, order);
    let all = arranged(keys, table.len());
    lemma_arranged(keys, table.len());
    let at = lemma_everything_is_arranged(keys, table.len(), k);
    assert(all[at] == k);
    if allowed.contains(table[k]) {
        lemma_allowed_is_kept(all, table, allowed, all.len(), at);
    }
    if forall|j: int| 0 <= j < table.len() ==> !allowed.contains(#[trigger] table[j]) {
        lemma_none_allowed(all, table, allowed, all.len());
    }
}

/// Where nothing is allowed, nothing is kept.
proof fn lemma_none_allowed(
    places: Seq<int>,
    table: Seq<Seq<char>>,
    allowed: Seq<Seq<char>>,
    n: nat,
)
    requires
        n <= places.len(),
        forall|i: int| 0 <= i < places.len() ==> 0 <= #[trigger] places[i] < table.len(),
        forall|j: int| 0 <= j < table.len() ==> !allowed.contains(#[trigger] table[j]),
    ensures
        allowed_among(places, table, allowed, n).len() == 0,
    decreases n,
{
    if n > 0 {
        lemma_none_allowed(places, table, allowed, (n - 1) as nat);
        assert(0 <= places[n - 1] < table.len());
        assert(!allowed.contains(table[places[n - 1]]));
    }
}

/// **The ground is the surface next below**: it is one of those that cover the point, not above the
/// level, and none of the others lies between; where there is none, every surface is above.
pub proof fn law_no_surface_lies_between_a_level_and_its_ground(
    heights: Seq<Bits>,
    level: Bits,
    n: nat,
)
    requires
        n <= heights.len(),
        !not_a_number(level),
        forall|i: int| 0 <= i < n ==> !not_a_number(#[trigger] heights[i]),
    ensures
        match highest_below(heights, level, n) {
            Some(ground) => {
                &&& exists|i: int| 0 <= i < n && #[trigger] heights[i] == ground
                &&& !greater(ground, level)
                &&& forall|i: int|
                    0 <= i < n && greater(#[trigger] heights[i], ground) ==> greater(
                        heights[i],
                        level,
                    )
            },
            None => forall|i: int| 0 <= i < n ==> greater(#[trigger] heights[i], level),
        },
    decreases n,
{
    if n > 0 {
        law_no_surface_lies_between_a_level_and_its_ground(heights, level, (n - 1) as nat);
        assert(!not_a_number(heights[n - 1]));
        assert(heights[n - 1] == heights[n - 1]);
    }
}

/// **Every file that is a texture is decoded, and nothing else is**: what could not be read, or is no
/// texture, leaves none.
pub proof fn law_a_picture_is_there_where_its_file_is_a_texture(
    file: Option<Vec<u8>>,
    texture: Option<Texture>,
    other: TextureModel,
    e: TextureError,
)
    requires
        is_decoded(file, texture),
    ensures
        file is None ==> texture is None,
        texture is Some ==> decodes_to(file->0@, Ok(texture->0@)),
        texture is Some ==> !decodes_to(file->0@, Err(e)),
        texture is None && file is Some ==> !decodes_to(file->0@, Ok(other)),
{
}

/// **Clouds are drawn from a sheet with a chain under it**: a picture that has one, or is compressed,
/// is left as it is, and any other of up to 8192 texels a side is taken down to a single texel.
pub proof fn law_a_cloud_sheet_has_a_chain(picture: TextureModel, sheet: TextureModel)
    requires
        is_sheet(picture, sheet),
        picture.levels.len() >= 1,
        1 <= picture.levels[0].width <= 8192,
        1 <= picture.levels[0].height <= 8192,
        picture.levels[0].width * picture.levels[0].height * 4 <= picture.data.len(),
    ensures
        picture.levels.len() > 1 ==> sheet == picture,
        picture.format is Bc1 || picture.format is Bc2 ==> sheet == picture,
        picture.levels.len() == 1 && (picture.format is Rgba8 || picture.format is Bgra8) ==> {
            let (w, h, n) = (
                picture.levels[0].width,
                picture.levels[0].height,
                sheet.levels.len(),
            );
            &&& n >= 1
            &&& pow2((n - 1) as nat) <= w || pow2((n - 1) as nat) <= h
            &&& w < pow2(n) && h < pow2(n)
        },
{
    if lacks_mips(picture) {
        law_a_chain_fits_under_a_picture(picture);
    }
}

} // verus!
