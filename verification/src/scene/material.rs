//! What a surface is made of.

use super::bits::{eq, eq2, eq3, equal, equal2, equal3, Bits, ONE, ZERO};
use super::ini::{lowered, to_small};
use super::material_table::{first_path, with_path, MaterialTable};
use super::mesh::push_all;
use super::nif::{AlphaProperty, Block, Link, Nif};
use crate::text::{chars, string_of};
use crate::vfs::normalized_path::last_of;
use vstd::prelude::*;

verus! {

/// Index into a scene's texture path list.
#[derive(Debug, Clone, Copy, PartialEq, Eq, Hash, Structural)]
pub struct TextureId(pub u32);

/// How a surface's alpha is interpreted.
///
/// The distinction matters to the acceleration structure, not just to shading: an opaque geometry
/// skips the any-hit path entirely, while a masked one must run it on every intersection.
#[derive(Debug, Clone, Copy, PartialEq, Eq, Structural)]
pub enum AlphaMode {
    /// Every texel is fully present.
    Opaque,
    /// Texels below the threshold are absent, in 255ths of full alpha.
    Mask(u8),
    /// Alpha weights the surface against what is behind it.
    Blend,
}

/// Which shading model a surface is rendered with.
#[derive(Debug, Clone, Copy)]
pub enum MaterialKind {
    /// Everything a model file describes: a base colour lit by what reaches it.
    Diffuse,
    /// A water surface. Its colours and texture are ignored — the shader owns its appearance.
    Water,
    /// Ground, whose albedo is blended across the four terrain textures it carries.
    Terrain(TerrainLayers),
}

/// The four terrain textures a point on the ground is blended from: the tile below-left of the
/// point, then across, then the row above.
#[derive(Debug, Clone, Copy)]
pub struct TerrainLayers(pub [TextureId; 4]);

/// One surface description.
#[derive(Debug, Clone, Copy)]
pub struct Material {
    /// Base colour texture, or `None` for geometry drawn with vertex colour alone.
    pub base_colour: Option<TextureId>,
    pub diffuse: [Bits; 3],
    pub emissive: [Bits; 3],
    /// Constant opacity from the material property, before any texture alpha.
    pub opacity: Bits,
    pub alpha: AlphaMode,
    /// How far the texture slides across the surface each second, in texture coordinates.
    ///
    /// It belongs to the material because materials are interned by value: two sheets of the same
    /// lava scrolling at different rates have to stay two entries.
    pub scroll: [Bits; 2],
    /// Which shading model this surface uses, and whatever that model needs of its own.
    pub kind: MaterialKind,
}

/// Whether two terrain blends draw the same four textures in the same places.
pub open spec fn same_layers(a: TerrainLayers, b: TerrainLayers) -> bool {
    a.0@ == b.0@
}

/// Whether two shading models are the same.
pub open spec fn same_kind(a: MaterialKind, b: MaterialKind) -> bool {
    match (a, b) {
        (MaterialKind::Diffuse, MaterialKind::Diffuse) => true,
        (MaterialKind::Water, MaterialKind::Water) => true,
        (MaterialKind::Terrain(x), MaterialKind::Terrain(y)) => same_layers(x, y),
        _ => false,
    }
}

/// Whether two materials are the same: every number equal as a number, everything else as it is.
pub open spec fn same_material(a: Material, b: Material) -> bool {
    &&& a.base_colour == b.base_colour
    &&& equal3(a.diffuse, b.diffuse)
    &&& equal3(a.emissive, b.emissive)
    &&& equal(a.opacity, b.opacity)
    &&& a.alpha == b.alpha
    &&& equal2(a.scroll, b.scroll)
    &&& same_kind(a.kind, b.kind)
}

impl TerrainLayers {
    /// Whether two terrain blends draw the same four textures in the same places.
    fn is_same(&self, other: &TerrainLayers) -> (r: bool)
        ensures
            r == same_layers(*self, *other),
    {
        let r: bool = self.0[0] == other.0[0] && self.0[1] == other.0[1] && self.0[2] == other.0[2]
            && self.0[3] == other.0[3];
        proof {
            if r {
                assert(self.0@ =~= other.0@);
            }
        }
        r
    }
}

impl MaterialKind {
    /// Whether two shading models are the same.
    fn is_same(&self, other: &MaterialKind) -> (r: bool)
        ensures
            r == same_kind(*self, *other),
    {
        match (self, other) {
            (MaterialKind::Diffuse, MaterialKind::Diffuse) => true,
            (MaterialKind::Water, MaterialKind::Water) => true,
            (MaterialKind::Terrain(x), MaterialKind::Terrain(y)) => x.is_same(y),
            _ => false,
        }
    }
}

/// Whether two optional textures are the same.
fn same_texture(a: Option<TextureId>, b: Option<TextureId>) -> (r: bool)
    ensures
        r == (a == b),
{
    match (a, b) {
        (Some(x), Some(y)) => x.0 == y.0,
        (None, None) => true,
        _ => false,
    }
}

/// An untextured, fully opaque white surface.
pub open spec fn plain_material() -> Material {
    Material {
        base_colour: None,
        diffuse: [ONE, ONE, ONE],
        emissive: [ZERO, ZERO, ZERO],
        opacity: ONE,
        alpha: AlphaMode::Opaque,
        scroll: [ZERO, ZERO],
        kind: MaterialKind::Diffuse,
    }
}

impl Material {
    /// An untextured, fully opaque white surface — what a geometry with no properties at all draws
    /// as, rather than black.
    pub fn plain() -> (r: Material)
        ensures
            r == plain_material(),
    {
        Material {
            base_colour: None,
            diffuse: [ONE, ONE, ONE],
            emissive: [ZERO, ZERO, ZERO],
            opacity: ONE,
            alpha: AlphaMode::Opaque,
            scroll: [ZERO, ZERO],
            kind: MaterialKind::Diffuse,
        }
    }

    /// Whether two materials are the same.
    pub fn is_same(&self, other: &Material) -> (r: bool)
        ensures
            r == same_material(*self, *other),
    {
        same_texture(self.base_colour, other.base_colour) && eq3(self.diffuse, other.diffuse)
            && eq3(self.emissive, other.emissive) && eq(self.opacity, other.opacity) && self.alpha
            == other.alpha && eq2(self.scroll, other.scroll) && self.kind.is_same(&other.kind)
    }
}

impl Default for Material {
    fn default() -> (r: Material)
        ensures
            r == plain_material(),
    {
        Material::plain()
    }
}

/// The property links in effect at a point in the node graph.
///
/// Properties are inherited: one set on a node applies to everything beneath it until a descendant
/// sets its own of the same kind.
#[derive(Debug, Clone, Copy)]
pub struct Properties {
    pub texturing: Link,
    pub material: Link,
    pub alpha: Link,
}

/// No properties at all.
pub open spec fn no_properties() -> Properties {
    Properties { texturing: Link::none(), material: Link::none(), alpha: Link::none() }
}

/// Properties with the one `link` leads to replacing the inherited one of its kind.
pub open spec fn overridden_once(nif: &Nif, p: Properties, link: Link) -> Properties {
    match nif.at(link) {
        Some(Block::Texturing(_)) => Properties { texturing: link, ..p },
        Some(Block::Material(_)) => Properties { material: link, ..p },
        Some(Block::Alpha(_)) => Properties { alpha: link, ..p },
        _ => p,
    }
}

/// Properties with any in `links` replacing the inherited one of its kind, the last of a kind last.
pub open spec fn overridden(nif: &Nif, p: Properties, links: Seq<Link>) -> Properties
    decreases links.len(),
{
    if links.len() == 0 {
        p
    } else {
        overridden_once(nif, overridden(nif, p, links.drop_last()), links.last())
    }
}

/// The path of the texture that properties name, where they name one in a file of its own.
pub open spec fn named_texture(nif: &Nif, p: Properties) -> Option<Seq<char>> {
    match nif.at(p.texturing) {
        Some(Block::Texturing(Some(slot))) => match nif.at(slot) {
            Some(Block::SourceTexture(source)) => if source.external && source.file_name@.len()
                > 0 {
                Some(texture_path_of(source.file_name@))
            } else {
                None
            },
            _ => None,
        },
        _ => None,
    }
}

/// How a surface with an alpha property uses it. Testing comes first: a surface doing both still
/// has to be cut out, and treating it as blended would lose the threshold.
pub open spec fn alpha_mode(alpha: AlphaProperty) -> AlphaMode {
    if alpha.tests {
        AlphaMode::Mask(alpha.threshold)
    } else if alpha.blends {
        AlphaMode::Blend
    } else {
        AlphaMode::Opaque
    }
}

/// The material that properties describe, in a table of these texture paths.
pub open spec fn described(nif: &Nif, p: Properties, textures: Seq<Seq<char>>) -> Material {
    let plain = plain_material();
    let coloured = match nif.at(p.material) {
        Some(Block::Material(m)) => Material {
            diffuse: m.diffuse,
            emissive: m.emissive,
            opacity: m.alpha,
            ..plain
        },
        _ => plain,
    };
    let textured = match named_texture(nif, p) {
        Some(path) => Material {
            base_colour: Some(TextureId(first_path(textures, path) as u32)),
            ..coloured
        },
        None => coloured,
    };
    match nif.at(p.alpha) {
        Some(Block::Alpha(alpha)) => Material { alpha: alpha_mode(alpha), ..textured },
        _ => textured,
    }
}

/// Texture paths with the one that properties name among them.
pub open spec fn textures_after(nif: &Nif, p: Properties, textures: Seq<Seq<char>>) -> Seq<
    Seq<char>,
> {
    match named_texture(nif, p) {
        Some(path) => with_path(textures, path),
        None => textures,
    }
}

impl Properties {
    /// No properties at all.
    pub fn none() -> (r: Properties)
        ensures
            r == no_properties(),
    {
        Properties { texturing: Link::nowhere(), material: Link::nowhere(), alpha: Link::nowhere() }
    }

    /// This set with any property in `links` replacing the inherited one of its kind.
    pub fn overridden_by(&self, nif: &Nif, links: &Vec<Link>) -> (r: Properties)
        ensures
            r == overridden(nif, *self, links@),
    {
        let mut merged: Properties = *self;
        let mut i: usize = 0;
        while i < links.len()
            invariant
                i <= links@.len(),
                merged == overridden(nif, *self, links@.take(i as int)),
            decreases links@.len() - i,
        {
            let link: Link = links[i];
            proof {
                assert(links@.take(i + 1).drop_last() =~= links@.take(i as int));
                assert(links@.take(i + 1).last() == link);
            }
            match nif.resolve(link) {
                Some(Block::Texturing(_)) => {
                    merged.texturing = link;
                },
                Some(Block::Material(_)) => {
                    merged.material = link;
                },
                Some(Block::Alpha(_)) => {
                    merged.alpha = link;
                },
                _ => {},
            }
            i = i + 1;
        }
        assert(links@.take(i as int) =~= links@);
        merged
    }

    /// Whether what is drawn here adds to the frame rather than covering it.
    pub open spec fn adding(self, nif: &Nif) -> bool {
        nif.at(self.alpha) matches Some(Block::Alpha(alpha)) && alpha.adds
    }

    /// Whether what is drawn here adds to the frame rather than covering it.
    ///
    /// The one thing that turns on it is whether a particle is a flame or a puff of smoke.
    pub fn adds(&self, nif: &Nif) -> (r: bool)
        ensures
            r == self.adding(nif),
    {
        match nif.resolve(self.alpha) {
            Some(Block::Alpha(alpha)) => alpha.adds,
            _ => false,
        }
    }

    /// The path of the texture that these properties name.
    fn texture(&self, nif: &Nif) -> (r: Option<String>)
        ensures
            match r {
                Some(path) => named_texture(nif, *self) == Some(path@),
                None => named_texture(nif, *self) is None,
            },
    {
        match nif.resolve(self.texturing) {
            Some(Block::Texturing(Some(slot))) => match nif.resolve(*slot) {
                Some(Block::SourceTexture(source)) => {
                    if source.external && !source.file_name.as_str().is_empty() {
                        Some(texture_path(source.file_name.as_str()))
                    } else {
                        None
                    }
                },
                _ => None,
            },
            _ => None,
        }
    }

    /// Turns the links into a material, interning any texture it names.
    pub fn resolve(&self, nif: &Nif, table: &mut MaterialTable) -> (r: Material)
        requires
            old(table)@.textures.len() < u32::MAX,
        ensures
            r == described(nif, *self, old(table)@.textures),
            final(table)@.textures == textures_after(nif, *self, old(table)@.textures),
            final(table)@.materials == old(table)@.materials,
            old(table)@.wf() ==> final(table)@.wf(),
    {
        let mut material: Material = Material::plain();
        match nif.resolve(self.material) {
            Some(Block::Material(m)) => {
                material.diffuse = m.diffuse;
                material.emissive = m.emissive;
                material.opacity = m.alpha;
            },
            _ => {},
        }
        match self.texture(nif) {
            Some(path) => {
                material.base_colour = Some(table.intern_texture(path.as_str()));
            },
            None => {},
        }
        match nif.resolve(self.alpha) {
            Some(Block::Alpha(alpha)) => {
                material.alpha =
                if alpha.tests {
                    AlphaMode::Mask(alpha.threshold)
                } else if alpha.blends {
                    AlphaMode::Blend
                } else {
                    AlphaMode::Opaque
                };
            },
            _ => {},
        }
        material
    }
}

/// Text with its backslashes made slashes.
pub open spec fn slashed(s: Seq<char>) -> Seq<char> {
    s.map_values(
        |c: char|
            if c == '\\' {
                '/'
            } else {
                c
            },
    )
}

/// A name without its extension: what precedes its last dot.
pub open spec fn stem_of(s: Seq<char>) -> Seq<char> {
    if last_of(s, '.') < 0 {
        s
    } else {
        s.take(last_of(s, '.'))
    }
}

/// Whether a name already starts with the directory textures live in, in any ASCII case.
pub open spec fn in_textures(s: Seq<char>) -> bool {
    s.len() >= "textures/"@.len() && lowered(s).take("textures/"@.len() as int) == "textures/"@
}

/// Where a texture named `name` is looked for: under `textures/`, as a `.dds`.
pub open spec fn texture_path_of(name: Seq<char>) -> Seq<char> {
    let stem = stem_of(slashed(name));
    if in_textures(stem) {
        stem + ".dds"@
    } else {
        "textures/"@ + stem + ".dds"@
    }
}

/// Turns a model's texture name into a virtual file system path.
///
/// Two fixups the data needs, both quirks rather than conventions: the name is relative to
/// `textures/`, and it routinely claims an extension the shipped file does not have.
pub fn texture_path(name: &str) -> (r: String)
    ensures
        r@ == texture_path_of(name@),
{
    let raw: Vec<char> = chars(name);
    let mut all: Vec<char> = Vec::new();
    let mut dot: usize = 0;
    let mut i: usize = 0;
    let ghost whole = slashed(name@);
    while i < raw.len()
        invariant
            i <= raw@.len(),
            raw@ == name@,
            whole == slashed(name@),
            all@ == whole.take(i as int),
            dot == last_of(whole.take(i as int), '.') + 1,
            dot <= i,
        decreases raw@.len() - i,
    {
        let c: char = if raw[i] == '\\' { '/' } else { raw[i] };
        all.push(c);
        proof {
            assert(all@ =~= whole.take(i + 1));
            assert(whole.take(i + 1).drop_last() =~= whole.take(i as int));
            assert(whole.take(i + 1).last() == c);
        }
        i = i + 1;
        if c == '.' {
            dot = i;
        }
    }
    assert(whole.take(i as int) =~= whole);
    if dot > 0 {
        all.truncate(dot - 1);
    }
    assert(all@ =~= stem_of(whole));
    let prefix: Vec<char> = chars("textures/");
    let suffix: Vec<char> = chars(".dds");
    let inside: bool = starts_with_lowered(&all, &prefix);
    let mut path: Vec<char> = Vec::new();
    if !inside {
        push_all(&mut path, &prefix);
    }
    push_all(&mut path, &all);
    push_all(&mut path, &suffix);
    proof {
        assert(path@ =~= texture_path_of(name@));
    }
    string_of(path.as_slice())
}

/// Whether a text starts with a prefix of small letters, in any ASCII case.
pub fn starts_with_lowered(all: &Vec<char>, prefix: &Vec<char>) -> (r: bool)
    ensures
        r == (all@.len() >= prefix@.len() && lowered(all@).take(prefix@.len() as int) == prefix@),
{
    if all.len() < prefix.len() {
        return false;
    }
    let mut i: usize = 0;
    while i < prefix.len()
        invariant
            i <= prefix@.len() <= all@.len(),
            forall|k: int| 0 <= k < i ==> lowered(all@)[k] == prefix@[k],
        decreases prefix@.len() - i,
    {
        if to_small(all[i]) != prefix[i] {
            assert(lowered(all@).take(prefix@.len() as int)[i as int] != prefix@[i as int]);
            return false;
        }
        i = i + 1;
    }
    assert(lowered(all@).take(prefix@.len() as int) =~= prefix@);
    true
}

/// The characters the two fixed parts of a texture path are made of.
proof fn lemma_fixed_parts()
    ensures
        "textures/"@.len() == 9,
        ".dds"@ == seq!['.', 'd', 'd', 's'],
        lowered("textures/"@) == "textures/"@,
        slashed("textures/"@) == "textures/"@,
        slashed(".dds"@) == ".dds"@,
{
    reveal_strlit("textures/");
    reveal_strlit(".dds");
    assert(".dds"@ =~= seq!['.', 'd', 'd', 's']);
    assert(lowered("textures/"@) =~= "textures/"@);
    assert(slashed("textures/"@) =~= "textures/"@);
    assert(slashed(".dds"@) =~= ".dds"@);
}

/// **A texture is always looked for under `textures/`, as a `.dds`**, whatever its name.
pub proof fn law_texture_paths_are_fixed_up(name: Seq<char>)
    ensures
        in_textures(texture_path_of(name)),
        texture_path_of(name).len() >= 4,
        texture_path_of(name).skip(texture_path_of(name).len() - 4) == ".dds"@,
{
    lemma_fixed_parts();
    let stem = stem_of(slashed(name));
    let path = texture_path_of(name);
    if in_textures(stem) {
        assert(lowered(path).take(9) =~= lowered(stem).take(9));
    } else {
        assert(lowered(path).take(9) =~= lowered("textures/"@));
    }
    assert(path.skip(path.len() - 4) =~= ".dds"@);
}

/// The last of a character stands within the text.
proof fn lemma_last_within(s: Seq<char>, c: char)
    ensures
        -1 <= last_of(s, c) < s.len(),
    decreases s.len(),
{
    if s.len() > 0 {
        lemma_last_within(s.drop_last(), c);
    }
}

/// The last dot of a name is the one its new extension brought.
proof fn lemma_last_dot(stem: Seq<char>)
    ensures
        last_of(stem + ".dds"@, '.') == stem.len(),
{
    lemma_fixed_parts();
    let whole = stem + ".dds"@;
    let three = stem + seq!['.', 'd', 'd'];
    let two = stem + seq!['.', 'd'];
    let one = stem + seq!['.'];
    assert(whole.drop_last() =~= three);
    assert(three.drop_last() =~= two);
    assert(two.drop_last() =~= one);
    assert(whole.last() == 's' && three.last() == 'd' && two.last() == 'd' && one.last() == '.');
    reveal_with_fuel(last_of, 5);
}

/// **Fixing a path up again changes nothing.**
pub proof fn law_fixing_up_is_idempotent(name: Seq<char>)
    ensures
        texture_path_of(texture_path_of(name)) == texture_path_of(name),
{
    lemma_fixed_parts();
    let raw = slashed(name);
    let stem = stem_of(raw);
    let path = texture_path_of(name);
    let start = if in_textures(stem) {
        stem
    } else {
        "textures/"@ + stem
    };
    assert(path =~= start + ".dds"@);
    assert forall|i: int| 0 <= i < raw.len() implies raw[i] != '\\' by {
        assert(raw[i] == slashed(name)[i]);
    }
    assert(slashed(stem) =~= stem) by {
        lemma_last_within(raw, '.');
    }
    assert(slashed(path) =~= path) by {
        assert(slashed(path) =~= slashed(start) + slashed(".dds"@));
        assert(slashed(start) =~= start);
    }
    lemma_last_dot(start);
    assert(stem_of(path) =~= start);
    assert(in_textures(start)) by {
        if !in_textures(stem) {
            assert(lowered(start).take(9) =~= lowered("textures/"@));
        }
    }
}

} // verus!
