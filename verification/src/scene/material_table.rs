//! The scene-wide set of distinct materials and the textures they name.

use super::material::{same_material, Material, TextureId};
use crate::text::same;
use vstd::prelude::*;

verus! {

/// Materials and texture paths, deduplicated across every mesh in a scene.
///
/// Scene-wide rather than per mesh because that is the granularity a renderer wants: one texture
/// array and one material buffer for a whole cell, indexed at a hit.
#[derive(Debug)]
pub struct MaterialTable {
    materials: Vec<Material>,
    textures: Vec<String>,
}

/// What a [`MaterialTable`] is: its materials and its texture paths, each by number.
#[verifier::ext_equal]
pub struct TableModel {
    pub materials: Seq<Material>,
    pub textures: Seq<Seq<char>>,
}

impl View for MaterialTable {
    type V = TableModel;

    closed spec fn view(&self) -> TableModel {
        TableModel {
            materials: self.materials@,
            textures: Seq::new(self.textures@.len(), |i: int| self.textures@[i]@),
        }
    }
}

/// The number of the first of `materials` that is the same as `m`, or how many there are.
pub open spec fn first_same(materials: Seq<Material>, m: Material) -> int
    decreases materials.len(),
{
    if materials.len() == 0 {
        0
    } else {
        let k = first_same(materials.drop_last(), m);
        if k < materials.len() - 1 {
            k
        } else if same_material(materials.last(), m) {
            materials.len() - 1
        } else {
            materials.len() as int
        }
    }
}

/// Materials with `m` among them: added at the end where it is new.
pub open spec fn with_material(materials: Seq<Material>, m: Material) -> Seq<Material> {
    if first_same(materials, m) < materials.len() {
        materials
    } else {
        materials.push(m)
    }
}

/// The number of the first of `textures` that is `path`, or how many there are.
pub open spec fn first_path(textures: Seq<Seq<char>>, path: Seq<char>) -> int
    decreases textures.len(),
{
    if textures.len() == 0 {
        0
    } else {
        let k = first_path(textures.drop_last(), path);
        if k < textures.len() - 1 {
            k
        } else if textures.last() == path {
            textures.len() - 1
        } else {
            textures.len() as int
        }
    }
}

/// Texture paths with `path` among them: added at the end where it is new.
pub open spec fn with_path(textures: Seq<Seq<char>>, path: Seq<char>) -> Seq<Seq<char>> {
    if first_path(textures, path) < textures.len() {
        textures
    } else {
        textures.push(path)
    }
}

/// Where the first material the same as `m` is.
pub proof fn lemma_first_same(materials: Seq<Material>, m: Material)
    ensures
        0 <= first_same(materials, m) <= materials.len(),
        first_same(materials, m) < materials.len() ==> same_material(
            materials[first_same(materials, m)],
            m,
        ),
        forall|k: int|
            0 <= k < first_same(materials, m) ==> !same_material(#[trigger] materials[k], m),
    decreases materials.len(),
{
    if materials.len() > 0 {
        let rest = materials.drop_last();
        lemma_first_same(rest, m);
        assert forall|k: int| 0 <= k < first_same(materials, m) implies !same_material(
            #[trigger] materials[k],
            m,
        ) by {
            if k < rest.len() {
                assert(rest[k] == materials[k]);
            }
        }
    }
}

/// The first material the same as `m` is the one before which none is.
proof fn lemma_first_same_is(materials: Seq<Material>, m: Material, at: int)
    requires
        0 <= at <= materials.len(),
        at < materials.len() ==> same_material(materials[at], m),
        forall|k: int| 0 <= k < at ==> !same_material(#[trigger] materials[k], m),
    ensures
        first_same(materials, m) == at,
{
    lemma_first_same(materials, m);
    let f = first_same(materials, m);
    if f < at {
        assert(!same_material(materials[f], m));
    } else if at < f {
        assert(!same_material(materials[at], m));
    }
}

/// Where the first path that is `path` is.
pub proof fn lemma_first_path(textures: Seq<Seq<char>>, path: Seq<char>)
    ensures
        0 <= first_path(textures, path) <= textures.len(),
        first_path(textures, path) < textures.len() ==> textures[first_path(textures, path)]
            == path,
        forall|k: int| 0 <= k < first_path(textures, path) ==> #[trigger] textures[k] != path,
    decreases textures.len(),
{
    if textures.len() > 0 {
        let rest = textures.drop_last();
        lemma_first_path(rest, path);
        assert forall|k: int| 0 <= k < first_path(textures, path) implies #[trigger] textures[k]
            != path by {
            if k < rest.len() {
                assert(rest[k] == textures[k]);
            }
        }
    }
}

/// The first path that is `path` is the one before which none is.
proof fn lemma_first_path_is(textures: Seq<Seq<char>>, path: Seq<char>, at: int)
    requires
        0 <= at <= textures.len(),
        at < textures.len() ==> textures[at] == path,
        forall|k: int| 0 <= k < at ==> #[trigger] textures[k] != path,
    ensures
        first_path(textures, path) == at,
{
    lemma_first_path(textures, path);
    let f = first_path(textures, path);
    if f < at {
        assert(textures[f] != path);
    } else if at < f {
        assert(textures[at] != path);
    }
}

/// Whether no two of `materials` are the same.
pub open spec fn all_different(materials: Seq<Material>) -> bool {
    forall|i: int, j: int|
        0 <= i < j < materials.len() ==> !same_material(
            #[trigger] materials[i],
            #[trigger] materials[j],
        )
}

impl TableModel {
    /// No material and no path is listed twice.
    pub open spec fn wf(self) -> bool {
        &&& all_different(self.materials)
        &&& self.textures.no_duplicates()
    }
}

impl MaterialTable {
    /// A table with nothing in it.
    pub fn new() -> (r: MaterialTable)
        ensures
            r@ == (TableModel { materials: Seq::empty(), textures: Seq::empty() }),
            r@.wf(),
    {
        let r: MaterialTable = MaterialTable { materials: Vec::new(), textures: Vec::new() };
        assert(r@ =~= TableModel { materials: Seq::empty(), textures: Seq::empty() });
        r
    }

    /// The index of `material`, adding it if it is new.
    pub fn intern(&mut self, material: Material) -> (r: u32)
        requires
            old(self)@.materials.len() < u32::MAX,
        ensures
            r == first_same(old(self)@.materials, material),
            final(self)@.materials == with_material(old(self)@.materials, material),
            final(self)@.textures == old(self)@.textures,
            old(self)@.wf() ==> final(self)@.wf(),
    {
        let ghost before = self@.materials;
        let mut i: usize = 0;
        while i < self.materials.len()
            invariant
                i <= self.materials@.len(),
                *self == *old(self),
                before == self.materials@,
                before == old(self)@.materials,
                before.len() < u32::MAX,
                forall|k: int| 0 <= k < i ==> !same_material(#[trigger] before[k], material),
            decreases self.materials@.len() - i,
        {
            if self.materials[i].is_same(&material) {
                proof {
                    lemma_first_same_is(before, material, i as int);
                }
                return i as u32;
            }
            i = i + 1;
        }
        proof {
            lemma_first_same_is(before, material, i as int);
        }
        self.materials.push(material);
        assert(self@.textures =~= old(self)@.textures);
        i as u32
    }

    /// The id of `path`, adding it if it is new.
    pub fn intern_texture(&mut self, path: &str) -> (r: TextureId)
        requires
            old(self)@.textures.len() < u32::MAX,
        ensures
            r.0 == first_path(old(self)@.textures, path@),
            final(self)@.textures == with_path(old(self)@.textures, path@),
            final(self)@.materials == old(self)@.materials,
            old(self)@.wf() ==> final(self)@.wf(),
    {
        let ghost before = self@.textures;
        let mut i: usize = 0;
        while i < self.textures.len()
            invariant
                i <= self.textures@.len(),
                *self == *old(self),
                before == self@.textures,
                before.len() < u32::MAX,
                forall|k: int| 0 <= k < i ==> #[trigger] before[k] != path@,
            decreases self.textures@.len() - i,
        {
            assert(before[i as int] == self.textures@[i as int]@);
            if same(self.textures[i].as_str(), path) {
                proof {
                    lemma_first_path_is(before, path@, i as int);
                }
                return TextureId(i as u32);
            }
            i = i + 1;
        }
        proof {
            lemma_first_path_is(before, path@, i as int);
        }
        self.textures.push(path.to_owned());
        assert(self@.textures =~= before.push(path@));
        TextureId(i as u32)
    }

    /// Every distinct material, indexed by what [`MaterialTable::intern`] returned.
    pub fn materials(&self) -> (r: &[Material])
        ensures
            r@ == self@.materials,
    {
        self.materials.as_slice()
    }

    /// Every distinct texture path, indexed by [`TextureId`].
    pub fn textures(&self) -> (r: &[String])
        ensures
            r@.len() == self@.textures.len(),
            forall|i: int| 0 <= i < r@.len() ==> #[trigger] r@[i]@ == self@.textures[i],
    {
        self.textures.as_slice()
    }
}

/// **Interning a material again gives the number it had**, and adds nothing.
pub proof fn law_interning_again_changes_nothing(materials: Seq<Material>, m: Material)
    requires
        same_material(m, m),
    ensures
        with_material(with_material(materials, m), m) == with_material(materials, m),
        first_same(with_material(materials, m), m) == first_same(materials, m),
        first_same(materials, m) < with_material(materials, m).len(),
{
    lemma_first_same(materials, m);
    if first_same(materials, m) == materials.len() {
        let more = materials.push(m);
        assert forall|k: int| 0 <= k < materials.len() implies !same_material(
            #[trigger] more[k],
            m,
        ) by {
            assert(more[k] == materials[k]);
        }
        lemma_first_same_is(more, m, materials.len() as int);
    }
}

/// **A number once given keeps meaning what it meant**: interning never moves a material.
pub proof fn law_numbers_stay(materials: Seq<Material>, m: Material, i: int)
    requires
        0 <= i < materials.len(),
    ensures
        with_material(materials, m)[i] == materials[i],
{
}

/// **A texture's id is where its path is**, and ids already given keep their paths.
pub proof fn law_ids_index_the_paths(textures: Seq<Seq<char>>, path: Seq<char>, i: int)
    requires
        0 <= i < textures.len(),
    ensures
        with_path(textures, path)[first_path(textures, path)] == path,
        with_path(textures, path)[i] == textures[i],
        first_path(with_path(textures, path), path) == first_path(textures, path),
{
    lemma_first_path(textures, path);
    if first_path(textures, path) == textures.len() {
        let more = textures.push(path);
        assert forall|k: int| 0 <= k < textures.len() implies #[trigger] more[k] != path by {
            assert(more[k] == textures[k]);
        }
        lemma_first_path_is(more, path, textures.len() as int);
    }
}

} // verus!
