//! What each placeable object draws with and the light it casts.

use super::ini::lowered;
use super::material::{slashed, starts_with_lowered};
use crate::name_map::NameMap;
use crate::text::chars;
use crate::vfs::normalized_path::last_of;
use vstd::prelude::*;

verus! {

/// A text in small letters, by Unicode's rules.
pub uninterp spec fn lower_case(text: Seq<char>) -> Seq<char>;

/// Whether every character of a text is ASCII.
pub open spec fn all_ascii(text: Seq<char>) -> bool {
    forall|i: int| 0 <= i < text.len() ==> (#[trigger] text[i] as u32) < 128
}

/// `str::to_lowercase`: a text in small letters, which is a function of the text alone. Of a text
/// that is ASCII it makes the capitals small and leaves the rest; what Unicode's tables make of
/// other characters has a name here and is not spelled out.
#[verifier::external_body]
pub(crate) fn in_lower_case(text: &str) -> (r: String)
    ensures
        r@ == lower_case(text@),
        all_ascii(text@) ==> r@ == lowered(text@),
{
    text.to_lowercase()
}

/// The light an object casts.
#[derive(Debug, Clone, Copy)]
pub struct LightRecord {
    /// Packed, red in the low byte.
    pub colour: u32,
    pub radius: u32,
    /// Whether it is a light that stands in a cell rather than one that is carried.
    pub placeable: bool,
}

/// What one record of a content file says of an object.
#[derive(Debug)]
pub struct ObjectRecord {
    pub deleted: bool,
    pub ignored: bool,
    /// Whether it is of a kind a cell can place.
    pub placeable: bool,
    pub id: String,
    /// Where its model is, for an object that has one.
    pub model: Option<String>,
    /// The light it casts, for an object that is a light.
    pub light: Option<LightRecord>,
}

/// Maps an object id to the mesh it draws with.
///
/// Built once per content file: a cell names the records it places, not the models, and the same
/// record is placed thousands of times across the world.
#[derive(Debug)]
pub struct ModelIndex {
    /// Lower-cased object id to virtual file system path.
    models: NameMap<String>,
    /// Lower-cased object id to light data.
    lights: NameMap<LightRecord>,
}

/// What a [`ModelIndex`] is: the model and the light of every lower-cased object id.
#[verifier::ext_equal]
pub struct IndexModel {
    pub models: Map<Seq<char>, Seq<char>>,
    pub lights: Map<Seq<char>, LightRecord>,
}

impl View for ModelIndex {
    type V = IndexModel;

    closed spec fn view(&self) -> IndexModel {
        IndexModel {
            models: self.models@.map_values(|path: String| path@),
            lights: self.lights@,
        }
    }
}

/// An index of nothing.
pub open spec fn empty_index() -> IndexModel {
    IndexModel { models: Map::empty(), lights: Map::empty() }
}

/// What a model's path says, where there is one.
pub open spec fn spelled_path(path: Option<String>) -> Option<Seq<char>> {
    match path {
        Some(path) => Some(path@),
        None => None,
    }
}

/// An index with what one object draws with and casts, in place of what it had under that id.
pub open spec fn with_object(
    index: IndexModel,
    id: Seq<char>,
    model: Option<Seq<char>>,
    light: Option<LightRecord>,
) -> IndexModel {
    IndexModel {
        models: match model {
            Some(path) => index.models.insert(id, path),
            None => index.models,
        },
        lights: match light {
            Some(light) => index.lights.insert(id, light),
            None => index.lights,
        },
    }
}

/// Whether a record is one a cell can place.
pub open spec fn counts(record: ObjectRecord) -> bool {
    !record.deleted && !record.ignored && record.placeable
}

/// What the first `n` of some records make an index hold. Ids are known in small letters, and a
/// later record of the same id replaces what an earlier one said.
pub open spec fn indexed(records: Seq<ObjectRecord>, n: nat) -> IndexModel
    decreases n,
{
    if n == 0 {
        empty_index()
    } else {
        let before = indexed(records, (n - 1) as nat);
        let record = records[n - 1];
        if counts(record) {
            with_object(
                before,
                lower_case(record.id@),
                spelled_path(record.model),
                record.light,
            )
        } else {
            before
        }
    }
}

/// The last part of a path: what follows the last separator of either kind.
pub open spec fn file_part(path: Seq<char>) -> Seq<char> {
    path.skip(last_of(slashed(path), '/') + 1)
}

/// Whether a model is an editor marker: its file's name starts with `marker_`, in any ASCII case.
pub open spec fn is_marker(path: Seq<char>) -> bool {
    let file = file_part(path);
    file.len() >= "marker_"@.len() && lowered(file).take("marker_"@.len() as int) == "marker_"@
}

/// The last of a character stands within the text.
proof fn lemma_last_within(s: Seq<char>, c: char)
    ensures
        -1 <= last_of(s, c) < s.len(),
    decreases s.len(),
{
    if s.len() > 0 {
        lemma_last_within(s.drop_last(), c);
    }
}

/// Whether a model is an editor marker.
pub fn names_marker(path: &str) -> (r: bool)
    ensures
        r == is_marker(path@),
{
    let all: Vec<char> = chars(path);
    let ghost whole = slashed(path@);
    let mut from: usize = 0;
    let mut i: usize = 0;
    while i < all.len()
        invariant
            i <= all@.len(),
            all@ == path@,
            whole == slashed(path@),
            from == last_of(whole.take(i as int), '/') + 1,
            from <= i,
        decreases all@.len() - i,
    {
        let c: char = all[i];
        proof {
            assert(whole.take(i + 1).drop_last() =~= whole.take(i as int));
            assert(whole.take(i + 1).last() == whole[i as int]);
        }
        i = i + 1;
        if c == '/' || c == '\\' {
            from = i;
        }
    }
    assert(whole.take(i as int) =~= whole);
    let mut file: Vec<char> = Vec::new();
    let mut j: usize = from;
    while j < all.len()
        invariant
            from <= j <= all@.len(),
            all@ == path@,
            file@ == path@.subrange(from as int, j as int),
        decreases all@.len() - j,
    {
        file.push(all[j]);
        j = j + 1;
        assert(file@ =~= path@.subrange(from as int, j as int));
    }
    assert(file@ =~= file_part(path@));
    let prefix: Vec<char> = chars("marker_");
    starts_with_lowered(&file, &prefix)
}

impl ModelIndex {
    /// Every id is listed once.
    pub closed spec fn wf(&self) -> bool {
        self.models.wf() && self.lights.wf()
    }

    /// An index of nothing.
    pub fn new() -> (r: ModelIndex)
        ensures
            r.wf(),
            r@ == empty_index(),
    {
        let r: ModelIndex = ModelIndex { models: NameMap::new(), lights: NameMap::new() };
        assert(r@ =~= empty_index());
        r
    }

    /// Lists what an object draws with and casts, under an id that is already in small letters.
    pub fn insert(&mut self, id: &str, model: Option<&str>, light: Option<LightRecord>)
        requires
            old(self).wf(),
        ensures
            final(self).wf(),
            final(self)@ == with_object(
                old(self)@,
                id@,
                match model {
                    Some(path) => Some(path@),
                    None => None,
                },
                light,
            ),
    {
        let ghost before = self.models@;
        match model {
            Some(path) => {
                self.models.insert(id, path.to_owned());
                proof {
                    let spell = |path: String| path@;
                    assert(self.models@.map_values(spell) =~= before.map_values(spell).insert(
                        id@,
                        path@,
                    ));
                }
            },
            None => {},
        }
        match light {
            Some(light) => {
                self.lights.insert(id, light);
            },
            None => {},
        }
    }

    /// Indexes every placeable record.
    pub fn build(records: &Vec<ObjectRecord>) -> (r: ModelIndex)
        ensures
            r.wf(),
            r@ == indexed(records@, records@.len()),
    {
        let mut index: ModelIndex = ModelIndex::new();
        let mut i: usize = 0;
        while i < records.len()
            invariant
                i <= records@.len(),
                index.wf(),
                index@ == indexed(records@, i as nat),
            decreases records@.len() - i,
        {
            let record: &ObjectRecord = &records[i];
            if !record.deleted && !record.ignored && record.placeable {
                let id: String = in_lower_case(record.id.as_str());
                match &record.model {
                    Some(path) => {
                        index.insert(id.as_str(), Some(path.as_str()), record.light);
                    },
                    None => {
                        index.insert(id.as_str(), None, record.light);
                    },
                }
            }
            i = i + 1;
        }
        index
    }

    /// The light data listed under an id in small letters.
    pub fn light_under(&self, id: &str) -> (r: Option<LightRecord>)
        requires
            self.wf(),
        ensures
            r == (if self@.lights.dom().contains(id@) {
                Some(self@.lights[id@])
            } else {
                None
            }),
    {
        match self.lights.get(id) {
            Some(light) => Some(*light),
            None => None,
        }
    }

    /// The mesh path listed under an id in small letters.
    pub fn model_under(&self, id: &str) -> (r: Option<&str>)
        requires
            self.wf(),
        ensures
            match r {
                Some(path) => self@.models.dom().contains(id@) && self@.models[id@] == path@,
                None => !self@.models.dom().contains(id@),
            },
    {
        match self.models.get(id) {
            Some(path) => Some(path.as_str()),
            None => None,
        }
    }

    /// The light data for `object_id`, if the record is a light.
    pub fn light_of(&self, object_id: &str) -> (r: Option<LightRecord>)
        requires
            self.wf(),
        ensures
            r == self@.light(object_id@),
    {
        let id: String = in_lower_case(object_id);
        self.light_under(id.as_str())
    }

    /// The mesh path for `object_id`, if it has one.
    pub fn model_of(&self, object_id: &str) -> (r: Option<&str>)
        requires
            self.wf(),
        ensures
            match r {
                Some(path) => self@.model(object_id@) == Some(path@),
                None => self@.model(object_id@) is None,
            },
    {
        let id: String = in_lower_case(object_id);
        self.model_under(id.as_str())
    }

    /// Whether `object_id` draws with an editor marker rather than real art.
    ///
    /// They are placement aids the game never draws, and one of them is filed as a door,
    /// which makes the distinction matter to more than rendering.
    pub fn is_editor_marker(&self, object_id: &str) -> (r: bool)
        requires
            self.wf(),
        ensures
            r == self@.marks(object_id@),
    {
        match self.model_of(object_id) {
            Some(path) => names_marker(path),
            None => false,
        }
    }

    /// How many records carry a model.
    pub fn len(&self) -> (r: usize)
        requires
            self.wf(),
        ensures
            r == self@.models.dom().len(),
            self@.models.dom().finite(),
    {
        assert(self@.models.dom() =~= self.models@.dom());
        self.models.len()
    }

    /// Whether no record carries a model.
    pub fn is_empty(&self) -> (r: bool)
        requires
            self.wf(),
        ensures
            r == (self@.models == Map::<Seq<char>, Seq<char>>::empty()),
    {
        let n: usize = self.len();
        proof {
            if n == 0 {
                assert(self@.models.dom() =~= Set::empty());
                assert(self@.models =~= Map::empty());
            }
        }
        n == 0
    }
}

impl IndexModel {
    /// The model of an object, by its id in any case.
    pub open spec fn model(self, object_id: Seq<char>) -> Option<Seq<char>> {
        let id = lower_case(object_id);
        if self.models.dom().contains(id) {
            Some(self.models[id])
        } else {
            None
        }
    }

    /// The light of an object, by its id in any case.
    pub open spec fn light(self, object_id: Seq<char>) -> Option<LightRecord> {
        let id = lower_case(object_id);
        if self.lights.dom().contains(id) {
            Some(self.lights[id])
        } else {
            None
        }
    }

    /// Whether an object draws with an editor marker.
    pub open spec fn marks(self, object_id: Seq<char>) -> bool {
        match self.model(object_id) {
            Some(path) => is_marker(path),
            None => false,
        }
    }
}

/// **An object is found however its id is capitalised**: ids that agree in small letters name the
/// same model and the same light.
pub proof fn law_ids_are_found_in_any_case(index: IndexModel, a: Seq<char>, b: Seq<char>)
    requires
        lower_case(a) == lower_case(b),
    ensures
        index.model(a) == index.model(b),
        index.light(a) == index.light(b),
        index.marks(a) == index.marks(b),
{
}

/// **A later record of the same object replaces the earlier one.**
pub proof fn law_the_last_record_wins(records: Seq<ObjectRecord>, n: nat)
    requires
        0 < n <= records.len(),
        counts(records[n - 1]),
    ensures
        records[n - 1].model is Some ==> indexed(records, n).model(records[n - 1].id@) == Some(
            records[n - 1].model->0@,
        ),
        records[n - 1].light is Some ==> indexed(records, n).light(records[n - 1].id@)
            == records[n - 1].light,
{
}

/// **A marker is a marker whichever separator precedes its file's name.**
pub proof fn law_either_separator_precedes_a_marker(path: Seq<char>)
    ensures
        is_marker(slashed(path)) == is_marker(path),
{
    let file = file_part(path);
    let other = file_part(slashed(path));
    let at = last_of(slashed(path), '/');
    assert(slashed(slashed(path)) =~= slashed(path));
    lemma_last_within(slashed(path), '/');
    lemma_none_after(slashed(path), '/', at);
    assert forall|i: int| 0 <= i < file.len() implies file[i] == other[i] by {
        assert(slashed(path)[at + 1 + i] != '/');
        assert(file[i] == path[at + 1 + i]);
        assert(other[i] == slashed(path)[at + 1 + i]);
    }
    assert(file =~= other);
}

/// Nothing after the last of a character is that character.
proof fn lemma_none_after(s: Seq<char>, c: char, at: int)
    requires
        at == last_of(s, c),
    ensures
        forall|i: int| at < i < s.len() ==> #[trigger] s[i] != c,
    decreases s.len(),
{
    lemma_last_within(s, c);
    if s.len() > 0 && s.last() != c {
        lemma_none_after(s.drop_last(), c, at);
        assert forall|i: int| at < i < s.len() implies #[trigger] s[i] != c by {
            if i < s.len() - 1 {
                assert(s.drop_last()[i] == s[i]);
            }
        }
    }
}

} // verus!
