//! The layered virtual file system.

use super::bsa_archive::{BsaArchive, BsaModel};
use super::directory_archive::{DirectoryArchive, DirectoryModel};
use super::error::VfsError;
use super::normalized_path::{is_normal, lies_in, normalized, NormalizedPath};
use super::sorted_names::{find_slot, lemma_strict_is_in_order, strictly_in_order, texts};
use crate::text::{
    before, lemma_before_is_total, lemma_before_is_transitive, lemma_not_before_itself,
};
use vstd::prelude::*;

verus! {

/// One indexed source of files.
#[derive(Debug)]
pub enum ArchiveSource {
    Bsa(BsaArchive),
    Directory(DirectoryArchive),
}

/// What an [`ArchiveSource`] is: everything its archive or directory is.
#[verifier::ext_equal]
pub enum SourceModel {
    Bsa(BsaModel),
    Directory(DirectoryModel),
}

/// Where a file's contents are: a stretch of an archive, or a file of their own.
#[verifier::ext_equal]
pub enum ContentsModel {
    Packed { archive: Seq<char>, offset: int, size: int },
    Loose { file: Seq<char> },
}

impl SourceModel {
    /// Where the source came from.
    pub open spec fn path(self) -> Seq<char> {
        match self {
            SourceModel::Bsa(archive) => archive.path,
            SourceModel::Directory(directory) => directory.root,
        }
    }

    /// The names the source provides, entry by entry.
    pub open spec fn names(self) -> Seq<Seq<char>> {
        match self {
            SourceModel::Bsa(archive) => Seq::new(
                archive.entries.len(),
                |i: int| archive.entries[i].name,
            ),
            SourceModel::Directory(directory) => Seq::new(
                directory.entries.len(),
                |i: int| directory.entries[i].name,
            ),
        }
    }

    /// Where the contents of entry `i` are.
    pub open spec fn contents(self, i: int) -> ContentsModel {
        match self {
            SourceModel::Bsa(archive) => ContentsModel::Packed {
                archive: archive.path,
                offset: archive.entries[i].offset,
                size: archive.entries[i].size,
            },
            SourceModel::Directory(directory) => ContentsModel::Loose {
                file: directory.entries[i].on_disk,
            },
        }
    }
}

/// Where a path resolves to: a source, and an entry of it.
#[derive(Debug, Clone, Copy, PartialEq, Eq, Structural)]
pub struct FileLocation {
    pub source: u32,
    pub entry: u32,
}

/// A flat, case-insensitive view over layered archives and loose directories.
///
/// Sources are added in priority order, lowest first: a path present in more than one source
/// resolves to the last source that provided it. That is what lets a loose file override the same
/// path inside an archive, which is how essentially every texture replacer works.
#[derive(Debug)]
pub struct Vfs {
    sources: Vec<ArchiveSource>,
    names: Vec<NormalizedPath>,
    locations: Vec<FileLocation>,
}

/// What a [`Vfs`] is: its sources, and where each visible path resolves to.
#[verifier::ext_equal]
pub struct VfsModel {
    pub sources: Seq<SourceModel>,
    pub index: Map<Seq<char>, FileLocation>,
}

impl ArchiveSource {
    /// A source's names are in normalized form.
    pub open spec fn wf(&self) -> bool {
        match self {
            ArchiveSource::Bsa(a) => a.wf(),
            ArchiveSource::Directory(a) => a.wf(),
        }
    }

    /// Number of files the source provides.
    pub fn len(&self) -> (r: usize)
        ensures
            r == self@.names().len(),
    {
        match self {
            ArchiveSource::Bsa(a) => a.len(),
            ArchiveSource::Directory(a) => a.len(),
        }
    }

    /// The normalized name of entry `index`.
    pub fn entry_name(&self, index: usize) -> (r: &str)
        requires
            index < self@.names().len(),
        ensures
            r@ == self@.names()[index as int],
    {
        match self {
            ArchiveSource::Bsa(a) => a.entry_name(index),
            ArchiveSource::Directory(a) => a.entry_name(index),
        }
    }

    /// Where the source came from.
    pub fn path(&self) -> (r: &str)
        ensures
            r@ == self@.path(),
    {
        match self {
            ArchiveSource::Bsa(a) => a.path(),
            ArchiveSource::Directory(a) => a.path(),
        }
    }
}

impl View for ArchiveSource {
    type V = SourceModel;

    open spec fn view(&self) -> SourceModel {
        match self {
            ArchiveSource::Bsa(a) => SourceModel::Bsa(a@),
            ArchiveSource::Directory(a) => SourceModel::Directory(a@),
        }
    }
}

/// An index overridden by the first `count` of the names that source number `source` provides.
pub open spec fn overlaid(
    index: Map<Seq<char>, FileLocation>,
    names: Seq<Seq<char>>,
    source: u32,
    count: int,
) -> Map<Seq<char>, FileLocation>
    decreases count,
{
    if count <= 0 {
        index
    } else {
        overlaid(index, names, source, count - 1).insert(
            names[count - 1],
            FileLocation { source, entry: (count - 1) as u32 },
        )
    }
}

/// A file system with one more source over it.
pub open spec fn with_source(vfs: VfsModel, source: SourceModel) -> VfsModel {
    VfsModel {
        sources: vfs.sources.push(source),
        index: overlaid(
            vfs.index,
            source.names(),
            vfs.sources.len() as u32,
            source.names().len() as int,
        ),
    }
}

/// Sources laid one over another, the first lowest.
pub open spec fn layered(sources: Seq<SourceModel>) -> VfsModel
    decreases sources.len(),
{
    if sources.len() == 0 {
        VfsModel { sources, index: Map::empty() }
    } else {
        with_source(layered(sources.drop_last()), sources.last())
    }
}

/// The last place a name has among some, or none.
pub open spec fn last_of(names: Seq<Seq<char>>, name: Seq<char>) -> int
    decreases names.len(),
{
    if names.len() == 0 {
        -1
    } else if names.last() == name {
        names.len() - 1
    } else {
        last_of(names.drop_last(), name)
    }
}

/// Where the contents of a path are, for sources laid one over another: in the last source that
/// provides the path, under the last of its entries of that name.
pub open spec fn read_from(sources: Seq<SourceModel>, name: Seq<char>) -> Option<ContentsModel>
    decreases sources.len(),
{
    if sources.len() == 0 {
        None
    } else if sources.last().names().contains(name) {
        Some(sources.last().contents(last_of(sources.last().names(), name)))
    } else {
        read_from(sources.drop_last(), name)
    }
}

/// Whether sources, and the entries of each, can be numbered in thirty-two bits.
pub open spec fn numbered(sources: Seq<SourceModel>) -> bool {
    &&& sources.len() <= u32::MAX
    &&& forall|i: int|
        0 <= i < sources.len() ==> (#[trigger] sources[i]).names().len() <= u32::MAX
}

/// Whether a location is where the contents of a path are, for sources laid one over another; none
/// is, where no source provides the path.
pub open spec fn found_at(
    sources: Seq<SourceModel>,
    at: Option<FileLocation>,
    name: Seq<char>,
) -> bool {
    match at {
        Some(at) => {
            &&& at.source < sources.len()
            &&& at.entry < sources[at.source as int].names().len()
            &&& sources[at.source as int].names()[at.entry as int] == name
            &&& read_from(sources, name) == Some(
                sources[at.source as int].contents(at.entry as int),
            )
        },
        None => read_from(sources, name) is None,
    }
}

/// What an overlay says of one name.
pub proof fn lemma_overlaid(
    index: Map<Seq<char>, FileLocation>,
    names: Seq<Seq<char>>,
    source: u32,
    count: int,
    name: Seq<char>,
)
    requires
        0 <= count <= names.len() <= u32::MAX,
    ensures
        ({
            let after = overlaid(index, names, source, count);
            if names.take(count).contains(name) {
                &&& 0 <= last_of(names.take(count), name) < count
                &&& names[last_of(names.take(count), name)] == name
                &&& forall|i: int|
                    last_of(names.take(count), name) < i < count ==> #[trigger] names[i] != name
                &&& after.get(name) == Some(
                    FileLocation { source, entry: last_of(names.take(count), name) as u32 },
                )
            } else {
                after.get(name) == index.get(name)
            }
        }),
    decreases count,
{
    let some = names.take(count);
    if count > 0 {
        let fewer = names.take(count - 1);
        lemma_overlaid(index, names, source, count - 1, name);
        assert(some.drop_last() =~= fewer);
        assert(some.last() == names[count - 1]);
        if names[count - 1] == name {
            assert(some.contains(some[count - 1]));
        } else if some.contains(name) {
            let i = some.index_of(name);
            assert(fewer[i] == name);
        } else if fewer.contains(name) {
            let i = fewer.index_of(name);
            assert(some[i] == name);
        }
    }
}

/// **A path reads what the last source that provides it holds**: an index of sources laid one over
/// another leads to where the contents of a path are, and to nowhere where no source provides it.
pub proof fn law_the_index_leads_to_contents(sources: Seq<SourceModel>, name: Seq<char>)
    requires
        numbered(sources),
    ensures
        layered(sources).sources == sources,
        found_at(sources, layered(sources).index.get(name), name),
    decreases sources.len(),
{
    if sources.len() > 0 {
        let below = sources.drop_last();
        let names = sources.last().names();
        assert forall|i: int| 0 <= i < below.len() implies (
        #[trigger] below[i]).names().len() <= u32::MAX by {
            assert(below[i] == sources[i]);
        }
        assert(sources[sources.len() - 1].names().len() <= u32::MAX);
        law_the_index_leads_to_contents(below, name);
        lemma_overlaid(
            layered(below).index,
            names,
            below.len() as u32,
            names.len() as int,
            name,
        );
        assert(names.take(names.len() as int) =~= names);
        assert(below.push(sources.last()) =~= sources);
    }
}

/// The map that parallel names and locations spell out.
spec fn index_of(names: Seq<Seq<char>>, locations: Seq<FileLocation>) -> Map<
    Seq<char>,
    FileLocation,
> {
    Map::new(|name: Seq<char>| names.contains(name), |name: Seq<char>| locations[names.index_of(name)])
}

/// What parallel names and locations map the name at `i` to.
proof fn lemma_index_at(names: Seq<Seq<char>>, locations: Seq<FileLocation>, i: int)
    requires
        names.no_duplicates(),
        0 <= i < names.len(),
    ensures
        index_of(names, locations).dom().contains(names[i]),
        index_of(names, locations)[names[i]] == locations[i],
{
    assert(names.contains(names[i]));
    let k = names.index_of(names[i]);
    assert(names[k] == names[i]);
}

/// Two indexes of parallel names and locations are one where one map says what the other does.
proof fn lemma_index_is(
    names: Seq<Seq<char>>,
    locations: Seq<FileLocation>,
    map: Map<Seq<char>, FileLocation>,
)
    requires
        names.no_duplicates(),
        forall|i: int|
            0 <= i < names.len() ==> map.dom().contains(#[trigger] names[i]) && map[names[i]]
                == locations[i],
        forall|name: Seq<char>| #[trigger] map.dom().contains(name) ==> names.contains(name),
    ensures
        index_of(names, locations) == map,
{
    let built = index_of(names, locations);
    assert forall|name: Seq<char>| built.dom().contains(name) == map.dom().contains(name) by {
        if names.contains(name) {
            let i = names.index_of(name);
            assert(map.dom().contains(names[i]));
        }
    }
    assert forall|name: Seq<char>| built.dom().contains(name) implies built[name] == map[name] by {
        let i = names.index_of(name);
        assert(names[i] == name);
    }
    assert(built =~= map);
}

/// What some sources are.
spec fn models(sources: Seq<ArchiveSource>) -> Seq<SourceModel> {
    Seq::new(sources.len(), |i: int| sources[i]@)
}

/// Where `name` stands among names strictly in order, or where it would go.
fn search(names: &Vec<NormalizedPath>, name: &NormalizedPath) -> (r: Result<usize, usize>)
    requires
        strictly_in_order(texts(names@)),
    ensures
        match r {
            Ok(at) => at < names@.len() && names@[at as int]@ == name@,
            Err(at) => {
                &&& at <= names@.len()
                &&& !texts(names@).contains(name@)
                &&& forall|j: int| 0 <= j < at ==> before(#[trigger] texts(names@)[j], name@)
                &&& forall|j: int|
                    at <= j < names@.len() ==> before(name@, #[trigger] texts(names@)[j])
            },
        },
{
    let ghost t = texts(names@);
    proof {
        lemma_strict_is_in_order(t);
    }
    let at: usize = find_slot(names, name);
    if at > 0 && names[at - 1].is_same(name) {
        return Ok(at - 1);
    }
    proof {
        if at > 0 {
            assert(t[at - 1] == names@[at - 1]@);
            assert(!before(name@, t[at - 1]));
            lemma_before_is_total(t[at - 1], name@);
        }
        assert forall|j: int| 0 <= j < at implies before(#[trigger] t[j], name@) by {
            if j < at - 1 {
                assert(before(t[j], t[at - 1]));
                lemma_before_is_transitive(t[j], t[at - 1], name@);
            }
        }
        if t.contains(name@) {
            let j = t.index_of(name@);
            assert(t[j] == name@);
            lemma_not_before_itself(name@);
            assert(false);
        }
    }
    Err(at)
}

impl View for Vfs {
    type V = VfsModel;

    closed spec fn view(&self) -> VfsModel {
        VfsModel {
            sources: models(self.sources@),
            index: index_of(texts(self.names@), self.locations@),
        }
    }
}

impl Vfs {
    /// Whether the index is in a state lookups can search, and names only files its sources have.
    pub closed spec fn wf(&self) -> bool {
        &&& self.names@.len() == self.locations@.len()
        &&& strictly_in_order(texts(self.names@))
        &&& forall|i: int| 0 <= i < self.names@.len() ==> is_normal(#[trigger] self.names@[i]@)
        &&& forall|i: int| 0 <= i < self.sources@.len() ==> (#[trigger] self.sources@[i]).wf()
        &&& numbered(self@.sources)
        &&& self@ == layered(self@.sources)
    }

    /// **A file system's index is what its sources give, laid one over another in the order they were
    /// added**, and nothing else.
    pub proof fn law_is_its_sources(&self)
        requires
            self.wf(),
        ensures
            numbered(self@.sources),
            self@ == layered(self@.sources),
    {
    }

    /// An empty file system.
    pub fn new() -> (r: Vfs)
        ensures
            r.wf(),
            r@.sources == Seq::<SourceModel>::empty(),
            r@.index == Map::<Seq<char>, FileLocation>::empty(),
    {
        let r: Vfs = Vfs { sources: Vec::new(), names: Vec::new(), locations: Vec::new() };
        assert(r@.sources =~= Seq::<SourceModel>::empty());
        assert(r@.index =~= Map::<Seq<char>, FileLocation>::empty());
        r
    }

    /// Where a path resolves to.
    fn find(&self, path: &str) -> (r: Option<FileLocation>)
        requires
            self.wf(),
        ensures
            r == self@.index.get(normalized(path@)),
            found_at(self@.sources, r, normalized(path@)),
    {
        let name: NormalizedPath = NormalizedPath::new(path);
        let ghost t = texts(self.names@);
        proof {
            lemma_strict_is_in_order(t);
            law_the_index_leads_to_contents(self@.sources, name@);
        }
        match search(&self.names, &name) {
            Ok(at) => {
                proof {
                    assert(t[at as int] == self.names@[at as int]@);
                    lemma_index_at(t, self.locations@, at as int);
                }
                Some(self.locations[at])
            },
            Err(_) => None,
        }
    }

    /// Points `name` at `location`, overriding what it resolved to before.
    fn point(
        names: &mut Vec<NormalizedPath>,
        locations: &mut Vec<FileLocation>,
        found: Result<usize, usize>,
        name: NormalizedPath,
        location: FileLocation,
    )
        requires
            old(names)@.len() == old(locations)@.len(),
            strictly_in_order(texts(old(names)@)),
            match found {
                Ok(at) => at < old(names)@.len() && old(names)@[at as int]@ == name@,
                Err(at) => {
                    &&& at <= old(names)@.len()
                    &&& forall|j: int|
                        0 <= j < at ==> before(#[trigger] texts(old(names)@)[j], name@)
                    &&& forall|j: int|
                        at <= j < old(names)@.len() ==> before(
                            name@,
                            #[trigger] texts(old(names)@)[j],
                        )
                },
            },
        ensures
            final(names)@.len() == final(locations)@.len(),
            strictly_in_order(texts(final(names)@)),
            index_of(texts(final(names)@), final(locations)@) == index_of(
                texts(old(names)@),
                old(locations)@,
            ).insert(name@, location),
            forall|i: int|
                0 <= i < final(names)@.len() ==> #[trigger] final(names)@[i]@ == name@ || texts(
                    old(names)@,
                ).contains(final(names)@[i]@),
    {
        let ghost before_names = texts(names@);
        let ghost before_locations = locations@;
        let ghost before_index = index_of(before_names, before_locations);
        let ghost key = name@;
        proof {
            lemma_strict_is_in_order(before_names);
        }
        match found {
            Ok(at) => {
                locations[at] = location;
                proof {
                    let map = before_index.insert(key, location);
                    assert forall|i: int| 0 <= i < before_names.len() implies map.dom().contains(
                        #[trigger] before_names[i],
                    ) && map[before_names[i]] == locations@[i] by {
                        lemma_index_at(before_names, before_locations, i);
                        if i != at {
                            assert(before_names[i] != before_names[at as int]);
                        }
                    }
                    assert(before_names.contains(before_names[at as int]));
                    lemma_index_is(before_names, locations@, map);
                    assert forall|i: int| 0 <= i < names@.len() implies #[trigger] names@[i]@ == key
                        || before_names.contains(names@[i]@) by {
                        assert(before_names[i] == names@[i]@);
                    }
                }
            },
            Err(at) => {
                names.insert(at, name);
                locations.insert(at, location);
                proof {
                    let after = texts(names@);
                    assert(after =~= before_names.insert(at as int, key));
                    assert forall|i: int, j: int| #![trigger after[i], after[j]]
                        0 <= i < j < after.len() implies before(after[i], after[j]) by {
                        if i < at {
                            assert(after[i] == before_names[i]);
                        } else if i > at {
                            assert(after[i] == before_names[i - 1]);
                        }
                        if j < at {
                            assert(after[j] == before_names[j]);
                        } else if j > at {
                            assert(after[j] == before_names[j - 1]);
                        }
                    }
                    lemma_strict_is_in_order(after);
                    let map = before_index.insert(key, location);
                    assert forall|i: int| 0 <= i < after.len() implies map.dom().contains(
                        #[trigger] after[i],
                    ) && map[after[i]] == locations@[i] by {
                        if i < at {
                            lemma_index_at(before_names, before_locations, i);
                            assert(after[i] != after[at as int]);
                        } else if i > at {
                            lemma_index_at(before_names, before_locations, i - 1);
                            assert(after[i] != after[at as int]);
                        }
                    }
                    assert forall|n: Seq<char>| #[trigger] map.dom().contains(n) implies after.contains(n) by {
                        if n == key {
                            assert(after[at as int] == key);
                        } else {
                            let i = before_names.index_of(n);
                            assert(before_names[i] == n);
                            if i < at {
                                assert(after[i] == n);
                            } else {
                                assert(after[i + 1] == n);
                            }
                        }
                    }
                    lemma_index_is(after, locations@, map);
                    assert forall|i: int| 0 <= i < names@.len() implies #[trigger] names@[i]@ == key
                        || before_names.contains(names@[i]@) by {
                        if i < at {
                            assert(before_names[i] == names@[i]@);
                        } else if i > at {
                            assert(before_names[i - 1] == names@[i]@);
                        }
                    }
                }
            },
        }
    }

    /// Adds a source, overriding paths from sources added earlier.
    pub fn push(&mut self, source: ArchiveSource)
        requires
            old(self).wf(),
            source.wf(),
            old(self)@.sources.len() < u32::MAX,
            source@.names().len() <= u32::MAX,
        ensures
            final(self).wf(),
            final(self)@ == with_source(old(self)@, source@),
    {
        let ghost index = self@.index;
        let ghost provided = source@.names();
        let number: u32 = self.sources.len() as u32;
        let count: usize = source.len();
        assert(models(self.sources@).len() == self@.sources.len());
        let mut entry: usize = 0;
        while entry < count
            invariant
                entry <= count,
                count == provided.len(),
                count <= u32::MAX,
                source.wf(),
                provided == source@.names(),
                self.sources == old(self).sources,
                number == self.sources@.len(),
                self.names@.len() == self.locations@.len(),
                strictly_in_order(texts(self.names@)),
                forall|i: int| 0 <= i < self.names@.len() ==> is_normal(#[trigger] self.names@[i]@),
                index_of(texts(self.names@), self.locations@) == overlaid(
                    index,
                    provided,
                    number,
                    entry as int,
                ),
            decreases count - entry,
        {
            proof {
                lemma_source_is_normal(&source, entry as int);
            }
            let name: NormalizedPath = NormalizedPath::from_normalized(source.entry_name(entry));
            let found: Result<usize, usize> = search(&self.names, &name);
            let ghost key = name@;
            let ghost names_before = self.names@;
            Vfs::point(
                &mut self.names,
                &mut self.locations,
                found,
                name,
                FileLocation { source: number, entry: entry as u32 },
            );
            proof {
                assert forall|i: int| 0 <= i < self.names@.len() implies is_normal(
                    #[trigger] self.names@[i]@,
                ) by {
                    if self.names@[i]@ != key {
                        let k = texts(names_before).index_of(self.names@[i]@);
                        assert(texts(names_before)[k] == names_before[k]@);
                        assert(is_normal(names_before[k]@));
                    }
                }
            }
            entry = entry + 1;
        }
        self.sources.push(source);
        proof {
            assert forall|i: int| 0 <= i < self.sources@.len() implies (
            #[trigger] self.sources@[i]).wf() by {
                if i < old(self).sources@.len() {
                    assert(self.sources@[i] == old(self).sources@[i]);
                }
            }
            let below = old(self)@.sources;
            let all = models(self.sources@);
            assert(all =~= below.push(source@));
            assert(all.drop_last() =~= below);
            assert forall|i: int| 0 <= i < all.len() implies (
            #[trigger] all[i]).names().len() <= u32::MAX by {
                if i < below.len() {
                    assert(all[i] == below[i]);
                }
            }
            assert(self@ =~= with_source(old(self)@, source@));
        }
    }

    /// Adds an archive, overriding paths from sources added earlier.
    pub fn add_bsa(&mut self, archive: BsaArchive)
        requires
            old(self).wf(),
            archive.wf(),
            old(self)@.sources.len() < u32::MAX,
            archive@.entries.len() <= u32::MAX,
        ensures
            final(self).wf(),
            final(self)@ == with_source(old(self)@, SourceModel::Bsa(archive@)),
    {
        self.push(ArchiveSource::Bsa(archive));
    }

    /// Adds a loose-file directory, overriding paths from sources added earlier.
    pub fn add_directory(&mut self, directory: DirectoryArchive)
        requires
            old(self).wf(),
            directory.wf(),
            old(self)@.sources.len() < u32::MAX,
            directory@.entries.len() <= u32::MAX,
        ensures
            final(self).wf(),
            final(self)@ == with_source(old(self)@, SourceModel::Directory(directory@)),
    {
        self.push(ArchiveSource::Directory(directory));
    }

    /// Number of distinct paths visible, after overrides.
    pub fn len(&self) -> (r: usize)
        requires
            self.wf(),
        ensures
            self@.index.dom().finite(),
            r == self@.index.dom().len(),
    {
        proof {
            self.lemma_size();
        }
        self.names.len()
    }

    /// Whether nothing is indexed.
    pub fn is_empty(&self) -> (r: bool)
        requires
            self.wf(),
        ensures
            r == (self@.index.dom() =~= Set::<Seq<char>>::empty()),
    {
        proof {
            self.lemma_size();
            if self.names@.len() > 0 {
                assert(texts(self.names@).contains(texts(self.names@)[0]));
                assert(self@.index.dom().contains(texts(self.names@)[0]));
            }
        }
        self.names.len() == 0
    }

    /// Whether `path` resolves, in any case or separator spelling.
    pub fn contains(&self, path: &str) -> (r: bool)
        requires
            self.wf(),
        ensures
            r == self@.index.dom().contains(normalized(path@)),
            r == (read_from(self@.sources, normalized(path@)) is Some),
    {
        self.find(path).is_some()
    }

    /// Where `path` resolves to, which is where to read it from.
    pub fn locate(&self, path: &str) -> (r: Result<FileLocation, VfsError>)
        requires
            self.wf(),
        ensures
            match r {
                Ok(at) => {
                    &&& self@.index.get(normalized(path@)) == Some(at)
                    &&& found_at(self@.sources, Some(at), normalized(path@))
                },
                Err(error) => {
                    &&& !self@.index.dom().contains(normalized(path@))
                    &&& read_from(self@.sources, normalized(path@)) is None
                    &&& error.is_not_found(normalized(path@))
                },
            },
    {
        match self.find(path) {
            Some(at) => Ok(at),
            None => Err(VfsError::NotFound(NormalizedPath::new(path).as_str().to_owned())),
        }
    }

    /// The source a location points into.
    pub fn source(&self, number: u32) -> (r: &ArchiveSource)
        requires
            self.wf(),
            number < self@.sources.len(),
        ensures
            r.wf(),
            r@ == self@.sources[number as int],
    {
        &self.sources[number as usize]
    }

    /// The archive or directory `path` currently resolves to, for diagnosing override order.
    pub fn source_of(&self, path: &str) -> (r: Option<&str>)
        requires
            self.wf(),
        ensures
            match r {
                Some(source) => {
                    &&& self@.index.dom().contains(normalized(path@))
                    &&& source@ == self@.sources[self@.index[normalized(path@)].source as int].path()
                },
                None => !self@.index.dom().contains(normalized(path@)),
            },
    {
        match self.find(path) {
            Some(at) => Some(self.sources[at.source as usize].path()),
            None => None,
        }
    }

    /// Every visible path.
    pub fn paths(&self) -> (r: &[NormalizedPath])
        requires
            self.wf(),
        ensures
            texts(r@).no_duplicates(),
            forall|name: Seq<char>|
                texts(r@).contains(name) <==> #[trigger] self@.index.dom().contains(name),
    {
        proof {
            lemma_strict_is_in_order(texts(self.names@));
        }
        self.names.as_slice()
    }

    /// Visible paths beneath `directory`.
    pub fn paths_under(&self, directory: &str) -> (r: Vec<&NormalizedPath>)
        requires
            self.wf(),
        ensures
            forall|i: int, j: int|
                0 <= i < j < r@.len() ==> #[trigger] r@[i]@ != #[trigger] r@[j]@,
            forall|i: int|
                0 <= i < r@.len() ==> self@.index.dom().contains(#[trigger] r@[i]@) && lies_in(
                    r@[i]@,
                    normalized(directory@),
                ),
            forall|name: Seq<char>| #[trigger]
                self@.index.dom().contains(name) && lies_in(name, normalized(directory@))
                    ==> exists|i: int| 0 <= i < r@.len() && #[trigger] r@[i]@ == name,
    {
        let prefix: NormalizedPath = NormalizedPath::new(directory);
        let ghost t = texts(self.names@);
        let mut r: Vec<&NormalizedPath> = Vec::new();
        let ghost mut from: Seq<int> = Seq::empty();
        let mut i: usize = 0;
        while i < self.names.len()
            invariant
                self.wf(),
                t == texts(self.names@),
                prefix@ == normalized(directory@),
                i <= self.names@.len(),
                from.len() == r@.len(),
                forall|k: int|
                    0 <= k < from.len() ==> 0 <= #[trigger] from[k] < i && r@[k]@ == t[from[k]]
                        && lies_in(r@[k]@, prefix@),
                forall|k: int, l: int|
                    0 <= k < l < from.len() ==> #[trigger] from[k] < #[trigger] from[l],
                forall|m: int|
                    0 <= m < i && lies_in(#[trigger] t[m], prefix@) ==> exists|k: int|
                        0 <= k < from.len() && #[trigger] from[k] == m,
            decreases self.names@.len() - i,
        {
            let ghost before_it = from;
            if self.names[i].starts_with_directory(&prefix) {
                assert(t[i as int] == self.names@[i as int]@);
                r.push(&self.names[i]);
                proof {
                    from = from.push(i as int);
                    assert forall|m: int| 0 <= m < i + 1 && lies_in(
                        #[trigger] t[m],
                        prefix@,
                    ) implies exists|k: int| 0 <= k < from.len() && #[trigger] from[k] == m by {
                        if m < i {
                            let k = choose|k: int|
                                0 <= k < before_it.len() && #[trigger] before_it[k] == m;
                            assert(from[k] == m);
                        } else {
                            assert(from[before_it.len() as int] == m);
                        }
                    }
                }
            }
            i = i + 1;
        }
        proof {
            lemma_strict_is_in_order(t);
            assert forall|k: int| 0 <= k < r@.len() implies self@.index.dom().contains(
                #[trigger] r@[k]@,
            ) && lies_in(r@[k]@, normalized(directory@)) by {
                assert(t[from[k]] == r@[k]@);
                assert(t.contains(t[from[k]]));
            }
            assert forall|k: int, l: int| 0 <= k < l < r@.len() implies #[trigger] r@[k]@
                != #[trigger] r@[l]@ by {
                assert(from[k] < from[l]);
                assert(t[from[k]] != t[from[l]]);
            }
            assert forall|name: Seq<char>| #[trigger]
                self@.index.dom().contains(name) && lies_in(
                name,
                normalized(directory@),
            ) implies exists|k: int| 0 <= k < r@.len() && #[trigger] r@[k]@ == name by {
                let m = t.index_of(name);
                assert(t[m] == name);
                let k = choose|k: int| 0 <= k < from.len() && #[trigger] from[k] == m;
                assert(r@[k]@ == name);
            }
        }
        r
    }

    /// The index is as large as its list of names.
    proof fn lemma_size(&self)
        requires
            self.wf(),
        ensures
            self@.index.dom().finite(),
            self@.index.dom().len() == self.names@.len(),
    {
        let t = texts(self.names@);
        lemma_strict_is_in_order(t);
        t.unique_seq_to_set();
        assert(self@.index.dom() =~= t.to_set());
    }
}

/// What a source provides is in normalized form.
proof fn lemma_source_is_normal(source: &ArchiveSource, i: int)
    requires
        source.wf(),
        0 <= i < source@.names().len(),
    ensures
        is_normal(source@.names()[i]),
{
    match source {
        ArchiveSource::Bsa(a) => {
            assert(is_normal(a@.entries[i].name));
        },
        ArchiveSource::Directory(a) => {
            assert(is_normal(a@.entries[i].name));
        },
    }
}

} // verus!
