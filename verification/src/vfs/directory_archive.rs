//! A directory of loose files, indexed like an archive.

use super::normalized_path::{is_normal, normalized, NormalizedPath};
use crate::text::{
    before, lemma_before_is_asymmetric, lemma_before_is_total, lemma_before_is_transitive,
    lemma_not_before_itself, precedes, same,
};
use vstd::prelude::*;
use vstd::relations::{
    antisymmetric, reflexive, sorted_by, strongly_connected, total_ordering, transitive,
};
use vstd::seq_lib::lemma_sorted_unique;

verus! {

/// A file found beneath a directory: its path relative to the directory, and its path on disk.
#[derive(Debug)]
pub struct FoundFile {
    pub relative: String,
    pub on_disk: String,
}

/// A loose-file directory tree.
///
/// The on-disk path is kept alongside the normalized one: the index is case-folded but most file
/// systems are not, so the original spelling is the only way back to the file.
#[derive(Debug)]
pub struct DirectoryArchive {
    root: String,
    names: Vec<NormalizedPath>,
    on_disk: Vec<String>,
}

/// One file of a directory: the name it is looked up by, and where it is.
#[verifier::ext_equal]
pub struct LooseFile {
    pub name: Seq<char>,
    pub on_disk: Seq<char>,
}

/// What a [`DirectoryArchive`] is: the directory, and its files in order.
#[verifier::ext_equal]
pub struct DirectoryModel {
    pub root: Seq<char>,
    pub entries: Seq<LooseFile>,
}

impl View for DirectoryArchive {
    type V = DirectoryModel;

    closed spec fn view(&self) -> DirectoryModel {
        DirectoryModel { root: self.root@, entries: paired(self.names@, self.on_disk@) }
    }
}

/// Names beside the files they name.
pub closed spec fn paired(names: Seq<NormalizedPath>, on_disk: Seq<String>) -> Seq<LooseFile> {
    Seq::new(names.len(), |i: int| LooseFile { name: names[i]@, on_disk: on_disk[i]@ })
}

/// Whether loose file `a` comes before loose file `b`: by name, and by path on disk where their names
/// are one.
pub open spec fn comes_before(a: LooseFile, b: LooseFile) -> bool {
    before(a.name, b.name) || (a.name == b.name && before(a.on_disk, b.on_disk))
}

/// The order loose files are kept in.
pub open spec fn file_order() -> spec_fn(LooseFile, LooseFile) -> bool {
    |a: LooseFile, b: LooseFile| !comes_before(b, a)
}

/// A file as it is kept: under its normalized name.
pub open spec fn kept(file: FoundFile) -> LooseFile {
    LooseFile { name: normalized(file.relative@), on_disk: file.on_disk@ }
}

/// Found files as they are kept, in the order they were found in.
pub open spec fn listed(found: Seq<FoundFile>) -> Seq<LooseFile> {
    Seq::new(found.len(), |i: int| kept(found[i]))
}

/// Found files as they are kept, in order.
pub open spec fn arranged(found: Seq<FoundFile>) -> Seq<LooseFile> {
    listed(found).sort_by(file_order())
}

impl DirectoryArchive {
    /// Whether every name has the file it names beside it.
    pub closed spec fn complete(&self) -> bool {
        self.names@.len() == self.on_disk@.len()
    }

    /// A directory's files are in order, each beside its name in normalized form.
    pub open spec fn wf(&self) -> bool {
        &&& self.complete()
        &&& sorted_by(self@.entries, file_order())
        &&& forall|i: int|
            0 <= i < self@.entries.len() ==> is_normal(#[trigger] self@.entries[i].name)
    }

    /// Indexes every file found beneath `root`.
    ///
    /// In one order whatever the file system hands back, so a duplicate that differs only in case
    /// resolves the same way on every run.
    pub fn open(root: &str, found: &Vec<FoundFile>) -> (r: DirectoryArchive)
        ensures
            r.wf(),
            r@.root == root@,
            r@.entries == arranged(found@),
    {
        let mut names: Vec<NormalizedPath> = Vec::new();
        let mut on_disk: Vec<String> = Vec::new();
        let mut i: usize = 0;
        assert(paired(names@, on_disk@) =~= listed(found@.take(0)));
        while i < found.len()
            invariant
                i <= found@.len(),
                names@.len() == on_disk@.len(),
                sorted_by(paired(names@, on_disk@), file_order()),
                paired(names@, on_disk@).to_multiset() =~= listed(
                    found@.take(i as int),
                ).to_multiset(),
                forall|k: int| 0 <= k < names@.len() ==> is_normal(#[trigger] names@[k]@),
            decreases found@.len() - i,
        {
            let name: NormalizedPath = NormalizedPath::new(found[i].relative.as_str());
            let file: String = found[i].on_disk.clone();
            let at: usize = place(&names, &on_disk, &name, &file);
            let ghost entries = paired(names@, on_disk@);
            let ghost file_model = LooseFile { name: name@, on_disk: file@ };
            let ghost old_names = names@;
            names.insert(at, name);
            on_disk.insert(at, file);
            proof {
                assert(paired(names@, on_disk@) =~= entries.insert(at as int, file_model));
                lemma_placed(entries, file_model, at as int);
                lemma_listed_one_more(found@, i as int);
                assert forall|k: int| 0 <= k < names@.len() implies is_normal(
                    #[trigger] names@[k]@,
                ) by {
                    if k < at {
                        assert(names@[k] == old_names[k]);
                    } else if k > at {
                        assert(names@[k] == old_names[k - 1]);
                    }
                }
            }
            i = i + 1;
        }
        assert(found@.take(i as int) =~= found@);
        let r: DirectoryArchive = DirectoryArchive { root: root.to_owned(), names, on_disk };
        proof {
            lemma_file_order_is_total();
            listed(found@).lemma_sort_by_ensures(file_order());
            lemma_sorted_unique(r@.entries, arranged(found@), file_order());
            assert forall|k: int| 0 <= k < r@.entries.len() implies is_normal(
                #[trigger] r@.entries[k].name,
            ) by {
                assert(r@.entries[k].name == names@[k]@);
            }
        }
        r
    }

    /// Number of files found.
    pub fn len(&self) -> (r: usize)
        ensures
            r == self@.entries.len(),
    {
        self.names.len()
    }

    /// Whether the directory holds no files.
    pub fn is_empty(&self) -> (r: bool)
        ensures
            r == (self@.entries.len() == 0),
    {
        self.names.len() == 0
    }

    /// The directory that was indexed.
    pub fn path(&self) -> (r: &str)
        ensures
            r@ == self@.root,
    {
        self.root.as_str()
    }

    /// The normalized name of entry `index`.
    pub fn entry_name(&self, index: usize) -> (r: &str)
        requires
            index < self@.entries.len(),
        ensures
            r@ == self@.entries[index as int].name,
    {
        self.names[index].as_str()
    }

    /// Where entry `index` is on disk, in its original spelling.
    pub fn entry_on_disk(&self, index: usize) -> (r: &str)
        requires
            self.wf(),
            index < self@.entries.len(),
        ensures
            r@ == self@.entries[index as int].on_disk,
    {
        self.on_disk[index].as_str()
    }
}

/// Of two files, one comes before the other; and one that comes before a second, which comes before
/// a third, comes before that too.
proof fn lemma_comes_before(a: LooseFile, b: LooseFile, c: LooseFile)
    ensures
        a != b ==> comes_before(a, b) || comes_before(b, a),
        comes_before(a, b) ==> a != b && !comes_before(b, a),
        comes_before(a, b) && comes_before(b, c) ==> comes_before(a, c),
{
    if a.name != b.name {
        lemma_before_is_total(a.name, b.name);
    } else if a.on_disk != b.on_disk {
        lemma_before_is_total(a.on_disk, b.on_disk);
    }
    if comes_before(a, b) {
        lemma_not_before_itself(a.name);
        if before(a.name, b.name) {
            lemma_before_is_asymmetric(a.name, b.name);
        } else {
            lemma_before_is_asymmetric(a.on_disk, b.on_disk);
        }
        if comes_before(b, c) {
            if before(a.name, b.name) && before(b.name, c.name) {
                lemma_before_is_transitive(a.name, b.name, c.name);
            } else if a.name == b.name && b.name == c.name {
                lemma_before_is_transitive(a.on_disk, b.on_disk, c.on_disk);
            }
        }
    }
}

/// The order of loose files is total.
pub proof fn lemma_file_order_is_total()
    ensures
        total_ordering(file_order()),
{
    let order = file_order();
    assert(reflexive(order)) by {
        assert forall|a: LooseFile| #[trigger] order(a, a) by {
            lemma_comes_before(a, a, a);
        }
    }
    assert(antisymmetric(order)) by {
        assert forall|a: LooseFile, b: LooseFile| #[trigger]
            order(a, b) && #[trigger] order(b, a) implies a == b by {
            lemma_comes_before(a, b, a);
        }
    }
    assert(transitive(order)) by {
        assert forall|a: LooseFile, b: LooseFile, c: LooseFile| #[trigger]
            order(a, b) && #[trigger] order(b, c) implies order(a, c) by {
            lemma_comes_before(a, b, c);
            lemma_comes_before(b, c, a);
            lemma_comes_before(c, a, b);
        }
    }
    assert(strongly_connected(order)) by {
        assert forall|a: LooseFile, b: LooseFile| #[trigger] order(a, b) || #[trigger] order(
            b,
            a,
        ) by {
            lemma_comes_before(a, b, a);
        }
    }
}

/// Putting a file in its place keeps files in order, and adds that file and no other.
proof fn lemma_placed(files: Seq<LooseFile>, file: LooseFile, at: int)
    requires
        sorted_by(files, file_order()),
        0 <= at <= files.len(),
        forall|j: int| 0 <= j < at ==> !comes_before(file, #[trigger] files[j]),
        forall|j: int| at <= j < files.len() ==> comes_before(file, #[trigger] files[j]),
    ensures
        sorted_by(files.insert(at, file), file_order()),
        files.insert(at, file).to_multiset() =~= files.to_multiset().insert(file),
{
    broadcast use vstd::seq_lib::group_to_multiset_ensures;

    let order = file_order();
    let after = files.insert(at, file);
    assert forall|i: int, j: int| 0 <= i < j < after.len() implies #[trigger] order(
        after[i],
        after[j],
    ) by {
        let x = if i < at { i } else { i - 1 };
        let y = if j < at { j } else { j - 1 };
        if i == at {
            assert(after[j] == files[y]);
            lemma_comes_before(file, files[y], file);
        } else if j == at {
            assert(after[i] == files[x]);
        } else {
            assert(after[i] == files[x] && after[j] == files[y]);
            assert(order(files[x], files[y]));
        }
    }
}

/// One more found file is one more listed.
proof fn lemma_listed_one_more(found: Seq<FoundFile>, i: int)
    requires
        0 <= i < found.len(),
    ensures
        listed(found.take(i + 1)).to_multiset() =~= listed(found.take(i)).to_multiset().insert(
            kept(found[i]),
        ),
{
    broadcast use vstd::seq_lib::group_to_multiset_ensures;

    assert(listed(found.take(i + 1)) =~= listed(found.take(i)).push(kept(found[i])));
}

/// Whether one file, by its name and its path on disk, comes before another.
fn is_before(name: &str, on_disk: &str, other_name: &str, other_on_disk: &str) -> (r: bool)
    ensures
        r == comes_before(
            (LooseFile { name: name@, on_disk: on_disk@ }),
            (LooseFile { name: other_name@, on_disk: other_on_disk@ }),
        ),
{
    precedes(name, other_name) || (same(name, other_name) && precedes(on_disk, other_on_disk))
}

/// Where a file goes among others in order: after everything it does not come before.
fn place(
    names: &Vec<NormalizedPath>,
    on_disk: &Vec<String>,
    name: &NormalizedPath,
    file: &String,
) -> (at: usize)
    requires
        names@.len() == on_disk@.len(),
        sorted_by(paired(names@, on_disk@), file_order()),
    ensures
        at <= names@.len(),
        ({
            let files = paired(names@, on_disk@);
            let new = LooseFile { name: name@, on_disk: file@ };
            &&& forall|j: int| 0 <= j < at ==> !comes_before(new, #[trigger] files[j])
            &&& forall|j: int| at <= j < files.len() ==> comes_before(new, #[trigger] files[j])
        }),
{
    let ghost files = paired(names@, on_disk@);
    let ghost order = file_order();
    let ghost new = LooseFile { name: name@, on_disk: file@ };
    let mut low: usize = 0;
    let mut high: usize = names.len();
    while low < high
        invariant
            files == paired(names@, on_disk@),
            names@.len() == on_disk@.len(),
            order == file_order(),
            sorted_by(files, order),
            new == (LooseFile { name: name@, on_disk: file@ }),
            low <= high <= names@.len(),
            forall|j: int| 0 <= j < low ==> !comes_before(new, #[trigger] files[j]),
            forall|j: int| high <= j < files.len() ==> comes_before(new, #[trigger] files[j]),
        decreases high - low,
    {
        let middle: usize = low + (high - low) / 2;
        let ghost m = middle as int;
        let first: bool = is_before(
            name.as_str(),
            file.as_str(),
            names[middle].as_str(),
            on_disk[middle].as_str(),
        );
        assert(first == comes_before(new, files[m]));
        if first {
            proof {
                assert forall|j: int| middle <= j < files.len() implies comes_before(
                    new,
                    #[trigger] files[j],
                ) by {
                    if j > middle {
                        assert(order(files[m], files[j]));
                        lemma_comes_before(files[m], files[j], new);
                        lemma_comes_before(new, files[m], files[j]);
                    }
                }
            }
            high = middle;
        } else {
            proof {
                assert forall|j: int| 0 <= j < middle + 1 implies !comes_before(
                    new,
                    #[trigger] files[j],
                ) by {
                    if j < middle && comes_before(new, files[j]) {
                        assert(order(files[j], files[m]));
                        lemma_comes_before(files[j], files[m], new);
                        lemma_comes_before(new, files[j], files[m]);
                    }
                }
            }
            low = middle + 1;
        }
    }
    low
}

/// **A directory's files come in order**: by their names, and by their paths on disk where several
/// have one name.
pub proof fn law_arranged_is_in_order(found: Seq<FoundFile>)
    ensures
        forall|i: int, j: int| #![trigger arranged(found)[i], arranged(found)[j]]
            0 <= i < j < arranged(found).len() ==> !comes_before(
                arranged(found)[j],
                arranged(found)[i],
            ),
{
    let order = file_order();
    lemma_file_order_is_total();
    listed(found).lemma_sort_by_ensures(order);
    let files = arranged(found);
    assert forall|i: int, j: int| #![trigger files[i], files[j]]
        0 <= i < j < files.len() implies !comes_before(files[j], files[i]) by {
        assert(order(files[i], files[j]));
    }
}

/// **A directory holds every file found, and nothing else**, each as often as it was found.
pub proof fn law_arranged_keeps_every_file(found: Seq<FoundFile>)
    ensures
        arranged(found).len() == found.len(),
        arranged(found).to_multiset() =~= listed(found).to_multiset(),
{
    broadcast use vstd::seq_lib::group_to_multiset_ensures;

    lemma_file_order_is_total();
    listed(found).lemma_sort_by_ensures(file_order());
    assert(arranged(found).len() == arranged(found).to_multiset().len());
    assert(listed(found).len() == listed(found).to_multiset().len());
}

/// **The order in which a file system hands its files back does not matter**: the same files found
/// in any order are arranged in one.
pub proof fn law_arranged_whatever_order_found(a: Seq<FoundFile>, b: Seq<FoundFile>)
    requires
        listed(a).to_multiset() == listed(b).to_multiset(),
    ensures
        arranged(a) == arranged(b),
{
    lemma_file_order_is_total();
    listed(a).lemma_sort_by_ensures(file_order());
    listed(b).lemma_sort_by_ensures(file_order());
    lemma_sorted_unique(arranged(a), arranged(b), file_order());
}

} // verus!
