//! What holds of the virtual file system whatever it is built over.

use super::bsa_archive::{opens_to, BsaModel};
use super::bsa_image::{bsa_image, law_written_archives_read_back, packable, FileModel};
use super::directory_archive::{
    arranged, comes_before, kept, law_arranged_is_in_order, law_arranged_keeps_every_file, listed,
    DirectoryModel, FoundFile,
};
use super::error::VfsError;
use super::normalized_path::normalized;
use super::vfs::{
    last_of, lemma_overlaid, read_from, with_source, ContentsModel, FileLocation, SourceModel,
    VfsModel,
};
use crate::text::{before, lemma_not_before_itself};
use vstd::prelude::*;

verus! {

/// **A later source overrides an earlier one.**
///
/// A path the added source provides resolves to that source, and to the last of its entries of that
/// name, whose contents it then reads; every other path resolves, and reads, as it did before.
pub proof fn law_later_sources_win(vfs: VfsModel, source: SourceModel, name: Seq<char>)
    requires
        source.names().len() <= u32::MAX,
        vfs.sources.len() < u32::MAX,
    ensures
        ({
            let after = with_source(vfs, source);
            let last = last_of(source.names(), name);
            if source.names().contains(name) {
                &&& 0 <= last < source.names().len()
                &&& source.names()[last] == name
                &&& forall|i: int|
                    last < i < source.names().len() ==> #[trigger] source.names()[i] != name
                &&& after.index.get(name) == Some(
                    FileLocation { source: vfs.sources.len() as u32, entry: last as u32 },
                )
                &&& read_from(after.sources, name) == Some(source.contents(last))
            } else {
                &&& after.index.get(name) == vfs.index.get(name)
                &&& read_from(after.sources, name) == read_from(vfs.sources, name)
            }
        }),
{
    let names = source.names();
    lemma_overlaid(vfs.index, names, vfs.sources.len() as u32, names.len() as int, name);
    assert(names.take(names.len() as int) =~= names);
    assert(vfs.sources.push(source).drop_last() =~= vfs.sources);
}

/// **What was written into an archive is what its path reads**, once the archive is added: a path
/// leads to a stretch of the archive that holds the contents of the last file written under it.
pub proof fn law_written_files_are_found(
    vfs: VfsModel,
    path: Seq<char>,
    files: Seq<FileModel>,
    archive: BsaModel,
    i: int,
)
    requires
        vfs.sources.len() < u32::MAX,
        packable(files),
        forall|f: int, k: int|
            0 <= f < files.len() && 0 <= k < files[f].name.len()
                ==> #[trigger] files[f].name[k] as u32 != 0,
        opens_to(path, bsa_image(files), Ok::<BsaModel, VfsError>(archive)),
        0 <= i < files.len(),
    ensures
        ({
            let image = bsa_image(files);
            let source = SourceModel::Bsa(archive);
            let after = with_source(vfs, source);
            let name = normalized(files[i].name);
            let last = last_of(source.names(), name);
            let entry = archive.entries[last];
            &&& i <= last < files.len()
            &&& normalized(files[last].name) == name
            &&& forall|j: int|
                last < j < files.len() ==> normalized((#[trigger] files[j]).name) != name
            &&& after.index.get(name) == Some(
                FileLocation { source: vfs.sources.len() as u32, entry: last as u32 },
            )
            &&& read_from(after.sources, name) == Some(
                ContentsModel::Packed { archive: path, offset: entry.offset, size: entry.size },
            )
            &&& image.subrange(entry.offset, entry.offset + entry.size) == files[last].contents
        }),
{
    law_written_archives_read_back(path, files);
    let source = SourceModel::Bsa(archive);
    let name = normalized(files[i].name);
    assert(archive.entries[i].name == name);
    assert(source.names()[i] == name);
    assert(source.names().len() <= u32::MAX);
    law_later_sources_win(vfs, source, name);
    let last = last_of(source.names(), name);
    assert(source.names()[last] == archive.entries[last].name);
    assert forall|j: int| last < j < files.len() implies normalized((#[trigger] files[j]).name)
        != name by {
        assert(source.names()[j] == archive.entries[j].name);
    }
}

/// **A file found beneath a directory is what its path reads**, once the directory is added: a path
/// leads to a file found under it, and of several that differ only in case to the one whose path on
/// disk sorts last.
pub proof fn law_found_files_are_read(
    vfs: VfsModel,
    root: Seq<char>,
    found: Seq<FoundFile>,
    i: int,
)
    requires
        vfs.sources.len() < u32::MAX,
        found.len() <= u32::MAX,
        0 <= i < found.len(),
    ensures
        ({
            let directory = DirectoryModel { root, entries: arranged(found) };
            let after = with_source(vfs, SourceModel::Directory(directory));
            let name = normalized(found[i].relative@);
            exists|j: int|
                {
                    &&& 0 <= j < found.len()
                    &&& normalized((#[trigger] found[j]).relative@) == name
                    &&& read_from(after.sources, name) == Some(
                        ContentsModel::Loose { file: found[j].on_disk@ },
                    )
                    &&& forall|k: int|
                        0 <= k < found.len() && normalized((#[trigger] found[k]).relative@) == name
                            ==> !before(found[j].on_disk@, found[k].on_disk@)
                }
        }),
{
    broadcast use vstd::seq_lib::group_to_multiset_ensures;

    let entries = arranged(found);
    let directory = DirectoryModel { root, entries };
    let source = SourceModel::Directory(directory);
    let after = with_source(vfs, source);
    let name = normalized(found[i].relative@);
    let names = source.names();
    law_arranged_keeps_every_file(found);
    law_arranged_is_in_order(found);
    let at = lemma_is_arranged(found, i);
    assert(names[at] == name);
    law_later_sources_win(vfs, source, name);
    let last = last_of(names, name);
    assert(names[last] == entries[last].name);
    assert(entries.to_multiset().contains(entries[last]));
    assert(listed(found).to_multiset().contains(entries[last]));
    let j = listed(found).index_of(entries[last]);
    assert(listed(found)[j] == kept(found[j]));
    assert forall|k: int|
        0 <= k < found.len() && normalized((#[trigger] found[k]).relative@)
            == name implies !before(found[j].on_disk@, found[k].on_disk@) by {
        let m = lemma_is_arranged(found, k);
        assert(names[m] == name);
        if m < last {
            assert(!comes_before(entries[last], entries[m]));
        } else {
            assert(m == last);
            lemma_not_before_itself(found[j].on_disk@);
        }
    }
}

/// A found file has a place among those arranged.
proof fn lemma_is_arranged(found: Seq<FoundFile>, i: int) -> (at: int)
    requires
        0 <= i < found.len(),
    ensures
        0 <= at < arranged(found).len(),
        arranged(found)[at] == kept(found[i]),
{
    broadcast use vstd::seq_lib::group_to_multiset_ensures;

    law_arranged_keeps_every_file(found);
    assert(listed(found)[i] == kept(found[i]));
    assert(listed(found).contains(kept(found[i])));
    assert(listed(found).to_multiset().contains(kept(found[i])));
    assert(arranged(found).contains(kept(found[i])));
    arranged(found).index_of(kept(found[i]))
}

} // verus!
