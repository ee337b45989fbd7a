//! What holds of everything that is loaded: where an archive keeps what it holds, why one is refused,
//! and which of several sources a path is read from.

use super::bsa_archive::{
    entry_fault, first_fault_of, header_of, names_of, nul_from, opens_to, tables_of, text,
    BsaArchive, BsaModel,
};
use super::directory_archive::DirectoryArchive;
use super::error::{ArchiveFault, VfsError};
use super::game_data::{
    as_read, first_setting, in_load_order, is_opened, no_files, unreadable_in, value_at,
    with_installed, Entry,
};
use super::laws::law_later_sources_win;
use super::normalized_path::{
    final_component, final_extension, folded, last_of as last_character, lies_in, normalized,
};
use super::vfs::{last_of, read_from, SourceModel, VfsModel};
use vstd::prelude::*;

verus! {

/// Four bytes of an archive as a number, the lowest first.
pub open spec fn four_at(b: Seq<u8>, i: int) -> int {
    b[i] + 0x100 * b[i + 1] + 0x1_0000 * b[i + 2] + 0x100_0000 * b[i + 3]
}

/// Where a name ends: at the first byte from its beginning that is nought.
pub open spec fn is_named(image: Seq<u8>, start: int, end: int) -> bool {
    &&& start <= end < image.len()
    &&& image[end] == 0
    &&& forall|k: int| start <= k < end ==> #[trigger] image[k] != 0
}

/// The first nought of a part of an archive is the first from there on in the whole.
proof fn lemma_nul_in_part(image: Seq<u8>, from: int, to: int, at: int)
    requires
        0 <= from <= to <= image.len(),
        0 <= at <= to - from,
        nul_from(image.subrange(from, to), at) < to - from,
    ensures
        at <= nul_from(image.subrange(from, to), at),
        is_named(image, from + at, from + nul_from(image.subrange(from, to), at)),
    decreases to - from - at,
{
    let part = image.subrange(from, to);
    if at < part.len() {
        assert(part[at] == image[from + at]);
        if part[at] != 0 {
            lemma_nul_in_part(image, from, to, at + 1);
        }
    }
}

/// **An archive's files are where its tables say**: after twelve bytes of header come a size and an
/// offset for each, then where each name begins, then the names, then eight bytes for each, and from
/// there on the contents the offsets count from.
pub proof fn law_an_archive_is_read_where_its_tables_say(
    path: Seq<char>,
    image: Seq<u8>,
    archive: BsaModel,
    i: int,
)
    requires
        opens_to(path, image, Ok::<BsaModel, VfsError>(archive)),
        0 <= i < archive.entries.len(),
    ensures
        ({
            let count = four_at(image, 8);
            let entry = archive.entries[i];
            let names = 12 + 12 * count;
            let start = names + four_at(image, 12 + 8 * count + 4 * i);
            &&& image.len() >= 12
            &&& four_at(image, 0) == 0x100
            &&& 12 * count <= four_at(image, 4)
            &&& 12 + four_at(image, 4) + 8 * count <= image.len()
            &&& 21 * count <= image.len() - 12
            &&& archive.path == path
            &&& archive.entries.len() == count
            &&& entry.size == four_at(image, 12 + 8 * i)
            &&& entry.offset == 12 + four_at(image, 4) + 8 * count + four_at(image, 16 + 8 * i)
            &&& entry.offset + entry.size <= image.len()
            &&& exists|end: int| #[trigger]
                is_named(image, start, end) && end < 12 + four_at(image, 4) && entry.name
                    == normalized(text(image.subrange(start, end)))
        }),
{
    let header = header_of(image);
    let (tables, names) = (tables_of(image), names_of(image));
    let count = header.file_count as int;
    assert(entry_fault(header, image.len() as int, tables, names, i) is None);
    assert forall|k: int| 0 <= k < tables.len() implies #[trigger] tables[k] == image[12 + k] by {}
    let a = 8 * i;
    let b = 8 * count + 4 * i;
    assert(tables[a] == image[12 + a] && tables[a + 1] == image[13 + a] && tables[a + 2] == image[14
        + a] && tables[a + 3] == image[15 + a]);
    assert(tables[a + 4] == image[16 + a] && tables[a + 5] == image[17 + a] && tables[a + 6]
        == image[18 + a] && tables[a + 7] == image[19 + a]);
    assert(tables[b] == image[12 + b] && tables[b + 1] == image[13 + b] && tables[b + 2] == image[14
        + b] && tables[b + 3] == image[15 + b]);
    let at = four_at(image, 12 + b);
    let from = 12 + 12 * count;
    let to = 12 + header.directory_size;
    assert(names =~= image.subrange(from, to));
    lemma_nul_bounds(names, at);
    lemma_nul_in_part(image, from, to, at);
    let end = nul_from(names, at);
    assert(names.subrange(at, end) =~= image.subrange(from + at, from + end));
    let entry = archive.entries[i];
    assert(entry == super::bsa_archive::entry_of(header, tables, names, i));
    assert(count == four_at(image, 8));
    assert(entry.size == four_at(image, 12 + 8 * i));
    assert(entry.offset == 12 + four_at(image, 4) + 8 * count + four_at(image, 16 + 8 * i));
    let start = 12 + 12 * count + four_at(image, 12 + 8 * count + 4 * i);
    assert(start == from + at);
    assert(is_named(image, start, from + end) && from + end < 12 + four_at(image, 4) && entry.name
        == normalized(text(image.subrange(start, from + end))));
}

/// The first nought from a place on is no further than the end.
proof fn lemma_nul_bounds(b: Seq<u8>, at: int)
    requires
        0 <= at <= b.len(),
    ensures
        at <= nul_from(b, at) <= b.len(),
    decreases b.len() - at,
{
    if at < b.len() && b[at] != 0 {
        lemma_nul_bounds(b, at + 1);
    }
}

/// **An archive that is refused says why**: what it starts with where that is foreign, what its
/// directory declares where that cannot fit, and otherwise which file is the first whose entry leads
/// outside it, or has a name that does.
pub proof fn law_a_refused_archive_says_why(path: Seq<char>, image: Seq<u8>, error: VfsError)
    requires
        opens_to(path, image, Err::<BsaModel, VfsError>(error)),
        12 <= image.len() <= usize::MAX,
    ensures
        ({
            let (directory, count) = (four_at(image, 4), four_at(image, 8));
            &&& error matches VfsError::Malformed { archive, reason }
            &&& archive@ == path
            &&& match reason {
                ArchiveFault::ForeignMagic { found } => found == four_at(image, 0) && found != 0x100,
                ArchiveFault::DirectoryDoesNotFit { file_count, directory_size, archive_size } => {
                    &&& file_count == count
                    &&& directory_size == directory
                    &&& archive_size == image.len()
                    &&& directory < 12 * count || image.len() < 12 + directory + 8 * count || 21
                        * count > image.len() - 12
                },
                ArchiveFault::PastTheEnd { file } => {
                    &&& file < count
                    &&& 12 + directory + 8 * count + four_at(image, 16 + 8 * file) + four_at(
                        image,
                        12 + 8 * file,
                    ) > image.len()
                },
                ArchiveFault::NameOutside { file } => {
                    &&& file < count
                    &&& four_at(image, 12 + 8 * count + 4 * file) >= directory - 12 * count
                },
                ArchiveFault::NameUnterminated { file } => {
                    &&& file < count
                    &&& forall|k: int|
                        12 + 12 * count + four_at(image, 12 + 8 * count + 4 * file) <= k < 12
                            + directory ==> #[trigger] image[k] != 0
                },
            }
        }),
{
    let header = header_of(image);
    let size = image.len() as int;
    let count = header.file_count as int;
    if four_at(image, 0) == 0x100 && header.fits(size) {
        let (tables, names) = (tables_of(image), names_of(image));
        let i = choose|i: int| #[trigger]
            first_fault_of(image, i) && error.is_malformed(
                path,
                entry_fault(header, size, tables, names, i)->0,
            );
        assert forall|k: int| 0 <= k < tables.len() implies #[trigger] tables[k] == image[12 + k] by {
        }
        let a = 8 * i;
        let b = 8 * count + 4 * i;
        assert(tables[a] == image[12 + a] && tables[a + 1] == image[13 + a] && tables[a + 2]
            == image[14 + a] && tables[a + 3] == image[15 + a]);
        assert(tables[a + 4] == image[16 + a] && tables[a + 5] == image[17 + a] && tables[a + 6]
            == image[18 + a] && tables[a + 7] == image[19 + a]);
        assert(tables[b] == image[12 + b] && tables[b + 1] == image[13 + b] && tables[b + 2]
            == image[14 + b] && tables[b + 3] == image[15 + b]);
        let at = four_at(image, 12 + b);
        if at < names.len() && nul_from(names, at) == names.len() {
            lemma_no_nul(names, at);
            assert forall|k: int|
                12 + 12 * count + at <= k < 12 + header.directory_size implies #[trigger] image[k]
                != 0 by {
                assert(names[k - 12 - 12 * count] == image[k]);
            }
        }
    }
}

/// Where no nought is found there is none.
proof fn lemma_no_nul(b: Seq<u8>, at: int)
    requires
        0 <= at <= b.len(),
        nul_from(b, at) == b.len(),
    ensures
        forall|k: int| at <= k < b.len() ==> #[trigger] b[k] != 0,
    decreases b.len() - at,
{
    if at < b.len() && b[at] != 0 {
        lemma_no_nul(b, at + 1);
    }
}

/// Whether a source provides a path.
pub open spec fn provides(source: SourceModel, name: Seq<char>) -> bool {
    source.names().contains(name)
}

/// Whether an archive that is installed provides a path.
pub open spec fn holds(archive: Option<BsaArchive>, name: Seq<char>) -> bool {
    archive matches Some(archive) && provides(SourceModel::Bsa(archive@), name)
}

/// What an archive has under a path, where it is installed and has anything.
proof fn lemma_installed(vfs: VfsModel, archive: Option<BsaArchive>, name: Seq<char>)
    requires
        is_opened(archive),
        vfs.sources.len() < 4,
    ensures
        with_installed(vfs, archive).sources.len() <= vfs.sources.len() + 1,
        holds(archive, name) ==> read_from(with_installed(vfs, archive).sources, name) == Some(
            SourceModel::Bsa(archive->0@).contents(
                last_of(SourceModel::Bsa(archive->0@).names(), name),
            ),
        ),
        !holds(archive, name) ==> read_from(with_installed(vfs, archive).sources, name)
            == read_from(vfs.sources, name),
{
    match archive {
        Some(archive) => {
            law_later_sources_win(vfs, SourceModel::Bsa(archive@), name);
        },
        None => {},
    }
}

/// **A path that is not loose is read from the newest of the archives that hold it**: the second
/// expansion's before the first's, and the first's before the base game's.
pub proof fn law_expansions_come_after_the_base_game(
    morrowind: Option<BsaArchive>,
    tribunal: Option<BsaArchive>,
    bloodmoon: Option<BsaArchive>,
    loose: DirectoryArchive,
    name: Seq<char>,
)
    requires
        is_opened(morrowind),
        is_opened(tribunal),
        is_opened(bloodmoon),
        loose@.entries.len() <= u32::MAX,
        !provides(SourceModel::Directory(loose@), name),
    ensures
        ({
            let read = read_from(
                in_load_order(morrowind, tribunal, bloodmoon, loose).sources,
                name,
            );
            let from = |archive: Option<BsaArchive>|
                Some(
                    SourceModel::Bsa(archive->0@).contents(
                        last_of(SourceModel::Bsa(archive->0@).names(), name),
                    ),
                );
            &&& holds(bloodmoon, name) ==> read == from(bloodmoon)
            &&& !holds(bloodmoon, name) && holds(tribunal, name) ==> read == from(tribunal)
            &&& !holds(bloodmoon, name) && !holds(tribunal, name) && holds(morrowind, name) ==> read
                == from(morrowind)
            &&& !holds(bloodmoon, name) && !holds(tribunal, name) && !holds(morrowind, name)
                ==> read is None
        }),
{
    let first = with_installed(no_files(), morrowind);
    let second = with_installed(first, tribunal);
    let third = with_installed(second, bloodmoon);
    lemma_installed(no_files(), morrowind, name);
    lemma_installed(first, tribunal, name);
    lemma_installed(second, bloodmoon, name);
    law_later_sources_win(third, SourceModel::Directory(loose@), name);
}

/// **A path is folded character by character**: ASCII capitals become small, a backslash becomes a
/// slash, and anything else stays.
pub proof fn law_a_character_folds_alone(c: char)
    ensures
        'A' <= c <= 'Z' ==> folded(c) as u32 == c as u32 + 32,
        c == '\\' ==> folded(c) == '/',
        !('A' <= c <= 'Z') && c != '\\' ==> folded(c) == c,
{
}

/// **A key is read where it is first set**, and nowhere where it is not.
pub proof fn law_a_key_is_read_where_it_is_first_set(
    read: Seq<Result<Seq<char>, Option<Seq<char>>>>,
    key: Seq<char>,
    from: int,
)
    requires
        0 <= from <= read.len(),
    ensures
        from <= first_setting(read, key, from) <= read.len(),
        first_setting(read, key, from) < read.len() ==> read[first_setting(read, key, from)] == Ok::<
            Seq<char>,
            Option<Seq<char>>,
        >(key),
        forall|k: int|
            from <= k < first_setting(read, key, from) ==> #[trigger] read[k] != Ok::<
                Seq<char>,
                Option<Seq<char>>,
            >(key),
    decreases read.len() - from,
{
    if from < read.len() {
        law_a_key_is_read_where_it_is_first_set(read, key, from + 1);
    }
}

/// **Every line that could not be read is told, and no other.**
pub proof fn law_every_unreadable_line_is_told(
    read: Seq<Result<Seq<char>, Option<Seq<char>>>>,
    n: nat,
    line: Seq<char>,
)
    requires
        n <= read.len(),
    ensures
        unreadable_in(read, n).contains(line) <==> exists|k: int|
            0 <= k < n && #[trigger] read[k] == Err::<Seq<char>, Option<Seq<char>>>(Some(line)),
        unreadable_in(read, n).len() <= n,
    decreases n,
{
    if n > 0 {
        let before = unreadable_in(read, (n - 1) as nat);
        let after = unreadable_in(read, n);
        law_every_unreadable_line_is_told(read, (n - 1) as nat, line);
        if before.contains(line) {
            let i = before.index_of(line);
            assert(after[i] == line);
            let k = choose|k: int|
                0 <= k < n - 1 && #[trigger] read[k] == Err::<Seq<char>, Option<Seq<char>>>(
                    Some(line),
                );
            assert(read[k] == Err::<Seq<char>, Option<Seq<char>>>(Some(line)));
        }
        if read[n - 1] == Err::<Seq<char>, Option<Seq<char>>>(Some(line)) {
            assert(after.last() == line);
        }
        if after.contains(line) && !before.contains(line) {
            let i = after.index_of(line);
            if i < before.len() {
                assert(before[i] == line);
            }
            assert(read[n - 1] == Err::<Seq<char>, Option<Seq<char>>>(Some(line)));
        }
    }
}

/// The last of a character in a text that ends with one and others that are not.
pub proof fn lemma_last_is(before: Seq<char>, c: char, after: Seq<char>)
    requires
        !after.contains(c),
    ensures
        last_character(before.push(c) + after, c) == before.len(),
    decreases after.len(),
{
    let whole = before.push(c) + after;
    if after.len() == 0 {
        assert(whole =~= before.push(c));
    } else {
        let less = after.drop_last();
        assert(after.contains(after.last()));
        assert forall|x: char| less.contains(x) implies #[trigger] after.contains(x) by {
            let i = less.index_of(x);
            assert(after[i] == x);
        }
        lemma_last_is(before, c, less);
        assert(whole.drop_last() =~= before.push(c) + less);
        assert(whole.last() == after.last());
    }
}

/// Where a character does not stand it is not found.
pub proof fn lemma_last_is_none(s: Seq<char>, c: char)
    requires
        !s.contains(c),
    ensures
        last_character(s, c) == -1,
    decreases s.len(),
{
    if s.len() > 0 {
        let less = s.drop_last();
        assert(s.contains(s.last()));
        assert forall|x: char| less.contains(x) implies #[trigger] s.contains(x) by {
            let i = less.index_of(x);
            assert(s[i] == x);
        }
        lemma_last_is_none(less, c);
    }
}

/// **A file's name is what follows the directory it is in.**
pub proof fn law_a_file_is_named_after_its_directory(directory: Seq<char>, name: Seq<char>)
    requires
        !name.contains('/'),
        name.len() > 0,
    ensures
        final_component(directory.push('/') + name) == Some(name),
        final_component(name) == Some(name),
        lies_in(directory.push('/') + name, directory),
{
    let path = directory.push('/') + name;
    lemma_last_is(directory, '/', name);
    lemma_last_is_none(name, '/');
    assert(path.subrange(directory.len() + 1int, path.len() as int) =~= name);
    assert(name.subrange(0, name.len() as int) =~= name);
    assert(path.subrange(0, directory.len() as int) =~= directory);
}

/// **A file's extension is what follows the last dot of its name**, and a name without one has none.
pub proof fn law_an_extension_follows_the_last_dot(
    path: Seq<char>,
    stem: Seq<char>,
    extension: Seq<char>,
)
    requires
        !extension.contains('.'),
    ensures
        final_component(path) == Some(stem.push('.') + extension) ==> final_extension(path) == Some(
            extension,
        ),
        final_component(path) == Some(extension) ==> final_extension(path) is None,
{
    let name = stem.push('.') + extension;
    lemma_last_is(stem, '.', extension);
    lemma_last_is_none(extension, '.');
    assert(name.subrange(stem.len() + 1int, name.len() as int) =~= extension);
}

/// **A path lies in a directory only as a whole component**, never because their names begin alike.
pub proof fn law_names_that_begin_alike_are_apart(directory: Seq<char>, c: char, rest: Seq<char>)
    requires
        directory.len() > 0,
        c != '/',
    ensures
        !lies_in(directory.push(c) + rest, directory),
        !lies_in(directory, directory),
{
    let path = directory.push(c) + rest;
    assert(path[directory.len() as int] == c);
}

/// **A key is read as it stands and its value is what stands beside it**; a line that could not be
/// read is told as it is written, and one that could not be had as nothing.
pub proof fn law_an_entry_is_read_as_it_stands(entries: Seq<Entry>, i: int)
    requires
        0 <= i < entries.len(),
    ensures
        as_read(entries).len() == entries.len(),
        entries[i] matches Entry::Pair(key, value) ==> as_read(entries)[i] == Ok::<
            Seq<char>,
            Option<Seq<char>>,
        >(key@) && value_at(entries, i) == Some(value@),
        entries[i] matches Entry::Unreadable(line) ==> as_read(entries)[i] == Err::<
            Seq<char>,
            Option<Seq<char>>,
        >(Some(line@)) && value_at(entries, i) is None,
        entries[i] is Lost ==> as_read(entries)[i] == Err::<Seq<char>, Option<Seq<char>>>(None)
            && value_at(entries, i) is None,
{
}

} // verus!
