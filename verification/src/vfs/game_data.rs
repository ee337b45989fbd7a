//! Where the installed game's data is.

use super::bsa_archive::BsaArchive;
use super::directory_archive::DirectoryArchive;
use super::vfs::{
    last_of, read_from, with_source, ContentsModel, FileLocation, SourceModel, Vfs, VfsModel,
};
use crate::text::same;
use vstd::prelude::*;
use vstd::utf8::encode_utf8;

verus! {

/// Environment variable, and settings key, naming the game's data directory.
pub const DATA_DIR_VAR: &'static str = "MORROWIND_DATA_DIR";

/// The base game's archive.
pub const MORROWIND_ARCHIVE: &'static str = "Morrowind.bsa";

/// The first expansion's archive.
pub const TRIBUNAL_ARCHIVE: &'static str = "Tribunal.bsa";

/// The second expansion's archive.
pub const BLOODMOON_ARCHIVE: &'static str = "Bloodmoon.bsa";

/// One line of a settings file.
#[derive(Debug)]
pub enum Entry {
    /// A key and its value.
    Pair(String, String),
    /// A value that could not be read, as it is written.
    Unreadable(String),
    /// A line that could not be had at all.
    Lost,
}

/// Where the game's data is, where anything says so, and what could not be read on the way to
/// finding out.
#[derive(Debug)]
pub struct Configured {
    pub directory: Option<String>,
    pub unreadable: Vec<String>,
}

/// What `dotenvy::from_read_iter` reads in some bytes, but for the values: of each line that sets
/// anything its key, and of each that could not be read what is written there, where it could be had
/// at all.
pub uninterp spec fn readings(bytes: Seq<u8>) -> Seq<Result<Seq<char>, Option<Seq<char>>>>;

/// What was read of some entries, but for the values.
pub open spec fn as_read(entries: Seq<Entry>) -> Seq<Result<Seq<char>, Option<Seq<char>>>> {
    Seq::new(
        entries.len(),
        |i: int|
            match entries[i] {
                Entry::Pair(key, _) => Ok(key@),
                Entry::Unreadable(line) => Err(Some(line@)),
                Entry::Lost => Err(None),
            },
    )
}

/// Whether some bytes stand among others, one right after the other.
pub open spec fn occurs(part: Seq<u8>, whole: Seq<u8>) -> bool {
    exists|at: int|
        0 <= at <= whole.len() - part.len() && #[trigger] whole.subrange(at, at + part.len())
            == part
}

/// `dotenvy::from_read_iter`: the lines of a settings file that set anything or could not be read,
/// in order.
///
/// Which lines those are, their keys and what could not be read depend on the bytes alone, and a key
/// stands in the bytes as it comes back. Of the values nothing is claimed: one may name variables of
/// the environment, whose values stand in for them.
#[verifier::external_body]
pub(crate) fn entries_of(bytes: &[u8]) -> (r: Vec<Entry>)
    ensures
        as_read(r@) == readings(bytes@),
        forall|i: int|
            0 <= i < r@.len() ==> (#[trigger] r@[i] matches Entry::Pair(key, _) ==> occurs(
                encode_utf8(key@),
                bytes@,
            )),
{
    dotenvy::from_read_iter(bytes)
        .map(
            |entry| match entry {
                Ok((key, value)) => Entry::Pair(key, value),
                Err(dotenvy::Error::LineParse(line, _)) => Entry::Unreadable(line),
                Err(_) => Entry::Lost,
            },
        )
        .collect()
}

/// The first of some readings from `from` on that is of a key, or how many there are.
pub open spec fn first_setting(
    read: Seq<Result<Seq<char>, Option<Seq<char>>>>,
    key: Seq<char>,
    from: int,
) -> int
    decreases read.len() - from,
{
    if from >= read.len() || read[from] == Ok::<Seq<char>, Option<Seq<char>>>(key) {
        from
    } else {
        first_setting(read, key, from + 1)
    }
}

/// The value an entry sets, where it sets one.
pub open spec fn value_at(entries: Seq<Entry>, at: int) -> Option<Seq<char>> {
    match entries[at] {
        Entry::Pair(_, value) => Some(value@),
        _ => None,
    }
}

/// What could not be read among the first `n` of some readings.
pub open spec fn unreadable_in(
    read: Seq<Result<Seq<char>, Option<Seq<char>>>>,
    n: nat,
) -> Seq<Seq<char>>
    decreases n,
{
    if n == 0 {
        Seq::empty()
    } else {
        let before = unreadable_in(read, (n - 1) as nat);
        match read[n - 1] {
            Err(Some(line)) => before.push(line),
            _ => before,
        }
    }
}

/// What some lines say.
pub open spec fn lines(all: Seq<String>) -> Seq<Seq<char>> {
    Seq::new(all.len(), |i: int| all[i]@)
}

/// The first reading of a key is of that key, where there is one.
proof fn lemma_first_setting(
    read: Seq<Result<Seq<char>, Option<Seq<char>>>>,
    key: Seq<char>,
    from: int,
)
    requires
        0 <= from <= read.len(),
    ensures
        from <= first_setting(read, key, from) <= read.len(),
        first_setting(read, key, from) < read.len() ==> read[first_setting(read, key, from)] == Ok::<
            Seq<char>,
            Option<Seq<char>>,
        >(key),
    decreases read.len() - from,
{
    if from < read.len() && read[from] != Ok::<Seq<char>, Option<Seq<char>>>(key) {
        lemma_first_setting(read, key, from + 1);
    }
}

impl Configured {
    /// What a settings file says of where the data is: the first value of its key, and what could
    /// not be read before it. A line elsewhere that could not be read is not this key's problem, but
    /// if it *is* this key's, silence would look exactly like a game that is not installed.
    pub fn among(entries: &Vec<Entry>) -> (r: Configured)
        ensures
            ({
                let at = first_setting(as_read(entries@), DATA_DIR_VAR@, 0);
                &&& lines(r.unreadable@) == unreadable_in(as_read(entries@), at as nat)
                &&& match r.directory {
                    Some(directory) => at < entries@.len() && value_at(entries@, at) == Some(
                        directory@,
                    ),
                    None => at >= entries@.len(),
                }
            }),
    {
        let ghost read = as_read(entries@);
        let mut unreadable: Vec<String> = Vec::new();
        let mut i: usize = 0;
        assert(lines(unreadable@) =~= Seq::<Seq<char>>::empty());
        while i < entries.len()
            invariant
                i <= entries@.len(),
                read == as_read(entries@),
                first_setting(read, DATA_DIR_VAR@, 0) == first_setting(
                    read,
                    DATA_DIR_VAR@,
                    i as int,
                ),
                lines(unreadable@) == unreadable_in(read, i as nat),
            decreases entries@.len() - i,
        {
            let ghost before = lines(unreadable@);
            match &entries[i] {
                Entry::Pair(key, value) => {
                    if same(key.as_str(), DATA_DIR_VAR) {
                        return Configured {
                            directory: Some(value.as_str().to_owned()),
                            unreadable,
                        };
                    }
                },
                Entry::Unreadable(line) => {
                    unreadable.push(line.as_str().to_owned());
                    assert(lines(unreadable@) =~= before.push(line@));
                },
                Entry::Lost => {},
            }
            i = i + 1;
        }
        Configured { directory: None, unreadable }
    }

    /// Where the data is: what the environment says, or failing that what a settings file says.
    ///
    /// A settings file says so only where it holds the key, and what could not be read before that is
    /// told. What the value comes to may depend on the environment, and is not stated.
    pub fn find(environment: Option<String>, settings: Option<&[u8]>) -> (r: Configured)
        ensures
            environment matches Some(directory) ==> r.directory == Some(directory)
                && r.unreadable@.len() == 0,
            environment is None && settings is None ==> r.directory is None && r.unreadable@.len()
                == 0,
            environment is None ==> (settings matches Some(bytes) ==> {
                let at = first_setting(readings(bytes@), DATA_DIR_VAR@, 0);
                &&& r.directory is Some <==> at < readings(bytes@).len()
                &&& r.directory is Some ==> occurs(encode_utf8(DATA_DIR_VAR@), bytes@)
                &&& lines(r.unreadable@) == unreadable_in(readings(bytes@), at as nat)
            }),
    {
        match environment {
            Some(directory) => Configured {
                directory: Some(directory),
                unreadable: Vec::new(),
            },
            None => match settings {
                Some(bytes) => {
                    let entries: Vec<Entry> = entries_of(bytes);
                    proof {
                        lemma_first_setting(as_read(entries@), DATA_DIR_VAR@, 0);
                    }
                    Configured::among(&entries)
                },
                None => Configured { directory: None, unreadable: Vec::new() },
            },
        }
    }
}

/// A file system of nothing.
pub open spec fn no_files() -> VfsModel {
    VfsModel {
        sources: Seq::<SourceModel>::empty(),
        index: Map::<Seq<char>, FileLocation>::empty(),
    }
}

/// A file system with an archive over it, where that archive is installed.
pub open spec fn with_installed(vfs: VfsModel, archive: Option<BsaArchive>) -> VfsModel {
    match archive {
        Some(archive) => with_source(vfs, SourceModel::Bsa(archive@)),
        None => vfs,
    }
}

/// The shipped archives that are installed plus loose files, in the game's own order: base game,
/// expansions, loose files.
pub open spec fn in_load_order(
    morrowind: Option<BsaArchive>,
    tribunal: Option<BsaArchive>,
    bloodmoon: Option<BsaArchive>,
    loose: DirectoryArchive,
) -> VfsModel {
    with_source(
        with_installed(with_installed(with_installed(no_files(), morrowind), tribunal), bloodmoon),
        SourceModel::Directory(loose@),
    )
}

/// Whether an archive that is installed was opened and numbers its entries in thirty-two bits.
pub open spec fn is_opened(archive: Option<BsaArchive>) -> bool {
    archive matches Some(archive) ==> archive.wf() && archive@.entries.len() <= u32::MAX
}

/// Adds an archive where it is installed.
fn add_installed(vfs: &mut Vfs, archive: Option<BsaArchive>)
    requires
        old(vfs).wf(),
        old(vfs)@.sources.len() < u32::MAX,
        is_opened(archive),
    ensures
        final(vfs).wf(),
        final(vfs)@ == with_installed(old(vfs)@, archive),
{
    match archive {
        Some(archive) => vfs.add_bsa(archive),
        None => {},
    }
}

/// The shipped archives plus loose files, indexed in load order.
///
/// Load order is base game, expansions, then loose files — so a replacement lying in the data
/// directory wins, the same precedence the game itself applies.
pub fn morrowind_archives(
    morrowind: Option<BsaArchive>,
    tribunal: Option<BsaArchive>,
    bloodmoon: Option<BsaArchive>,
    loose: DirectoryArchive,
) -> (r: Vfs)
    requires
        is_opened(morrowind),
        is_opened(tribunal),
        is_opened(bloodmoon),
        loose.wf(),
        loose@.entries.len() <= u32::MAX,
    ensures
        r.wf(),
        r@ == in_load_order(morrowind, tribunal, bloodmoon, loose),
{
    let mut vfs: Vfs = Vfs::new();
    assert(vfs@ == no_files());
    add_installed(&mut vfs, morrowind);
    add_installed(&mut vfs, tribunal);
    add_installed(&mut vfs, bloodmoon);
    vfs.add_directory(loose);
    vfs
}

/// **A loose file wins over every archive**: a path the data directory holds reads the file lying
/// there, whatever is installed.
pub proof fn law_a_loose_file_wins(
    morrowind: Option<BsaArchive>,
    tribunal: Option<BsaArchive>,
    bloodmoon: Option<BsaArchive>,
    loose: DirectoryArchive,
    name: Seq<char>,
)
    requires
        is_opened(morrowind),
        is_opened(tribunal),
        is_opened(bloodmoon),
        loose@.entries.len() <= u32::MAX,
        SourceModel::Directory(loose@).names().contains(name),
    ensures
        ({
            let vfs = in_load_order(morrowind, tribunal, bloodmoon, loose);
            let source = SourceModel::Directory(loose@);
            let last = last_of(source.names(), name);
            &&& 0 <= last < loose@.entries.len()
            &&& loose@.entries[last].name == name
            &&& vfs.sources.last() == source
            &&& vfs.index.get(name) == Some(
                FileLocation { source: (vfs.sources.len() - 1) as u32, entry: last as u32 },
            )
            &&& read_from(vfs.sources, name) == Some(
                ContentsModel::Loose { file: loose@.entries[last].on_disk },
            )
        }),
{
    let before = with_installed(
        with_installed(with_installed(no_files(), morrowind), tribunal),
        bloodmoon,
    );
    super::laws::law_later_sources_win(before, SourceModel::Directory(loose@), name);
}

} // verus!
