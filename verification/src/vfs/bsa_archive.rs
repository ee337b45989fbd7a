//! Reading the archives the game ships its data in.
//!
//! Layout, from the header onward:
//!
//! ```text
//! u32 magic = 0x100
//! u32 dirsize          bytes in the directory block below
//! u32 numfiles
//! -- directory block, dirsize bytes total --
//! numfiles x { u32 size; u32 offset }   offset is relative to the data block
//! numfiles x   u32 name_offset          into the name buffer
//! name buffer, NUL-terminated strings, dirsize - 12 * numfiles bytes
//! -- end directory block --
//! numfiles x u64 hash                   unused here; names are the lookup key
//! data block                            file contents, uncompressed
//! ```
//!
//! The data block therefore begins at `12 + dirsize + 8 * numfiles`.

use super::error::{ArchiveFault, VfsError};
use super::normalized_path::{is_normal, normalized, NormalizedPath};
use crate::bytes::{le32, read_le32};
use vstd::prelude::*;
use vstd::utf8::{decode_utf8, valid_utf8};

verus! {

/// What an archive starts with. Later archives of the same publisher start otherwise and are laid
/// out otherwise.
pub const MAGIC: u32 = 0x100;

/// Bytes the header occupies.
pub const HEADER: usize = 12;

/// The sizes an archive's header declares.
#[derive(Debug, Clone, Copy, PartialEq, Eq, Structural)]
pub struct BsaHeader {
    pub directory_size: u32,
    pub file_count: u32,
}

/// One file inside an archive: where it is, how long it is, what it is called.
#[derive(Debug)]
pub struct BsaEntry {
    offset: u64,
    size: u32,
    name: NormalizedPath,
}

/// What a [`BsaEntry`] is.
#[verifier::ext_equal]
pub struct BsaEntryModel {
    pub offset: int,
    pub size: int,
    pub name: Seq<char>,
}

/// A memory-resident index over an archive.
///
/// Only the directory is held; most of an archive is texture data and there is no reason for it to
/// be resident.
#[derive(Debug)]
pub struct BsaArchive {
    path: String,
    entries: Vec<BsaEntry>,
}

/// What a [`BsaArchive`] is: where it was opened from, and its entries in file order.
#[verifier::ext_equal]
pub struct BsaModel {
    pub path: Seq<char>,
    pub entries: Seq<BsaEntryModel>,
}

impl View for BsaEntry {
    type V = BsaEntryModel;

    closed spec fn view(&self) -> BsaEntryModel {
        BsaEntryModel { offset: self.offset as int, size: self.size as int, name: self.name@ }
    }
}

impl View for BsaArchive {
    type V = BsaModel;

    closed spec fn view(&self) -> BsaModel {
        BsaModel {
            path: self.path@,
            entries: Seq::new(self.entries@.len(), |i: int| self.entries@[i]@),
        }
    }
}

impl BsaHeader {
    /// Bytes of the size, offset and name-offset tables: twelve a file.
    pub open spec fn tables(self) -> int {
        12 * self.file_count
    }

    /// Bytes of the name buffer.
    pub open spec fn names(self) -> int {
        self.directory_size - 12 * self.file_count
    }

    /// Where the data block begins.
    pub open spec fn data(self) -> int {
        12 + self.directory_size + 8 * self.file_count
    }

    /// Whether the directory declared is possible in an archive of `archive_size` bytes: each file
    /// needs at least its 12 directory bytes, 8 hash bytes and a 1-byte name.
    pub open spec fn fits(self, archive_size: int) -> bool {
        &&& self.directory_size >= self.tables()
        &&& archive_size >= self.data()
        &&& 21 * self.file_count <= archive_size - 12
    }

    /// Reads a header, rejecting a foreign one and impossible geometry before any of it is used as
    /// an offset.
    pub fn read(path: &str, header: &[u8], archive_size: u64) -> (r: Result<BsaHeader, VfsError>)
        requires
            header@.len() == HEADER,
        ensures
            ({
                let declared = BsaHeader {
                    directory_size: le32(header@, 4) as u32,
                    file_count: le32(header@, 8) as u32,
                };
                if le32(header@, 0) != MAGIC {
                    r matches Err(e) && e.is_malformed(
                        path@,
                        ArchiveFault::ForeignMagic { found: le32(header@, 0) as u32 },
                    )
                } else if !declared.fits(archive_size as int) {
                    r matches Err(e) && e.is_malformed(
                        path@,
                        ArchiveFault::DirectoryDoesNotFit {
                            file_count: declared.file_count,
                            directory_size: declared.directory_size,
                            archive_size,
                        },
                    )
                } else {
                    r == Ok::<BsaHeader, VfsError>(declared)
                }
            }),
    {
        let magic: u32 = read_le32(header, 0);
        if magic != MAGIC {
            return Err(VfsError::malformed(path, ArchiveFault::ForeignMagic { found: magic }));
        }
        let directory_size: u32 = read_le32(header, 4);
        let file_count: u32 = read_le32(header, 8);
        let (size, count): (u64, u64) = (directory_size as u64, file_count as u64);
        if size < 12 * count || archive_size < 12 + size + 8 * count || 21 * count > archive_size
            - 12 {
            return Err(
                VfsError::malformed(
                    path,
                    ArchiveFault::DirectoryDoesNotFit { file_count, directory_size, archive_size },
                ),
            );
        }
        Ok(BsaHeader { directory_size, file_count })
    }

    /// Bytes of the size, offset and name-offset tables, which follow the header.
    pub fn tables_size(&self) -> (r: u64)
        ensures
            r == self.tables(),
    {
        12 * self.file_count as u64
    }

    /// Bytes of the name buffer, which follows the tables.
    pub fn names_size(&self) -> (r: u64)
        requires
            self.names() >= 0,
        ensures
            r == self.names(),
    {
        self.directory_size as u64 - 12 * self.file_count as u64
    }
}

/// What `String::from_utf8_lossy` makes of some bytes.
pub uninterp spec fn lossy(b: Seq<u8>) -> Seq<char>;

/// The text of some bytes: what they spell where they are UTF-8, and otherwise what
/// `String::from_utf8_lossy` makes of them.
pub open spec fn text(b: Seq<u8>) -> Seq<char> {
    if valid_utf8(b) {
        decode_utf8(b)
    } else {
        lossy(b)
    }
}

/// The text of some bytes, by `String::from_utf8_lossy`.
///
/// Bytes that are valid UTF-8 come back as the text they spell. Of others the result is the same
/// whenever the bytes are, and which replacement characters stand where is not stated.
#[verifier::external_body]
fn text_of(b: &[u8]) -> (r: String)
    ensures
        r@ == if valid_utf8(b@) {
            decode_utf8(b@)
        } else {
            lossy(b@)
        },
{
    String::from_utf8_lossy(b).into_owned()
}

/// The index of the first NUL at or after `at`, or the length where there is none.
pub open spec fn nul_from(b: Seq<u8>, at: int) -> int
    decreases b.len() - at,
{
    if at >= b.len() {
        b.len() as int
    } else if b[at] == 0 {
        at
    } else {
        nul_from(b, at + 1)
    }
}

/// Where file `i`'s name begins in the name buffer.
pub open spec fn name_at(header: BsaHeader, tables: Seq<u8>, i: int) -> int {
    le32(tables, 8 * header.file_count + 4 * i)
}

/// Where file `i` begins in the archive.
pub open spec fn data_at(header: BsaHeader, tables: Seq<u8>, i: int) -> int {
    header.data() + le32(tables, 8 * i + 4)
}

/// How file `i`'s directory entry is inconsistent, if it is.
pub open spec fn entry_fault(
    header: BsaHeader,
    archive_size: int,
    tables: Seq<u8>,
    names: Seq<u8>,
    i: int,
) -> Option<ArchiveFault> {
    let at = name_at(header, tables, i);
    if data_at(header, tables, i) + le32(tables, 8 * i) > archive_size {
        Some(ArchiveFault::PastTheEnd { file: i as usize })
    } else if at >= names.len() {
        Some(ArchiveFault::NameOutside { file: i as usize })
    } else if nul_from(names, at) == names.len() {
        Some(ArchiveFault::NameUnterminated { file: i as usize })
    } else {
        None
    }
}

/// What file `i`'s consistent directory entry says.
pub open spec fn entry_of(
    header: BsaHeader,
    tables: Seq<u8>,
    names: Seq<u8>,
    i: int,
) -> BsaEntryModel {
    let at = name_at(header, tables, i);
    BsaEntryModel {
        offset: data_at(header, tables, i),
        size: le32(tables, 8 * i),
        name: normalized(text(names.subrange(at, nul_from(names, at)))),
    }
}

/// Whether file `i` is the first whose entry is inconsistent.
pub open spec fn first_fault(
    header: BsaHeader,
    archive_size: int,
    tables: Seq<u8>,
    names: Seq<u8>,
    i: int,
) -> bool {
    &&& 0 <= i < header.file_count
    &&& entry_fault(header, archive_size, tables, names, i) is Some
    &&& forall|k: int|
        0 <= k < i ==> #[trigger] entry_fault(header, archive_size, tables, names, k) is None
}

/// The first NUL at or after `at`, or the length.
fn find_nul(b: &[u8], at: usize) -> (r: usize)
    requires
        at <= b@.len(),
    ensures
        r == nul_from(b@, at as int),
        at <= r <= b@.len(),
{
    let mut i: usize = at;
    while i < b.len()
        invariant
            at <= i <= b@.len(),
            nul_from(b@, at as int) == nul_from(b@, i as int),
        decreases b@.len() - i,
    {
        if b[i] == 0 {
            return i;
        }
        i = i + 1;
    }
    i
}

/// Reads file `i`'s directory entry.
fn read_entry(
    header: &BsaHeader,
    archive_size: u64,
    tables: &[u8],
    names: &[u8],
    i: usize,
) -> (r: Result<BsaEntry, ArchiveFault>)
    requires
        i < header.file_count,
        tables@.len() == header.tables(),
    ensures
        match r {
            Ok(entry) => {
                &&& entry_fault(*header, archive_size as int, tables@, names@, i as int) is None
                &&& entry@ == entry_of(*header, tables@, names@, i as int)
            },
            Err(fault) => entry_fault(*header, archive_size as int, tables@, names@, i as int)
                == Some(fault),
        },
{
    assert(tables@.len() == tables.len());
    let size: u32 = read_le32(tables, 8 * i);
    let relative: u32 = read_le32(tables, 8 * i + 4);
    let at: u32 = read_le32(tables, 8 * header.file_count as usize + 4 * i);
    let data: u64 = 12 + header.directory_size as u64 + 8 * header.file_count as u64;
    let offset: u64 = data + relative as u64;
    if offset + size as u64 > archive_size {
        return Err(ArchiveFault::PastTheEnd { file: i });
    }
    if at as u64 >= names.len() as u64 {
        return Err(ArchiveFault::NameOutside { file: i });
    }
    let end: usize = find_nul(names, at as usize);
    if end == names.len() {
        return Err(ArchiveFault::NameUnterminated { file: i });
    }
    let raw: String = text_of(vstd::slice::slice_subrange(names, at as usize, end));
    Ok(BsaEntry { offset, size, name: NormalizedPath::new(raw.as_str()) })
}

/// The sizes the header of a whole archive declares.
pub open spec fn header_of(image: Seq<u8>) -> BsaHeader {
    BsaHeader { directory_size: le32(image, 4) as u32, file_count: le32(image, 8) as u32 }
}

/// The size, offset and name-offset tables of a whole archive.
pub open spec fn tables_of(image: Seq<u8>) -> Seq<u8> {
    image.subrange(12, 12 + header_of(image).tables())
}

/// The name buffer of a whole archive.
pub open spec fn names_of(image: Seq<u8>) -> Seq<u8> {
    image.subrange(12 + header_of(image).tables(), 12 + header_of(image).directory_size)
}

/// Whether file `i` of a whole archive is the first whose entry is inconsistent.
pub open spec fn first_fault_of(image: Seq<u8>, i: int) -> bool {
    first_fault(header_of(image), image.len() as int, tables_of(image), names_of(image), i)
}

/// What opening a whole archive gives.
///
/// The first of these that applies: a file shorter than its header, a foreign one, a directory that
/// does not fit, the first file whose entry is inconsistent, and otherwise every file indexed.
pub open spec fn opens_to(
    path: Seq<char>,
    image: Seq<u8>,
    r: Result<BsaModel, VfsError>,
) -> bool {
    let header = header_of(image);
    let size = image.len() as int;
    if image.len() < HEADER {
        r matches Err(e) && e.is_io(path)
    } else if le32(image, 0) != MAGIC {
        r matches Err(e) && e.is_malformed(
            path,
            ArchiveFault::ForeignMagic { found: le32(image, 0) as u32 },
        )
    } else if !header.fits(size) {
        r matches Err(e) && e.is_malformed(
            path,
            ArchiveFault::DirectoryDoesNotFit {
                file_count: header.file_count,
                directory_size: header.directory_size,
                archive_size: image.len() as u64,
            },
        )
    } else {
        match r {
            Ok(archive) => {
                &&& archive.path == path
                &&& archive.entries.len() == header.file_count
                &&& forall|i: int|
                    0 <= i < header.file_count ==> #[trigger] entry_fault(
                        header,
                        size,
                        tables_of(image),
                        names_of(image),
                        i,
                    ) is None
                &&& forall|i: int|
                    0 <= i < header.file_count ==> #[trigger] archive.entries[i] == entry_of(
                        header,
                        tables_of(image),
                        names_of(image),
                        i,
                    )
            },
            Err(error) => exists|i: int| #[trigger]
                first_fault_of(image, i) && error.is_malformed(
                    path,
                    entry_fault(header, size, tables_of(image), names_of(image), i)->0,
                ),
        }
    }
}

impl BsaArchive {
    /// Opens an archive held in memory in full.
    pub fn open(path: &str, image: &[u8]) -> (r: Result<BsaArchive, VfsError>)
        ensures
            opens_to(
                path@,
                image@,
                match r {
                    Ok(archive) => Ok(archive@),
                    Err(error) => Err(error),
                },
            ),
            r matches Ok(archive) ==> archive.wf() && forall|i: int|
                0 <= i < archive@.entries.len() ==> 0 <= #[trigger] archive@.entries[i].offset
                    && 0 <= archive@.entries[i].size && archive@.entries[i].offset
                    + archive@.entries[i].size <= image@.len(),
    {
        if image.len() < HEADER {
            return Err(VfsError::io(path, "unexpected end of file"));
        }
        let start: &[u8] = vstd::slice::slice_subrange(image, 0, HEADER);
        assert(le32(start@, 0) == le32(image@, 0));
        assert(le32(start@, 4) == le32(image@, 4));
        assert(le32(start@, 8) == le32(image@, 8));
        let header: BsaHeader = match BsaHeader::read(path, start, image.len() as u64) {
            Ok(header) => header,
            Err(error) => return Err(error),
        };
        assert(image@.len() == image.len());
        let names_at: usize = HEADER + 12 * header.file_count as usize;
        let names_end: usize = HEADER + header.directory_size as usize;
        let tables: &[u8] = vstd::slice::slice_subrange(image, HEADER, names_at);
        let names: &[u8] = vstd::slice::slice_subrange(image, names_at, names_end);
        let r: Result<BsaArchive, VfsError> = BsaArchive::from_directory(
            path,
            &header,
            image.len() as u64,
            tables,
            names,
        );
        let ghost outcome = r;
        proof {
            match outcome {
                Ok(archive) => {
                    assert forall|i: int| 0 <= i < archive@.entries.len() implies 0
                        <= #[trigger] archive@.entries[i].offset && 0 <= archive@.entries[i].size
                        && archive@.entries[i].offset + archive@.entries[i].size
                        <= image@.len() by {
                        assert(entry_fault(
                            header,
                            image@.len() as int,
                            tables@,
                            names@,
                            i,
                        ) is None);
                    }
                },
                Err(error) => {
                    let i = choose|i: int| #[trigger]
                        first_fault(header, image@.len() as int, tables@, names@, i)
                            && error.is_malformed(
                            path@,
                            entry_fault(header, image@.len() as int, tables@, names@, i)->0,
                        );
                    assert(first_fault_of(image@, i));
                },
            }
        }
        r
    }

    /// Reads entry `index` in full out of the archive it was opened from, held in memory.
    pub fn read(&self, image: &[u8], index: usize) -> (r: Vec<u8>)
        requires
            index < self@.entries.len(),
            self@.entries[index as int].offset + self@.entries[index as int].size <= image@.len(),
        ensures
            r@ == image@.subrange(
                self@.entries[index as int].offset,
                self@.entries[index as int].offset + self@.entries[index as int].size,
            ),
    {
        let entry: &BsaEntry = &self.entries[index];
        assert(image@.len() == image.len());
        let start: usize = entry.offset as usize;
        let end: usize = start + entry.size as usize;
        let mut r: Vec<u8> = Vec::new();
        r.extend_from_slice(vstd::slice::slice_subrange(image, start, end));
        r
    }

    /// The names of an archive's entries are all in normalized form.
    pub open spec fn wf(&self) -> bool {
        forall|i: int| 0 <= i < self@.entries.len() ==> is_normal(#[trigger] self@.entries[i].name)
    }

    /// Reads an archive's directory out of its tables and its name buffer.
    ///
    /// The first file whose entry is inconsistent is the error; otherwise every file is indexed.
    pub fn from_directory(
        path: &str,
        header: &BsaHeader,
        archive_size: u64,
        tables: &[u8],
        names: &[u8],
    ) -> (r: Result<BsaArchive, VfsError>)
        requires
            header.fits(archive_size as int),
            tables@.len() == header.tables(),
            names@.len() == header.names(),
        ensures
            match r {
                Ok(archive) => {
                    &&& archive.wf()
                    &&& archive@.path == path@
                    &&& archive@.entries.len() == header.file_count
                    &&& forall|i: int|
                        0 <= i < header.file_count ==> #[trigger] entry_fault(
                            *header,
                            archive_size as int,
                            tables@,
                            names@,
                            i,
                        ) is None
                    &&& forall|i: int|
                        0 <= i < header.file_count ==> #[trigger] archive@.entries[i] == entry_of(
                            *header,
                            tables@,
                            names@,
                            i,
                        )
                },
                Err(error) => exists|i: int| #[trigger]
                    first_fault(*header, archive_size as int, tables@, names@, i)
                        && error.is_malformed(
                        path@,
                        entry_fault(*header, archive_size as int, tables@, names@, i)->0,
                    ),
            },
    {
        assert(tables@.len() == tables.len());
        let count: usize = header.file_count as usize;
        let mut entries: Vec<BsaEntry> = Vec::with_capacity(count);
        let mut i: usize = 0;
        while i < count
            invariant
                count == header.file_count,
                i <= count,
                tables@.len() == header.tables(),
                entries@.len() == i,
                forall|k: int|
                    0 <= k < i ==> #[trigger] entry_fault(
                        *header,
                        archive_size as int,
                        tables@,
                        names@,
                        k,
                    ) is None,
                forall|k: int|
                    0 <= k < i ==> #[trigger] entries@[k]@ == entry_of(
                        *header,
                        tables@,
                        names@,
                        k,
                    ),
            decreases count - i,
        {
            match read_entry(header, archive_size, tables, names, i) {
                Ok(entry) => {
                    entries.push(entry);
                },
                Err(fault) => {
                    assert(first_fault(
                        *header,
                        archive_size as int,
                        tables@,
                        names@,
                        i as int,
                    ));
                    return Err(VfsError::malformed(path, fault));
                },
            }
            i = i + 1;
        }
        let archive: BsaArchive = BsaArchive { path: path.to_owned(), entries };
        proof {
            assert forall|k: int| 0 <= k < archive@.entries.len() implies is_normal(
                #[trigger] archive@.entries[k].name,
            ) by {
                assert(archive@.entries[k] == entries@[k]@);
                let at = name_at(*header, tables@, k);
                super::normalized_path::lemma_normalized_is_normal(
                    text(names@.subrange(at, nul_from(names@, at))),
                );
            }
        }
        Ok(archive)
    }

    /// Number of files in the archive.
    pub fn len(&self) -> (r: usize)
        ensures
            r == self@.entries.len(),
    {
        self.entries.len()
    }

    /// Whether the archive holds no files.
    pub fn is_empty(&self) -> (r: bool)
        ensures
            r == (self@.entries.len() == 0),
    {
        self.entries.len() == 0
    }

    /// Where the archive was opened from.
    pub fn path(&self) -> (r: &str)
        ensures
            r@ == self@.path,
    {
        self.path.as_str()
    }

    /// The normalized name of entry `index`.
    pub fn entry_name(&self, index: usize) -> (r: &str)
        requires
            index < self@.entries.len(),
        ensures
            r@ == self@.entries[index as int].name,
    {
        self.entries[index].name.as_str()
    }

    /// Size in bytes of entry `index`.
    pub fn entry_size(&self, index: usize) -> (r: u32)
        requires
            index < self@.entries.len(),
        ensures
            r == self@.entries[index as int].size,
    {
        self.entries[index].size
    }

    /// Where in the archive entry `index` begins.
    pub fn entry_offset(&self, index: usize) -> (r: u64)
        requires
            index < self@.entries.len(),
        ensures
            r == self@.entries[index as int].offset,
    {
        self.entries[index].offset
    }
}

} // verus!
