//! What can go wrong indexing or reading from the virtual file system.

use vstd::prelude::*;

verus! {

/// Anything that can go wrong opening an archive or reading a file out of one.
#[derive(Debug)]
pub enum VfsError {
    /// The underlying file system refused a read, for the reason it gave.
    Io { path: String, source: String },
    /// An archive's own structure is inconsistent. Archives are untrusted input: a truncated or
    /// hand-edited one must be reported, never trusted into an out-of-bounds read.
    Malformed { archive: String, reason: ArchiveFault },
    /// No archive in the index holds this path.
    NotFound(String),
}

/// How an archive is inconsistent.
#[derive(Debug, Clone, Copy, PartialEq, Eq, Structural)]
pub enum ArchiveFault {
    /// The first four bytes are not the ones an archive starts with.
    ForeignMagic { found: u32 },
    /// A directory of this many files does not fit.
    DirectoryDoesNotFit { file_count: u32, directory_size: u32, archive_size: u64 },
    /// A file spans past the end of the archive.
    PastTheEnd { file: usize },
    /// A file has a name offset outside the name buffer.
    NameOutside { file: usize },
    /// A file has an unterminated name.
    NameUnterminated { file: usize },
}

impl VfsError {
    /// Whether this says that the file system refused to read `path`.
    pub open spec fn is_io(self, path: Seq<char>) -> bool {
        self matches VfsError::Io { path: p, .. } && p@ == path
    }

    /// Whether this says that `archive` is inconsistent in the way of `fault`.
    pub open spec fn is_malformed(self, archive: Seq<char>, fault: ArchiveFault) -> bool {
        self matches VfsError::Malformed { archive: a, reason } && a@ == archive && reason == fault
    }

    /// Whether this says that nothing holds `path`.
    pub open spec fn is_not_found(self, path: Seq<char>) -> bool {
        self matches VfsError::NotFound(p) && p@ == path
    }

    /// The file system's refusal to read `path`.
    pub fn io(path: &str, source: &str) -> (r: VfsError)
        ensures
            r.is_io(path@),
            r matches VfsError::Io { source: s, .. } && s@ == source@,
    {
        VfsError::Io { path: path.to_owned(), source: source.to_owned() }
    }

    /// An inconsistency of `archive`.
    pub fn malformed(archive: &str, reason: ArchiveFault) -> (r: VfsError)
        ensures
            r.is_malformed(archive@, reason),
    {
        VfsError::Malformed { archive: archive.to_owned(), reason }
    }
}

} // verus!
