//! The game's virtual file system: archives and loose directories behind one case-insensitive index.

pub mod bsa_archive;
pub mod bsa_image;
pub mod directory_archive;
pub mod error;
pub mod game_data;
pub mod laws;
pub mod load_laws;
pub mod normalized_path;
pub mod sorted_names;
pub mod vfs;

pub use bsa_archive::{BsaArchive, BsaHeader};
pub use directory_archive::{DirectoryArchive, FoundFile};
pub use error::{ArchiveFault, VfsError};
pub use normalized_path::NormalizedPath;
pub use vfs::{ArchiveSource, FileLocation, Vfs};
