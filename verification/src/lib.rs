//! Reading and assembling the data of a 2002 role-playing game: its textures, its archives and the
//! geometry of its cells, as plain values with proved contracts.

pub mod bytes;
pub mod name_map;
pub mod scene;
pub mod text;
pub mod texture;
pub mod vfs;
