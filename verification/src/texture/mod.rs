//! Textures: what their bytes mean, how a file decodes to one, and how one is looked at.

pub mod dds;
pub mod error;
pub mod format;
pub mod laws;
pub mod mips;
pub mod refusal_laws;
pub mod rgba8;
pub mod shading_map;
pub mod texel_laws;
pub mod texture;
pub mod tga;

pub use error::TextureError;
pub use format::{MipLevel, TextureFormat};
pub use texture::{Texture, TextureModel};
