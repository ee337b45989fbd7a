//! Turning content records and models into placed geometry.

pub mod actor;
pub mod actor_laws;
pub mod actor_sheets;
pub mod bits;
pub mod body_laws;
pub mod bounds;
pub mod cell;
pub mod cell_laws;
pub mod claims;
pub mod cell_streamer;
pub mod decimal;
pub mod door;
pub mod drawing_laws;
pub mod emitter_laws;
pub mod flatten;
pub mod forecast;
pub mod geometry_laws;
pub mod influence;
pub mod ini;
pub mod light;
pub mod lightning;
pub mod loaded_cell;
pub mod material;
pub mod material_laws;
pub mod material_table;
pub mod mesh;
pub mod model_index;
pub mod model_laws;
pub mod motion_laws;
pub mod naming_laws;
pub mod nif;
pub mod numbers;
pub mod particle_emitter;
pub mod precipitation;
pub mod rig;
pub mod rig_laws;
pub mod rounding;
pub mod sampling;
pub mod settings_laws;
pub mod sheets;
pub mod skeleton;
pub mod sky_textures;
pub mod static_scene;
pub mod terrain;
pub mod terrain_laws;
pub mod terrain_materials;
pub mod walk;
pub mod weather;
pub mod weather_laws;
pub mod world_laws;

pub use actor::{ActorPart, AssembledActor};
pub use bounds::Bounds;
pub use cell::{CellId, CellRecord, CellRef, Position};
pub use door::Door;
pub use influence::{Influence, INFLUENCES};
pub use ini::Ini;
pub use light::{Ambient, Light};
pub use lightning::{Discharge, Drawing, Lightning};
pub use loaded_cell::LoadedCell;
pub use material::{AlphaMode, Material, MaterialKind, TerrainLayers, TextureId};
pub use material_table::MaterialTable;
pub use mesh::{Mesh, Submesh};
pub use model_index::ModelIndex;
pub use particle_emitter::ParticleEmitter;
pub use precipitation::Falling;
pub use rig::{Bone, Rig};
pub use skeleton::{Channel, NO_PARENT};
pub use sky_textures::{MoonFaces, SkyTextures};
pub use static_scene::{CellDetail, Instance, MeshId, StaticScene};
pub use weather::{Schedule, Weather};
