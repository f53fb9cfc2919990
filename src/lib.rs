//! Texture atlas generation: packs RGB images into square pages, optionally
//! with wrap-mode padding and per-page or per-entry mip chains.

pub mod math;
pub mod buffer;
pub mod options;
pub mod dilate;
pub mod resize;
pub mod pack;
pub mod layout;
pub mod atlas;
pub mod laws;
pub mod keyed;

pub use buffer::RgbImage;
pub use keyed::texcoords_by_key;
pub use atlas::{create_atlas, Atlas, AtlasDescriptor, AtlasEntry, AtlasError, Texture};
pub use options::{AtlasEntryMipOption, AtlasMipFilter, AtlasMipOption, Texcoord};
