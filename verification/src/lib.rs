//! Texture atlas building: rectangle packing into a power-of-two canvas,
//! pixel compositing, the atlas descriptor and its encodings.
//!
//! A build goes one way: the images that discovery found are packed
//! (`packer`), composed into one sheet (`compositor`) and described
//! (`atlas`); the descriptor is then encoded (`output`, `binary`, `text`).
//! Reading folders and files and writing the results is left to the caller.

pub mod asset;
pub mod atlas;
pub mod binary;
pub mod chars;
pub mod compositor;
pub mod config;
pub mod discovery;
pub mod error;
pub mod geometry;
pub mod output;
pub mod packer;
pub mod paths;
pub mod sheet;
pub mod text;
pub mod texture;

pub use atlas::{pack, PackerAtlas};
pub use config::{
    default_allow_normal_output, Config, Features, ImageOptions, OutputExtensionType, OutputType,
    TemplatePath,
};
pub use error::PackerError;
pub use output::{save_output, save_output_from};
