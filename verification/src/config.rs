//! The build request: what to pack, where to write it and in which forms.

use vstd::prelude::*;

verus! {

/// The templates to render: one, or several in order.
#[derive(Debug, Clone)]
pub enum TemplatePath {
    Single(String),
    Multiple(Vec<String>),
}

/// A structured or binary encoding of the atlas descriptor.
#[derive(Debug, Clone, Copy, PartialEq, Eq, Structural)]
pub enum OutputType {
    Json,
    Binary,
    Ron,
    Toml,
}

impl Default for OutputType {
    fn default() -> (r: Self)
        ensures
            r == OutputType::Json,
    {
        OutputType::Json
    }
}

/// The image format in which the sheet is written.
#[derive(Debug, Clone, Copy, PartialEq, Eq, Structural)]
pub enum OutputExtensionType {
    Png,
    Qoi,
    Jpg,
}

impl Default for OutputExtensionType {
    fn default() -> (r: Self)
        ensures
            r == OutputExtensionType::Png,
    {
        OutputExtensionType::Png
    }
}

/// What becomes of a source that holds several frames.
#[derive(Debug, Clone, Copy, PartialEq, Eq, Structural)]
pub enum MultiFrameMode {
    /// Every frame is packed on its own.
    SeparateFrames,
    /// The frames are tiled into one image, which is packed as a whole.
    SingleSheet,
}

impl Default for MultiFrameMode {
    fn default() -> (r: Self)
        ensures
            r == MultiFrameMode::SeparateFrames,
    {
        MultiFrameMode::SeparateFrames
    }
}

/// How images are named, sized and written.
#[derive(Debug, Clone, Copy, PartialEq, Eq, Structural)]
pub struct ImageOptions {
    /// The format of the sheet.
    pub output_extension: OutputExtensionType,
    /// The largest width and height of the canvas, in pixels.
    pub max_size: usize,
    /// Whether a frame's name keeps the extension of its file.
    pub show_extension: bool,
    /// What becomes of a source with several frames.
    pub multi_frame_mode: MultiFrameMode,
}

impl Default for ImageOptions {
    fn default() -> (r: Self)
        ensures
            r.output_extension == OutputExtensionType::Png,
            r.max_size == 1024,
            r.show_extension,
            r.multi_frame_mode == MultiFrameMode::SeparateFrames,
    {
        ImageOptions {
            output_extension: OutputExtensionType::Png,
            max_size: 1024,
            show_extension: true,
            multi_frame_mode: MultiFrameMode::SeparateFrames,
        }
    }
}

/// The optional parts of a build.
#[derive(Debug, Clone, Copy, PartialEq, Eq, Structural)]
pub struct Features {
    /// Whether nine-patch regions are looked for and written.
    pub nine_patch: bool,
}

impl Default for Features {
    fn default() -> (r: Self)
        ensures
            !r.nine_patch,
    {
        Features { nine_patch: false }
    }
}

/// Whether the encodings of `output_types` are written when the request does
/// not say.
pub fn default_allow_normal_output() -> (r: bool)
    ensures
        r,
{
    true
}

/// A build request.
#[derive(Debug, Clone)]
pub struct Config {
    /// The base name of everything that is written.
    pub name: String,
    /// The directory that is written to.
    pub output_path: String,
    /// The folders that are searched for images, in order.
    pub folders: Vec<String>,
    /// Whether the encodings of `output_types` are written at all.
    pub allow_normal_output: bool,
    /// The templates to render, if any.
    pub template_path: Option<TemplatePath>,
    /// The encodings of the descriptor that are asked for. A kind that is
    /// listed twice is written once.
    pub output_types: Vec<OutputType>,
    pub image_options: ImageOptions,
    pub features: Features,
}

impl Config {
    /// A request with every option at its default: one JSON descriptor, a PNG
    /// sheet of at most 1024 by 1024 pixels, no template, no nine-patch.
    pub fn new(name: String, output_path: String, folders: Vec<String>) -> (config: Config)
        ensures
            config.name == name,
            config.output_path == output_path,
            config.folders == folders,
            config.allow_normal_output,
            config.template_path is None,
            config.output_types@ == seq![OutputType::Json],
            config.image_options.output_extension == OutputExtensionType::Png,
            config.image_options.max_size == 1024,
            config.image_options.show_extension,
            config.image_options.multi_frame_mode == MultiFrameMode::SeparateFrames,
            !config.features.nine_patch,
    {
        let mut output_types: Vec<OutputType> = Vec::new();
        output_types.push(OutputType::default());
        Config {
            name,
            output_path,
            folders,
            allow_normal_output: default_allow_normal_output(),
            template_path: None,
            output_types,
            image_options: ImageOptions::default(),
            features: Features::default(),
        }
    }
}

} // verus!
