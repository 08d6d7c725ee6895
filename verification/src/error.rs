//! The failures that end a build.

use vstd::prelude::*;

verus! {

/// A failure that ends the build.
#[derive(Debug, Clone, Copy, PartialEq, Eq, Structural)]
pub enum PackerError {
    /// No canvas within the configured maximum holds every rectangle.
    FailedToPacked,
    /// A template output was asked for, but no template path is configured.
    NoTemplateFile,
    /// The sheet could not be encoded in the requested image format.
    Persistence,
    /// The descriptor does not fit the binary form: a path or name is longer
    /// than 255 bytes, or there are more frames than 32 bits count.
    Serialization,
}

impl PackerError {
    /// The text shown to the user for this failure.
    pub open spec fn message_text(self) -> Seq<char> {
        match self {
            PackerError::FailedToPacked => "Failed to packed an image."@,
            PackerError::NoTemplateFile => "No template file has been configured."@,
            PackerError::Persistence => "Failed to encode the sheet image."@,
            PackerError::Serialization => "The atlas does not fit the binary format."@,
        }
    }

    /// The text shown to the user for this failure.
    pub fn message(&self) -> (text: String)
        ensures
            text@ == self.message_text(),
    {
        match self {
            PackerError::FailedToPacked => "Failed to packed an image.".to_owned(),
            PackerError::NoTemplateFile => "No template file has been configured.".to_owned(),
            PackerError::Persistence => "Failed to encode the sheet image.".to_owned(),
            PackerError::Serialization => "The atlas does not fit the binary format.".to_owned(),
        }
    }
}

} // verus!
