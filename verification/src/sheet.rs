//! Writing the sheet: where it goes, under which extension, and its bytes
//! in the QOI format.

use crate::config::{Config, OutputExtensionType};
use crate::error::PackerError;
use crate::paths::{join, join_paths, replace_extension, with_extension};
use crate::texture::{Texture2D, TextureView};
use vstd::prelude::*;

verus! {

/// The extension of a sheet in the given format.
pub open spec fn format_extension(format: OutputExtensionType) -> Seq<char> {
    match format {
        OutputExtensionType::Png => seq!['p', 'n', 'g'],
        OutputExtensionType::Qoi => seq!['q', 'o', 'i'],
        OutputExtensionType::Jpg => seq!['j', 'p', 'g'],
    }
}

/// Gives the extension of a sheet in the given format.
pub fn sheet_extension(format: OutputExtensionType) -> (ext: &'static str)
    ensures
        ext@ == format_extension(format),
{
    proof {
        reveal_strlit("png");
        reveal_strlit("qoi");
        reveal_strlit("jpg");
        assert("png"@ =~= seq!['p', 'n', 'g']);
        assert("qoi"@ =~= seq!['q', 'o', 'i']);
        assert("jpg"@ =~= seq!['j', 'p', 'g']);
    }
    match format {
        OutputExtensionType::Png => "png",
        OutputExtensionType::Qoi => "qoi",
        OutputExtensionType::Jpg => "jpg",
    }
}

/// The path under which everything of a build is written, each artifact
/// with an extension of its own: the build's name below its output
/// directory.
pub open spec fn base_of(config: Config) -> Seq<char> {
    join(config.output_path@, config.name@)
}

/// Gives the path under which everything of a build is written.
pub fn base_path(config: &Config) -> (path: String)
    ensures
        path@ == base_of(*config),
{
    join_paths(config.output_path.as_str(), config.name.as_str())
}

/// Gives the path of the sheet: the base path with the extension of the
/// sheet's format.
pub fn sheet_path(config: &Config) -> (path: String)
    ensures
        path@ == with_extension(
            base_of(*config),
            format_extension(config.image_options.output_extension),
        ),
{
    let base = base_path(config);
    replace_extension(base.as_str(), sheet_extension(config.image_options.output_extension))
}

/// `rapid_qoi::EncodeError`, the error of the QOI encoder. Nothing is read
/// from it.
#[verifier::external_type_specification]
#[verifier::external_body]
pub struct ExEncodeError(rapid_qoi::EncodeError);

/// What `rapid_qoi::Qoi::encode_alloc` returns for an image of the given
/// size with linear colour and alpha channels and the given bytes: the QOI
/// stream, or `None` where it reports an error.
pub uninterp spec fn qoi_stream(width: u32, height: u32, rgba: Seq<u8>) -> Option<Seq<u8>>;

/// The largest QOI stream of the image, by the encoder's own estimate, is
/// no larger than a buffer can be on this machine.
pub open spec fn qoi_encodable(sheet: TextureView) -> bool {
    sheet.width * sheet.height * 5 + 22 <= isize::MAX
}

/// Calls `rapid_qoi::Qoi::encode_alloc` on a descriptor of the given size
/// with `Colors::Rgba`. The contract gives the result its name, and says
/// that there is a stream: the encoder's one error is a buffer with fewer
/// bytes than the size asks for, which the `requires` keeps out. The
/// `requires` also keeps out the inputs on which the encoder's estimate of
/// the output size, five bytes a pixel and 22 more, would overflow or could
/// not be allocated.
#[verifier::external_body]
fn qoi_encode_alloc(width: u32, height: u32, rgba: &[u8]) -> (r: Result<
    Vec<u8>,
    rapid_qoi::EncodeError,
>)
    requires
        rgba@.len() == width * height * 4,
        width * height * 5 + 22 <= isize::MAX,
    ensures
        r is Ok,
        r matches Ok(stream) ==> qoi_stream(width, height, rgba@) == Some(stream@),
{
    rapid_qoi::Qoi { width, height, colors: rapid_qoi::Colors::Rgba }.encode_alloc(rgba)
}

/// What encoding a sheet as QOI gives: the encoder's stream, where the
/// sheet is small enough for it.
pub open spec fn qoi_of(sheet: TextureView) -> Option<Seq<u8>> {
    if qoi_encodable(sheet) {
        qoi_stream(sheet.width, sheet.height, sheet.data)
    } else {
        None
    }
}

/// Encodes the sheet in the QOI format. Every sheet that is small enough
/// for the encoder is encoded; a larger one gives the failure
/// `Persistence`.
pub fn encode_qoi(sheet: &Texture2D) -> (r: Result<Vec<u8>, PackerError>)
    ensures
        r is Ok <==> qoi_encodable(sheet@),
        match r {
            Ok(stream) => qoi_of(sheet@) == Some(stream@),
            Err(e) => e == PackerError::Persistence,
        },
{
    let width = sheet.width();
    let height = sheet.height();
    assert(0 <= width * height <= 0xffff_ffff * 0xffff_ffff) by (nonlinear_arith)
        requires
            0 <= width <= 0xffff_ffff,
            0 <= height <= 0xffff_ffff,
    ;
    let limit: u128 = (width as u128) * (height as u128) * 5 + 22;
    if limit > isize::MAX as u128 {
        return Err(PackerError::Persistence);
    }
    match qoi_encode_alloc(width, height, sheet.data().as_slice()) {
        Ok(stream) => Ok(stream),
        Err(_) => Err(PackerError::Persistence),
    }
}

} // verus!
