//! The binary form of the descriptor: a stream of little-endian records.
//!
//! ```text
//! u8 length | sheet path (UTF-8) | u32 frame count
//! | per frame: u8 length | name (UTF-8) | u32 x | u32 y | u32 width | u32 height
//!              | with nine-patch: u8 present | if present: u32 x | u32 y | u32 w | u32 h
//! ```
//!
//! Every backslash of a path or name is written as a forward slash. A
//! descriptor with a path or name of more than 255 bytes, or with more
//! frames than 32 bits count, has no binary form: encoding it fails.

use crate::atlas::{AtlasView, FrameView, PackerAtlas, TextureData};
use crate::error::PackerError;
use crate::geometry::Rect;
use crate::text::{lemma_with_slashes_leaves_none, with_slashes, BACKSLASH, SLASH};
use vstd::bytes::{
    lemma_auto_spec_u32_to_from_le_bytes, spec_u32_from_le_bytes, spec_u32_to_le_bytes,
    u32_from_le_bytes, u32_to_le_bytes,
};
use vstd::prelude::*;
use vstd::slice::{slice_subrange, slice_to_vec};
use vstd::utf8::{
    decode_utf8, encode_scalar, encode_utf8, encode_utf8_decode_utf8, encode_utf8_valid_utf8,
    valid_utf8,
};

verus! {

/// Why a byte stream is not a descriptor.
#[derive(Debug, Clone, Copy, PartialEq, Eq, Structural)]
pub enum DecodeError {
    /// The stream ends within a record.
    UnexpectedEnd,
    /// A path or name is not UTF-8.
    InvalidUtf8,
    /// Bytes follow the last frame.
    TrailingBytes,
}

/// The UTF-8 form of the text has at most 255 bytes: their number fits in
/// the one byte that is written before them.
pub open spec fn short_text(text: Seq<char>) -> bool {
    encode_utf8(text).len() <= 255
}

/// The descriptor has a binary form: its sheet path and every name are
/// short texts, and the number of its frames fits in 32 bits.
pub open spec fn encodable(atlas: AtlasView) -> bool {
    &&& short_text(atlas.sheet_path)
    &&& atlas.frames.len() <= u32::MAX
    &&& forall|i: int| 0 <= i < atlas.frames.len() ==> short_text((#[trigger] atlas.frames[i]).name)
}

/// A short path or name as it is written: one byte that holds the number of
/// bytes of its UTF-8 form, then those bytes, with forward slashes.
pub open spec fn string_record(text: Seq<char>) -> Seq<u8> {
    seq![encode_utf8(text).len() as u8] + with_slashes(encode_utf8(text))
}

/// A path or name is written with forward slashes: after the byte of its
/// length its record holds no backslash.
pub proof fn lemma_string_record_slashes(text: Seq<char>)
    ensures
        !string_record(text).skip(1).contains(BACKSLASH),
{
    lemma_with_slashes_leaves_none(encode_utf8(text));
    assert(string_record(text).skip(1) =~= with_slashes(encode_utf8(text)));
}

/// A stretch region as it is written.
pub open spec fn region_record(region: Rect) -> Seq<u8> {
    spec_u32_to_le_bytes(region.x) + spec_u32_to_le_bytes(region.y) + spec_u32_to_le_bytes(
        region.w,
    ) + spec_u32_to_le_bytes(region.h)
}

/// What follows a frame's box: nothing where nine-patch is off; else one
/// byte, 1 or 0, and where it is 1 the region.
pub open spec fn nine_patch_record(region: Option<Rect>, nine_patch: bool) -> Seq<u8> {
    if !nine_patch {
        seq![]
    } else {
        match region {
            Some(r) => seq![1u8] + region_record(r),
            None => seq![0u8],
        }
    }
}

/// A frame as it is written.
pub open spec fn frame_record(frame: FrameView, nine_patch: bool) -> Seq<u8> {
    string_record(frame.name) + spec_u32_to_le_bytes(frame.data.x) + spec_u32_to_le_bytes(
        frame.data.y,
    ) + spec_u32_to_le_bytes(frame.data.width) + spec_u32_to_le_bytes(frame.data.height)
        + nine_patch_record(frame.data.nine_patch, nine_patch)
}

/// The frames as they are written, one after the other.
pub open spec fn frame_records(frames: Seq<FrameView>, nine_patch: bool) -> Seq<u8>
    decreases frames.len(),
{
    if frames.len() == 0 {
        seq![]
    } else {
        frame_record(frames[0], nine_patch) + frame_records(frames.drop_first(), nine_patch)
    }
}

/// The binary form of a descriptor that has one: the sheet path, the
/// number of frames in 32 bits, and the frames.
pub open spec fn binary_form(atlas: AtlasView, nine_patch: bool) -> Seq<u8> {
    string_record(atlas.sheet_path) + spec_u32_to_le_bytes(atlas.frames.len() as u32)
        + frame_records(atlas.frames, nine_patch)
}

/// What encoding a descriptor gives: its binary form where it has one, else
/// the failure `Serialization`.
pub open spec fn encoded(atlas: AtlasView, nine_patch: bool) -> Result<Seq<u8>, PackerError> {
    if encodable(atlas) {
        Ok(binary_form(atlas, nine_patch))
    } else {
        Err(PackerError::Serialization)
    }
}

/// What reading gives: a value and the input that is left, or the reason
/// why there is none.
pub type Parsed<T> = Result<(T, Seq<u8>), DecodeError>;

/// `value` was read, and `rest` is left.
pub open spec fn read<T>(value: T, rest: Seq<u8>) -> Parsed<T> {
    Ok((value, rest))
}

/// Nothing was read.
pub open spec fn failed<T>(e: DecodeError) -> Parsed<T> {
    Err(e)
}

/// Reads a path or name from the front of `input`: the text, and what is
/// left of the input.
pub open spec fn parse_string(input: Seq<u8>) -> Parsed<Seq<char>> {
    if input.len() < 1 || input.len() < 1 + input[0] {
        Err(DecodeError::UnexpectedEnd)
    } else {
        let raw = input.subrange(1, 1 + input[0]);
        if valid_utf8(raw) {
            Ok((decode_utf8(raw), input.skip(1 + input[0])))
        } else {
            Err(DecodeError::InvalidUtf8)
        }
    }
}

/// Reads a 32-bit number from the front of `input`.
pub open spec fn parse_u32(input: Seq<u8>) -> Parsed<u32> {
    if input.len() < 4 {
        Err(DecodeError::UnexpectedEnd)
    } else {
        Ok((spec_u32_from_le_bytes(input.subrange(0, 4)), input.skip(4)))
    }
}

/// Reads a stretch region from the front of `input`.
pub open spec fn parse_region(input: Seq<u8>) -> Parsed<Rect> {
    match parse_u32(input) {
        Err(e) => Err(e),
        Ok((x, rest)) => match parse_u32(rest) {
            Err(e) => Err(e),
            Ok((y, rest)) => match parse_u32(rest) {
                Err(e) => Err(e),
                Ok((w, rest)) => match parse_u32(rest) {
                    Err(e) => Err(e),
                    Ok((h, rest)) => Ok((Rect { x, y, w, h }, rest)),
                },
            },
        },
    }
}

/// Reads what follows a frame's box. Any byte but 0 says that a region
/// follows.
pub open spec fn parse_nine_patch(input: Seq<u8>, nine_patch: bool) -> Parsed<Option<Rect>> {
    if !nine_patch {
        Ok((None, input))
    } else if input.len() < 1 {
        Err(DecodeError::UnexpectedEnd)
    } else if input[0] == 0 {
        Ok((None, input.skip(1)))
    } else {
        match parse_region(input.skip(1)) {
            Err(e) => Err(e),
            Ok((region, rest)) => Ok((Some(region), rest)),
        }
    }
}

/// Reads a frame from the front of `input`.
pub open spec fn parse_frame(input: Seq<u8>, nine_patch: bool) -> Parsed<FrameView> {
    match parse_string(input) {
        Err(e) => Err(e),
        Ok((name, rest)) => match parse_region(rest) {
            Err(e) => Err(e),
            Ok((place, rest)) => match parse_nine_patch(rest, nine_patch) {
                Err(e) => Err(e),
                Ok((region, rest)) => Ok(
                    (
                        FrameView {
                            name,
                            data: TextureData {
                                x: place.x,
                                y: place.y,
                                width: place.w,
                                height: place.h,
                                nine_patch: region,
                            },
                        },
                        rest,
                    ),
                ),
            },
        },
    }
}

/// Reads `count` frames from the front of `input` and records each in
/// `atlas`, in order.
pub open spec fn parse_frames(input: Seq<u8>, count: nat, atlas: AtlasView, nine_patch: bool)
    -> Parsed<AtlasView>
    decreases count,
{
    if count == 0 {
        Ok((atlas, input))
    } else {
        match parse_frame(input, nine_patch) {
            Err(e) => Err(e),
            Ok((frame, rest)) => parse_frames(
                rest,
                (count - 1) as nat,
                atlas.insert(frame.name, frame.data),
                nine_patch,
            ),
        }
    }
}

/// The descriptor that a byte stream stands for, or why it stands for none.
pub open spec fn parse_atlas(input: Seq<u8>, nine_patch: bool) -> Result<AtlasView, DecodeError> {
    match parse_string(input) {
        Err(e) => Err(e),
        Ok((sheet_path, rest)) => match parse_u32(rest) {
            Err(e) => Err(e),
            Ok((count, rest)) => whole(
                parse_frames(
                    rest,
                    count as nat,
                    AtlasView { sheet_path, frames: Seq::empty() },
                    nine_patch,
                ),
            ),
        },
    }
}

/// What was read, where no input is left.
pub open spec fn whole(parsed: Parsed<AtlasView>) -> Result<AtlasView, DecodeError> {
    match parsed {
        Err(e) => Err(e),
        Ok((atlas, rest)) => if rest.len() == 0 {
            Ok(atlas)
        } else {
            Err(DecodeError::TrailingBytes)
        },
    }
}

/// Tells whether the UTF-8 form of the text has at most 255 bytes.
fn is_short(text: &str) -> (r: bool)
    ensures
        r == short_text(text@),
{
    text.as_bytes().len() <= 255
}

/// Appends a short path or name.
fn put_string(out: &mut Vec<u8>, text: &str)
    requires
        short_text(text@),
    ensures
        final(out)@ == old(out)@ + string_record(text@),
{
    let bytes = text.as_bytes();
    let n = bytes.len();
    let ghost start = out@;
    out.push(n as u8);
    let mut i: usize = 0;
    while i < n
        invariant
            i <= n,
            n == bytes@.len(),
            bytes@ == encode_utf8(text@),
            out@ == start + seq![n as u8] + with_slashes(bytes@).take(i as int),
        decreases n - i,
    {
        let b = bytes[i];
        out.push(
            if b == BACKSLASH {
                SLASH
            } else {
                b
            },
        );
        assert(with_slashes(bytes@).take(i as int + 1) =~= with_slashes(bytes@).take(i as int).push(
            with_slashes(bytes@)[i as int],
        ));
        i += 1;
    }
    assert(with_slashes(bytes@).take(n as int) =~= with_slashes(bytes@));
    assert(out@ =~= start + string_record(text@));
}

/// Appends a 32-bit number, lowest byte first.
fn put_u32(out: &mut Vec<u8>, value: u32)
    ensures
        final(out)@ == old(out)@ + spec_u32_to_le_bytes(value),
{
    let bytes = u32_to_le_bytes(value);
    let ghost start = out@;
    out.push(bytes[0]);
    out.push(bytes[1]);
    out.push(bytes[2]);
    out.push(bytes[3]);
    assert(out@ =~= start + bytes@);
}

/// Appends a frame.
fn put_frame(out: &mut Vec<u8>, name: &str, data: &TextureData, nine_patch: bool)
    requires
        short_text(name@),
    ensures
        final(out)@ == old(out)@ + frame_record(FrameView { name: name@, data: *data }, nine_patch),
{
    let ghost start = out@;
    let ghost frame = FrameView { name: name@, data: *data };
    put_string(out, name);
    put_u32(out, data.x);
    put_u32(out, data.y);
    put_u32(out, data.width);
    put_u32(out, data.height);
    let ghost boxed = out@;
    if nine_patch {
        match data.nine_patch {
            Some(region) => {
                out.push(1u8);
                put_u32(out, region.x);
                put_u32(out, region.y);
                put_u32(out, region.w);
                put_u32(out, region.h);
                assert(out@ =~= boxed + (seq![1u8] + region_record(region)));
            },
            None => {
                out.push(0u8);
                assert(out@ =~= boxed + seq![0u8]);
            },
        }
    } else {
        assert(out@ =~= boxed + Seq::<u8>::empty());
    }
    assert(out@ =~= start + frame_record(frame, nine_patch));
}

/// Tells whether the descriptor has a binary form.
pub fn is_encodable(atlas: &PackerAtlas) -> (r: bool)
    ensures
        r == encodable(atlas@),
{
    let n = atlas.len();
    if !is_short(atlas.sheet_path()) || n as u64 > u32::MAX as u64 {
        return false;
    }
    let mut i: usize = 0;
    while i < n
        invariant
            i <= n,
            n == atlas@.frames.len(),
            forall|j: int| 0 <= j < i ==> short_text((#[trigger] atlas@.frames[j]).name),
        decreases n - i,
    {
        match atlas.frame(i) {
            Some(entry) => {
                if !is_short(&entry.name) {
                    assert(!short_text(atlas@.frames[i as int].name));
                    return false;
                }
            },
            None => {},
        }
        i += 1;
    }
    true
}

/// Encodes the descriptor in its binary form. With `nine_patch` off, no
/// stretch region is written. A descriptor that has no binary form is not
/// encoded: the call fails, and nothing is to be written.
pub fn encode_binary(atlas: &PackerAtlas, nine_patch: bool) -> (r: Result<Vec<u8>, PackerError>)
    ensures
        match r {
            Ok(out) => encoded(atlas@, nine_patch) == Ok::<_, PackerError>(out@),
            Err(e) => encoded(atlas@, nine_patch) == Err::<Seq<u8>, _>(e),
        },
{
    if !is_encodable(atlas) {
        return Err(PackerError::Serialization);
    }
    let mut out: Vec<u8> = Vec::new();
    put_string(&mut out, atlas.sheet_path());
    let n = atlas.len();
    put_u32(&mut out, n as u32);
    let ghost frames = atlas@.frames;
    let ghost head = out@;
    assert(head =~= string_record(atlas@.sheet_path) + spec_u32_to_le_bytes(frames.len() as u32));
    assert(frames.skip(0) =~= frames);
    let mut i: usize = 0;
    while i < n
        invariant
            i <= n,
            n == frames.len(),
            frames == atlas@.frames,
            encodable(atlas@),
            out@ + frame_records(frames.skip(i as int), nine_patch) == head + frame_records(
                frames,
                nine_patch,
            ),
        decreases n - i,
    {
        let ghost before = out@;
        match atlas.frame(i) {
            Some(entry) => {
                assert(short_text(frames[i as int].name));
                put_frame(&mut out, &entry.name, &entry.data, nine_patch);
                proof {
                    let here = frames.skip(i as int);
                    assert(here[0] == frames[i as int]);
                    assert(here.drop_first() =~= frames.skip(i as int + 1));
                    assert(out@ + frame_records(frames.skip(i as int + 1), nine_patch) =~= before
                        + frame_records(here, nine_patch));
                }
            },
            None => {},
        }
        i += 1;
    }
    assert(frames.skip(n as int) =~= Seq::<FrameView>::empty());
    assert(out@ =~= out@ + frame_records(frames.skip(n as int), nine_patch));
    Ok(out)
}

/// Calls `String::from_utf8` of the standard library, which gives the text
/// where the bytes are UTF-8 and an error where they are not.
#[verifier::external_body]
fn string_from_utf8(bytes: Vec<u8>) -> (r: Option<String>)
    ensures
        r is Some <==> valid_utf8(bytes@),
        r matches Some(text) ==> text@ == decode_utf8(bytes@),
{
    String::from_utf8(bytes).ok()
}

/// Reads a path or name at `pos`.
fn take_string(bytes: &[u8], pos: usize) -> (r: Result<(String, usize), DecodeError>)
    requires
        pos <= bytes@.len(),
    ensures
        match r {
            Ok((text, next)) => next <= bytes@.len() && parse_string(bytes@.skip(pos as int))
                == read(text@, bytes@.skip(next as int)),
            Err(e) => parse_string(bytes@.skip(pos as int)) == failed::<Seq<char>>(e),
        },
{
    let ghost input = bytes@.skip(pos as int);
    if pos >= bytes.len() {
        return Err(DecodeError::UnexpectedEnd);
    }
    let n = bytes[pos] as usize;
    assert(input[0] == bytes@[pos as int]);
    if n > bytes.len() - pos - 1 {
        return Err(DecodeError::UnexpectedEnd);
    }
    let raw = slice_to_vec(slice_subrange(bytes, pos + 1, pos + 1 + n));
    assert(raw@ =~= input.subrange(1, 1 + input[0]));
    assert(input.skip(1 + input[0]) =~= bytes@.skip(pos + 1 + n));
    match string_from_utf8(raw) {
        Some(text) => Ok((text, pos + 1 + n)),
        None => Err(DecodeError::InvalidUtf8),
    }
}

/// Reads a 32-bit number at `pos`.
fn take_u32(bytes: &[u8], pos: usize) -> (r: Result<(u32, usize), DecodeError>)
    requires
        pos <= bytes@.len(),
    ensures
        match r {
            Ok((value, next)) => next <= bytes@.len() && parse_u32(bytes@.skip(pos as int))
                == read(value, bytes@.skip(next as int)),
            Err(e) => parse_u32(bytes@.skip(pos as int)) == failed::<u32>(e),
        },
{
    let ghost input = bytes@.skip(pos as int);
    if bytes.len() - pos < 4 {
        return Err(DecodeError::UnexpectedEnd);
    }
    let value = u32_from_le_bytes(slice_subrange(bytes, pos, pos + 4));
    assert(bytes@.subrange(pos as int, pos + 4) =~= input.subrange(0, 4));
    assert(input.skip(4) =~= bytes@.skip(pos + 4));
    Ok((value, pos + 4))
}

/// Reads a stretch region at `pos`.
fn take_region(bytes: &[u8], pos: usize) -> (r: Result<(Rect, usize), DecodeError>)
    requires
        pos <= bytes@.len(),
    ensures
        match r {
            Ok((region, next)) => next <= bytes@.len() && parse_region(bytes@.skip(pos as int))
                == read(region, bytes@.skip(next as int)),
            Err(e) => parse_region(bytes@.skip(pos as int)) == failed::<Rect>(e),
        },
{
    let (x, pos) = match take_u32(bytes, pos) {
        Ok(read) => read,
        Err(e) => {
            return Err(e);
        },
    };
    let (y, pos) = match take_u32(bytes, pos) {
        Ok(read) => read,
        Err(e) => {
            return Err(e);
        },
    };
    let (w, pos) = match take_u32(bytes, pos) {
        Ok(read) => read,
        Err(e) => {
            return Err(e);
        },
    };
    let (h, pos) = match take_u32(bytes, pos) {
        Ok(read) => read,
        Err(e) => {
            return Err(e);
        },
    };
    Ok((Rect { x, y, w, h }, pos))
}

/// Reads what follows a frame's box at `pos`.
fn take_nine_patch(bytes: &[u8], pos: usize, nine_patch: bool) -> (r: Result<
    (Option<Rect>, usize),
    DecodeError,
>)
    requires
        pos <= bytes@.len(),
    ensures
        match r {
            Ok((region, next)) => next <= bytes@.len() && parse_nine_patch(
                bytes@.skip(pos as int),
                nine_patch,
            ) == read(region, bytes@.skip(next as int)),
            Err(e) => parse_nine_patch(bytes@.skip(pos as int), nine_patch) == failed::<
                Option<Rect>,
            >(e),
        },
{
    let ghost input = bytes@.skip(pos as int);
    if !nine_patch {
        return Ok((None, pos));
    }
    if pos >= bytes.len() {
        return Err(DecodeError::UnexpectedEnd);
    }
    assert(input[0] == bytes@[pos as int]);
    assert(input.skip(1) =~= bytes@.skip(pos + 1));
    if bytes[pos] == 0 {
        return Ok((None, pos + 1));
    }
    match take_region(bytes, pos + 1) {
        Ok((region, next)) => Ok((Some(region), next)),
        Err(e) => Err(e),
    }
}

/// Decodes a descriptor from its binary form. The stream must have been
/// written with the same `nine_patch`. Frames are recorded in the order of
/// the stream; of two frames with one name the later stays.
pub fn decode_binary(bytes: &[u8], nine_patch: bool) -> (r: Result<PackerAtlas, DecodeError>)
    ensures
        match r {
            Ok(atlas) => parse_atlas(bytes@, nine_patch) == Ok::<_, DecodeError>(atlas@),
            Err(e) => parse_atlas(bytes@, nine_patch) == Err::<AtlasView, _>(e),
        },
        r matches Ok(atlas) ==> atlas@.distinct(),
{
    assert(bytes@.skip(0) =~= bytes@);
    let (sheet_path, pos) = match take_string(bytes, 0) {
        Ok(read) => read,
        Err(e) => {
            return Err(e);
        },
    };
    let (count, pos) = match take_u32(bytes, pos) {
        Ok(read) => read,
        Err(e) => {
            return Err(e);
        },
    };
    let mut atlas = PackerAtlas::default();
    atlas.add_sheet_path(sheet_path.as_str());
    assert(atlas@.frames =~= Seq::<FrameView>::empty());
    let mut pos = pos;
    let mut left: u32 = count;
    while left > 0
        invariant
            pos <= bytes@.len(),
            atlas@.distinct(),
            parse_atlas(bytes@, nine_patch) == whole(
                parse_frames(bytes@.skip(pos as int), left as nat, atlas@, nine_patch),
            ),
        decreases left,
    {
        let (name, next) = match take_string(bytes, pos) {
            Ok(read) => read,
            Err(e) => {
                return Err(e);
            },
        };
        let (place, next) = match take_region(bytes, next) {
            Ok(read) => read,
            Err(e) => {
                return Err(e);
            },
        };
        let (region, next) = match take_nine_patch(bytes, next, nine_patch) {
            Ok(read) => read,
            Err(e) => {
                return Err(e);
            },
        };
        atlas.add(name.as_str(), place.x, place.y, place.w, place.h, region);
        pos = next;
        left -= 1;
    }
    if pos == bytes.len() {
        assert(bytes@.skip(pos as int).len() == 0);
        Ok(atlas)
    } else {
        assert(bytes@.skip(pos as int).len() != 0);
        Err(DecodeError::TrailingBytes)
    }
}

/// A short text without backslashes: it is read back as it was written.
pub open spec fn portable_text(text: Seq<char>) -> bool {
    short_text(text) && !text.contains('\\')
}

/// The sheet path and the names of the descriptor hold no backslash.
pub open spec fn slash_free(atlas: AtlasView) -> bool {
    &&& !atlas.sheet_path.contains('\\')
    &&& forall|i: int|
        0 <= i < atlas.frames.len() ==> !(#[trigger] atlas.frames[i]).name.contains('\\')
}

/// Every stretch region of the descriptor is written: nine-patch is on, or
/// the descriptor holds no region.
pub open spec fn keeps_regions(atlas: AtlasView, nine_patch: bool) -> bool {
    nine_patch || forall|i: int|
        0 <= i < atlas.frames.len() ==> (#[trigger] atlas.frames[i]).data.nine_patch is None
}

/// A descriptor that has a binary form and is read back from it as it was
/// written.
pub open spec fn portable(atlas: AtlasView, nine_patch: bool) -> bool {
    &&& atlas.distinct()
    &&& encodable(atlas)
    &&& slash_free(atlas)
    &&& keeps_regions(atlas, nine_patch)
}

/// The UTF-8 form of a character other than the backslash holds no
/// backslash byte.
proof fn lemma_scalar_without_backslash(c: char)
    requires
        c != '\\',
    ensures
        forall|i: int|
            0 <= i < encode_scalar(c as u32).len() ==> #[trigger] encode_scalar(c as u32)[i]
                != BACKSLASH,
{
    let v = c as u32;
    assert(v != 0x5c);
    assert(v <= 0x7f ==> (v & 0x7f) as u8 != 0x5cu8) by (bit_vector)
        requires
            v != 0x5c,
    ;
    assert((0xC0u8 | ((v >> 6) & 0x1F) as u8) != 0x5cu8) by (bit_vector);
    assert((0xE0u8 | ((v >> 12) & 0x0F) as u8) != 0x5cu8) by (bit_vector);
    assert((0xF0u8 | ((v >> 18) & 0x7) as u8) != 0x5cu8) by (bit_vector);
    assert((0x80u8 | (v & 0x3F) as u8) != 0x5cu8) by (bit_vector);
    assert((0x80u8 | ((v >> 6) & 0x3F) as u8) != 0x5cu8) by (bit_vector);
    assert((0x80u8 | ((v >> 12) & 0x3F) as u8) != 0x5cu8) by (bit_vector);
}

/// The UTF-8 form of a text without backslashes holds no backslash byte, so
/// that writing it with forward slashes changes nothing.
pub proof fn lemma_slashes_keep_portable_text(text: Seq<char>)
    requires
        !text.contains('\\'),
    ensures
        with_slashes(encode_utf8(text)) == encode_utf8(text),
    decreases text.len(),
{
    if text.len() > 0 {
        let rest = text.drop_first();
        assert forall|i: int| 0 <= i < rest.len() implies rest[i] != '\\' by {
            assert(rest[i] == text[i + 1]);
            assert(text.contains(text[i + 1]));
        }
        assert(!rest.contains('\\'));
        lemma_slashes_keep_portable_text(rest);
        assert(text.contains(text[0]));
        lemma_scalar_without_backslash(text[0]);
        let head = encode_scalar(text[0] as u32);
        let tail = encode_utf8(rest);
        assert(with_slashes(head) =~= head);
        assert(with_slashes(head + tail) =~= with_slashes(head) + with_slashes(tail));
    }
    assert(with_slashes(encode_utf8(text)) =~= encode_utf8(text));
}

/// A portable text is read back as it was written.
pub proof fn lemma_parse_string_record(text: Seq<char>, rest: Seq<u8>)
    requires
        portable_text(text),
    ensures
        parse_string(string_record(text) + rest) == read(text, rest),
{
    let bytes = encode_utf8(text);
    let input = string_record(text) + rest;
    lemma_slashes_keep_portable_text(text);
    encode_utf8_valid_utf8(text);
    encode_utf8_decode_utf8(text);
    assert(input[0] == bytes.len());
    assert(input.subrange(1, 1 + input[0]) =~= bytes);
    assert(input.skip(1 + input[0]) =~= rest);
}

/// A number is read back as it was written.
pub proof fn lemma_parse_u32_record(value: u32, rest: Seq<u8>)
    ensures
        parse_u32(spec_u32_to_le_bytes(value) + rest) == read(value, rest),
{
    lemma_auto_spec_u32_to_from_le_bytes();
    let input = spec_u32_to_le_bytes(value) + rest;
    assert(input.subrange(0, 4) =~= spec_u32_to_le_bytes(value));
    assert(input.skip(4) =~= rest);
}

/// A stretch region is read back as it was written.
pub proof fn lemma_parse_region_record(region: Rect, rest: Seq<u8>)
    ensures
        parse_region(region_record(region) + rest) == read(region, rest),
{
    let x = spec_u32_to_le_bytes(region.x);
    let y = spec_u32_to_le_bytes(region.y);
    let w = spec_u32_to_le_bytes(region.w);
    let h = spec_u32_to_le_bytes(region.h);
    assert(region_record(region) + rest =~= x + (y + (w + (h + rest))));
    lemma_parse_u32_record(region.x, y + (w + (h + rest)));
    lemma_parse_u32_record(region.y, w + (h + rest));
    lemma_parse_u32_record(region.w, h + rest);
    lemma_parse_u32_record(region.h, rest);
}

/// A frame is read back as it was written, where its name is portable and,
/// with nine-patch off, it has no stretch region.
pub proof fn lemma_parse_frame_record(frame: FrameView, nine_patch: bool, rest: Seq<u8>)
    requires
        portable_text(frame.name),
        nine_patch || frame.data.nine_patch is None,
    ensures
        parse_frame(frame_record(frame, nine_patch) + rest, nine_patch) == read(frame, rest),
{
    let data = frame.data;
    let place = Rect { x: data.x, y: data.y, w: data.width, h: data.height };
    let tail = nine_patch_record(data.nine_patch, nine_patch);
    assert(frame_record(frame, nine_patch) + rest =~= string_record(frame.name) + (region_record(
        place,
    ) + (tail + rest)));
    lemma_parse_string_record(frame.name, region_record(place) + (tail + rest));
    lemma_parse_region_record(place, tail + rest);
    if nine_patch {
        match data.nine_patch {
            Some(region) => {
                assert((tail + rest)[0] == 1u8);
                assert((tail + rest).skip(1) =~= region_record(region) + rest);
                lemma_parse_region_record(region, rest);
            },
            None => {
                assert((tail + rest)[0] == 0u8);
                assert((tail + rest).skip(1) =~= rest);
            },
        }
    } else {
        assert(tail + rest =~= rest);
    }
}

/// Reading the frames from `done` on, into a descriptor that holds the
/// frames before `done`, gives the whole descriptor.
proof fn lemma_parse_frame_records(atlas: AtlasView, nine_patch: bool, done: int)
    requires
        portable(atlas, nine_patch),
        0 <= done <= atlas.frames.len(),
    ensures
        parse_frames(
            frame_records(atlas.frames.skip(done), nine_patch),
            (atlas.frames.len() - done) as nat,
            AtlasView { frames: atlas.frames.take(done), ..atlas },
            nine_patch,
        ) == read(atlas, Seq::<u8>::empty()),
    decreases atlas.frames.len() - done,
{
    let frames = atlas.frames;
    let so_far = AtlasView { frames: frames.take(done), ..atlas };
    if done == frames.len() {
        assert(frames.take(done) =~= frames);
        assert(frames.skip(done) =~= Seq::<FrameView>::empty());
    } else {
        let here = frames.skip(done);
        let frame = frames[done];
        assert(here[0] == frame);
        assert(here.drop_first() =~= frames.skip(done + 1));
        lemma_parse_frame_record(frame, nine_patch, frame_records(frames.skip(done + 1), nine_patch));
        assert(!so_far.has(frame.name)) by {
            if so_far.has(frame.name) {
                let i = so_far.index_of(frame.name);
                assert(frames[i].name == frames[done].name);
            }
        }
        assert(so_far.insert(frame.name, frame.data).frames =~= frames.take(done + 1));
        lemma_parse_frame_records(atlas, nine_patch, done + 1);
    }
}

/// Round trip: whatever is encoded is read back as it was. For a
/// descriptor without backslashes in its path and names, and without
/// stretch regions where nine-patch is off, the bytes that encoding gives
/// decode to that descriptor: the same sheet path, and the same frames with
/// the same boxes and stretch regions, in the same order.
pub proof fn lemma_binary_round_trip(atlas: AtlasView, nine_patch: bool)
    requires
        atlas.distinct(),
        slash_free(atlas),
        keeps_regions(atlas, nine_patch),
    ensures
        encoded(atlas, nine_patch) matches Ok(bytes) ==> parse_atlas(bytes, nine_patch) == Ok::<
            _,
            DecodeError,
        >(atlas),
{
    if encodable(atlas) {
        let count = atlas.frames.len() as u32;
        let records = frame_records(atlas.frames, nine_patch);
        assert(binary_form(atlas, nine_patch) =~= string_record(atlas.sheet_path) + (
        spec_u32_to_le_bytes(count) + records));
        lemma_parse_string_record(atlas.sheet_path, spec_u32_to_le_bytes(count) + records);
        lemma_parse_u32_record(count, records);
        assert(atlas.frames.skip(0) =~= atlas.frames);
        assert(atlas.frames.take(0) =~= Seq::<FrameView>::empty());
        lemma_parse_frame_records(atlas, nine_patch, 0);
    }
}

} // verus!
