//! The rules of asset discovery: which files are looked at, what a frame is
//! called, where a stretch region is looked for, and what becomes of a
//! source that holds several frames. Walking folders and decoding files is
//! the caller's part; what it finds is judged here.

use crate::asset::{sizes_of, ImageTexture};
use crate::chars::{chars_of, text_of};
use crate::compositor::{clear, compose, covered, shows};
use crate::config::MultiFrameMode;
use crate::geometry::{Placement, Rect};
use crate::packer::Layout;
use crate::paths::{
    extension, extension_of, forward, forward_chars, lemma_extension_dot,
    lemma_forward_has_no_backslash, lemma_part_lacks,
    relative_chars, relative_to,
    replace_extension, with_extension, with_extension_chars, without_dot_slash,
    without_dot_slash_chars, without_extension,
};
use crate::texture::Texture2D;
use vstd::arithmetic::div_mod::{
    lemma_div_is_ordered, lemma_div_plus_one, lemma_fundamental_div_mod, lemma_mod_bound,
};
use vstd::prelude::*;

verus! {

/// What a file is to the build.
#[derive(Debug, Clone, Copy, PartialEq, Eq, Structural)]
pub enum FileKind {
    /// An image of one frame.
    Image,
    /// A container that may hold several frames.
    Container,
    /// Not looked at.
    Ignored,
}

/// The extension of the images that are recognized.
pub open spec fn image_extension() -> Seq<char> {
    seq!['p', 'n', 'g']
}

/// What a file is: an image where its extension is `png`, a container where
/// its extension is one of `containers`, else ignored. With no container
/// support, `containers` is empty.
pub open spec fn kind_of(path: Seq<char>, containers: Seq<Seq<char>>) -> FileKind {
    match extension(path) {
        Some(ext) => if ext == image_extension() {
            FileKind::Image
        } else if containers.contains(ext) {
            FileKind::Container
        } else {
            FileKind::Ignored
        },
        None => FileKind::Ignored,
    }
}

/// Tells what a file is to the build.
pub fn classify(path: &str, containers: &Vec<String>) -> (kind: FileKind)
    ensures
        kind == kind_of(path@, containers@.map_values(|s: String| s@)),
{
    let ghost listed = containers@.map_values(|s: String| s@);
    let ext = match extension_of(path) {
        Some(ext) => ext,
        None => {
            return FileKind::Ignored;
        },
    };
    let png = "png".to_owned();
    proof {
        reveal_strlit("png");
        assert("png"@ =~= image_extension());
    }
    if ext == png {
        return FileKind::Image;
    }
    let mut i: usize = 0;
    while i < containers.len()
        invariant
            i <= containers@.len(),
            listed == containers@.map_values(|s: String| s@),
            extension(path@) == Some(ext@),
            ext@ != image_extension(),
            forall|j: int| 0 <= j < i ==> listed[j] != ext@,
        decreases containers@.len() - i,
    {
        if containers[i] == ext {
            assert(listed[i as int] == ext@);
            assert(listed.contains(ext@));
            return FileKind::Container;
        }
        i += 1;
    }
    assert(!listed.contains(ext@));
    FileKind::Ignored
}

/// The logical name of a file found below a search folder: its path as seen
/// from the folder, with forward slashes, without a leading `./`, and
/// without its extension unless `keep_extension` is set.
pub open spec fn logical(root: Seq<char>, path: Seq<char>, keep_extension: bool) -> Seq<char> {
    let name = without_dot_slash(relative_to(forward(path), forward(root)));
    if keep_extension {
        name
    } else {
        without_extension(name)
    }
}

/// A logical name holds no backslash.
pub proof fn lemma_logical_has_no_backslash(
    root: Seq<char>,
    path: Seq<char>,
    keep_extension: bool,
)
    ensures
        !logical(root, path, keep_extension).contains('\\'),
{
    let from = forward(path);
    let relative = relative_to(from, forward(root));
    let short = without_dot_slash(relative);
    lemma_forward_has_no_backslash(path);
    assert(relative =~= from.subrange(from.len() - relative.len(), from.len() as int));
    lemma_part_lacks(from, relative, from.len() - relative.len(), '\\');
    assert(short =~= relative.subrange(relative.len() - short.len(), relative.len() as int));
    lemma_part_lacks(relative, short, relative.len() - short.len(), '\\');
    if !keep_extension {
        lemma_extension_dot(short);
        lemma_part_lacks(short, without_extension(short), 0, '\\');
    }
}

/// Gives the logical name of a file found below a search folder.
pub fn logical_name(root: &str, path: &str, keep_extension: bool) -> (name: String)
    ensures
        name@ == logical(root@, path@, keep_extension),
{
    let root_chars = forward_chars(&chars_of(root));
    let path_chars = forward_chars(&chars_of(path));
    let relative = relative_chars(&path_chars, &root_chars);
    let name = without_dot_slash_chars(&relative);
    if keep_extension {
        text_of(&name)
    } else {
        let none: Vec<char> = Vec::new();
        let stripped = with_extension_chars(&name, &none);
        text_of(&stripped)
    }
}

/// Where the stretch region of an image is looked for: beside the image,
/// under its name with the extension `json`, and failing that `ron`.
pub open spec fn sidecars(path: Seq<char>) -> (Seq<char>, Seq<char>) {
    (with_extension(path, seq!['j', 's', 'o', 'n']), with_extension(path, seq!['r', 'o', 'n']))
}

/// Gives the two places where the stretch region of an image is looked for,
/// the first to be tried first.
pub fn sidecar_paths(path: &str) -> (r: (String, String))
    ensures
        (r.0@, r.1@) == sidecars(path@),
{
    proof {
        reveal_strlit("json");
        reveal_strlit("ron");
        assert("json"@ =~= seq!['j', 's', 'o', 'n']);
        assert("ron"@ =~= seq!['r', 'o', 'n']);
    }
    (replace_extension(path, "json"), replace_extension(path, "ron"))
}

/// What was found at one of the places where a stretch region is looked
/// for.
#[derive(Debug, Clone, Copy, PartialEq, Eq, Structural)]
pub enum Sidecar {
    /// No file could be read there.
    Missing,
    /// A file was read, and it does not hold a region.
    Malformed,
    /// A file was read, and it holds this region.
    Region(Rect),
}

/// The region that the two places give: what the first holds where a file
/// was read there, whether or not it holds a region; what the second holds
/// only where nothing could be read at the first.
pub open spec fn found_region(json: Sidecar, ron: Sidecar) -> Option<Rect> {
    match json {
        Sidecar::Region(region) => Some(region),
        Sidecar::Malformed => None,
        Sidecar::Missing => match ron {
            Sidecar::Region(region) => Some(region),
            _ => None,
        },
    }
}

/// Settles which region was found beside an image. Nothing that was or was
/// not found is an error.
pub fn choose_region(json: Sidecar, ron: Sidecar) -> (r: Option<Rect>)
    ensures
        r == found_region(json, ron),
{
    match json {
        Sidecar::Region(region) => Some(region),
        Sidecar::Malformed => None,
        Sidecar::Missing => match ron {
            Sidecar::Region(region) => Some(region),
            _ => None,
        },
    }
}

/// The stretch region of an image of the given size: the region that was
/// found beside it, where the feature is on and the region lies within the
/// image; else none.
pub open spec fn resolved(enabled: bool, found: Option<Rect>, width: u32, height: u32) -> Option<
    Rect,
> {
    match found {
        Some(region) => if enabled && region.fits(width, height) {
            Some(region)
        } else {
            None
        },
        None => None,
    }
}

/// Settles the stretch region of an image. A region that is missing, that
/// could not be read or that does not lie within the image is no error:
/// the image then has none.
pub fn resolve_nine_patch(enabled: bool, found: Option<Rect>, width: u32, height: u32) -> (r:
    Option<Rect>)
    ensures
        r == resolved(enabled, found, width, height),
        r matches Some(region) ==> region.fits(width, height),
{
    match found {
        Some(region) => if enabled && region.fits_within(width, height) {
            Some(region)
        } else {
            None
        },
        None => None,
    }
}

/// The character of a decimal digit.
pub open spec fn digit(d: int) -> char {
    if d == 0 {
        '0'
    } else if d == 1 {
        '1'
    } else if d == 2 {
        '2'
    } else if d == 3 {
        '3'
    } else if d == 4 {
        '4'
    } else if d == 5 {
        '5'
    } else if d == 6 {
        '6'
    } else if d == 7 {
        '7'
    } else if d == 8 {
        '8'
    } else {
        '9'
    }
}

/// The number in decimal, without leading zeros.
pub open spec fn decimal(n: nat) -> Seq<char>
    decreases n,
{
    if n < 10 {
        seq![digit(n as int)]
    } else {
        decimal(n / 10).push(digit((n % 10) as int))
    }
}

/// The name of frame `index` of a source called `base`: the base, a `/`, and
/// the index in decimal.
pub open spec fn frame_label(base: Seq<char>, index: nat) -> Seq<char> {
    base + seq!['/'] + decimal(index)
}

/// The character of a decimal digit.
fn digit_char(d: usize) -> (c: char)
    requires
        d < 10,
    ensures
        c == digit(d as int),
{
    if d == 0 {
        '0'
    } else if d == 1 {
        '1'
    } else if d == 2 {
        '2'
    } else if d == 3 {
        '3'
    } else if d == 4 {
        '4'
    } else if d == 5 {
        '5'
    } else if d == 6 {
        '6'
    } else if d == 7 {
        '7'
    } else if d == 8 {
        '8'
    } else {
        '9'
    }
}

/// Appends the number in decimal.
fn push_decimal(out: &mut Vec<char>, n: usize)
    ensures
        final(out)@ == old(out)@ + decimal(n as nat),
    decreases n,
{
    if n < 10 {
        let ghost start = out@;
        out.push(digit_char(n));
        assert(out@ =~= start + decimal(n as nat));
    } else {
        let ghost start = out@;
        push_decimal(out, n / 10);
        out.push(digit_char(n % 10));
        assert(out@ =~= start + decimal(n as nat));
    }
}

/// Gives the name of frame `index` of a source called `base`.
pub fn frame_name(base: &str, index: usize) -> (name: String)
    ensures
        name@ == frame_label(base@, index as nat),
{
    let mut chars = chars_of(base);
    chars.push('/');
    push_decimal(&mut chars, index);
    text_of(&chars)
}

/// The number of columns in which `n` frames are tiled.
pub open spec fn tile_columns(n: int) -> int {
    if n < 4 {
        n / 2
    } else {
        n / 4
    }
}

/// The number of rows that `n` tiled frames take.
pub open spec fn tile_rows(n: int) -> int {
    (n + tile_columns(n) - 1) / tile_columns(n)
}

/// The cell of frame `index` among `n` tiled frames of the given size: the
/// frames fill a row from the left, `tile_columns(n)` to a row, row after
/// row.
pub open spec fn tile_slot(n: int, index: int, width: u32, height: u32) -> Placement {
    Placement {
        x: ((index % tile_columns(n)) * width) as u32,
        y: ((index / tile_columns(n)) * height) as u32,
        width,
        height,
    }
}

/// The cells of `n` tiled frames, in order.
pub open spec fn tile_slots(n: int, width: u32, height: u32) -> Seq<Placement> {
    Seq::new(n as nat, |i: int| tile_slot(n, i, width, height))
}

/// The frames can be tiled: there are at least two, all of one size, and
/// the sheet of all the cells has a width and a height that fit in 32 bits
/// and is no larger than a buffer can be on this machine.
pub open spec fn tileable(frames: Seq<ImageTexture>) -> bool {
    let n = frames.len() as int;
    &&& n >= 2
    &&& forall|i: int| 0 <= i < n ==> (#[trigger] frames[i])@.size() == frames[0]@.size()
    &&& tile_columns(n) * frames[0]@.img.width <= u32::MAX
    &&& tile_rows(n) * frames[0]@.img.height <= u32::MAX
    &&& (tile_columns(n) * frames[0]@.img.width) * (tile_rows(n) * frames[0]@.img.height) * 4
        <= isize::MAX
}

/// Two or more frames are tiled in at least one column, and every frame has
/// a cell in one of the rows.
proof fn lemma_tile_grid(n: int, index: int)
    requires
        n >= 2,
        0 <= index < n,
    ensures
        1 <= tile_columns(n) <= n,
        1 <= tile_rows(n),
        0 <= index % tile_columns(n) < tile_columns(n),
        0 <= index / tile_columns(n) < tile_rows(n),
        index == (index / tile_columns(n)) * tile_columns(n) + index % tile_columns(n),
{
    let c = tile_columns(n);
    assert(1 <= c <= n);
    lemma_mod_bound(index, c);
    lemma_fundamental_div_mod(index, c);
    assert(c * (index / c) == (index / c) * c) by (nonlinear_arith);
    lemma_div_is_ordered(index, n - 1, c);
    lemma_div_plus_one(n - 1, c);
    assert((n + c - 1) == (c + (n - 1)));
    lemma_div_is_ordered(0, index, c);
    assert(0int / c == 0) by (nonlinear_arith)
        requires
            c >= 1,
    ;
}

/// The cell of a frame ends within the sheet.
proof fn lemma_tile_cell_bounds(n: int, i: int, width: u32, height: u32)
    requires
        n >= 2,
        0 <= i < n,
    ensures
        0 <= (i % tile_columns(n)) * width,
        0 <= (i / tile_columns(n)) * height,
        (i % tile_columns(n)) * width + width <= tile_columns(n) * width,
        (i / tile_columns(n)) * height + height <= tile_rows(n) * height,
{
    let c = tile_columns(n);
    let r = tile_rows(n);
    lemma_tile_grid(n, i);
    let col = i % c;
    let row = i / c;
    assert(col * width + width <= c * width) by (nonlinear_arith)
        requires
            0 <= col < c,
            0 <= width,
    ;
    assert(row * height + height <= r * height) by (nonlinear_arith)
        requires
            0 <= row < r,
            0 <= height,
    ;
    assert(0 <= col * width) by (nonlinear_arith)
        requires
            0 <= col,
            0 <= width,
    ;
    assert(0 <= row * height) by (nonlinear_arith)
        requires
            0 <= row,
            0 <= height,
    ;
}

/// The cells of tiled frames lie within the sheet, and any two of them lie
/// apart.
proof fn lemma_tile_cells(n: int, width: u32, height: u32)
    requires
        n >= 2,
        tile_columns(n) * width <= u32::MAX,
        tile_rows(n) * height <= u32::MAX,
    ensures
        forall|i: int|
            0 <= i < n ==> (#[trigger] tile_slots(n, width, height)[i]).inside(
                tile_columns(n) * width,
                tile_rows(n) * height,
            ),
        forall|i: int, j: int|
            0 <= i < n && 0 <= j < n && i != j ==> (#[trigger] tile_slots(
                n,
                width,
                height,
            )[i]).apart(#[trigger] tile_slots(n, width, height)[j]),
{
    let c = tile_columns(n);
    let r = tile_rows(n);
    let slots = tile_slots(n, width, height);
    assert forall|i: int| 0 <= i < n implies (#[trigger] slots[i]).inside(c * width, r * height) by {
        lemma_tile_cell_bounds(n, i, width, height);
    }
    assert forall|i: int, j: int| 0 <= i < n && 0 <= j < n && i != j implies (
    #[trigger] slots[i]).apart(#[trigger] slots[j]) by {
        lemma_tile_grid(n, i);
        lemma_tile_grid(n, j);
        lemma_tile_cell_bounds(n, i, width, height);
        lemma_tile_cell_bounds(n, j, width, height);
        let (ci, ri, cj, rj) = (i % c, i / c, j % c, j / c);
        if ri != rj {
            if ri < rj {
                assert(ri * height + height <= rj * height) by (nonlinear_arith)
                    requires
                        ri + 1 <= rj,
                        0 <= height,
                ;
            } else {
                assert(rj * height + height <= ri * height) by (nonlinear_arith)
                    requires
                        rj + 1 <= ri,
                        0 <= height,
                ;
            }
        } else {
            assert(ci != cj);
            if ci < cj {
                assert(ci * width + width <= cj * width) by (nonlinear_arith)
                    requires
                        ci + 1 <= cj,
                        0 <= width,
                ;
            } else {
                assert(cj * width + width <= ci * width) by (nonlinear_arith)
                    requires
                        cj + 1 <= ci,
                        0 <= width,
                ;
            }
        }
    }
}

/// Tiles the frames of one source into a single sheet: transparent, with
/// every frame copied into its cell, pixel for pixel. `None` where the
/// frames cannot be tiled.
pub fn tile(frames: &Vec<ImageTexture>) -> (r: Option<Texture2D>)
    ensures
        r is Some <==> tileable(frames@),
        r matches Some(sheet) ==> {
            &&& sheet@.wf()
            &&& sheet@.width == tile_columns(frames@.len() as int) * frames@[0]@.img.width
            &&& sheet@.height == tile_rows(frames@.len() as int) * frames@[0]@.img.height
            &&& shows(
                sheet@,
                tile_slots(
                    frames@.len() as int,
                    frames@[0]@.img.width,
                    frames@[0]@.img.height,
                ),
                frames@,
                frames@.len() as int,
            )
        },
{
    let n = frames.len();
    if n < 2 {
        return None;
    }
    let width = frames[0].img().width();
    let height = frames[0].img().height();
    let mut i: usize = 1;
    while i < n
        invariant
            1 <= i <= n,
            n == frames@.len(),
            width == frames@[0]@.img.width,
            height == frames@[0]@.img.height,
            forall|j: int| 0 <= j < i ==> (#[trigger] frames@[j])@.size() == frames@[0]@.size(),
        decreases n - i,
    {
        let img = frames[i].img();
        if img.width() != width || img.height() != height {
            assert(frames@[i as int]@.size() != frames@[0]@.size());
            return None;
        }
        i += 1;
    }
    let columns = if n < 4 {
        n / 2
    } else {
        n / 4
    };
    proof {
        lemma_tile_grid(n as int, 0);
    }
    let rows = (n - 1) / columns + 1;
    proof {
        lemma_div_plus_one(n as int - 1, columns as int);
        assert(n as int + columns as int - 1 == columns as int + (n as int - 1));
        assert(rows == tile_rows(n as int));
        assert(0 <= columns * width) by (nonlinear_arith)
            requires
                0 <= columns,
                0 <= width,
        ;
        assert(0 <= rows * height) by (nonlinear_arith)
            requires
                0 <= rows,
                0 <= height,
        ;
    }
    assert(columns * width <= 0xffff_ffff_ffff_ffff * 0xffff_ffff) by (nonlinear_arith)
        requires
            0 <= columns <= 0xffff_ffff_ffff_ffff,
            0 <= width <= 0xffff_ffff,
    ;
    assert(rows * height <= 0xffff_ffff_ffff_ffff * 0xffff_ffff) by (nonlinear_arith)
        requires
            0 <= rows <= 0xffff_ffff_ffff_ffff,
            0 <= height <= 0xffff_ffff,
    ;
    let sheet_width: u128 = columns as u128 * width as u128;
    let sheet_height: u128 = rows as u128 * height as u128;
    if sheet_width > u32::MAX as u128 || sheet_height > u32::MAX as u128 {
        return None;
    }
    assert(0 <= sheet_width * sheet_height <= 0xffff_ffff * 0xffff_ffff) by (nonlinear_arith)
        requires
            0 <= sheet_width <= 0xffff_ffff,
            0 <= sheet_height <= 0xffff_ffff,
    ;
    if sheet_width * sheet_height * 4 > isize::MAX as u128 {
        return None;
    }
    let mut slots: Vec<Placement> = Vec::new();
    let mut i: usize = 0;
    while i < n
        invariant
            i <= n,
            n >= 2,
            n == frames@.len(),
            columns == tile_columns(n as int),
            rows == tile_rows(n as int),
            columns * width <= u32::MAX,
            rows * height <= u32::MAX,
            slots@ == tile_slots(n as int, width, height).take(i as int),
        decreases n - i,
    {
        proof {
            lemma_tile_grid(n as int, i as int);
            let col = i as int % columns as int;
            let row = i as int / columns as int;
            assert(0 <= col * width <= columns * width) by (nonlinear_arith)
                requires
                    0 <= col < columns,
                    0 <= width,
            ;
            assert(0 <= row * height <= rows * height) by (nonlinear_arith)
                requires
                    0 <= row < rows,
                    0 <= height,
            ;
        }
        let x = ((i % columns) as u64 * width as u64) as u32;
        let y = ((i / columns) as u64 * height as u64) as u32;
        slots.push(Placement { x, y, width, height });
        assert(slots@ =~= tile_slots(n as int, width, height).take(i as int + 1));
        i += 1;
    }
    assert(slots@ =~= tile_slots(n as int, width, height));
    let layout = Layout { width: sheet_width as u32, height: sheet_height as u32, slots };
    proof {
        lemma_tile_cells(n as int, width, height);
        assert forall|i: int| 0 <= i < n implies (#[trigger] sizes_of(frames@)[i]) == (
            width,
            height,
        ) by {
            assert(frames@[i]@.size() == frames@[0]@.size());
        }
    }
    Some(compose(&layout, frames))
}

/// The image is frame `index` of the `n` frames of a source called `base`:
/// it has the frame's pixels; it is called after the source where the
/// source has one frame only, else after the source and the index; and it
/// has the source's stretch region where that lies within it.
pub open spec fn is_frame(
    image: ImageTexture,
    base: Seq<char>,
    n: int,
    index: int,
    frame: Texture2D,
    nine_patch: Option<Rect>,
) -> bool {
    &&& image@.name == if n == 1 {
        base
    } else {
        frame_label(base, index as nat)
    }
    &&& image@.img == frame@
    &&& image@.nine_patch == resolved(true, nine_patch, frame@.width, frame@.height)
}

/// The frames are of one size.
pub open spec fn same_size(frames: Seq<Texture2D>) -> bool {
    forall|i: int|
        0 <= i < frames.len() ==> (#[trigger] frames[i])@.width == frames[0]@.width
            && frames[i]@.height == frames[0]@.height
}

/// Whether the images are what a source of several frames gives. Where the
/// source has one frame, or frames are kept apart, every frame is an image.
/// Where frames are tiled, there is one image, called after the source: the
/// sheet of all the cells, with every frame in its cell, transparent
/// elsewhere, and with the source's stretch region where that lies within
/// the sheet. Frames that cannot be tiled give no image.
pub open spec fn expands(
    images: Seq<ImageTexture>,
    base: Seq<char>,
    frames: Seq<Texture2D>,
    mode: MultiFrameMode,
    nine_patch: Option<Rect>,
) -> bool {
    let n = frames.len() as int;
    let width = tile_columns(n) * frames[0]@.width;
    let height = tile_rows(n) * frames[0]@.height;
    if n < 2 || mode == MultiFrameMode::SeparateFrames {
        &&& images.len() == n
        &&& forall|i: int|
            0 <= i < n ==> is_frame(#[trigger] images[i], base, n, i, frames[i], nine_patch)
    } else if same_size(frames) && width <= u32::MAX && height <= u32::MAX && width * height * 4
        <= isize::MAX {
        &&& images.len() == 1
        &&& images[0]@.name == base
        &&& images[0]@.img.width == width
        &&& images[0]@.img.height == height
        &&& images[0]@.nine_patch == resolved(true, nine_patch, width as u32, height as u32)
        &&& forall|i: int, qx: int, qy: int|
            #![trigger frames[i]@.pixel(qx, qy)]
            0 <= i < n && frames[i]@.has(qx, qy) ==> images[0]@.img.pixel(
                tile_slot(n, i, frames[0]@.width, frames[0]@.height).x + qx,
                tile_slot(n, i, frames[0]@.width, frames[0]@.height).y + qy,
            ) == frames[i]@.pixel(qx, qy)
        &&& forall|px: int, py: int|
            images[0]@.img.has(px, py) && !covered(
                tile_slots(n, frames[0]@.width, frames[0]@.height),
                n,
                px,
                py,
            ) ==> #[trigger] images[0]@.img.pixel(px, py) == clear()
    } else {
        images.len() == 0
    }
}

/// Five frames of one size, tiled, make one tall sheet: one image, called
/// after the source, one frame wide and five frames high, with frame `i`
/// unchanged in cell `i` from the top. This holds of all frames whose
/// sheet can be held: its height fits in 32 bits, and its bytes in a
/// buffer.
pub proof fn lemma_five_frames_one_tall_sheet(
    images: Seq<ImageTexture>,
    base: Seq<char>,
    frames: Seq<Texture2D>,
    nine_patch: Option<Rect>,
)
    requires
        frames.len() == 5,
        same_size(frames),
        5 * frames[0]@.height <= u32::MAX,
        frames[0]@.width * (5 * frames[0]@.height) * 4 <= isize::MAX,
        expands(images, base, frames, MultiFrameMode::SingleSheet, nine_patch),
    ensures
        tile_columns(5) == 1,
        tile_rows(5) == 5,
        images.len() == 1,
        images[0]@.name == base,
        images[0]@.img.width == frames[0]@.width,
        images[0]@.img.height == 5 * frames[0]@.height,
        forall|i: int, qx: int, qy: int|
            #![trigger frames[i]@.pixel(qx, qy)]
            0 <= i < 5 && frames[i]@.has(qx, qy) ==> images[0]@.img.pixel(
                qx,
                i * frames[0]@.height + qy,
            ) == frames[i]@.pixel(qx, qy),
{
    let width = frames[0]@.width;
    let height = frames[0]@.height;
    assert(tile_columns(5) == 1);
    assert(tile_rows(5) == 5);
    assert(1 * width == width as int) by (nonlinear_arith);
    assert(tile_columns(5) * width == width as int);
    assert(tile_rows(5) * height == 5 * height);
    assert forall|i: int, qx: int, qy: int|
        #![trigger frames[i]@.pixel(qx, qy)]
        0 <= i < 5 && frames[i]@.has(qx, qy) implies images[0]@.img.pixel(qx, i * height + qy)
        == frames[i]@.pixel(qx, qy) by {
        assert(i % 1 == 0 && i / 1 == i);
        assert(0 <= i * height <= 5 * height) by (nonlinear_arith)
            requires
                0 <= i < 5,
                0 <= height,
        ;
        assert(0 * width == 0);
        assert(tile_slot(5, i, width, height).x == 0);
        assert(tile_slot(5, i, width, height).y == i * height);
    }
}

/// Turns the frames of one source into the images that are packed. A
/// source whose frames are to be tiled and cannot be gives no image, like a
/// file that cannot be read.
pub fn expand_frames(
    base: &str,
    frames: Vec<Texture2D>,
    mode: MultiFrameMode,
    nine_patch: Option<Rect>,
) -> (images: Vec<ImageTexture>)
    ensures
        expands(images@, base@, frames@, mode, nine_patch),
{
    let n = frames.len();
    let ghost given = frames@;
    let mut frames = frames;
    let mut reversed: Vec<ImageTexture> = Vec::new();
    while frames.len() > 0
        invariant
            frames@.len() + reversed@.len() == n,
            n == given.len(),
            frames@ == given.take(frames@.len() as int),
            forall|k: int|
                0 <= k < reversed@.len() ==> is_frame(
                    #[trigger] reversed@[k],
                    base@,
                    n as int,
                    n - 1 - k,
                    given[n - 1 - k],
                    nine_patch,
                ),
        decreases frames@.len(),
    {
        let index = frames.len() - 1;
        if let Some(frame) = frames.pop() {
            assert(frame == given[index as int]);
            assert(frames@ =~= given.take(index as int));
            let name = if n == 1 {
                base.to_owned()
            } else {
                frame_name(base, index)
            };
            let region = resolve_nine_patch(true, nine_patch, frame.width(), frame.height());
            reversed.push(ImageTexture::new(name, frame, region));
        }
    }
    let mut images: Vec<ImageTexture> = Vec::new();
    while reversed.len() > 0
        invariant
            images@.len() + reversed@.len() == n,
            n == given.len(),
            forall|i: int|
                0 <= i < images@.len() ==> is_frame(
                    #[trigger] images@[i],
                    base@,
                    n as int,
                    i,
                    given[i],
                    nine_patch,
                ),
            forall|k: int|
                0 <= k < reversed@.len() ==> is_frame(
                    #[trigger] reversed@[k],
                    base@,
                    n as int,
                    n - 1 - k,
                    given[n - 1 - k],
                    nine_patch,
                ),
        decreases reversed@.len(),
    {
        let ghost before = reversed@;
        if let Some(image) = reversed.pop() {
            assert(image == before[before.len() - 1]);
            assert forall|k: int| 0 <= k < reversed@.len() implies (#[trigger] reversed@[k])
                == before[k] by {}
            images.push(image);
        }
    }
    if n < 2 || mode == MultiFrameMode::SeparateFrames {
        return images;
    }
    proof {
        lemma_tileable_frames(images@, given);
    }
    let sheet = match tile(&images) {
        Some(sheet) => sheet,
        None => {
            return Vec::new();
        },
    };
    let ghost slots = tile_slots(n as int, given[0]@.width, given[0]@.height);
    let region = resolve_nine_patch(true, nine_patch, sheet.width(), sheet.height());
    let mut result: Vec<ImageTexture> = Vec::new();
    result.push(ImageTexture::new(base.to_owned(), sheet, region));
    proof {
        assert forall|i: int, qx: int, qy: int|
            #![trigger given[i]@.pixel(qx, qy)]
            0 <= i < n && given[i]@.has(qx, qy) implies result@[0]@.img.pixel(
            tile_slot(n as int, i, given[0]@.width, given[0]@.height).x + qx,
            tile_slot(n as int, i, given[0]@.width, given[0]@.height).y + qy,
        ) == given[i]@.pixel(qx, qy) by {
            assert(images@[i]@.img.pixel(qx, qy) == given[i]@.pixel(qx, qy));
            assert(slots[i] == tile_slot(n as int, i, given[0]@.width, given[0]@.height));
        }
    }
    result
}

/// Images that hold the given frames can be tiled exactly when the frames
/// are of one size and their sheet can be held.
proof fn lemma_tileable_frames(images: Seq<ImageTexture>, frames: Seq<Texture2D>)
    requires
        images.len() == frames.len(),
        frames.len() >= 2,
        forall|i: int| 0 <= i < images.len() ==> (#[trigger] images[i])@.img == frames[i]@,
    ensures
        tileable(images) <==> {
            &&& same_size(frames)
            &&& tile_columns(frames.len() as int) * frames[0]@.width <= u32::MAX
            &&& tile_rows(frames.len() as int) * frames[0]@.height <= u32::MAX
            &&& (tile_columns(frames.len() as int) * frames[0]@.width) * (tile_rows(
                frames.len() as int,
            ) * frames[0]@.height) * 4 <= isize::MAX
        },
{
    let n = frames.len() as int;
    assert(images[0]@.img == frames[0]@);
    if tileable(images) {
        assert forall|i: int| 0 <= i < n implies (#[trigger] frames[i])@.width
            == frames[0]@.width && frames[i]@.height == frames[0]@.height by {
            assert(images[i]@.size() == images[0]@.size());
        }
    }
    if same_size(frames) {
        assert forall|i: int| 0 <= i < n implies (#[trigger] images[i])@.size()
            == images[0]@.size() by {
            assert(frames[i]@.width == frames[0]@.width);
            assert(images[i]@.img == frames[i]@);
        }
    }
}

} // verus!
