//! The compositor: a transparent canvas into which every image is copied,
//! unchanged, at the place that the layout gives it.

use crate::asset::{sizes_of, ImageTexture};
use crate::geometry::Placement;
use crate::packer::Layout;
use crate::texture::{Pixel, Texture2D, TextureView};
use vstd::prelude::*;

verus! {

/// The pixel that is fully transparent.
pub open spec fn clear() -> Pixel {
    (0u8, 0u8, 0u8, 0u8)
}

/// One of the first `n` boxes holds the canvas pixel `(px, py)`.
pub open spec fn covered(slots: Seq<Placement>, n: int, px: int, py: int) -> bool {
    exists|i: int| 0 <= i < n && (#[trigger] slots[i]).contains(px, py)
}

/// The canvas shows the first `n` images, each at its box, and nothing else:
/// every pixel of an image is found on the canvas unchanged, and every canvas
/// pixel outside the boxes is transparent.
pub open spec fn shows(
    sheet: TextureView,
    slots: Seq<Placement>,
    images: Seq<ImageTexture>,
    n: int,
) -> bool {
    &&& forall|i: int, qx: int, qy: int|
        #![trigger images[i]@.img.pixel(qx, qy)]
        0 <= i < n && images[i]@.img.has(qx, qy) ==> sheet.pixel(slots[i].x + qx, slots[i].y + qy)
            == images[i]@.img.pixel(qx, qy)
    &&& forall|px: int, py: int|
        sheet.has(px, py) && !covered(slots, n, px, py) ==> #[trigger] sheet.pixel(px, py)
            == clear()
}

/// Composes the canvas of a layout: transparent, with every image copied in
/// at its box, pixel for pixel.
pub fn compose(layout: &Layout, images: &Vec<ImageTexture>) -> (sheet: Texture2D)
    requires
        layout@.places(sizes_of(images@)),
        layout.width * layout.height * 4 <= isize::MAX,
    ensures
        sheet@.wf(),
        sheet@.width == layout.width,
        sheet@.height == layout.height,
        shows(sheet@, layout.slots@, images@, images@.len() as int),
{
    let mut sheet = Texture2D::transparent(layout.width, layout.height);
    let ghost slots = layout.slots@;
    let ghost sizes = sizes_of(images@);
    let mut k: usize = 0;
    while k < images.len()
        invariant
            k <= images@.len(),
            slots == layout.slots@,
            sizes == sizes_of(images@),
            layout@.places(sizes),
            sheet@.wf(),
            sheet@.width == layout.width,
            sheet@.height == layout.height,
            forall|i: int, px: int, py: int|
                #![trigger slots[i].contains(px, py)]
                0 <= i < k && slots[i].contains(px, py) ==> sheet@.pixel(px, py) == images@[i]@.img.pixel(
                    px - slots[i].x,
                    py - slots[i].y,
                ),
            forall|px: int, py: int|
                sheet@.has(px, py) && !covered(slots, k as int, px, py) ==> #[trigger] sheet@.pixel(
                    px,
                    py,
                ) == clear(),
        decreases images@.len() - k,
    {
        let slot = layout.slots[k];
        let image = &images[k];
        let ghost before = sheet@;
        assert(sizes[k as int] == images@[k as int]@.size());
        assert(slots[k as int].width == image@.img.width);
        assert(slots[k as int].inside(layout.width as int, layout.height as int));
        let copied = sheet.blit(image.img(), slot.x, slot.y);
        assert(copied);
        proof {
            assert forall|i: int, px: int, py: int|
                #![trigger slots[i].contains(px, py)]
                0 <= i < k + 1 && slots[i].contains(px, py) implies sheet@.pixel(px, py)
                == images@[i]@.img.pixel(px - slots[i].x, py - slots[i].y) by {
                assert(sizes[i] == images@[i]@.size());
                assert(slots[i].inside(layout.width as int, layout.height as int));
                assert(before.has(px, py));
                if i < k {
                    assert(slots[i].apart(slots[k as int]));
                    slots[i].lemma_apart(slots[k as int]);
                    assert(!slots[k as int].contains(px, py));
                }
            }
            assert forall|px: int, py: int|
                sheet@.has(px, py) && !covered(slots, k as int + 1, px, py) implies #[trigger] sheet@.pixel(
                px,
                py,
            ) == clear() by {
                assert(!slots[k as int].contains(px, py));
                if covered(slots, k as int, px, py) {
                    let i = choose|i: int| 0 <= i < k && (#[trigger] slots[i]).contains(px, py);
                    assert(slots[i].contains(px, py));
                }
            }
        }
        k += 1;
    }
    proof {
        let n = images@.len() as int;
        assert forall|i: int, qx: int, qy: int|
            #![trigger images@[i]@.img.pixel(qx, qy)]
            0 <= i < n && images@[i]@.img.has(qx, qy) implies sheet@.pixel(
            slots[i].x + qx,
            slots[i].y + qy,
        ) == images@[i]@.img.pixel(qx, qy) by {
            assert(sizes[i] == images@[i]@.size());
            assert(slots[i].contains(slots[i].x + qx, slots[i].y + qy));
        }
    }
    sheet
}

} // verus!
