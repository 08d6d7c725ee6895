//! RGBA pixel buffers, and copying one into another.

use vstd::arithmetic::div_mod::{lemma_fundamental_div_mod, lemma_mod_bound};
use vstd::prelude::*;

verus! {

/// A pixel: red, green, blue, alpha.
pub type Pixel = (u8, u8, u8, u8);

/// Where pixel `(x, y)` begins in the bytes of a buffer `width` pixels wide.
pub open spec fn offset(width: int, x: int, y: int) -> int {
    (y * width + x) * 4
}

/// The mathematical value of a `Texture2D`: its size, and its bytes row by
/// row, four to a pixel.
pub struct TextureView {
    pub width: u32,
    pub height: u32,
    pub data: Seq<u8>,
}

impl TextureView {
    /// There are four bytes for every pixel, and no more.
    pub open spec fn wf(self) -> bool {
        self.data.len() == self.width * self.height * 4
    }

    /// `(x, y)` is a pixel of the buffer.
    pub open spec fn has(self, x: int, y: int) -> bool {
        0 <= x < self.width && 0 <= y < self.height
    }

    /// Channel `c` of pixel `(x, y)`.
    pub open spec fn sample(self, x: int, y: int, c: int) -> u8 {
        self.data[offset(self.width as int, x, y) + c]
    }

    /// Pixel `(x, y)`.
    pub open spec fn pixel(self, x: int, y: int) -> Pixel {
        (self.sample(x, y, 0), self.sample(x, y, 1), self.sample(x, y, 2), self.sample(x, y, 3))
    }

    /// What the buffer holds once `src` has been copied in with its top-left
    /// corner at `(x, y)`: the pixels of `src` in the box, the old pixels
    /// everywhere else.
    pub open spec fn pixel_after_blit(self, src: TextureView, x: int, y: int, px: int, py: int)
        -> Pixel {
        if x <= px < x + src.width && y <= py < y + src.height {
            src.pixel(px - x, py - y)
        } else {
            self.pixel(px, py)
        }
    }
}

/// The bytes of a pixel lie within the buffer.
pub proof fn lemma_offset_in_bounds(width: int, height: int, x: int, y: int)
    requires
        0 <= x < width,
        0 <= y < height,
    ensures
        0 <= offset(width, x, y),
        offset(width, x, y) + 4 <= width * height * 4,
        0 <= y * width <= y * width + x < width * height,
{
    assert(y * width <= (height - 1) * width) by (nonlinear_arith)
        requires
            0 <= y <= height - 1,
            0 <= width,
    ;
    assert((height - 1) * width == height * width - width) by (nonlinear_arith);
    assert(width * height == height * width) by (nonlinear_arith);
    assert(0 <= y * width) by (nonlinear_arith)
        requires
            0 <= y,
            0 <= width,
    ;
}

/// The bytes of two different pixels do not meet.
pub proof fn lemma_pixels_apart(width: int, x1: int, y1: int, x2: int, y2: int)
    requires
        0 <= x1 < width,
        0 <= x2 < width,
        0 <= y1,
        0 <= y2,
        x1 != x2 || y1 != y2,
    ensures
        offset(width, x1, y1) + 4 <= offset(width, x2, y2) || offset(width, x2, y2) + 4 <= offset(
            width,
            x1,
            y1,
        ),
{
    if y1 < y2 {
        assert((y1 + 1) * width <= y2 * width) by (nonlinear_arith)
            requires
                y1 + 1 <= y2,
                0 <= width,
        ;
        assert((y1 + 1) * width == y1 * width + width) by (nonlinear_arith);
    } else if y2 < y1 {
        assert((y2 + 1) * width <= y1 * width) by (nonlinear_arith)
            requires
                y2 + 1 <= y1,
                0 <= width,
        ;
        assert((y2 + 1) * width == y2 * width + width) by (nonlinear_arith);
    }
}

/// Two buffers of one size that agree on every pixel are the same.
pub proof fn lemma_same_pixels(a: TextureView, b: TextureView)
    requires
        a.wf(),
        b.wf(),
        a.width == b.width,
        a.height == b.height,
        forall|x: int, y: int| a.has(x, y) ==> #[trigger] a.pixel(x, y) == b.pixel(x, y),
    ensures
        a == b,
{
    let w = a.width as int;
    let h = a.height as int;
    assert forall|i: int| 0 <= i < a.data.len() implies a.data[i] == b.data[i] by {
        let p = i / 4;
        let c = i % 4;
        assert(0 <= p < w * h);
        assert(w > 0) by (nonlinear_arith)
            requires
                0 < w * h,
                0 <= w,
        ;
        let x = p % w;
        let y = p / w;
        lemma_fundamental_div_mod(p, w);
        lemma_mod_bound(p, w);
        assert(w * y == y * w) by (nonlinear_arith);
        assert(0 <= y < h) by (nonlinear_arith)
            requires
                0 <= p < w * h,
                p == w * y + x,
                0 <= x < w,
        ;
        assert(offset(w, x, y) + c == i);
        assert(a.pixel(x, y) == b.pixel(x, y));
        assert(a.sample(x, y, c) == b.sample(x, y, c));
    }
    assert(a.data =~= b.data);
}

/// An RGBA pixel buffer: `width` by `height` pixels, row by row, four bytes
/// to a pixel.
pub struct Texture2D {
    width: u32,
    height: u32,
    data: Vec<u8>,
}

impl View for Texture2D {
    type V = TextureView;

    closed spec fn view(&self) -> TextureView {
        TextureView { width: self.width, height: self.height, data: self.data@ }
    }
}

/// The buffer of the given size over the given bytes.
pub open spec fn raster(width: u32, height: u32, data: Seq<u8>) -> TextureView {
    TextureView { width, height, data }
}

/// Where pixel `(x, y)` begins in the bytes of a buffer of the given size.
fn index_of(width: u32, height: u32, x: u32, y: u32) -> (i: usize)
    requires
        x < width,
        y < height,
        width * height * 4 <= usize::MAX,
    ensures
        i == offset(width as int, x as int, y as int),
        i + 4 <= width * height * 4,
{
    proof {
        lemma_offset_in_bounds(width as int, height as int, x as int, y as int);
        assert(width * height <= width * height * 4);
    }
    ((y as usize) * (width as usize) + (x as usize)) * 4
}

/// Sets pixel `(x, y)` of the buffer over `data`, and no other.
fn put_pixel(data: &mut Vec<u8>, width: u32, height: u32, x: u32, y: u32, p: Pixel)
    requires
        raster(width, height, old(data)@).wf(),
        x < width,
        y < height,
    ensures
        raster(width, height, final(data)@).wf(),
        forall|px: int, py: int|
            raster(width, height, old(data)@).has(px, py) ==> #[trigger] raster(
                width,
                height,
                final(data)@,
            ).pixel(px, py) == (if px == x && py == y {
                p
            } else {
                raster(width, height, old(data)@).pixel(px, py)
            }),
{
    let ghost before = raster(width, height, data@);
    assert(data@.len() == data.len());
    let i = index_of(width, height, x, y);
    data.set(i, p.0);
    data.set(i + 1, p.1);
    data.set(i + 2, p.2);
    data.set(i + 3, p.3);
    proof {
        let w = width as int;
        let after = raster(width, height, data@);
        assert forall|px: int, py: int| before.has(px, py) implies #[trigger] after.pixel(px, py)
            == (if px == x && py == y {
            p
        } else {
            before.pixel(px, py)
        }) by {
            lemma_offset_in_bounds(w, height as int, px, py);
            if px == x && py == y {
            } else {
                lemma_pixels_apart(w, px, py, x as int, y as int);
            }
        }
    }
}

impl Texture2D {
    /// Every buffer holds four bytes for every pixel, and no more.
    #[verifier::type_invariant]
    pub open spec fn complete(&self) -> bool {
        self@.wf()
    }

    /// A buffer over the given bytes, where there are four of them for every
    /// pixel; `None` where there are not.
    pub fn from_raw(width: u32, height: u32, data: Vec<u8>) -> (r: Option<Texture2D>)
        ensures
            r is Some <==> data@.len() == width * height * 4,
            r matches Some(t) ==> t@ == raster(width, height, data@),
    {
        assert(width * height * 4 <= 0x4_0000_0000_0000_0000) by (nonlinear_arith)
            requires
                width <= 0xffff_ffff,
                height <= 0xffff_ffff,
        ;
        assert(0 <= width * height) by (nonlinear_arith)
            requires
                0 <= width,
                0 <= height,
        ;
        let expected: u128 = (width as u128) * (height as u128) * 4;
        if data.len() as u128 == expected {
            Some(Texture2D { width, height, data })
        } else {
            None
        }
    }

    /// A buffer of the given size in which every pixel is fully transparent:
    /// `(0, 0, 0, 0)`.
    pub fn transparent(width: u32, height: u32) -> (t: Texture2D)
        requires
            width * height * 4 <= isize::MAX,
        ensures
            t@.wf(),
            t@.width == width,
            t@.height == height,
            forall|i: int| 0 <= i < t@.data.len() ==> t@.data[i] == 0,
            forall|x: int, y: int| t@.has(x, y) ==> #[trigger] t@.pixel(x, y) == (0u8, 0u8, 0u8, 0u8),
    {
        assert(0 <= width * height <= width * height * 4) by (nonlinear_arith)
            requires
                0 <= width,
                0 <= height,
        ;
        let len: usize = (width as usize) * (height as usize) * 4;
        let data: Vec<u8> = vec![0u8; len];
        let t = Texture2D { width, height, data };
        proof {
            assert forall|x: int, y: int| t@.has(x, y) implies #[trigger] t@.pixel(x, y) == (
                0u8,
                0u8,
                0u8,
                0u8,
            ) by {
                lemma_offset_in_bounds(width as int, height as int, x, y);
            }
        }
        t
    }

    /// The width in pixels.
    pub fn width(&self) -> (w: u32)
        ensures
            w == self@.width,
            self@.wf(),
    {
        proof {
            use_type_invariant(self);
        }
        self.width
    }

    /// The height in pixels.
    pub fn height(&self) -> (h: u32)
        ensures
            h == self@.height,
            self@.wf(),
    {
        proof {
            use_type_invariant(self);
        }
        self.height
    }

    /// The bytes, row by row, four to a pixel.
    pub fn data(&self) -> (d: &Vec<u8>)
        ensures
            d@ == self@.data,
            self@.wf(),
    {
        proof {
            use_type_invariant(self);
        }
        &self.data
    }

    /// Gives the bytes up.
    pub fn into_raw(self) -> (d: Vec<u8>)
        ensures
            d@ == self@.data,
            self@.wf(),
    {
        proof {
            use_type_invariant(&self);
        }
        self.data
    }

    /// Pixel `(x, y)`, or `None` where the buffer has no such pixel.
    pub fn get_pixel(&self, x: u32, y: u32) -> (p: Option<Pixel>)
        ensures
            p == if self@.has(x as int, y as int) {
                Some(self@.pixel(x as int, y as int))
            } else {
                None
            },
    {
        if x < self.width && y < self.height {
            Some(self.pixel_at(x, y))
        } else {
            None
        }
    }

    /// Pixel `(x, y)` of a buffer that has one.
    fn pixel_at(&self, x: u32, y: u32) -> (p: Pixel)
        requires
            self@.has(x as int, y as int),
        ensures
            p == self@.pixel(x as int, y as int),
    {
        proof {
            use_type_invariant(self);
        }
        assert(self.data@.len() == self.data.len());
        let i = index_of(self.width, self.height, x, y);
        (self.data[i], self.data[i + 1], self.data[i + 2], self.data[i + 3])
    }

    /// Copies every pixel of `src` into this buffer, unchanged, with the
    /// top-left corner of `src` at `(x, y)`. Where `src` does not fit there,
    /// nothing is copied and the result is `false`.
    pub fn blit(&mut self, src: &Texture2D, x: u32, y: u32) -> (copied: bool)
        ensures
            final(self)@.wf(),
            final(self)@.width == old(self)@.width,
            final(self)@.height == old(self)@.height,
            copied == (x + src@.width <= old(self)@.width && y + src@.height <= old(self)@.height),
            !copied ==> final(self)@ == old(self)@,
            copied ==> forall|px: int, py: int|
                old(self)@.has(px, py) ==> #[trigger] final(self)@.pixel(px, py) == old(
                    self,
                )@.pixel_after_blit(src@, x as int, y as int, px, py),
    {
        proof {
            use_type_invariant(&*self);
            use_type_invariant(src);
        }
        if src.width > self.width || x > self.width - src.width || src.height > self.height || y
            > self.height - src.height {
            return false;
        }
        let ghost before = self@;
        let ghost source = src@;
        let mut taken = Texture2D { width: 0, height: 0, data: Vec::new() };
        core::mem::swap(self, &mut taken);
        let Texture2D { width, height, data } = taken;
        let mut data = data;
        let mut row: u32 = 0;
        while row < src.height
            invariant
                row <= src.height,
                source == src@,
                source.wf(),
                before.width == width,
                before.height == height,
                raster(width, height, data@).wf(),
                x + source.width <= width,
                y + source.height <= height,
                forall|px: int, py: int|
                    before.has(px, py) ==> #[trigger] raster(width, height, data@).pixel(px, py)
                        == (if x <= px < x + source.width && y <= py < y + row {
                        source.pixel(px - x, py - y)
                    } else {
                        before.pixel(px, py)
                    }),
            decreases src.height - row,
        {
            let mut col: u32 = 0;
            while col < src.width
                invariant
                    col <= src.width,
                    row < src.height,
                    source == src@,
                    source.wf(),
                    before.width == width,
                    before.height == height,
                    raster(width, height, data@).wf(),
                    x + source.width <= width,
                    y + source.height <= height,
                    forall|px: int, py: int|
                        before.has(px, py) ==> #[trigger] raster(width, height, data@).pixel(
                            px,
                            py,
                        ) == (if (x <= px < x + source.width && y <= py < y + row) || (py == y
                            + row && x <= px < x + col) {
                            source.pixel(px - x, py - y)
                        } else {
                            before.pixel(px, py)
                        }),
                decreases src.width - col,
            {
                let p = src.pixel_at(col, row);
                put_pixel(&mut data, width, height, x + col, y + row, p);
                col += 1;
            }
            row += 1;
        }
        *self = Texture2D { width, height, data };
        true
    }
}

} // verus!
