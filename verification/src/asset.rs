//! A packable image: its logical name, its pixels and its stretch region.

use crate::geometry::Rect;
use crate::texture::{Texture2D, TextureView};
use vstd::prelude::*;

verus! {

/// The mathematical value of an `ImageTexture`.
pub struct ImageView {
    pub name: Seq<char>,
    pub img: TextureView,
    pub nine_patch: Option<Rect>,
}

impl ImageView {
    /// The pixels are complete, and the stretch region, if there is one, lies
    /// within the image.
    pub open spec fn wf(self) -> bool {
        &&& self.img.wf()
        &&& self.nine_patch matches Some(region) ==> region.fits(self.img.width, self.img.height)
    }

    /// The image's width and height.
    pub open spec fn size(self) -> (u32, u32) {
        (self.img.width, self.img.height)
    }
}

/// One image to be packed.
pub struct ImageTexture {
    name: String,
    img: Texture2D,
    nine_patch: Option<Rect>,
}

impl View for ImageTexture {
    type V = ImageView;

    closed spec fn view(&self) -> ImageView {
        ImageView { name: self.name@, img: self.img@, nine_patch: self.nine_patch }
    }
}

impl ImageTexture {
    /// Every image has its pixels complete and its stretch region, if it has
    /// one, within it.
    #[verifier::type_invariant]
    pub open spec fn sound(&self) -> bool {
        self@.wf()
    }

    /// An image with the given name, pixels and stretch region.
    pub fn new(name: String, img: Texture2D, nine_patch: Option<Rect>) -> (image: ImageTexture)
        requires
            nine_patch matches Some(region) ==> region.fits(img@.width, img@.height),
        ensures
            image@ == (ImageView { name: name@, img: img@, nine_patch }),
            image@.wf(),
    {
        proof {
            use_type_invariant(&img);
        }
        ImageTexture { name, img, nine_patch }
    }

    /// The logical name.
    pub fn name(&self) -> (name: &String)
        ensures
            name@ == self@.name,
    {
        &self.name
    }

    /// The pixels.
    pub fn img(&self) -> (img: &Texture2D)
        ensures
            img@ == self@.img,
            self@.wf(),
    {
        proof {
            use_type_invariant(self);
        }
        &self.img
    }

    /// The stretch region, in the image's own coordinates.
    pub fn nine_patch(&self) -> (region: Option<Rect>)
        ensures
            region == self@.nine_patch,
            self@.wf(),
    {
        proof {
            use_type_invariant(self);
        }
        self.nine_patch
    }
}

/// The sizes of the images, in order.
pub open spec fn sizes_of(images: Seq<ImageTexture>) -> Seq<(u32, u32)> {
    images.map_values(|image: ImageTexture| image@.size())
}

} // verus!
