//! The atlas descriptor: for every logical name, where its frame lies on the
//! sheet. And the build itself: from the images to the sheet and its
//! descriptor.

use crate::asset::{sizes_of, ImageTexture};
use crate::compositor::{clear, compose, covered, shows};
use crate::config::Config;
use crate::error::PackerError;
use crate::geometry::{Placement, Rect};
use crate::packer::{addressable, pack_rects, packed_layout, Layout};
use crate::texture::{lemma_same_pixels, Texture2D};
use vstd::prelude::*;

verus! {

/// Where a frame lies on the sheet, and its stretch region if it has one.
/// The stretch region is in the frame's own coordinates: it does not move
/// with the frame.
#[derive(Debug, Clone, Copy, PartialEq, Eq, Structural)]
pub struct TextureData {
    pub x: u32,
    pub y: u32,
    pub width: u32,
    pub height: u32,
    pub nine_patch: Option<Rect>,
}

impl TextureData {
    /// The box of the frame on the sheet.
    pub open spec fn place(self) -> Placement {
        Placement { x: self.x, y: self.y, width: self.width, height: self.height }
    }
}

/// One entry of the descriptor.
pub struct Frame {
    pub name: String,
    pub data: TextureData,
}

/// The mathematical value of a `Frame`.
pub struct FrameView {
    pub name: Seq<char>,
    pub data: TextureData,
}

impl View for Frame {
    type V = FrameView;

    open spec fn view(&self) -> FrameView {
        FrameView { name: self.name@, data: self.data }
    }
}

/// The mathematical value of a `PackerAtlas`: the path of the sheet, and the
/// entries in the order in which their names first came.
pub struct AtlasView {
    pub sheet_path: Seq<char>,
    pub frames: Seq<FrameView>,
}

impl AtlasView {
    /// The descriptor without a sheet and without frames.
    pub open spec fn empty() -> AtlasView {
        AtlasView { sheet_path: Seq::empty(), frames: Seq::empty() }
    }

    /// No name has two entries.
    pub open spec fn distinct(self) -> bool {
        forall|i: int, j: int|
            0 <= i < j < self.frames.len() ==> (#[trigger] self.frames[i]).name != (
            #[trigger] self.frames[j]).name
    }

    /// There is an entry for `name`.
    pub open spec fn has(self, name: Seq<char>) -> bool {
        exists|i: int| 0 <= i < self.frames.len() && (#[trigger] self.frames[i]).name == name
    }

    /// The place of an entry for `name`.
    pub open spec fn index_of(self, name: Seq<char>) -> int {
        choose|i: int| 0 <= i < self.frames.len() && (#[trigger] self.frames[i]).name == name
    }

    /// What is recorded for `name`.
    pub open spec fn get(self, name: Seq<char>) -> Option<TextureData> {
        if self.has(name) {
            Some(self.frames[self.index_of(name)].data)
        } else {
            None
        }
    }

    /// The descriptor after `data` has been recorded for `name`: a new entry
    /// at the end where the name is new, else the old entry overwritten in
    /// its place.
    pub open spec fn insert(self, name: Seq<char>, data: TextureData) -> AtlasView {
        let entry = FrameView { name, data };
        if self.has(name) {
            AtlasView { frames: self.frames.update(self.index_of(name), entry), ..self }
        } else {
            AtlasView { frames: self.frames.push(entry), ..self }
        }
    }

    /// The descriptor as a mapping from names to what is recorded for them.
    pub open spec fn to_map(self) -> Map<Seq<char>, TextureData> {
        Map::new(|name: Seq<char>| self.has(name), |name: Seq<char>| self.get(name)->Some_0)
    }

    /// Recording keeps names apart, records what was given, and leaves every
    /// other name as it was.
    pub proof fn lemma_insert(self, name: Seq<char>, data: TextureData)
        requires
            self.distinct(),
        ensures
            self.insert(name, data).distinct(),
            self.insert(name, data).sheet_path == self.sheet_path,
            self.insert(name, data).get(name) == Some(data),
            forall|other: Seq<char>|
                other != name ==> #[trigger] self.insert(name, data).get(other) == self.get(other),
            self.insert(name, data).frames.len() == if self.has(name) {
                self.frames.len()
            } else {
                self.frames.len() + 1
            },
    {
        let after = self.insert(name, data);
        let at = if self.has(name) {
            self.index_of(name)
        } else {
            self.frames.len() as int
        };
        assert(after.frames[at].name == name);
        assert(after.has(name));
        assert forall|i: int, j: int| 0 <= i < j < after.frames.len() implies (
        #[trigger] after.frames[i]).name != (#[trigger] after.frames[j]).name by {
            if i < self.frames.len() {
                assert(after.frames[i].name == self.frames[i].name);
            }
            if j < self.frames.len() {
                assert(after.frames[j].name == self.frames[j].name);
            }
        }
        assert(after.index_of(name) == at);
        assert forall|other: Seq<char>| other != name implies #[trigger] after.get(other)
            == self.get(other) by {
            if self.has(other) {
                let i = self.index_of(other);
                assert(after.frames[i] == self.frames[i]);
                assert(after.has(other));
                let j = after.index_of(other);
                if j < self.frames.len() {
                    assert(self.frames[j].name == other);
                }
                assert(i == j);
            } else if after.has(other) {
                let j = after.index_of(other);
                assert(self.frames[j].name == other);
            }
        }
    }
}

impl AtlasView {
    /// As a mapping, the descriptor after recording is the mapping before
    /// with the name set to what was recorded.
    pub proof fn lemma_insert_map(self, name: Seq<char>, data: TextureData)
        requires
            self.distinct(),
        ensures
            self.insert(name, data).to_map() == self.to_map().insert(name, data),
    {
        let after = self.insert(name, data);
        self.lemma_insert(name, data);
        assert forall|key: Seq<char>| after.has(key) <==> (key == name || self.has(key)) by {
            if key != name {
                assert(after.get(key) == self.get(key));
            }
        }
        assert forall|key: Seq<char>| after.has(key) implies #[trigger] after.to_map()[key]
            == self.to_map().insert(name, data)[key] by {
            if key != name {
                assert(after.get(key) == self.get(key));
            }
        }
        assert(after.to_map() =~= self.to_map().insert(name, data));
    }
}

/// The atlas descriptor: the path of the sheet, and for every logical name
/// the place of its frame. No name has two entries.
pub struct PackerAtlas {
    sheet_path: String,
    frames: Vec<Frame>,
}

impl View for PackerAtlas {
    type V = AtlasView;

    closed spec fn view(&self) -> AtlasView {
        AtlasView { sheet_path: self.sheet_path@, frames: self.frames@.map_values(|f: Frame| f@) }
    }
}

impl Default for PackerAtlas {
    fn default() -> (atlas: Self)
        ensures
            atlas@ == AtlasView::empty(),
    {
        let atlas = PackerAtlas { sheet_path: String::new(), frames: Vec::new() };
        assert(atlas@.frames =~= Seq::empty());
        atlas
    }
}

impl PackerAtlas {
    #[verifier::type_invariant]
    closed spec fn names_apart(&self) -> bool {
        self@.distinct()
    }

    /// Records where the frame called `name` lies. What was recorded for that
    /// name before is overwritten.
    pub fn add(
        &mut self,
        name: &str,
        x: u32,
        y: u32,
        width: u32,
        height: u32,
        nine_patch: Option<Rect>,
    )
        ensures
            final(self)@ == old(self)@.insert(
                name@,
                TextureData { x, y, width, height, nine_patch },
            ),
            old(self)@.distinct(),
            final(self)@.distinct(),
            final(self)@.get(name@) == Some(TextureData { x, y, width, height, nine_patch }),
            forall|other: Seq<char>|
                other != name@ ==> #[trigger] final(self)@.get(other) == old(self)@.get(other),
            final(self)@.frames.len() == if old(self)@.has(name@) {
                old(self)@.frames.len()
            } else {
                old(self)@.frames.len() + 1
            },
            final(self)@.to_map() == old(self)@.to_map().insert(
                name@,
                TextureData { x, y, width, height, nine_patch },
            ),
    {
        proof {
            use_type_invariant(&*self);
        }
        let data = TextureData { x, y, width, height, nine_patch };
        let key = name.to_owned();
        let ghost before = self@;
        let mut frames: Vec<Frame> = Vec::new();
        core::mem::swap(&mut self.frames, &mut frames);
        assert(frames@.map_values(|f: Frame| f@) == before.frames);
        let mut i: usize = 0;
        while i < frames.len()
            invariant
                i <= frames@.len(),
                frames@.map_values(|f: Frame| f@) == before.frames,
                key@ == name@,
                before.distinct(),
                forall|j: int| 0 <= j < i ==> (#[trigger] before.frames[j]).name != name@,
            ensures
                i < frames@.len() ==> before.frames[i as int].name == name@,
            decreases frames@.len() - i,
        {
            if frames[i].name == key {
                assert(before.frames[i as int] == frames@[i as int]@);
                break ;
            }
            i += 1;
        }
        proof {
            before.lemma_insert(name@, data);
            before.lemma_insert_map(name@, data);
        }
        if i < frames.len() {
            assert(before.frames[i as int].name == name@);
            assert(before.has(name@));
            assert(before.index_of(name@) == i);
            frames.set(i, Frame { name: key, data });
        } else {
            assert(!before.has(name@));
            frames.push(Frame { name: key, data });
        }
        assert(frames@.map_values(|f: Frame| f@) =~= before.insert(name@, data).frames);
        self.frames = frames;
    }

    /// Records where the sheet was written.
    pub fn add_sheet_path(&mut self, path: &str)
        ensures
            final(self)@ == (AtlasView { sheet_path: path@, ..old(self)@ }),
            final(self)@.distinct(),
    {
        proof {
            use_type_invariant(&*self);
        }
        self.sheet_path = path.to_owned();
    }

    /// The path of the sheet.
    pub fn sheet_path(&self) -> (path: &String)
        ensures
            path@ == self@.sheet_path,
    {
        &self.sheet_path
    }

    /// The number of entries, each under a name of its own.
    pub fn len(&self) -> (n: usize)
        ensures
            n == self@.frames.len(),
            self@.distinct(),
    {
        proof {
            use_type_invariant(self);
        }
        self.frames.len()
    }

    /// Entry `i`, in the order in which the names first came; `None` where
    /// there are no more than `i` entries.
    pub fn frame(&self, i: usize) -> (f: Option<&Frame>)
        ensures
            f is Some <==> i < self@.frames.len(),
            f matches Some(entry) ==> entry@ == self@.frames[i as int],
    {
        if i < self.frames.len() {
            Some(&self.frames[i])
        } else {
            None
        }
    }

    /// What is recorded for `name`.
    pub fn get(&self, name: &str) -> (data: Option<TextureData>)
        ensures
            data == self@.get(name@),
    {
        proof {
            use_type_invariant(self);
        }
        let key = name.to_owned();
        let mut i: usize = 0;
        while i < self.frames.len()
            invariant
                i <= self.frames@.len(),
                key@ == name@,
                self@.distinct(),
                forall|j: int| 0 <= j < i ==> (#[trigger] self@.frames[j]).name != name@,
            decreases self.frames@.len() - i,
        {
            if self.frames[i].name == key {
                assert(self@.frames[i as int].name == name@);
                assert(self@.has(name@));
                assert(self@.index_of(name@) == i);
                return Some(self.frames[i].data);
            }
            i += 1;
        }
        assert(!self@.has(name@));
        None
    }
}

/// What the descriptor records for an image that has been given the box
/// `slot`: the box, and the image's stretch region as it is.
pub open spec fn frame_data(slot: Placement, nine_patch: Option<Rect>) -> TextureData {
    TextureData { x: slot.x, y: slot.y, width: slot.width, height: slot.height, nine_patch }
}

/// The descriptor of the first `n` images, recorded in order, each with its
/// box.
pub open spec fn described(images: Seq<ImageTexture>, slots: Seq<Placement>, n: int) -> AtlasView
    decreases n,
{
    if n <= 0 {
        AtlasView::empty()
    } else {
        described(images, slots, n - 1).insert(
            images[n - 1]@.name,
            frame_data(slots[n - 1], images[n - 1]@.nine_patch),
        )
    }
}

/// In the descriptor of a build no name has two entries, and a name has an
/// entry exactly when an image bears it.
pub proof fn lemma_described_names(images: Seq<ImageTexture>, slots: Seq<Placement>, n: int)
    requires
        0 <= n <= images.len(),
    ensures
        described(images, slots, n).distinct(),
        described(images, slots, n).sheet_path == Seq::<char>::empty(),
        forall|name: Seq<char>| #[trigger]
            described(images, slots, n).has(name) <==> exists|i: int|
                0 <= i < n && (#[trigger] images[i])@.name == name,
    decreases n,
{
    if n > 0 {
        let before = described(images, slots, n - 1);
        let name_n = images[n - 1]@.name;
        let data_n = frame_data(slots[n - 1], images[n - 1]@.nine_patch);
        lemma_described_names(images, slots, n - 1);
        before.lemma_insert(name_n, data_n);
        let after = before.insert(name_n, data_n);
        assert forall|name: Seq<char>| #[trigger]
            after.has(name) <==> exists|i: int| 0 <= i < n && (#[trigger] images[i])@.name
                == name by {
            if name == name_n {
                assert(after.get(name) is Some);
                assert(images[n - 1]@.name == name);
            } else {
                assert(after.get(name) == before.get(name));
                if before.has(name) {
                    let i = choose|i: int| 0 <= i < n - 1 && (#[trigger] images[i])@.name == name;
                    assert(images[i]@.name == name);
                } else if exists|i: int| 0 <= i < n && (#[trigger] images[i])@.name == name {
                    let i = choose|i: int| 0 <= i < n && (#[trigger] images[i])@.name == name;
                    assert(i < n - 1);
                    assert(images[i]@.name == name);
                }
            }
        }
    }
}

/// Where several images bear one name, the descriptor records the last of
/// them: for an image that no later image shares its name with, the entry
/// under its name is its own box and its own stretch region, unchanged.
pub proof fn lemma_last_image_wins(
    images: Seq<ImageTexture>,
    slots: Seq<Placement>,
    n: int,
    i: int,
)
    requires
        0 <= i < n <= images.len(),
        forall|j: int| i < j < n ==> (#[trigger] images[j])@.name != images[i]@.name,
    ensures
        described(images, slots, n).get(images[i]@.name) == Some(
            frame_data(slots[i], images[i]@.nine_patch),
        ),
    decreases n,
{
    let before = described(images, slots, n - 1);
    lemma_described_names(images, slots, n - 1);
    before.lemma_insert(images[n - 1]@.name, frame_data(slots[n - 1], images[n - 1]@.nine_patch));
    if i < n - 1 {
        lemma_last_image_wins(images, slots, n - 1, i);
        assert(images[n - 1]@.name != images[i]@.name);
    }
}

/// What a build gives: the sheet, its descriptor, and the layout that both
/// were made from.
pub struct Packed {
    pub sheet: Texture2D,
    pub atlas: PackerAtlas,
    pub layout: Layout,
}

/// What a build gives for the given images under the given maximum size:
/// the failure to pack them, or the layout that the packer gives, a sheet
/// that shows every image unchanged at its box and is transparent
/// elsewhere, and the descriptor of the images with their boxes, with no
/// sheet path yet.
pub open spec fn built(max_size: usize, images: Seq<ImageTexture>, r: Result<Packed, PackerError>)
    -> bool {
    match r {
        Ok(packed) => {
            &&& packed_layout(max_size, sizes_of(images)) == Some(packed.layout@)
            &&& packed.layout@.valid_for(sizes_of(images), max_size)
            &&& packed.sheet@.wf()
            &&& packed.sheet@.width == packed.layout.width
            &&& packed.sheet@.height == packed.layout.height
            &&& shows(packed.sheet@, packed.layout.slots@, images, images.len() as int)
            &&& packed.atlas@ == described(images, packed.layout.slots@, images.len() as int)
            &&& packed.atlas@.distinct()
        },
        Err(e) => {
            &&& e == PackerError::FailedToPacked
            &&& packed_layout(max_size, sizes_of(images)) is None
        },
    }
}

/// A build is repeatable: two builds of the same images under the same
/// maximum size both fail, or give the same layout, the same sheet, byte
/// for byte, and the same descriptor.
pub proof fn lemma_build_repeatable(
    max_size: usize,
    images: Seq<ImageTexture>,
    first: Result<Packed, PackerError>,
    second: Result<Packed, PackerError>,
)
    requires
        built(max_size, images, first),
        built(max_size, images, second),
    ensures
        first is Ok <==> second is Ok,
        first is Err ==> first->Err_0 == second->Err_0,
        first is Ok ==> {
            &&& first->Ok_0.layout@ == second->Ok_0.layout@
            &&& first->Ok_0.sheet@ == second->Ok_0.sheet@
            &&& first->Ok_0.atlas@ == second->Ok_0.atlas@
        },
{
    if first is Ok {
        let a = first->Ok_0;
        let b = second->Ok_0;
        let slots = a.layout.slots@;
        let n = images.len() as int;
        assert(a.layout@ == b.layout@);
        assert forall|px: int, py: int| a.sheet@.has(px, py) implies #[trigger] a.sheet@.pixel(
            px,
            py,
        ) == b.sheet@.pixel(px, py) by {
            if covered(slots, n, px, py) {
                let i = choose|i: int| 0 <= i < n && (#[trigger] slots[i]).contains(px, py);
                let qx = px - slots[i].x;
                let qy = py - slots[i].y;
                assert(sizes_of(images)[i] == images[i]@.size());
                assert(images[i]@.img.has(qx, qy));
                assert(a.sheet@.pixel(slots[i].x + qx, slots[i].y + qy) == images[i]@.img.pixel(
                    qx,
                    qy,
                ));
                assert(b.sheet@.pixel(slots[i].x + qx, slots[i].y + qy) == images[i]@.img.pixel(
                    qx,
                    qy,
                ));
            }
        }
        lemma_same_pixels(a.sheet@, b.sheet@);
    }
}

/// Every entry of the descriptor of a build is the box and the stretch
/// region of an image that bears the entry's name.
pub proof fn lemma_described_source(
    images: Seq<ImageTexture>,
    slots: Seq<Placement>,
    n: int,
    name: Seq<char>,
) -> (i: int)
    requires
        0 <= n <= images.len(),
        described(images, slots, n).has(name),
    ensures
        0 <= i < n,
        images[i]@.name == name,
        described(images, slots, n).get(name) == Some(
            frame_data(slots[i], images[i]@.nine_patch),
        ),
    decreases n,
{
    lemma_described_names(images, slots, n);
    let before = described(images, slots, n - 1);
    lemma_described_names(images, slots, n - 1);
    before.lemma_insert(images[n - 1]@.name, frame_data(slots[n - 1], images[n - 1]@.nine_patch));
    if images[n - 1]@.name == name {
        n - 1
    } else {
        assert(before.get(name) is Some);
        lemma_described_source(images, slots, n - 1, name)
    }
}

/// The frames of a descriptor never overlap: of any two names in the
/// descriptor of a build, whatever the images, empty ones too, the boxes
/// lie apart: on one axis at least, one ends where the other begins, or
/// before.
pub proof fn lemma_frames_apart(
    max_size: usize,
    images: Seq<ImageTexture>,
    r: Result<Packed, PackerError>,
    a: Seq<char>,
    b: Seq<char>,
)
    requires
        built(max_size, images, r),
        r is Ok,
        a != b,
        r->Ok_0.atlas@.has(a),
        r->Ok_0.atlas@.has(b),
    ensures
        ({
            let first = r->Ok_0.atlas@.get(a)->Some_0;
            let second = r->Ok_0.atlas@.get(b)->Some_0;
            ||| first.x + first.width <= second.x
            ||| second.x + second.width <= first.x
            ||| first.y + first.height <= second.y
            ||| second.y + second.height <= first.y
        }),
{
    let slots = r->Ok_0.layout.slots@;
    let n = images.len() as int;
    let i = lemma_described_source(images, slots, n, a);
    let j = lemma_described_source(images, slots, n, b);
    assert(slots[i].apart(slots[j]));
}

/// Some frame of the descriptor holds the sheet's pixel `(px, py)`.
pub open spec fn in_a_frame(atlas: AtlasView, px: int, py: int) -> bool {
    exists|k: int|
        0 <= k < atlas.frames.len() && (#[trigger] atlas.frames[k]).data.place().contains(px, py)
}

/// Where no two images bear one name, the sheet of a build is transparent
/// outside the frames of its descriptor.
pub proof fn lemma_outside_frames_is_clear(
    max_size: usize,
    images: Seq<ImageTexture>,
    r: Result<Packed, PackerError>,
)
    requires
        built(max_size, images, r),
        r is Ok,
        forall|i: int, j: int|
            0 <= i < j < images.len() ==> (#[trigger] images[i])@.name != (#[trigger] images[j])@.name,
    ensures
        forall|px: int, py: int|
            r->Ok_0.sheet@.has(px, py) && !in_a_frame(r->Ok_0.atlas@, px, py)
                ==> #[trigger] r->Ok_0.sheet@.pixel(px, py) == clear(),
{
    let packed = r->Ok_0;
    let slots = packed.layout.slots@;
    let atlas = packed.atlas@;
    let n = images.len() as int;
    assert forall|px: int, py: int|
        packed.sheet@.has(px, py) && !in_a_frame(atlas, px, py) implies #[trigger] packed.sheet@.pixel(
        px,
        py,
    ) == clear() by {
        if covered(slots, n, px, py) {
            let i = choose|i: int| 0 <= i < n && (#[trigger] slots[i]).contains(px, py);
            lemma_last_image_wins(images, slots, n, i);
            lemma_described_names(images, slots, n);
            let name = images[i]@.name;
            assert(atlas.get(name) is Some);
            let k = atlas.index_of(name);
            assert(atlas.frames[k].data.place() == slots[i]);
            assert(atlas.frames[k].data.place().contains(px, py));
        }
    }
}

/// Builds the atlas of the given images: packs their rectangles into a canvas
/// within the configured maximum, composes the sheet, and records every
/// image's box under its name, in the order of the images. The sheet's path
/// is left empty: it is known once the sheet has been written.
pub fn pack(config: &Config, images: &Vec<ImageTexture>) -> (r: Result<Packed, PackerError>)
    requires
        addressable(config.image_options.max_size),
    ensures
        built(config.image_options.max_size, images@, r),
{
    let max_size = config.image_options.max_size;
    let mut sizes: Vec<(u32, u32)> = Vec::new();
    let mut i: usize = 0;
    while i < images.len()
        invariant
            i <= images@.len(),
            sizes@ == sizes_of(images@).take(i as int),
        decreases images@.len() - i,
    {
        let img = images[i].img();
        sizes.push((img.width(), img.height()));
        assert(sizes@ =~= sizes_of(images@).take(i as int + 1));
        i += 1;
    }
    assert(sizes@ =~= sizes_of(images@));
    let layout = match pack_rects(max_size, &sizes) {
        Ok(layout) => layout,
        Err(e) => {
            return Err(e);
        },
    };
    assert(layout.width * layout.height * 4 <= max_size * max_size * 4) by (nonlinear_arith)
        requires
            layout.width <= max_size,
            layout.height <= max_size,
    ;
    let sheet = compose(&layout, images);
    let mut atlas = PackerAtlas::default();
    let mut k: usize = 0;
    while k < images.len()
        invariant
            k <= images@.len(),
            layout.slots@.len() == images@.len(),
            atlas@ == described(images@, layout.slots@, k as int),
        decreases images@.len() - k,
    {
        let slot = layout.slots[k];
        let image = &images[k];
        atlas.add(image.name(), slot.x, slot.y, slot.width, slot.height, image.nine_patch());
        k += 1;
    }
    proof {
        lemma_described_names(images@, layout.slots@, images@.len() as int);
    }
    Ok(Packed { sheet, atlas, layout })
}

} // verus!
