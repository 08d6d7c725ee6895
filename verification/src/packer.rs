//! The rectangle packer: every rectangle gets a place in the smallest
//! power-of-two canvas that the packing heuristic finds within the configured
//! maximum. The heuristic is the `crunch` crate's; what it returns is checked
//! here before it is believed, so that a layout this module hands out is
//! always free of overlaps and within bounds.

use crate::error::PackerError;
use crate::geometry::{check_power_of_two, is_power_of_two, Placement};
use crunch::{Item, Rotation};
use vstd::prelude::*;

verus! {

/// One rectangle as the packing heuristic returned it: which input it is, and
/// the box it was given.
#[derive(Debug, Clone, Copy, PartialEq, Eq, Structural)]
pub struct PackedRect {
    pub index: usize,
    pub x: usize,
    pub y: usize,
    pub w: usize,
    pub h: usize,
}

/// What the packing heuristic returned: the canvas size and the rectangles,
/// in the heuristic's own order.
pub struct Packing {
    pub w: usize,
    pub h: usize,
    pub items: Vec<PackedRect>,
}

/// A checked layout: the canvas size, and for each input rectangle, in input
/// order, its box on the canvas.
pub struct Layout {
    pub width: u32,
    pub height: u32,
    pub slots: Vec<Placement>,
}

/// The mathematical value of a `Layout`.
pub struct LayoutView {
    pub width: u32,
    pub height: u32,
    pub slots: Seq<Placement>,
}

impl View for Layout {
    type V = LayoutView;

    open spec fn view(&self) -> LayoutView {
        LayoutView { width: self.width, height: self.height, slots: self.slots@ }
    }
}

impl LayoutView {
    /// The layout is a correct answer for rectangles of the given sizes: both
    /// canvas dimensions are powers of two within `max_size`, each rectangle
    /// keeps its size and lies within the canvas, and any two rectangles lie
    /// apart, empty ones too.
    pub open spec fn valid_for(self, sizes: Seq<(u32, u32)>, max_size: usize) -> bool {
        &&& is_power_of_two(self.width as int)
        &&& is_power_of_two(self.height as int)
        &&& self.width <= max_size
        &&& self.height <= max_size
        &&& self.places(sizes)
    }

    /// Every rectangle has a box of its own size within the canvas, and any
    /// two boxes lie apart: on one axis at least, one ends where the other
    /// begins, or before. So no two boxes have a pixel in common.
    pub open spec fn places(self, sizes: Seq<(u32, u32)>) -> bool {
        &&& self.slots.len() == sizes.len()
        &&& forall|i: int|
            0 <= i < sizes.len() ==> {
                &&& (#[trigger] self.slots[i]).width == sizes[i].0
                &&& self.slots[i].height == sizes[i].1
                &&& self.slots[i].inside(self.width as int, self.height as int)
            }
        &&& forall|i: int, j: int|
            0 <= i < sizes.len() && 0 <= j < sizes.len() && i != j ==> (#[trigger] self.slots[i]).apart(
                #[trigger] self.slots[j],
            )
    }
}

/// The sum of the rectangles' areas, in pixels.
pub open spec fn total_area(sizes: Seq<(u32, u32)>) -> nat
    decreases sizes.len(),
{
    if sizes.len() == 0 {
        0
    } else {
        total_area(sizes.drop_last()) + (sizes.last().0 * sizes.last().1) as nat
    }
}

/// Some rectangle is wider or higher than the largest canvas.
pub open spec fn has_oversized(sizes: Seq<(u32, u32)>, max_size: usize) -> bool {
    exists|i: int| 0 <= i < sizes.len() && (sizes[i].0 > max_size || sizes[i].1 > max_size)
}

/// A canvas of `max_size` by `max_size` pixels, at four bytes a pixel, is no
/// larger than a buffer can be on this machine.
pub open spec fn addressable(max_size: usize) -> bool {
    max_size * max_size * 4 <= isize::MAX
}

/// Tells whether a canvas of `max_size` by `max_size` pixels can be held.
pub fn is_addressable(max_size: usize) -> (r: bool)
    ensures
        r == addressable(max_size),
{
    match max_size.checked_mul(max_size) {
        Some(square) => {
            assert(square == max_size * max_size);
            square <= isize::MAX as usize / 4
        },
        None => {
            assert(max_size * max_size * 4 >= max_size * max_size) by (nonlinear_arith);
            false
        },
    }
}

/// What `crunch::pack_into_po2` returns for rectangles of these sizes, none of
/// which may be rotated, each tagged with its index in `sizes`: `None` where
/// it reports failure, else the canvas width, the canvas height and the packed
/// rectangles in the order in which it returns them.
pub uninterp spec fn po2_packing(max_size: usize, sizes: Seq<(u32, u32)>) -> Option<
    (usize, usize, Seq<PackedRect>),
>;

/// Calls `crunch::pack_into_po2` with one item per entry of `sizes`, in order,
/// rotation disabled, the entry's index as the item's data. The contract only
/// gives the result its name: nothing is claimed of what the heuristic
/// computes. The `requires` keeps out the inputs on which its unchecked
/// arithmetic on areas and on the doubled canvas size would overflow.
#[verifier::external_body]
fn crunch_pack_into_po2(max_size: usize, sizes: &Vec<(u32, u32)>) -> (r: Option<Packing>)
    requires
        addressable(max_size),
        total_area(sizes@) <= max_size * max_size,
    ensures
        r matches Some(p) ==> po2_packing(max_size, sizes@) == Some((p.w, p.h, p.items@)),
        r is None ==> po2_packing(max_size, sizes@) is None,
{
    let items = sizes.iter().enumerate().map(
        |(i, s)| Item::new(i, s.0 as usize, s.1 as usize, Rotation::None),
    );
    let (w, h, packed) = crunch::pack_into_po2(max_size, items).ok()?;
    let rects = packed.into_iter().map(
        |(r, i)| PackedRect { index: i, x: r.x, y: r.y, w: r.w, h: r.h },
    );
    Some(Packing { w, h, items: rects.collect() })
}

/// The box of a packed rectangle, in the 32-bit coordinates of the canvas.
pub open spec fn slot_of(it: PackedRect) -> Placement {
    Placement { x: it.x as u32, y: it.y as u32, width: it.w as u32, height: it.h as u32 }
}

/// The packed rectangle stands for one of the inputs, has that input's size
/// and lies within the canvas.
pub open spec fn item_ok(it: PackedRect, sizes: Seq<(u32, u32)>, w: usize, h: usize) -> bool {
    &&& it.index < sizes.len()
    &&& it.w == sizes[it.index as int].0
    &&& it.h == sizes[it.index as int].1
    &&& it.x + it.w <= w
    &&& it.y + it.h <= h
}

/// Some packed rectangle stands for input `i`.
pub open spec fn is_placed(items: Seq<PackedRect>, i: int) -> bool {
    exists|k: int| 0 <= k < items.len() && (#[trigger] items[k]).index == i
}

/// What is asked of a packing before it becomes a layout.
pub open spec fn packing_ok(
    w: usize,
    h: usize,
    items: Seq<PackedRect>,
    sizes: Seq<(u32, u32)>,
    max_size: usize,
) -> bool {
    &&& is_power_of_two(w as int)
    &&& is_power_of_two(h as int)
    &&& w <= max_size
    &&& h <= max_size
    &&& w <= u32::MAX
    &&& h <= u32::MAX
    &&& items.len() == sizes.len()
    &&& forall|k: int| 0 <= k < items.len() ==> item_ok(#[trigger] items[k], sizes, w, h)
    &&& forall|i: int| 0 <= i < sizes.len() ==> #[trigger] is_placed(items, i)
    &&& forall|a: int, b: int|
        0 <= a < b < items.len() ==> slot_of(#[trigger] items[a]).apart(
            slot_of(#[trigger] items[b]),
        )
}

/// The box that stands for an input until an item with its index is met.
pub open spec fn unplaced() -> Placement {
    Placement { x: 0, y: 0, width: 0, height: 0 }
}

/// The boxes of the packed rectangles, brought into the order of the inputs:
/// entry `i` is the box of the last item whose index is `i`.
pub open spec fn arrange(items: Seq<PackedRect>, n: nat) -> Seq<Placement>
    decreases items.len(),
{
    if items.len() == 0 {
        Seq::new(n, |i: int| unplaced())
    } else {
        let rest = arrange(items.drop_last(), n);
        let it = items.last();
        if it.index < n {
            rest.update(it.index as int, slot_of(it))
        } else {
            rest
        }
    }
}

/// The layout that a packing stands for, or `None` where the packing fails
/// one of the checks of `packing_ok`.
pub open spec fn checked_layout(
    w: usize,
    h: usize,
    items: Seq<PackedRect>,
    sizes: Seq<(u32, u32)>,
    max_size: usize,
) -> Option<LayoutView> {
    if packing_ok(w, h, items, sizes, max_size) {
        Some(LayoutView { width: w as u32, height: h as u32, slots: arrange(items, sizes.len()) })
    } else {
        None
    }
}

/// The layout for rectangles of the given sizes: `None` where a rectangle is
/// wider or higher than `max_size`, where the rectangles together cover more
/// than the largest canvas, where the heuristic gives up, and where what it
/// returns does not pass the checks.
pub open spec fn packed_layout(max_size: usize, sizes: Seq<(u32, u32)>) -> Option<LayoutView> {
    if has_oversized(sizes, max_size) || total_area(sizes) > max_size * max_size {
        None
    } else {
        match po2_packing(max_size, sizes) {
            Some((w, h, items)) => checked_layout(w, h, items, sizes, max_size),
            None => None,
        }
    }
}

proof fn lemma_arrange_len(items: Seq<PackedRect>, n: nat)
    ensures
        arrange(items, n).len() == n,
    decreases items.len(),
{
    if items.len() > 0 {
        lemma_arrange_len(items.drop_last(), n);
    }
}

/// Entry `i` of the arranged boxes is the box of some item with index `i`,
/// where there is one.
proof fn lemma_arrange_source(items: Seq<PackedRect>, n: nat, i: int) -> (k: int)
    requires
        0 <= i < n,
        is_placed(items, i),
    ensures
        0 <= k < items.len(),
        items[k].index == i,
        arrange(items, n)[i] == slot_of(items[k]),
    decreases items.len(),
{
    lemma_arrange_len(items.drop_last(), n);
    let last = items.len() - 1;
    if items[last].index == i {
        last
    } else {
        let j = choose|j: int| 0 <= j < items.len() && (#[trigger] items[j]).index == i;
        assert(items.drop_last()[j].index == i);
        assert(is_placed(items.drop_last(), i));
        let k = lemma_arrange_source(items.drop_last(), n, i);
        assert(items.drop_last()[k] == items[k]);
        k
    }
}

/// A packing that passes the checks gives a layout that is valid for the
/// inputs.
pub proof fn lemma_checked_layout_valid(
    w: usize,
    h: usize,
    items: Seq<PackedRect>,
    sizes: Seq<(u32, u32)>,
    max_size: usize,
)
    requires
        packing_ok(w, h, items, sizes, max_size),
    ensures
        checked_layout(w, h, items, sizes, max_size)->Some_0.valid_for(sizes, max_size),
{
    let n = sizes.len();
    let slots = arrange(items, n);
    lemma_arrange_len(items, n);
    assert forall|i: int| 0 <= i < n implies {
        &&& (#[trigger] slots[i]).width == sizes[i].0
        &&& slots[i].height == sizes[i].1
        &&& slots[i].inside(w as int, h as int)
    } by {
        let k = lemma_arrange_source(items, n, i);
        assert(item_ok(items[k], sizes, w, h));
    }
    assert forall|i: int, j: int| 0 <= i < n && 0 <= j < n && i != j implies (
    #[trigger] slots[i]).apart(#[trigger] slots[j]) by {
        let a = lemma_arrange_source(items, n, i);
        let b = lemma_arrange_source(items, n, j);
        if a < b {
            assert(slot_of(items[a]).apart(slot_of(items[b])));
        } else {
            assert(b < a);
            assert(slot_of(items[b]).apart(slot_of(items[a])));
        }
    }
}

/// Checks what the packing heuristic returned, and brings the boxes into the
/// order of the inputs. The result is `None` exactly where a check of
/// `packing_ok` fails.
pub fn check_packing(packing: &Packing, sizes: &Vec<(u32, u32)>, max_size: usize) -> (r: Option<
    Layout,
>)
    ensures
        match r {
            Some(layout) => checked_layout(packing.w, packing.h, packing.items@, sizes@, max_size)
                == Some(layout@),
            None => checked_layout(packing.w, packing.h, packing.items@, sizes@, max_size) is None,
        },
        r matches Some(layout) ==> layout@.valid_for(sizes@, max_size),
{
    let n = sizes.len();
    let w = packing.w;
    let h = packing.h;
    let ghost items = packing.items@;
    if !check_power_of_two(w) || !check_power_of_two(h) || w > max_size || h > max_size || w
        > u32::MAX as usize || h > u32::MAX as usize || packing.items.len() != n {
        return None;
    }
    let mut slots: Vec<Placement> = Vec::new();
    let mut seen: Vec<bool> = Vec::new();
    let mut i: usize = 0;
    while i < n
        invariant
            i <= n,
            slots@.len() == i,
            seen@.len() == i,
            forall|j: int| 0 <= j < i ==> slots@[j] == unplaced(),
            forall|j: int| 0 <= j < i ==> !seen@[j],
        decreases n - i,
    {
        slots.push(Placement { x: 0, y: 0, width: 0, height: 0 });
        seen.push(false);
        i += 1;
    }
    assert(slots@ =~= arrange(items.take(0), n as nat));
    assert forall|m: int| 0 <= m < n implies #[trigger] seen@[m] == is_placed(items.take(0), m) by {
    }
    let mut k: usize = 0;
    while k < n
        invariant
            k <= n,
            n == sizes@.len(),
            n == packing.items@.len(),
            items == packing.items@,
            w == packing.w,
            h == packing.h,
            w <= u32::MAX,
            h <= u32::MAX,
            slots@ == arrange(items.take(k as int), n as nat),
            slots@.len() == n,
            seen@.len() == n,
            forall|j: int| 0 <= j < k ==> item_ok(#[trigger] items[j], sizes@, w, h),
            forall|i: int| 0 <= i < n ==> #[trigger] seen@[i] == is_placed(items.take(k as int), i),
        decreases n - k,
    {
        let it = packing.items[k];
        if it.index >= n {
            assert(!item_ok(items[k as int], sizes@, w, h));
            return None;
        }
        let size = sizes[it.index];
        if it.w != size.0 as usize || it.h != size.1 as usize || it.x > w || it.w > w - it.x || it.y
            > h || it.h > h - it.y {
            assert(!item_ok(items[k as int], sizes@, w, h));
            return None;
        }
        let slot = Placement {
            x: it.x as u32,
            y: it.y as u32,
            width: it.w as u32,
            height: it.h as u32,
        };
        assert(slot == slot_of(it));
        let ghost seen_before = seen@;
        slots.set(it.index, slot);
        seen.set(it.index, true);
        proof {
            let next = items.take(k as int + 1);
            assert(next.drop_last() =~= items.take(k as int));
            assert(next.last() == it);
            let before = items.take(k as int);
            assert forall|i: int| 0 <= i < n implies #[trigger] seen@[i] == is_placed(next, i) by {
                if i == it.index {
                    assert(next[k as int].index == i);
                } else if is_placed(before, i) {
                    let j = choose|j: int| 0 <= j < before.len() && (#[trigger] before[j]).index == i;
                    assert(next[j].index == i);
                } else if is_placed(next, i) {
                    let j = choose|j: int| 0 <= j < next.len() && (#[trigger] next[j]).index == i;
                    assert(before[j].index == i);
                }
            }
        }
        k += 1;
    }
    assert(items.take(n as int) =~= items);
    let mut i: usize = 0;
    while i < n
        invariant
            i <= n,
            seen@.len() == n,
            n == items.len(),
            n == sizes@.len(),
            items == packing.items@,
            forall|m: int| 0 <= m < n ==> #[trigger] seen@[m] == is_placed(items, m),
            forall|m: int| 0 <= m < i ==> #[trigger] is_placed(items, m),
        decreases n - i,
    {
        if !seen[i] {
            assert(!is_placed(items, i as int));
            return None;
        }
        i += 1;
    }
    let mut a: usize = 0;
    while a < n
        invariant
            a <= n,
            n == packing.items@.len(),
            items == packing.items@,
            w <= u32::MAX,
            h <= u32::MAX,
            forall|j: int| 0 <= j < n ==> item_ok(#[trigger] items[j], sizes@, w, h),
            forall|p: int, q: int|
                0 <= p < a && p < q < n ==> slot_of(#[trigger] items[p]).apart(
                    slot_of(#[trigger] items[q]),
                ),
        decreases n - a,
    {
        let first = packing.items[a];
        let first_slot = Placement {
            x: first.x as u32,
            y: first.y as u32,
            width: first.w as u32,
            height: first.h as u32,
        };
        let mut b: usize = a + 1;
        while b < n
            invariant
                a < b <= n,
                n == packing.items@.len(),
                items == packing.items@,
                w <= u32::MAX,
                h <= u32::MAX,
                forall|j: int| 0 <= j < n ==> item_ok(#[trigger] items[j], sizes@, w, h),
                first == items[a as int],
                first_slot == slot_of(first),
                forall|q: int|
                    a < q < b ==> slot_of(items[a as int]).apart(slot_of(#[trigger] items[q])),
            decreases n - b,
        {
            let second = packing.items[b];
            let second_slot = Placement {
                x: second.x as u32,
                y: second.y as u32,
                width: second.w as u32,
                height: second.h as u32,
            };
            if !first_slot.is_apart(&second_slot) {
                assert(!slot_of(items[a as int]).apart(slot_of(items[b as int])));
                return None;
            }
            b += 1;
        }
        a += 1;
    }
    proof {
        assert(packing_ok(w, h, items, sizes@, max_size));
        lemma_checked_layout_valid(w, h, items, sizes@, max_size);
    }
    Some(Layout { width: w as u32, height: h as u32, slots })
}

/// Packs rectangles of the given sizes, in fixed orientation, into a canvas
/// whose dimensions are powers of two within `max_size`.
///
/// Whatever the heuristic does, a layout that is returned is valid for the
/// inputs; and the call fails where a rectangle is wider or higher than
/// `max_size`, or where the rectangles together cover more than the largest
/// canvas.
pub fn pack_rects(max_size: usize, sizes: &Vec<(u32, u32)>) -> (r: Result<Layout, PackerError>)
    requires
        addressable(max_size),
    ensures
        match r {
            Ok(layout) => packed_layout(max_size, sizes@) == Some(layout@),
            Err(e) => e == PackerError::FailedToPacked && packed_layout(max_size, sizes@) is None,
        },
        r matches Ok(layout) ==> layout@.valid_for(sizes@, max_size),
        has_oversized(sizes@, max_size) ==> r is Err,
        total_area(sizes@) > max_size * max_size ==> r is Err,
{
    let square = max_size * max_size;
    let mut total: usize = 0;
    let mut i: usize = 0;
    while i < sizes.len()
        invariant
            i <= sizes.len(),
            square == max_size * max_size,
            addressable(max_size),
            total == total_area(sizes@.take(i as int)),
            total <= square,
            forall|j: int| 0 <= j < i ==> sizes@[j].0 <= max_size && sizes@[j].1 <= max_size,
        decreases sizes.len() - i,
    {
        let size = sizes[i];
        if size.0 as usize > max_size || size.1 as usize > max_size {
            return Err(PackerError::FailedToPacked);
        }
        assert(size.0 * size.1 <= max_size * max_size) by (nonlinear_arith)
            requires
                size.0 <= max_size,
                size.1 <= max_size,
        ;
        let area = size.0 as usize * size.1 as usize;
        proof {
            assert(sizes@.take(i as int + 1).drop_last() =~= sizes@.take(i as int));
            lemma_total_area_grows(sizes@, i as int + 1);
        }
        if area > square - total {
            return Err(PackerError::FailedToPacked);
        }
        total = total + area;
        i += 1;
    }
    assert(sizes@.take(sizes.len() as int) =~= sizes@);
    match crunch_pack_into_po2(max_size, sizes) {
        Some(packing) => match check_packing(&packing, sizes, max_size) {
            Some(layout) => Ok(layout),
            None => Err(PackerError::FailedToPacked),
        },
        None => Err(PackerError::FailedToPacked),
    }
}

/// The area of the first `n` rectangles is no more than the area of all.
proof fn lemma_total_area_grows(sizes: Seq<(u32, u32)>, n: int)
    requires
        0 <= n <= sizes.len(),
    ensures
        total_area(sizes.take(n)) <= total_area(sizes),
    decreases sizes.len() - n,
{
    if n == sizes.len() {
        assert(sizes.take(n) =~= sizes);
    } else {
        lemma_total_area_grows(sizes, n + 1);
        assert(sizes.take(n + 1).drop_last() =~= sizes.take(n));
    }
}

} // verus!
