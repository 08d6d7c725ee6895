//! Rectangles on the canvas: where a frame lies, when two frames overlap,
//! and which canvas sizes count as powers of two.

use vstd::arithmetic::power2::{lemma_pow2_strictly_increases, lemma_pow2_unfold, pow2};
use vstd::prelude::*;

verus! {

/// A stretch region (nine-patch), in the coordinates of the frame it belongs
/// to: relative to the frame's own top-left corner.
#[derive(Debug, Clone, Copy, PartialEq, Eq, Structural)]
pub struct Rect {
    pub x: u32,
    pub y: u32,
    pub w: u32,
    pub h: u32,
}

impl Rect {
    /// The region lies within a frame of the given size.
    pub open spec fn fits(self, width: u32, height: u32) -> bool {
        self.x + self.w <= width && self.y + self.h <= height
    }

    /// Tells whether the region lies within a frame of the given size.
    pub fn fits_within(&self, width: u32, height: u32) -> (r: bool)
        ensures
            r == self.fits(width, height),
    {
        self.x <= width && self.w <= width - self.x && self.y <= height && self.h <= height
            - self.y
    }
}

/// The box `[x, x + width) x [y, y + height)` that a frame takes on the canvas.
#[derive(Debug, Clone, Copy, PartialEq, Eq, Structural)]
pub struct Placement {
    pub x: u32,
    pub y: u32,
    pub width: u32,
    pub height: u32,
}

impl Placement {
    /// The first column to the right of the box.
    pub open spec fn right(self) -> int {
        self.x + self.width
    }

    /// The first row below the box.
    pub open spec fn bottom(self) -> int {
        self.y + self.height
    }

    /// The pixel `(px, py)` of the canvas lies in the box.
    pub open spec fn contains(self, px: int, py: int) -> bool {
        self.x <= px < self.right() && self.y <= py < self.bottom()
    }

    /// The box holds no pixel.
    pub open spec fn is_empty(self) -> bool {
        self.width == 0 || self.height == 0
    }

    /// The two boxes have a pixel in common.
    pub open spec fn overlaps(self, other: Placement) -> bool {
        exists|px: int, py: int| self.contains(px, py) && other.contains(px, py)
    }

    /// The two boxes lie apart: on one axis at least, one ends where the
    /// other begins, or before.
    pub open spec fn apart(self, other: Placement) -> bool {
        ||| self.right() <= other.x
        ||| other.right() <= self.x
        ||| self.bottom() <= other.y
        ||| other.bottom() <= self.y
    }

    /// The box lies within a canvas of the given size.
    pub open spec fn inside(self, width: int, height: int) -> bool {
        self.right() <= width && self.bottom() <= height
    }

    /// Boxes that lie apart have no pixel in common; and boxes that hold a
    /// pixel each and have none in common lie apart.
    pub proof fn lemma_apart(self, other: Placement)
        ensures
            self.apart(other) ==> !self.overlaps(other),
            !self.is_empty() && !other.is_empty() && !self.overlaps(other) ==> self.apart(other),
    {
        if !self.is_empty() && !other.is_empty() && !self.apart(other) {
            let px = if self.x >= other.x {
                self.x as int
            } else {
                other.x as int
            };
            let py = if self.y >= other.y {
                self.y as int
            } else {
                other.y as int
            };
            assert(self.contains(px, py) && other.contains(px, py));
        }
    }

    /// Tells whether the two boxes lie apart.
    pub fn is_apart(&self, other: &Placement) -> (r: bool)
        ensures
            r == self.apart(*other),
    {
        let self_right: u64 = self.x as u64 + self.width as u64;
        let self_bottom: u64 = self.y as u64 + self.height as u64;
        let other_right: u64 = other.x as u64 + other.width as u64;
        let other_bottom: u64 = other.y as u64 + other.height as u64;
        self_right <= other.x as u64 || other_right <= self.x as u64 || self_bottom
            <= other.y as u64 || other_bottom <= self.y as u64
    }
}

/// `n` is one of 1, 2, 4, 8, ...
pub open spec fn is_power_of_two(n: int) -> bool {
    exists|k: nat| n == pow2(k)
}

/// Tells whether `n` is a power of two.
pub fn check_power_of_two(n: usize) -> (r: bool)
    ensures
        r == is_power_of_two(n as int),
{
    let mut p: usize = 1;
    let ghost mut k: nat = 0;
    proof {
        lemma_pow2_unfold(1);
        assert(pow2(0) == 1) by {
            vstd::arithmetic::power2::lemma2_to64();
        }
    }
    while p < n && p <= usize::MAX / 2
        invariant
            p >= 1,
            p == pow2(k),
            forall|j: nat| j < k ==> pow2(j) < n,
        decreases usize::MAX - p,
    {
        proof {
            lemma_pow2_unfold(k + 1);
            assert forall|j: nat| j < k + 1 implies pow2(j) < n by {
                if j == k {
                } else {
                    assert(j < k);
                }
            }
            k = k + 1;
        }
        p = p * 2;
    }
    if p == n {
        true
    } else {
        proof {
            assert forall|j: nat| n != pow2(j) by {
                if j < k {
                } else if j == k {
                } else {
                    lemma_pow2_strictly_increases(k, j);
                    if p < n {
                        lemma_pow2_strictly_increases(k, k + 1);
                        lemma_pow2_unfold(k + 1);
                        if j > k + 1 {
                            lemma_pow2_strictly_increases(k + 1, j);
                        }
                    }
                }
            }
        }
        false
    }
}

} // verus!
