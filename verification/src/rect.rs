use vstd::prelude::*;

verus! {

/// Largest magnitude a coordinate or an extent may have when a rectangle is
/// built, so that the far corner is computed without overflow.
pub const RECT_COORD_LIMIT: i32 = 0x3fff_ffff;

/// An axis-aligned room rectangle with corners `(x1, y1)` and `(x2, y2)`.
#[derive(PartialEq, Eq, Structural, Copy, Clone, Debug)]
pub struct Rect {
    pub x1: i32,
    pub x2: i32,
    pub y1: i32,
    pub y2: i32,
}

impl Rect {
    /// Two rectangles overlap when both of their closed axis intervals do.
    pub open spec fn overlaps(self, other: Rect) -> bool {
        &&& self.x1 <= other.x2
        &&& self.x2 >= other.x1
        &&& self.y1 <= other.y2
        &&& self.y2 >= other.y1
    }

    /// The midpoint of the rectangle, each coordinate rounded toward zero.
    pub open spec fn spec_center(self) -> (int, int) {
        (trunc_half(self.x1 + self.x2), trunc_half(self.y1 + self.y2))
    }

    /// A rectangle whose upper left corner is `(x, y)` and whose lower right
    /// corner is `(x + w, y + h)`.
    pub fn new(x: i32, y: i32, w: i32, h: i32) -> (r: Rect)
        requires
            -RECT_COORD_LIMIT <= x <= RECT_COORD_LIMIT,
            -RECT_COORD_LIMIT <= y <= RECT_COORD_LIMIT,
            -RECT_COORD_LIMIT <= w <= RECT_COORD_LIMIT,
            -RECT_COORD_LIMIT <= h <= RECT_COORD_LIMIT,
        ensures
            r.x1 == x,
            r.y1 == y,
            r.x2 == x + w,
            r.y2 == y + h,
    {
        Rect { x1: x, y1: y, x2: x + w, y2: y + h }
    }

    /// Whether this rectangle overlaps `other`.
    pub fn intersect(&self, other: &Rect) -> (b: bool)
        ensures
            b == self.overlaps(*other),
    {
        let not_disjoint_in_x = self.x1 <= other.x2 && self.x2 >= other.x1;
        let not_disjoint_in_y = self.y1 <= other.y2 && self.y2 >= other.y1;
        not_disjoint_in_x && not_disjoint_in_y
    }

    /// The center of the rectangle.
    pub fn center(&self) -> (c: (i32, i32))
        requires
            i32::MIN <= self.x1 + self.x2 <= i32::MAX,
            i32::MIN <= self.y1 + self.y2 <= i32::MAX,
        ensures
            (c.0 as int, c.1 as int) == self.spec_center(),
    {
        ((self.x1 + self.x2) / 2, (self.y1 + self.y2) / 2)
    }
}

/// Half of `n`, rounded toward zero as machine division does.
pub open spec fn trunc_half(n: int) -> int {
    if n >= 0 {
        n / 2
    } else {
        -((-n) / 2)
    }
}

/// Overlap is symmetric.
pub proof fn lemma_overlap_symmetric(a: Rect, b: Rect)
    ensures
        a.overlaps(b) == b.overlaps(a),
{
}

} // verus!
