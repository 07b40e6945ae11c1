use vstd::prelude::*;

verus! {

/// Truncating division by two, rounding toward zero as `/` on machine integers does.
pub open spec fn half_toward_zero(s: int) -> int {
    if s >= 0 {
        s / 2
    } else {
        -((-s) / 2)
    }
}

/// An axis-aligned rectangle given by two corners. A room's floor is the
/// cells `x1 + 1 ..= x2` by `y1 + 1 ..= y2`.
#[derive(Clone, Copy, Debug, PartialEq, Eq, Structural)]
pub struct Rect {
    pub x1: i32,
    pub x2: i32,
    pub y1: i32,
    pub y2: i32,
}

impl Rect {
    /// A rectangle is well formed when it has a positive width and height.
    pub open spec fn wf(self) -> bool {
        self.x1 < self.x2 && self.y1 < self.y2
    }

    /// The closed spans of the two rectangles overlap on both axes; touching
    /// edges count as overlap.
    pub open spec fn overlaps(self, other: Rect) -> bool {
        self.x1 <= other.x2 && self.x2 >= other.x1 && self.y1 <= other.y2 && self.y2
            >= other.y1
    }

    pub open spec fn center_x(self) -> int {
        half_toward_zero(self.x1 + self.x2)
    }

    pub open spec fn center_y(self) -> int {
        half_toward_zero(self.y1 + self.y2)
    }

    /// The rectangle with origin `(x, y)`, `w` wide and `h` high.
    pub fn new(x: i32, y: i32, w: i32, h: i32) -> (r: Rect)
        requires
            w > 0,
            h > 0,
            x + w <= i32::MAX,
            y + h <= i32::MAX,
        ensures
            r.x1 == x,
            r.y1 == y,
            r.x2 == x + w,
            r.y2 == y + h,
            r.wf(),
    {
        Rect { x1: x, y1: y, x2: x + w, y2: y + h }
    }

    /// Whether this rectangle overlaps `other`, edges included.
    pub fn intersect(&self, other: &Rect) -> (r: bool)
        ensures
            r == self.overlaps(*other),
    {
        self.x1 <= other.x2 && self.x2 >= other.x1 && self.y1 <= other.y2 && self.y2 >= other.y1
    }

    /// The midpoint, each coordinate rounded toward zero.
    pub fn center(&self) -> (r: (i32, i32))
        ensures
            r.0 == self.center_x(),
            r.1 == self.center_y(),
    {
        (half_sum(self.x1, self.x2), half_sum(self.y1, self.y2))
    }
}

fn half_sum(a: i32, b: i32) -> (r: i32)
    ensures
        r == half_toward_zero(a + b),
{
    let s: i64 = a as i64 + b as i64;
    let h: i64 = if s >= 0 {
        s / 2
    } else {
        -((-s) / 2)
    };
    h as i32
}

/// Two rectangles that share one boundary coordinate (`a.x2 == b.x1`, or
/// `a.y2 == b.y1`) while their spans on the other axis overlap are reported as
/// intersecting, in either order.
pub proof fn lemma_touching_edges_intersect(a: Rect, b: Rect)
    requires
        a.wf(),
        b.wf(),
        (a.x2 == b.x1 && a.y1 <= b.y2 && b.y1 <= a.y2) || (a.y2 == b.y1 && a.x1 <= b.x2 && b.x1
            <= a.x2),
    ensures
        a.overlaps(b),
        b.overlaps(a),
{
}

} // verus!
