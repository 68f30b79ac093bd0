//! Lattice points, pixels, and the squared Euclidean distance between them.

use vstd::prelude::*;

verus! {

/// A position on the integer lattice of the plane. Anchors, candidates and
/// polygon vertices are points; they may lie outside any canvas.
#[derive(Clone, Copy, Debug, PartialEq, Eq, Structural)]
pub struct Point {
    pub x: i32,
    pub y: i32,
}

/// A pixel of a canvas, addressed by column and row.
#[derive(Clone, Copy, Debug, PartialEq, Eq, Structural)]
pub struct PixelPosition {
    pub x: u32,
    pub y: u32,
}

/// The extent of a rectangular region whose corner is the origin.
#[derive(Clone, Copy, Debug, PartialEq, Eq, Structural)]
pub struct Bounds {
    pub width: u64,
    pub height: u64,
}

/// The squared Euclidean distance between `(ax, ay)` and `(bx, by)`.
pub open spec fn squared_distance(ax: int, ay: int, bx: int, by: int) -> int {
    (ax - bx) * (ax - bx) + (ay - by) * (ay - by)
}

/// A squared distance is never negative, and it is the same in both directions.
pub proof fn lemma_squared_distance_basics(ax: int, ay: int, bx: int, by: int)
    ensures
        squared_distance(ax, ay, bx, by) >= 0,
        squared_distance(ax, ay, bx, by) == squared_distance(bx, by, ax, ay),
        squared_distance(ax, ay, bx, by) == 0 <==> (ax == bx && ay == by),
{
    assert((ax - bx) * (ax - bx) >= 0) by (nonlinear_arith);
    assert((ay - by) * (ay - by) >= 0) by (nonlinear_arith);
    assert((ax - bx) * (ax - bx) == (bx - ax) * (bx - ax)) by (nonlinear_arith);
    assert((ay - by) * (ay - by) == (by - ay) * (by - ay)) by (nonlinear_arith);
    assert((ax - bx) * (ax - bx) == 0 <==> ax == bx) by (nonlinear_arith);
    assert((ay - by) * (ay - by) == 0 <==> ay == by) by (nonlinear_arith);
}

/// The square of the difference of two numbers that both lie in `[lo, hi]`.
proof fn lemma_square_of_difference_bound(a: int, b: int, lo: int, hi: int)
    requires
        lo <= a <= hi,
        lo <= b <= hi,
    ensures
        0 <= (a - b) * (a - b) <= (hi - lo) * (hi - lo),
{
    assert(0 <= (a - b) * (a - b) <= (hi - lo) * (hi - lo)) by (nonlinear_arith)
        requires
            lo - hi <= a - b <= hi - lo,
    ;
}

/// The square of a distance, which fits in 64 bits.
pub fn squared(distance: u32) -> (square: u128)
    ensures
        square == distance * distance,
        square <= 0xffff_fffe_0000_0001,
{
    assert(0 <= distance * distance <= 0xffff_ffff * 0xffff_ffff) by (nonlinear_arith)
        requires
            0 <= distance <= 0xffff_ffff,
    ;
    assert(0xffff_ffff * 0xffff_ffff == 0xffff_fffe_0000_0001) by (nonlinear_arith);
    (distance as u128) * (distance as u128)
}

impl Point {
    /// The squared distance to another point, as a mathematical integer.
    pub open spec fn spec_squared_distance_from(self, other: Point) -> int {
        squared_distance(self.x as int, self.y as int, other.x as int, other.y as int)
    }

    /// The squared Euclidean distance between this point and `other`.
    pub fn squared_distance_from(&self, other: &Point) -> (distance: u128)
        ensures
            distance == self.spec_squared_distance_from(*other),
    {
        proof {
            lemma_square_of_difference_bound(
                self.x as int,
                other.x as int,
                -0x8000_0000,
                0x7fff_ffff,
            );
            lemma_square_of_difference_bound(
                self.y as int,
                other.y as int,
                -0x8000_0000,
                0x7fff_ffff,
            );
        }
        let dx: i128 = self.x as i128 - other.x as i128;
        let dy: i128 = self.y as i128 - other.y as i128;
        (dx * dx + dy * dy) as u128
    }
}

impl PixelPosition {
    /// The squared distance from this pixel to a point, as a mathematical integer.
    pub open spec fn spec_squared_distance_from(self, point: Point) -> int {
        squared_distance(self.x as int, self.y as int, point.x as int, point.y as int)
    }

    /// The squared Euclidean distance between this pixel and `point`. Four
    /// times the result still fits in 128 bits.
    pub fn squared_distance_from(&self, point: &Point) -> (distance: u128)
        ensures
            distance == self.spec_squared_distance_from(*point),
            distance <= 0x5_0000_0000_0000_0000,
    {
        proof {
            assert((0xffff_ffff - (-0x8000_0000)) * (0xffff_ffff - (-0x8000_0000))
                == 0x2_3fff_fffd_0000_0001) by (nonlinear_arith);
            lemma_square_of_difference_bound(
                self.x as int,
                point.x as int,
                -0x8000_0000,
                0xffff_ffff,
            );
            lemma_square_of_difference_bound(
                self.y as int,
                point.y as int,
                -0x8000_0000,
                0xffff_ffff,
            );
        }
        let dx: i128 = self.x as i128 - point.x as i128;
        let dy: i128 = self.y as i128 - point.y as i128;
        (dx * dx + dy * dy) as u128
    }
}

impl Bounds {
    /// The region is not empty: it has a width and a height.
    pub open spec fn wf(self) -> bool {
        self.width > 0 && self.height > 0
    }

    /// The bounds of a canvas of the given size.
    pub open spec fn spec_of_canvas(width: u32, height: u32) -> Bounds {
        Bounds { width: width as u64, height: height as u64 }
    }

    /// The bounds of a canvas of the given size. They are well-formed unless
    /// the canvas has no pixels.
    pub fn of_canvas(width: u32, height: u32) -> (bounds: Bounds)
        ensures
            bounds == Self::spec_of_canvas(width, height),
            bounds.wf() <==> width > 0 && height > 0,
    {
        Bounds { width: width as u64, height: height as u64 }
    }

    /// Whether `point` lies strictly inside the region: off its left and top
    /// edges and short of its right and bottom edges. No point lies inside
    /// bounds that are not well-formed.
    pub open spec fn spec_contains(self, point: Point) -> bool {
        0 < point.x < self.width && 0 < point.y < self.height
    }

    /// Whether `point` lies strictly inside the region.
    pub fn contains(&self, point: &Point) -> (inside: bool)
        ensures
            inside == self.spec_contains(*point),
    {
        point.x > 0 && (point.x as u64) < self.width && point.y > 0 && (point.y as u64)
            < self.height
    }
}

} // verus!
