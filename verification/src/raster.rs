//! The cellular pattern: which anchor governs a pixel, and the canvas that
//! comes of painting every pixel in the colour of its anchor.
//!
//! The anchor that governs a pixel is found in one pass over the anchors, in
//! the order in which they were generated, and that pass is not a plain
//! search for the nearest one: an anchor closer to the pixel than half the
//! minimum distance takes the pixel whatever was found before it. Where the
//! anchors keep the minimum distance the two agree, which is proved below.

use vstd::prelude::*;
use crate::canvas::{
    blank_pixels, buffer_length, canvas_height, canvas_pixels, canvas_width, on_canvas, Canvas,
    Rgba8,
};
use crate::geometry::{
    lemma_squared_distance_basics, squared, squared_distance, PixelPosition, Point,
};
use crate::sampler::{keeps_distance, pairwise_separated};

verus! {

/// The width of a band of columns, which is also the number of columns that
/// are worked on side by side.
pub const BAND_WIDTH: u32 = 10;

/// One seed of the cellular pattern: where it lies and the colour of its cell.
#[derive(Clone, Copy, Debug, PartialEq, Eq, Structural)]
pub struct Anchor {
    pub point: Point,
    pub color: Rgba8,
}

/// Whether `anchor` is closer to `pixel` than half the minimum distance.
pub open spec fn within_inner_threshold(
    pixel: PixelPosition,
    anchor: Anchor,
    minimum_distance: int,
) -> bool {
    4 * pixel.spec_squared_distance_from(anchor.point) < minimum_distance * minimum_distance
}

/// Whether any of `anchors` is closer to `pixel` than half the minimum distance.
pub open spec fn any_within_inner_threshold(
    pixel: PixelPosition,
    anchors: Seq<Anchor>,
    minimum_distance: int,
) -> bool {
    exists|i: int|
        0 <= i < anchors.len() && within_inner_threshold(
            pixel,
            #[trigger] anchors[i],
            minimum_distance,
        )
}

/// Whether the anchor at index `k` governs `pixel`. If any anchor is closer
/// than half the minimum distance, the last such anchor in the list governs.
/// Otherwise the nearest anchor governs, and of several nearest ones the
/// first in the list.
pub open spec fn governs(
    pixel: PixelPosition,
    anchors: Seq<Anchor>,
    minimum_distance: int,
    k: int,
) -> bool {
    &&& 0 <= k < anchors.len()
    &&& if any_within_inner_threshold(pixel, anchors, minimum_distance) {
        &&& within_inner_threshold(pixel, anchors[k], minimum_distance)
        &&& forall|i: int|
            k < i < anchors.len() ==> !within_inner_threshold(
                pixel,
                #[trigger] anchors[i],
                minimum_distance,
            )
    } else {
        &&& forall|i: int|
            0 <= i < k ==> pixel.spec_squared_distance_from((#[trigger] anchors[i]).point)
                > pixel.spec_squared_distance_from(anchors[k].point)
        &&& forall|i: int|
            k < i < anchors.len() ==> pixel.spec_squared_distance_from(
                (#[trigger] anchors[i]).point,
            ) >= pixel.spec_squared_distance_from(anchors[k].point)
    }
}

/// The index of the anchor that governs `pixel`.
pub open spec fn governing_index(
    pixel: PixelPosition,
    anchors: Seq<Anchor>,
    minimum_distance: int,
) -> int {
    choose|k: int| governs(pixel, anchors, minimum_distance, k)
}

/// The anchor that governs `pixel`, or `None` when there is no anchor.
pub open spec fn governing_anchor(
    pixel: PixelPosition,
    anchors: Seq<Anchor>,
    minimum_distance: int,
) -> Option<Anchor> {
    if anchors.len() == 0 {
        None
    } else {
        Some(anchors[governing_index(pixel, anchors, minimum_distance)])
    }
}

/// At most one anchor governs a pixel.
pub proof fn lemma_governs_unique(
    pixel: PixelPosition,
    anchors: Seq<Anchor>,
    minimum_distance: int,
    j: int,
    k: int,
)
    requires
        governs(pixel, anchors, minimum_distance, j),
        governs(pixel, anchors, minimum_distance, k),
    ensures
        j == k,
{
    if any_within_inner_threshold(pixel, anchors, minimum_distance) {
        if j < k {
            assert(!within_inner_threshold(pixel, anchors[k], minimum_distance));
        } else if k < j {
            assert(!within_inner_threshold(pixel, anchors[j], minimum_distance));
        }
    } else {
        if j < k {
            assert(pixel.spec_squared_distance_from(anchors[j].point)
                > pixel.spec_squared_distance_from(anchors[k].point));
            assert(pixel.spec_squared_distance_from(anchors[k].point)
                >= pixel.spec_squared_distance_from(anchors[j].point));
        } else if k < j {
            assert(pixel.spec_squared_distance_from(anchors[k].point)
                > pixel.spec_squared_distance_from(anchors[j].point));
            assert(pixel.spec_squared_distance_from(anchors[j].point)
                >= pixel.spec_squared_distance_from(anchors[k].point));
        }
    }
}

/// The anchor at an index that governs is the governing anchor.
pub proof fn lemma_governing_anchor_is(
    pixel: PixelPosition,
    anchors: Seq<Anchor>,
    minimum_distance: int,
    k: int,
)
    requires
        governs(pixel, anchors, minimum_distance, k),
    ensures
        governing_index(pixel, anchors, minimum_distance) == k,
        governing_anchor(pixel, anchors, minimum_distance) == Some(anchors[k]),
{
    lemma_governs_unique(
        pixel,
        anchors,
        minimum_distance,
        governing_index(pixel, anchors, minimum_distance),
        k,
    );
}

/// The positions of `anchors`, in their order.
pub open spec fn anchor_points(anchors: Seq<Anchor>) -> Seq<Point> {
    Seq::new(anchors.len(), |i: int| anchors[i].point)
}

/// Where there is an anchor, one of them governs.
pub proof fn lemma_governs_exists(pixel: PixelPosition, anchors: Seq<Anchor>, minimum_distance: int)
    requires
        anchors.len() > 0,
    ensures
        governs(
            pixel,
            anchors,
            minimum_distance,
            governing_index(pixel, anchors, minimum_distance),
        ),
    decreases anchors.len(),
{
    let last = anchors.len() - 1;
    let seen = anchors.drop_last();
    assert(forall|j: int| 0 <= j < last ==> seen[j] == anchors[j]);
    if within_inner_threshold(pixel, anchors[last], minimum_distance) {
        assert(governs(pixel, anchors, minimum_distance, last));
    } else if last == 0 {
        assert(!any_within_inner_threshold(pixel, anchors, minimum_distance));
        assert(governs(pixel, anchors, minimum_distance, 0));
    } else {
        lemma_governs_exists(pixel, seen, minimum_distance);
        let k = governing_index(pixel, seen, minimum_distance);
        if any_within_inner_threshold(pixel, seen, minimum_distance) {
            let w = choose|w: int|
                0 <= w < seen.len() && within_inner_threshold(
                    pixel,
                    #[trigger] seen[w],
                    minimum_distance,
                );
            assert(within_inner_threshold(pixel, anchors[w], minimum_distance));
            assert(governs(pixel, anchors, minimum_distance, k));
        } else {
            if any_within_inner_threshold(pixel, anchors, minimum_distance) {
                let w = choose|w: int|
                    0 <= w < anchors.len() && within_inner_threshold(
                        pixel,
                        #[trigger] anchors[w],
                        minimum_distance,
                    );
                assert(within_inner_threshold(pixel, seen[w], minimum_distance));
            }
            if pixel.spec_squared_distance_from(seen[k].point) > pixel.spec_squared_distance_from(
                anchors[last].point,
            ) {
                assert(governs(pixel, anchors, minimum_distance, last));
            } else {
                assert(governs(pixel, anchors, minimum_distance, k));
            }
        }
    }
}

/// Two points that are both closer to a third than half a distance are
/// closer to each other than that distance.
proof fn lemma_both_near_means_close(
    px: int,
    py: int,
    ax: int,
    ay: int,
    bx: int,
    by: int,
    minimum_distance: int,
)
    requires
        4 * squared_distance(px, py, ax, ay) < minimum_distance * minimum_distance,
        4 * squared_distance(px, py, bx, by) < minimum_distance * minimum_distance,
    ensures
        squared_distance(ax, ay, bx, by) < minimum_distance * minimum_distance,
{
    lemma_square_of_difference_split(px - bx, px - ax);
    lemma_square_of_difference_split(py - by, py - ay);
}

/// The square of a difference is at most twice the sum of the squares.
proof fn lemma_square_of_difference_split(u: int, v: int)
    ensures
        (u - v) * (u - v) <= 2 * (u * u) + 2 * (v * v),
{
    assert((u + v) * (u + v) >= 0) by (nonlinear_arith);
    assert((u - v) * (u - v) + (u + v) * (u + v) == 2 * (u * u) + 2 * (v * v))
        by (nonlinear_arith);
}

/// Where the anchors keep the minimum distance from each other, the anchor
/// that governs a pixel is a nearest one: the pass over the anchors then
/// finds what a plain search for the nearest anchor finds.
pub proof fn lemma_governing_anchor_is_nearest(
    pixel: PixelPosition,
    anchors: Seq<Anchor>,
    minimum_distance: int,
    k: int,
)
    requires
        governs(pixel, anchors, minimum_distance, k),
        pairwise_separated(anchor_points(anchors), minimum_distance),
    ensures
        forall|i: int|
            0 <= i < anchors.len() ==> pixel.spec_squared_distance_from(anchors[k].point)
                <= pixel.spec_squared_distance_from((#[trigger] anchors[i]).point),
{
    assert forall|i: int| 0 <= i < anchors.len() implies pixel.spec_squared_distance_from(
        anchors[k].point,
    ) <= pixel.spec_squared_distance_from((#[trigger] anchors[i]).point) by {
        if i != k && within_inner_threshold(pixel, anchors[i], minimum_distance)
            && within_inner_threshold(pixel, anchors[k], minimum_distance) {
            let a = anchors[i].point;
            let b = anchors[k].point;
            lemma_both_near_means_close(
                pixel.x as int,
                pixel.y as int,
                a.x as int,
                a.y as int,
                b.x as int,
                b.y as int,
                minimum_distance,
            );
            lemma_squared_distance_basics(a.x as int, a.y as int, b.x as int, b.y as int);
            let points = anchor_points(anchors);
            if i < k {
                assert(keeps_distance(points[i], points[k], minimum_distance));
            } else {
                assert(keeps_distance(points[k], points[i], minimum_distance));
            }
        }
    }
}

/// An anchor closer to the pixel than half the minimum distance, with no
/// such anchor after it in the list, governs the pixel, whether or not
/// another anchor is nearer.
pub proof fn lemma_last_within_threshold_governs(
    pixel: PixelPosition,
    anchors: Seq<Anchor>,
    minimum_distance: int,
    k: int,
)
    requires
        0 <= k < anchors.len(),
        within_inner_threshold(pixel, anchors[k], minimum_distance),
        forall|i: int|
            k < i < anchors.len() ==> !within_inner_threshold(
                pixel,
                #[trigger] anchors[i],
                minimum_distance,
            ),
    ensures
        governing_anchor(pixel, anchors, minimum_distance) == Some(anchors[k]),
{
    assert(governs(pixel, anchors, minimum_distance, k));
    lemma_governing_anchor_is(pixel, anchors, minimum_distance, k);
}

impl PixelPosition {
    /// The anchor that governs this pixel: see [`governs`]. `None` when
    /// `anchors` is empty.
    pub fn closest_anchor(&self, anchors: &Vec<Anchor>, minimum_distance: u32) -> (closest: Option<
        Anchor,
    >)
        ensures
            closest == governing_anchor(*self, anchors@, minimum_distance as int),
            anchors.len() > 0 ==> governs(
                *self,
                anchors@,
                minimum_distance as int,
                governing_index(*self, anchors@, minimum_distance as int),
            ),
    {
        let threshold: u128 = squared(minimum_distance);
        let mut best: Option<(usize, u128)> = None;
        let mut i: usize = 0;
        while i < anchors.len()
            invariant
                i <= anchors.len(),
                threshold == minimum_distance * minimum_distance,
                i == 0 <==> best is None,
                best matches Some((k, distance)) ==> {
                    &&& governs(*self, anchors@.take(i as int), minimum_distance as int, k as int)
                    &&& distance == self.spec_squared_distance_from(anchors[k as int].point)
                },
            decreases anchors.len() - i,
        {
            let ghost seen = anchors@.take(i as int);
            let ghost next = anchors@.take(i + 1);
            let ghost m = minimum_distance as int;
            assert(next.len() == i + 1);
            assert(forall|j: int| 0 <= j < i ==> next[j] == seen[j]);
            assert(next[i as int] == anchors[i as int]);
            proof {
                if any_within_inner_threshold(*self, seen, m) {
                    let w = choose|w: int|
                        0 <= w < seen.len() && within_inner_threshold(*self, #[trigger] seen[w], m);
                    assert(within_inner_threshold(*self, next[w], m));
                }
                if any_within_inner_threshold(*self, next, m) && !within_inner_threshold(
                    *self,
                    anchors[i as int],
                    m,
                ) {
                    let w = choose|w: int|
                        0 <= w < next.len() && within_inner_threshold(*self, #[trigger] next[w], m);
                    assert(w < i);
                    assert(within_inner_threshold(*self, seen[w], m));
                }
            }
            let distance = self.squared_distance_from(&anchors[i].point);
            if 4 * distance < threshold {
                assert(within_inner_threshold(*self, next[i as int], m));
                best = Some((i, distance));
            } else {
                match best {
                    None => {
                        best = Some((i, distance));
                    },
                    Some((k, nearest)) => {
                        if nearest > distance {
                            best = Some((i, distance));
                        }
                    },
                }
            }
            i += 1;
        }
        assert(anchors@.take(i as int) == anchors@);
        match best {
            None => None,
            Some((k, _)) => {
                proof {
                    lemma_governing_anchor_is(*self, anchors@, minimum_distance as int, k as int);
                }
                Some(anchors[k])
            },
        }
    }
}

/// Whether `anchor` lies less than the minimum distance to the left or to
/// the right of the pixel column `column`. Only such anchors are looked at
/// for the pixels of that column.
pub open spec fn in_window(anchor: Anchor, column: u32, minimum_distance: u32) -> bool {
    column - minimum_distance < anchor.point.x < column + minimum_distance
}

/// The anchors that are looked at for the pixels of `column`, in their order.
pub open spec fn window(anchors: Seq<Anchor>, column: u32, minimum_distance: u32) -> Seq<Anchor> {
    anchors.filter(|anchor: Anchor| in_window(anchor, column, minimum_distance))
}

/// Whether `first` and `second` both occur in `anchors`, `first` before `second`.
pub open spec fn occur_in_order(anchors: Seq<Anchor>, first: Anchor, second: Anchor) -> bool {
    exists|i1: int, i2: int|
        0 <= i1 < i2 < anchors.len() && #[trigger] anchors[i1] == first
            && #[trigger] anchors[i2] == second
}

/// The anchors in a window are anchors of the list, in the order of the list.
pub proof fn lemma_window_is_subsequence(anchors: Seq<Anchor>, column: u32, minimum_distance: u32)
    ensures
        forall|j: int|
            0 <= j < window(anchors, column, minimum_distance).len() ==> anchors.contains(
                #[trigger] window(anchors, column, minimum_distance)[j],
            ),
        forall|j1: int, j2: int|
            0 <= j1 < j2 < window(anchors, column, minimum_distance).len() ==> occur_in_order(
                anchors,
                #[trigger] window(anchors, column, minimum_distance)[j1],
                #[trigger] window(anchors, column, minimum_distance)[j2],
            ),
    decreases anchors.len(),
{
    reveal(Seq::filter);
    let near = window(anchors, column, minimum_distance);
    if anchors.len() > 0 {
        let seen = anchors.drop_last();
        let last = anchors.len() - 1;
        let before = window(seen, column, minimum_distance);
        lemma_window_is_subsequence(seen, column, minimum_distance);
        assert(forall|i: int| 0 <= i < last ==> seen[i] == anchors[i]);
        assert forall|j: int| 0 <= j < near.len() implies anchors.contains(#[trigger] near[j]) by {
            if j < before.len() {
                assert(seen.contains(before[j]));
                let i = choose|i: int| 0 <= i < seen.len() && seen[i] == before[j];
                assert(anchors[i] == near[j]);
            } else {
                assert(anchors[last] == near[j]);
            }
        }
        assert forall|j1: int, j2: int| 0 <= j1 < j2 < near.len() implies occur_in_order(
            anchors,
            #[trigger] near[j1],
            #[trigger] near[j2],
        ) by {
            if j2 < before.len() {
                assert(occur_in_order(seen, before[j1], before[j2]));
                let (i1, i2) = choose|i1: int, i2: int|
                    0 <= i1 < i2 < seen.len() && #[trigger] seen[i1] == before[j1]
                        && #[trigger] seen[i2] == before[j2];
                assert(anchors[i1] == near[j1] && anchors[i2] == near[j2]);
            } else {
                assert(seen.contains(before[j1]));
                let i1 = choose|i: int| 0 <= i < seen.len() && seen[i] == before[j1];
                assert(anchors[i1] == near[j1] && anchors[last] == near[j2]);
            }
        }
    }
}

/// Anchors that keep a distance from each other still do so in every window.
pub proof fn lemma_window_keeps_separation(
    anchors: Seq<Anchor>,
    column: u32,
    minimum_distance: u32,
    separation: int,
)
    requires
        pairwise_separated(anchor_points(anchors), separation),
    ensures
        pairwise_separated(
            anchor_points(window(anchors, column, minimum_distance)),
            separation,
        ),
{
    let near = window(anchors, column, minimum_distance);
    let points = anchor_points(anchors);
    lemma_window_is_subsequence(anchors, column, minimum_distance);
    assert forall|j1: int, j2: int| 0 <= j1 < j2 < near.len() implies keeps_distance(
        #[trigger] anchor_points(near)[j1],
        #[trigger] anchor_points(near)[j2],
        separation,
    ) by {
        assert(occur_in_order(anchors, near[j1], near[j2]));
        let (i1, i2) = choose|i1: int, i2: int|
            0 <= i1 < i2 < anchors.len() && #[trigger] anchors[i1] == near[j1]
                && #[trigger] anchors[i2] == near[j2];
        assert(keeps_distance(points[i1], points[i2], separation));
    }
}

/// The colour of the pixel at `(x, y)` in the cellular pattern of `anchors`:
/// that of the anchor which governs it among those in the window of its
/// column, and transparent when the window is empty.
pub open spec fn cell_color(anchors: Seq<Anchor>, minimum_distance: u32, x: u32, y: u32) -> Rgba8 {
    match governing_anchor(
        PixelPosition { x, y },
        window(anchors, x, minimum_distance),
        minimum_distance as int,
    ) {
        Some(anchor) => anchor.color,
        None => Rgba8::spec_transparent(),
    }
}

/// The pixels of column `x` that get a colour, from the top down: all
/// `height` of them, or none when no anchor is in the window of the column.
pub open spec fn column_pixels(
    anchors: Seq<Anchor>,
    minimum_distance: u32,
    x: u32,
    height: u32,
) -> Seq<(PixelPosition, Rgba8)> {
    if window(anchors, x, minimum_distance).len() == 0 {
        Seq::empty()
    } else {
        Seq::new(
            height as nat,
            |y: int| (PixelPosition { x, y: y as u32 }, cell_color(anchors, minimum_distance, x, y as u32)),
        )
    }
}

/// The pixels of a canvas after the entries of `batch` were painted on it one
/// after another. An entry that addresses no pixel of the canvas is skipped.
pub open spec fn painted(
    pixels: Map<(int, int), Rgba8>,
    width: nat,
    height: nat,
    batch: Seq<(PixelPosition, Rgba8)>,
) -> Map<(int, int), Rgba8>
    decreases batch.len(),
{
    if batch.len() == 0 {
        pixels
    } else {
        let before = painted(pixels, width, height, batch.drop_last());
        let (position, color) = batch.last();
        if on_canvas(width, height, position.x as int, position.y as int) {
            before.insert((position.x as int, position.y as int), color)
        } else {
            before
        }
    }
}

/// The pixels of the whole cellular pattern on a canvas of the given size.
pub open spec fn cellular_pixels(
    width: nat,
    height: nat,
    anchors: Seq<Anchor>,
    minimum_distance: u32,
) -> Map<(int, int), Rgba8> {
    Map::new(
        |p: (int, int)| on_canvas(width, height, p.0, p.1),
        |p: (int, int)| cell_color(anchors, minimum_distance, p.0 as u32, p.1 as u32),
    )
}

/// In the cellular pattern of anchors that keep the minimum distance from
/// each other, every pixel with an anchor in the window of its column has
/// the colour of an anchor of that window, and no anchor of the window is
/// nearer to the pixel than that one.
pub proof fn lemma_cell_has_color_of_nearest(
    anchors: Seq<Anchor>,
    minimum_distance: u32,
    x: u32,
    y: u32,
)
    requires
        pairwise_separated(anchor_points(anchors), minimum_distance as int),
        window(anchors, x, minimum_distance).len() > 0,
    ensures
        ({
            let pixel = PixelPosition { x, y };
            let near = window(anchors, x, minimum_distance);
            let k = governing_index(pixel, near, minimum_distance as int);
            &&& 0 <= k < near.len()
            &&& cell_color(anchors, minimum_distance, x, y) == near[k].color
            &&& forall|i: int|
                0 <= i < near.len() ==> pixel.spec_squared_distance_from(near[k].point)
                    <= pixel.spec_squared_distance_from((#[trigger] near[i]).point)
        }),
{
    let pixel = PixelPosition { x, y };
    let near = window(anchors, x, minimum_distance);
    lemma_governs_exists(pixel, near, minimum_distance as int);
    lemma_window_keeps_separation(anchors, x, minimum_distance, minimum_distance as int);
    lemma_governing_anchor_is_nearest(
        pixel,
        near,
        minimum_distance as int,
        governing_index(pixel, near, minimum_distance as int),
    );
}

/// The column at which the band that starts at column `start` ends: bands
/// are [`BAND_WIDTH`] columns wide, but for the last, which ends with the
/// canvas. A band that starts off the canvas is empty.
pub fn band_end(start: u32, image_width: u32) -> (end: u32)
    ensures
        end == if start >= image_width {
            start as int
        } else if image_width - start > BAND_WIDTH {
            start + BAND_WIDTH
        } else {
            image_width as int
        },
{
    if start >= image_width {
        start
    } else if image_width - start > BAND_WIDTH {
        start + BAND_WIDTH
    } else {
        image_width
    }
}

/// The anchors in the window of column `x`, in their order.
pub fn anchors_near_column(anchors: &Vec<Anchor>, x: u32, minimum_distance: u32) -> (near: Vec<
    Anchor,
>)
    ensures
        near@ == window(anchors@, x, minimum_distance),
{
    let mut near: Vec<Anchor> = Vec::new();
    let low: i64 = x as i64 - minimum_distance as i64;
    let high: i64 = x as i64 + minimum_distance as i64;
    let mut i: usize = 0;
    proof {
        reveal(Seq::filter);
        assert(anchors@.take(0).len() == 0);
    }
    while i < anchors.len()
        invariant
            i <= anchors.len(),
            low == x - minimum_distance,
            high == x + minimum_distance,
            near@ == window(anchors@.take(i as int), x, minimum_distance),
        decreases anchors.len() - i,
    {
        proof {
            reveal(Seq::filter);
            assert(anchors@.take(i + 1).drop_last() == anchors@.take(i as int));
            assert(anchors@.take(i + 1).last() == anchors[i as int]);
        }
        let anchor = anchors[i];
        if (anchor.point.x as i64) > low && (anchor.point.x as i64) < high {
            near.push(anchor);
        }
        i += 1;
    }
    assert(anchors@.take(i as int) == anchors@);
    near
}

/// The pixels of column `x` of a canvas `image_height` high, each with the
/// colour of the anchor that governs it, from the top down. When no anchor
/// is in the window of the column, none of its pixels gets a colour.
pub fn pixel_calculator(
    x: u32,
    image_height: u32,
    anchors: &Vec<Anchor>,
    minimum_distance: u32,
) -> (pixels: Vec<(PixelPosition, Rgba8)>)
    ensures
        pixels@ == column_pixels(anchors@, minimum_distance, x, image_height),
{
    let near = anchors_near_column(anchors, x, minimum_distance);
    let mut pixels: Vec<(PixelPosition, Rgba8)> = Vec::new();
    let mut y: u32 = 0;
    while y < image_height
        invariant
            y <= image_height,
            near@ == window(anchors@, x, minimum_distance),
            near.len() == 0 ==> pixels.len() == 0,
            near.len() > 0 ==> pixels@ == column_pixels(anchors@, minimum_distance, x, y),
        decreases image_height - y,
    {
        let position = PixelPosition { x, y };
        match position.closest_anchor(&near, minimum_distance) {
            None => {},
            Some(anchor) => {
                pixels.push((position, anchor.color));
                assert(pixels@ =~= column_pixels(anchors@, minimum_distance, x, (y + 1) as u32));
            },
        }
        y += 1;
    }
    assert(pixels@ =~= column_pixels(anchors@, minimum_distance, x, image_height));
    pixels
}

/// Paints the entries of `batch` on the canvas, one after another. An entry
/// that addresses no pixel of the canvas is skipped.
pub fn merge_pixels(canvas: &mut Canvas, batch: &Vec<(PixelPosition, Rgba8)>)
    ensures
        canvas_width(*final(canvas)) == canvas_width(*old(canvas)),
        canvas_height(*final(canvas)) == canvas_height(*old(canvas)),
        canvas_pixels(*final(canvas)) == painted(
            canvas_pixels(*old(canvas)),
            canvas_width(*old(canvas)),
            canvas_height(*old(canvas)),
            batch@,
        ),
{
    let mut i: usize = 0;
    assert(batch@.take(0).len() == 0);
    while i < batch.len()
        invariant
            i <= batch.len(),
            canvas_width(*canvas) == canvas_width(*old(canvas)),
            canvas_height(*canvas) == canvas_height(*old(canvas)),
            canvas_pixels(*canvas) == painted(
                canvas_pixels(*old(canvas)),
                canvas_width(*old(canvas)),
                canvas_height(*old(canvas)),
                batch@.take(i as int),
            ),
        decreases batch.len() - i,
    {
        proof {
            assert(batch@.take(i + 1).drop_last() == batch@.take(i as int));
            assert(batch@.take(i + 1).last() == batch[i as int]);
        }
        let (position, color) = batch[i];
        canvas.put_pixel(position.x, position.y, color);
        i += 1;
    }
    assert(batch@.take(i as int) == batch@);
}

/// What painting one column of the cellular pattern does to a canvas: the
/// pixels of that column are set, whether to a colour or, where the window
/// is empty, by staying transparent; no other pixel changes.
proof fn lemma_painted_column(
    pixels: Map<(int, int), Rgba8>,
    width: nat,
    height: u32,
    anchors: Seq<Anchor>,
    minimum_distance: u32,
    x: u32,
    rows: u32,
)
    requires
        x < width,
        rows <= height,
        window(anchors, x, minimum_distance).len() > 0,
    ensures
        painted(
            pixels,
            width,
            height as nat,
            column_pixels(anchors, minimum_distance, x, rows),
        ) =~= Map::new(
            |p: (int, int)| pixels.dom().contains(p) || (p.0 == x && 0 <= p.1 < rows),
            |p: (int, int)|
                if p.0 == x && 0 <= p.1 < rows {
                    cell_color(anchors, minimum_distance, x, p.1 as u32)
                } else {
                    pixels[p]
                },
        ),
    decreases rows,
{
    let batch = column_pixels(anchors, minimum_distance, x, rows);
    if rows > 0 {
        let shorter = column_pixels(anchors, minimum_distance, x, (rows - 1) as u32);
        assert(batch.drop_last() =~= shorter);
        lemma_painted_column(
            pixels,
            width,
            height,
            anchors,
            minimum_distance,
            x,
            (rows - 1) as u32,
        );
        assert(batch.last().0 == PixelPosition { x, y: (rows - 1) as u32 });
    }
}

/// The cellular pattern of `anchors` on a canvas of the given size: every
/// pixel has the colour of the anchor that governs it among those in the
/// window of its column, and is transparent where that window is empty.
///
/// The columns are worked on band by band and, in a band, from left to
/// right; each column is computed by [`pixel_calculator`] alone and then
/// merged into the canvas.
pub fn rasterize(
    image_width: u32,
    image_height: u32,
    anchors: &Vec<Anchor>,
    minimum_distance: u32,
) -> (canvas: Canvas)
    requires
        buffer_length(image_width as int, image_height as int) <= isize::MAX,
    ensures
        canvas_width(canvas) == image_width,
        canvas_height(canvas) == image_height,
        canvas_pixels(canvas) == cellular_pixels(
            image_width as nat,
            image_height as nat,
            anchors@,
            minimum_distance,
        ),
{
    let mut canvas = Canvas::new(image_width, image_height);
    let mut start: u32 = 0;
    while start < image_width
        invariant
            start <= image_width,
            canvas_width(canvas) == image_width,
            canvas_height(canvas) == image_height,
            canvas_pixels(canvas).dom() == blank_pixels(
                image_width as nat,
                image_height as nat,
            ).dom(),
            forall|x: int, y: int|
                on_canvas(image_width as nat, image_height as nat, x, y) ==> (
                #[trigger] canvas_pixels(canvas)[(x, y)]) == if x < start {
                    cell_color(anchors@, minimum_distance, x as u32, y as u32)
                } else {
                    Rgba8::spec_transparent()
                },
        decreases image_width - start,
    {
        let end = band_end(start, image_width);
        let mut x: u32 = start;
        while x < end
            invariant
                start <= x <= end <= image_width,
                canvas_width(canvas) == image_width,
                canvas_height(canvas) == image_height,
                canvas_pixels(canvas).dom() == blank_pixels(
                    image_width as nat,
                    image_height as nat,
                ).dom(),
                forall|column: int, y: int|
                    on_canvas(image_width as nat, image_height as nat, column, y) ==> (
                    #[trigger] canvas_pixels(canvas)[(column, y)]) == if column < x {
                        cell_color(anchors@, minimum_distance, column as u32, y as u32)
                    } else {
                        Rgba8::spec_transparent()
                    },
            decreases end - x,
        {
            let ghost before = canvas_pixels(canvas);
            let pixels = pixel_calculator(x, image_height, anchors, minimum_distance);
            merge_pixels(&mut canvas, &pixels);
            proof {
                if window(anchors@, x, minimum_distance).len() > 0 {
                    lemma_painted_column(
                        before,
                        image_width as nat,
                        image_height,
                        anchors@,
                        minimum_distance,
                        x,
                        image_height,
                    );
                }
                assert(canvas_pixels(canvas).dom() =~= before.dom());
            }
            x += 1;
        }
        start = end;
    }
    assert(canvas_pixels(canvas) =~= cellular_pixels(
        image_width as nat,
        image_height as nat,
        anchors@,
        minimum_distance,
    ));
    canvas
}

} // verus!
