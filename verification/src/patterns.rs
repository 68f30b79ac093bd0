//! The three patterns, from the size of the canvas to the painted canvas.
//!
//! Every tile and every cell gets a colour of its own, a variation of one
//! base colour. The variation is the caller's: `vary` stands for the random
//! source that makes one, and the colours it returns are taken as they come.

use vstd::prelude::*;
use crate::arith::{lemma_grid_number_injective, lemma_quotient_is};
use crate::canvas::{
    blank_pixels, buffer_length, canvas_height, canvas_pixels, canvas_width, in_rect, on_canvas,
    polygon_is_drawable, polygon_painted, Canvas, Rgb8, Rgba8, MAX_DRAWING_EXTENT,
};
use crate::geometry::{Bounds, Point};
use crate::lattice::{
    corner_lists, generate_hexagon_anchors, hexagons, lemma_hexagons_stay_in_reach,
    lemma_tiles_span, spec_tiles_across, square_tiles, tile_number, tiles_across,
    MAX_HEXAGON_EXTENT, MAX_HEXAGON_SIDE,
};
use crate::raster::{anchor_points, cellular_pixels, rasterize, Anchor};
use crate::sampler::{
    generate_anchor_points, lattice_capacity, pairwise_separated, placed_around, places_all,
    places_all_apart, DistanceRange,
};

verus! {

/// Whether `anchors` can have come of growing anchors from `seed` inside
/// `bounds`: the seed is first, all keep the minimum distance, all but the
/// seed lie inside the bounds, and there are no more of them than fit.
pub open spec fn well_spread(
    anchors: Seq<Anchor>,
    bounds: Bounds,
    minimum_distance: u32,
    seed: Point,
) -> bool {
    &&& anchors.len() >= 1
    &&& anchors[0].point == seed
    &&& pairwise_separated(anchor_points(anchors), minimum_distance as int)
    &&& forall|i: int| 1 <= i < anchors.len() ==> bounds.spec_contains((#[trigger] anchors[i]).point)
    &&& anchors.len() <= 1 + lattice_capacity(bounds)
}

/// Whether every pixel of a canvas of the given size has the colour that
/// `colors` holds for the square tile it lies on.
pub open spec fn shows_square_pattern(
    pixels: Map<(int, int), Rgba8>,
    width: u32,
    height: u32,
    size: u32,
    colors: Seq<Rgba8>,
) -> bool {
    forall|x: int, y: int|
        on_canvas(width as nat, height as nat, x, y) ==> (#[trigger] pixels[(x, y)])
            == colors[tile_number(x, y, height, size)]
}

/// The pixels of a canvas after the polygons of a list were filled one after
/// another, each in its colour. A polygon that the filler cannot take is
/// left out.
pub open spec fn polygons_painted(
    pixels: Map<(int, int), Rgba8>,
    width: nat,
    height: nat,
    polygons: Seq<Seq<Point>>,
    colors: Seq<Rgba8>,
) -> Map<(int, int), Rgba8>
    decreases polygons.len(),
{
    if polygons.len() == 0 {
        pixels
    } else {
        let before = polygons_painted(
            pixels,
            width,
            height,
            polygons.drop_last(),
            colors.drop_last(),
        );
        if polygon_is_drawable(width, height, polygons.last()) {
            polygon_painted(before, width, height, polygons.last(), colors.last())
        } else {
            before
        }
    }
}

/// Whether `color` is that of an unpainted pixel or one of `colors`.
pub open spec fn is_blank_or_among(color: Rgba8, colors: Seq<Rgba8>) -> bool {
    color == Rgba8::spec_transparent() || exists|k: int|
        0 <= k < colors.len() && #[trigger] colors[k] == color
}

/// Whether the pixels are those of the hexagon lattice for the given canvas
/// and tile size, painted on a blank canvas in the colours of `colors`.
pub open spec fn shows_hexagon_pattern(
    pixels: Map<(int, int), Rgba8>,
    width: u32,
    height: u32,
    size: u32,
    colors: Seq<Rgba8>,
) -> bool {
    &&& colors.len() == hexagons(width, height, size).len()
    &&& pixels == polygons_painted(
        blank_pixels(width as nat, height as nat),
        width as nat,
        height as nat,
        hexagons(width, height, size),
        colors,
    )
}

/// Whether the pixels are those of the cellular pattern of `anchors`.
pub open spec fn shows_cellular_pattern(
    pixels: Map<(int, int), Rgba8>,
    width: u32,
    height: u32,
    minimum_distance: u32,
    anchors: Seq<Anchor>,
) -> bool {
    pixels == cellular_pixels(width as nat, height as nat, anchors, minimum_distance)
}

/// The pixel at `(x, y)` lies on the tile in column `i` and row `j` exactly
/// when that tile is the one at its tile number.
proof fn lemma_tile_number_is(x: int, y: int, height: u32, size: u32, i: int, j: int)
    requires
        size >= 1,
        0 <= x,
        0 <= y < height,
        0 <= i,
        0 <= j < spec_tiles_across(height, size),
    ensures
        in_rect(i * size, j * size, size as int, size as int, x, y) <==> tile_number(
            x,
            y,
            height,
            size,
        ) == i * spec_tiles_across(height, size) + j,
{
    let d = size as int;
    let rows = spec_tiles_across(height, size);
    lemma_tiles_span(height, size);
    lemma_quotient_is(x, d, i);
    lemma_quotient_is(y, d, j);
    assert(0 <= y / d < rows);
    if tile_number(x, y, height, size) == i * rows + j {
        lemma_grid_number_injective(y / d, x / d, j, i, rows);
    }
}

/// Two runs of the square pattern on one canvas size and tile size have the
/// same tile boundaries, whatever their colours: two pixels whose columns
/// have the same quotient by the tile size, and whose rows have, lie on one
/// tile and have one colour, in the one run and in the other. The
/// partition into tiles depends on the sizes alone.
pub proof fn lemma_square_pattern_boundaries(
    first: Map<(int, int), Rgba8>,
    first_colors: Seq<Rgba8>,
    second: Map<(int, int), Rgba8>,
    second_colors: Seq<Rgba8>,
    width: u32,
    height: u32,
    size: u32,
    p: (int, int),
    q: (int, int),
)
    requires
        size >= 1,
        shows_square_pattern(first, width, height, size, first_colors),
        shows_square_pattern(second, width, height, size, second_colors),
        on_canvas(width as nat, height as nat, p.0, p.1),
        on_canvas(width as nat, height as nat, q.0, q.1),
        p.0 / (size as int) == q.0 / (size as int),
        p.1 / (size as int) == q.1 / (size as int),
    ensures
        tile_number(p.0, p.1, height, size) == tile_number(q.0, q.1, height, size),
        first[p] == first[q],
        second[p] == second[q],
{
    assert(first[(p.0, p.1)] == first_colors[tile_number(p.0, p.1, height, size)]);
    assert(first[(q.0, q.1)] == first_colors[tile_number(q.0, q.1, height, size)]);
    assert(second[(p.0, p.1)] == second_colors[tile_number(p.0, p.1, height, size)]);
    assert(second[(q.0, q.1)] == second_colors[tile_number(q.0, q.1, height, size)]);
}

/// On a canvas with pixels, at most [`MAX_HEXAGON_EXTENT`] wide and high,
/// and with a side from two to [`MAX_HEXAGON_SIDE`], the polygon filler can
/// take every hexagon of the lattice: the hexagon pattern leaves none out.
pub proof fn lemma_hexagons_are_drawable(width: u32, height: u32, size: u32)
    requires
        1 <= width <= MAX_HEXAGON_EXTENT,
        1 <= height <= MAX_HEXAGON_EXTENT,
        2 <= size <= MAX_HEXAGON_SIDE,
    ensures
        forall|n: int|
            0 <= n < hexagons(width, height, size).len() ==> polygon_is_drawable(
                width as nat,
                height as nat,
                #[trigger] hexagons(width, height, size)[n],
            ),
{
    assert forall|n: int| 0 <= n < hexagons(width, height, size).len() implies polygon_is_drawable(
        width as nat,
        height as nat,
        #[trigger] hexagons(width, height, size)[n],
    ) by {
        lemma_hexagons_stay_in_reach(width, height, size, n);
    }
}

/// Gives every point a colour of its own, a variation of `base_color`, and
/// so makes the anchors of a cellular pattern.
pub fn assign_colors<G>(points: &Vec<Point>, base_color: Rgb8, vary: &G) -> (anchors: Vec<
    Anchor,
>) where G: Fn(Rgb8) -> Rgba8
    requires
        vary.requires((base_color,)),
    ensures
        anchor_points(anchors@) == points@,
        forall|i: int|
            0 <= i < anchors.len() ==> vary.ensures((base_color,), (#[trigger] anchors[i]).color),
{
    let mut anchors: Vec<Anchor> = Vec::new();
    let mut i: usize = 0;
    while i < points.len()
        invariant
            i <= points.len(),
            vary.requires((base_color,)),
            anchors.len() == i,
            forall|k: int| 0 <= k < i ==> (#[trigger] anchors[k]).point == points[k],
            forall|k: int|
                0 <= k < i ==> vary.ensures((base_color,), (#[trigger] anchors[k]).color),
        decreases points.len() - i,
    {
        let color = vary(base_color);
        anchors.push(Anchor { point: points[i], color });
        i += 1;
    }
    assert(anchor_points(anchors@) =~= points@);
    anchors
}

/// The cellular pattern: anchors are grown from `seed` over the canvas, at
/// least half of `pattern_size` apart, every anchor is given a colour, and
/// every pixel is painted in the colour of the anchor that governs it.
///
/// `propose` places one candidate around an anchor and `vary` makes one
/// colour; both stand for the random source. Whatever they return, the
/// canvas shows the cellular pattern of some anchors that are well spread,
/// each but the seed placed around an anchor before it, in colours that
/// `vary` made. The seed is the only anchor where `propose` can only place
/// outside the canvas around it, and it has company where `propose` can
/// only place on the canvas, at the minimum distance or further from it.
pub fn generate_voronoi_random_pattern<F, G>(
    image_width: u32,
    image_height: u32,
    pattern_size: u32,
    base_color: Rgb8,
    seed: Point,
    propose: &F,
    vary: &G,
) -> (canvas: Canvas) where F: Fn(Point, DistanceRange, Bounds) -> Point, G: Fn(Rgb8) -> Rgba8
    requires
        pattern_size >= 2,
        buffer_length(image_width as int, image_height as int) <= isize::MAX,
        forall|center: Point|
            #[trigger] propose.requires(
                (
                    center,
                    DistanceRange::spec_around(pattern_size / 2),
                    Bounds::spec_of_canvas(image_width, image_height),
                ),
            ),
        vary.requires((base_color,)),
    ensures
        canvas_width(canvas) == image_width,
        canvas_height(canvas) == image_height,
        exists|anchors: Seq<Anchor>|
            {
                &&& #[trigger] shows_cellular_pattern(
                    canvas_pixels(canvas),
                    image_width,
                    image_height,
                    pattern_size / 2,
                    anchors,
                )
                &&& well_spread(
                    anchors,
                    Bounds::spec_of_canvas(image_width, image_height),
                    pattern_size / 2,
                    seed,
                )
                &&& forall|i: int|
                    1 <= i < anchors.len() ==> placed_around(
                        *propose,
                        anchor_points(anchors),
                        i,
                        DistanceRange::spec_around(pattern_size / 2),
                        Bounds::spec_of_canvas(image_width, image_height),
                        #[trigger] anchor_points(anchors)[i],
                    )
                &&& forall|i: int|
                    0 <= i < anchors.len() ==> vary.ensures(
                        (base_color,),
                        (#[trigger] anchors[i]).color,
                    )
                &&& places_all(
                    *propose,
                    seed,
                    DistanceRange::spec_around(pattern_size / 2),
                    Bounds::spec_of_canvas(image_width, image_height),
                    false,
                ) ==> anchors.len() == 1
                &&& (places_all(
                    *propose,
                    seed,
                    DistanceRange::spec_around(pattern_size / 2),
                    Bounds::spec_of_canvas(image_width, image_height),
                    true,
                ) && places_all_apart(
                    *propose,
                    seed,
                    DistanceRange::spec_around(pattern_size / 2),
                    Bounds::spec_of_canvas(image_width, image_height),
                    (pattern_size / 2) as int,
                )) ==> anchors.len() >= 2 && propose.ensures(
                    (
                        seed,
                        DistanceRange::spec_around(pattern_size / 2),
                        Bounds::spec_of_canvas(image_width, image_height),
                    ),
                    anchor_points(anchors)[1],
                )
            },
{
    let minimum_distance = pattern_size / 2;
    let bounds = Bounds::of_canvas(image_width, image_height);
    let points = generate_anchor_points(&bounds, minimum_distance, seed, propose);
    let anchors = assign_colors(&points, base_color, vary);
    let canvas = rasterize(image_width, image_height, &anchors, minimum_distance);
    proof {
        assert(anchors@[0].point == anchor_points(anchors@)[0]);
        assert forall|i: int| 1 <= i < anchors.len() implies bounds.spec_contains(
            (#[trigger] anchors@[i]).point,
        ) by {
            assert(anchors@[i].point == anchor_points(anchors@)[i]);
        }
        assert(well_spread(anchors@, bounds, minimum_distance, seed));
        assert(shows_cellular_pattern(
            canvas_pixels(canvas),
            image_width,
            image_height,
            minimum_distance,
            anchors@,
        ));
    }
    canvas
}

/// The square pattern: the canvas is covered by square tiles of side
/// `pattern_size`, the first in the top-left corner, and every tile is
/// filled with a colour of its own. `vary` makes one colour.
pub fn generate_square_pattern<G>(
    image_width: u32,
    image_height: u32,
    pattern_size: u32,
    base_color: Rgb8,
    vary: &G,
) -> (canvas: Canvas) where G: Fn(Rgb8) -> Rgba8
    requires
        pattern_size >= 1,
        image_width <= MAX_DRAWING_EXTENT,
        image_height <= MAX_DRAWING_EXTENT,
        buffer_length(image_width as int, image_height as int) <= isize::MAX,
        vary.requires((base_color,)),
    ensures
        canvas_width(canvas) == image_width,
        canvas_height(canvas) == image_height,
        exists|colors: Seq<Rgba8>|
            {
                &&& #[trigger] shows_square_pattern(
                    canvas_pixels(canvas),
                    image_width,
                    image_height,
                    pattern_size,
                    colors,
                )
                &&& colors.len() == square_tiles(image_width, image_height, pattern_size).len()
                &&& forall|n: int|
                    0 <= n < colors.len() ==> vary.ensures((base_color,), #[trigger] colors[n])
            },
{
    let columns = tiles_across(image_width, pattern_size);
    let rows = tiles_across(image_height, pattern_size);
    let mut canvas = Canvas::new(image_width, image_height);
    let ghost mut colors: Seq<Rgba8> = Seq::empty();
    proof {
        lemma_tiles_span(image_width, pattern_size);
        lemma_tiles_span(image_height, pattern_size);
    }
    let mut i: u32 = 0;
    while i < columns
        invariant
            pattern_size >= 1,
            image_width <= MAX_DRAWING_EXTENT,
            image_height <= MAX_DRAWING_EXTENT,
            vary.requires((base_color,)),
            i <= columns,
            columns == spec_tiles_across(image_width, pattern_size),
            rows == spec_tiles_across(image_height, pattern_size),
            forall|a: int| 0 <= a < columns ==> 0 <= #[trigger] (a * pattern_size) < image_width,
            forall|b: int| 0 <= b < rows ==> 0 <= #[trigger] (b * pattern_size) < image_height,
            canvas_width(canvas) == image_width,
            canvas_height(canvas) == image_height,
            colors.len() == i * rows,
            forall|n: int|
                0 <= n < colors.len() ==> vary.ensures((base_color,), #[trigger] colors[n]),
            forall|x: int, y: int|
                on_canvas(image_width as nat, image_height as nat, x, y) ==> (
                #[trigger] canvas_pixels(canvas)[(x, y)]) == if tile_number(
                    x,
                    y,
                    image_height,
                    pattern_size,
                ) < colors.len() {
                    colors[tile_number(x, y, image_height, pattern_size)]
                } else {
                    Rgba8::spec_transparent()
                },
        decreases columns - i,
    {
        assert(0 <= i * pattern_size < image_width);
        let left: u32 = i * pattern_size;
        let mut j: u32 = 0;
        while j < rows
            invariant
                pattern_size >= 1,
                image_width <= MAX_DRAWING_EXTENT,
                image_height <= MAX_DRAWING_EXTENT,
                vary.requires((base_color,)),
                i < columns,
                j <= rows,
                left == i * pattern_size,
                left < image_width,
                rows == spec_tiles_across(image_height, pattern_size),
                forall|b: int|
                    0 <= b < rows ==> 0 <= #[trigger] (b * pattern_size) < image_height,
                canvas_width(canvas) == image_width,
                canvas_height(canvas) == image_height,
                colors.len() == i * rows + j,
                forall|n: int|
                    0 <= n < colors.len() ==> vary.ensures((base_color,), #[trigger] colors[n]),
                forall|x: int, y: int|
                    on_canvas(image_width as nat, image_height as nat, x, y) ==> (
                    #[trigger] canvas_pixels(canvas)[(x, y)]) == if tile_number(
                        x,
                        y,
                        image_height,
                        pattern_size,
                    ) < colors.len() {
                        colors[tile_number(x, y, image_height, pattern_size)]
                    } else {
                        Rgba8::spec_transparent()
                    },
            decreases rows - j,
        {
            assert(0 <= j * pattern_size < image_height);
            let top: u32 = j * pattern_size;
            let color = vary(base_color);
            let ghost before = canvas_pixels(canvas);
            let ghost earlier = colors;
            canvas.fill_rect(left as i32, top as i32, pattern_size, pattern_size, color);
            proof {
                colors = earlier.push(color);
                assert forall|x: int, y: int|
                    on_canvas(
                        image_width as nat,
                        image_height as nat,
                        x,
                        y,
                    ) implies (#[trigger] canvas_pixels(canvas)[(x, y)]) == if tile_number(
                    x,
                    y,
                    image_height,
                    pattern_size,
                ) < colors.len() {
                    colors[tile_number(x, y, image_height, pattern_size)]
                } else {
                    Rgba8::spec_transparent()
                } by {
                    lemma_tile_number_is(x, y, image_height, pattern_size, i as int, j as int);
                    assert(before[(x, y)] == if tile_number(x, y, image_height, pattern_size)
                        < earlier.len() {
                        earlier[tile_number(x, y, image_height, pattern_size)]
                    } else {
                        Rgba8::spec_transparent()
                    });
                }
            }
            j += 1;
        }
        assert(i * rows + rows == (i + 1) * rows) by (nonlinear_arith);
        i += 1;
    }
    proof {
        assert forall|x: int, y: int|
            on_canvas(image_width as nat, image_height as nat, x, y) implies (
        #[trigger] canvas_pixels(canvas)[(x, y)]) == colors[tile_number(
            x,
            y,
            image_height,
            pattern_size,
        )] by {
            crate::lattice::lemma_pixel_on_one_tile(image_width, image_height, pattern_size, x, y);
        }
        assert(shows_square_pattern(
            canvas_pixels(canvas),
            image_width,
            image_height,
            pattern_size,
            colors,
        ));
    }
    canvas
}

/// The hexagon pattern: every hexagon of the lattice for the canvas and the
/// side `pattern_size` is filled with a colour of its own, in the order of
/// the lattice. `vary` makes one colour. Hexagons that the polygon filler
/// cannot take, because their corners coincide or lie too far out, are left
/// out. Every pixel ends up in one of the colours, or stays transparent.
pub fn generate_hexagon_pattern<G>(
    image_width: u32,
    image_height: u32,
    pattern_size: u32,
    base_color: Rgb8,
    vary: &G,
) -> (canvas: Canvas) where G: Fn(Rgb8) -> Rgba8
    requires
        pattern_size >= 1,
        buffer_length(image_width as int, image_height as int) <= isize::MAX,
        vary.requires((base_color,)),
    ensures
        canvas_width(canvas) == image_width,
        canvas_height(canvas) == image_height,
        exists|colors: Seq<Rgba8>|
            {
                &&& #[trigger] shows_hexagon_pattern(
                    canvas_pixels(canvas),
                    image_width,
                    image_height,
                    pattern_size,
                    colors,
                )
                &&& forall|n: int|
                    0 <= n < colors.len() ==> vary.ensures((base_color,), #[trigger] colors[n])
                &&& forall|x: int, y: int|
                    on_canvas(image_width as nat, image_height as nat, x, y) ==> is_blank_or_among(
                        #[trigger] canvas_pixels(canvas)[(x, y)],
                        colors,
                    )
            },
{
    let tiles = generate_hexagon_anchors(image_width, image_height, pattern_size);
    let mut canvas = Canvas::new(image_width, image_height);
    let ghost mut colors: Seq<Rgba8> = Seq::empty();
    let ghost polygons = hexagons(image_width, image_height, pattern_size);
    let mut n: usize = 0;
    assert(polygons.take(0).len() == 0);
    while n < tiles.len()
        invariant
            vary.requires((base_color,)),
            n <= tiles.len(),
            corner_lists(tiles@) == polygons,
            canvas_width(canvas) == image_width,
            canvas_height(canvas) == image_height,
            colors.len() == n,
            forall|k: int|
                0 <= k < colors.len() ==> vary.ensures((base_color,), #[trigger] colors[k]),
            canvas_pixels(canvas) == polygons_painted(
                blank_pixels(image_width as nat, image_height as nat),
                image_width as nat,
                image_height as nat,
                polygons.take(n as int),
                colors,
            ),
            forall|x: int, y: int|
                on_canvas(image_width as nat, image_height as nat, x, y) ==> is_blank_or_among(
                    #[trigger] canvas_pixels(canvas)[(x, y)],
                    colors,
                ),
        decreases tiles.len() - n,
    {
        let color = vary(base_color);
        let ghost earlier = colors;
        let ghost before = canvas_pixels(canvas);
        proof {
            colors = earlier.push(color);
            assert(polygons.take(n + 1).drop_last() == polygons.take(n as int));
            assert(polygons.take(n + 1).last() == tiles@[n as int]@);
            assert(colors.drop_last() == earlier);
        }
        canvas.fill_polygon(tiles[n].as_slice(), color);
        proof {
            assert(colors[n as int] == color);
            assert forall|x: int, y: int|
                on_canvas(
                    image_width as nat,
                    image_height as nat,
                    x,
                    y,
                ) implies is_blank_or_among(#[trigger] canvas_pixels(canvas)[(x, y)], colors) by {
                assert(is_blank_or_among(before[(x, y)], earlier));
                if before[(x, y)] != Rgba8::spec_transparent() {
                    let k = choose|k: int| 0 <= k < earlier.len() && earlier[k] == before[(x, y)];
                    assert(colors[k] == before[(x, y)]);
                }
            }
        }
        n += 1;
    }
    proof {
        assert(polygons.take(n as int) == polygons);
        assert(shows_hexagon_pattern(
            canvas_pixels(canvas),
            image_width,
            image_height,
            pattern_size,
            colors,
        ));
    }
    canvas
}

} // verus!
