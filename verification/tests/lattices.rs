use std::cell::Cell;

use tiling_patterns::canvas::{Rgb8, Rgba8};
use tiling_patterns::geometry::Point;
use tiling_patterns::lattice::{
    count_rows_to_span, generate_hexagon_anchors, generate_square_tiles, hexagon_corners,
    scale_by_sine, tiles_across, Tile,
};
use tiling_patterns::patterns::{generate_hexagon_pattern, generate_square_pattern};

const BASE: Rgb8 = Rgb8 { red: 27, green: 67, blue: 50 };
const TRANSPARENT: Rgba8 = Rgba8 { red: 0, green: 0, blue: 0, alpha: 0 };

fn numbered(n: u32) -> Rgba8 {
    Rgba8 { red: (n % 251) as u8, green: (n / 251 % 251) as u8, blue: (n * 7 % 256) as u8, alpha: 255 }
}

/// The hexagons as double-precision arithmetic places them.
fn hexagons_in_floating_point(width: u32, height: u32, size: u32) -> Vec<[Point; 6]> {
    let mut tiles = Vec::new();
    let s = size as f64;
    let half_height = (std::f64::consts::PI / 3.0).sin() * s;
    let mut i = -(size as i64);
    while i < width as i64 {
        let last = (height as f64 / half_height).ceil() as i64 + 1;
        for j in -(size as i64)..last {
            let x = if j % 2 == 0 { i as f64 } else { i as f64 + s * 1.5 };
            let corners = [
                (x, j as f64 * half_height),
                (x + s, j as f64 * half_height),
                (x + s * 1.5, (j + 1) as f64 * half_height),
                (x + s, (j + 2) as f64 * half_height),
                (x, (j + 2) as f64 * half_height),
                (x - s * 0.5, (j + 1) as f64 * half_height),
            ];
            tiles.push(corners.map(|(x, y)| Point { x: x as i32, y: y as i32 }));
        }
        i += 3 * size as i64;
    }
    tiles
}

#[test]
fn tiles_across_rounds_up() {
    assert_eq!(tiles_across(100, 20), 5);
    assert_eq!(tiles_across(101, 20), 6);
    assert_eq!(tiles_across(99, 20), 5);
    assert_eq!(tiles_across(1, 20), 1);
    assert_eq!(tiles_across(0, 20), 0);
    assert_eq!(tiles_across(u32::MAX, 1), u32::MAX);
    assert_eq!(tiles_across(u32::MAX, u32::MAX), 1);
    assert_eq!(tiles_across(7, u32::MAX), 1);
}

#[test]
fn square_lattice_of_one_hundred_by_one_hundred_has_twenty_five_tiles() {
    let tiles = generate_square_tiles(100, 100, 20);
    assert_eq!(tiles.len(), 25);
    assert_eq!(tiles[0], Tile { left: 0, top: 0, side: 20 });
    assert_eq!(tiles[1], Tile { left: 0, top: 20, side: 20 });
    assert_eq!(tiles[5], Tile { left: 20, top: 0, side: 20 });
    assert_eq!(tiles[24], Tile { left: 80, top: 80, side: 20 });
    for (n, tile) in tiles.iter().enumerate() {
        assert_eq!(tile.left, 20 * (n as u32 / 5));
        assert_eq!(tile.top, 20 * (n as u32 % 5));
    }
}

#[test]
fn square_lattice_covers_a_canvas_that_tiles_do_not_divide() {
    let tiles = generate_square_tiles(50, 30, 20);
    assert_eq!(tiles.len(), 3 * 2);
    assert_eq!(tiles[5], Tile { left: 40, top: 20, side: 20 });
    assert_eq!(generate_square_tiles(0, 30, 20), vec![]);
    assert_eq!(generate_square_tiles(30, 0, 20).len(), 0);
    assert_eq!(generate_square_tiles(3, 2, 1).len(), 6);
}

#[test]
fn square_lattice_is_the_same_on_every_run() {
    assert_eq!(generate_square_tiles(123, 77, 9), generate_square_tiles(123, 77, 9));
}

#[test]
fn square_pattern_pixel_has_the_colour_of_its_tile() {
    let turn = Cell::new(0u32);
    let canvas = generate_square_pattern(100, 100, 20, BASE, &|base: Rgb8| {
        assert_eq!(base, BASE);
        turn.set(turn.get() + 1);
        numbered(turn.get() - 1)
    });
    assert_eq!(turn.get(), 25);
    assert_eq!((canvas.width(), canvas.height()), (100, 100));
    for x in 0..100u32 {
        for y in 0..100u32 {
            let tile = (x / 20) * 5 + y / 20;
            assert_eq!(canvas.pixel(x, y), Some(numbered(tile)), "at ({}, {})", x, y);
        }
    }
}

#[test]
fn square_pattern_clips_the_last_tiles() {
    let turn = Cell::new(0u32);
    let canvas = generate_square_pattern(50, 31, 20, BASE, &|_| {
        turn.set(turn.get() + 1);
        numbered(turn.get() - 1)
    });
    assert_eq!(turn.get(), 6);
    for x in 0..50u32 {
        for y in 0..31u32 {
            assert_eq!(canvas.pixel(x, y), Some(numbered((x / 20) * 2 + y / 20)));
        }
    }
    assert_eq!(canvas.pixel(50, 0), None);
}

#[test]
fn square_pattern_with_tiles_larger_than_the_canvas() {
    let canvas = generate_square_pattern(7, 5, u32::MAX, BASE, &|_| numbered(3));
    for x in 0..7 {
        for y in 0..5 {
            assert_eq!(canvas.pixel(x, y), Some(numbered(3)));
        }
    }
    let turn = Cell::new(0u32);
    let empty = generate_square_pattern(0, 5, 2, BASE, &|_| {
        turn.set(turn.get() + 1);
        numbered(0)
    });
    assert_eq!(turn.get(), 0);
    assert_eq!((empty.width(), empty.height()), (0, 5));
}

#[test]
fn square_pattern_has_the_same_boundaries_whatever_the_colours() {
    let first = generate_square_pattern(64, 48, 7, BASE, &|_| numbered(1));
    let turn = Cell::new(0u32);
    let second = generate_square_pattern(64, 48, 7, BASE, &|_| {
        turn.set(turn.get() + 1);
        numbered(turn.get())
    });
    for x in 0..63u32 {
        for y in 0..47u32 {
            let here = second.pixel(x, y);
            assert_eq!(here == second.pixel(x + 1, y), x / 7 == (x + 1) / 7);
            assert_eq!(here == second.pixel(x, y + 1), y / 7 == (y + 1) / 7);
            assert_eq!(first.pixel(x, y), Some(numbered(1)));
        }
    }
}

#[test]
fn sine_scaling_rounds_down() {
    assert_eq!(scale_by_sine(0), 0);
    assert_eq!(scale_by_sine(1), 0);
    assert_eq!(scale_by_sine(2), 1);
    assert_eq!(scale_by_sine(20), 17);
    assert_eq!(scale_by_sine(100), 86);
    assert_eq!(scale_by_sine(1000), 866);
    assert_eq!(scale_by_sine(1_000_000), 866_025);
    assert_eq!(scale_by_sine(u32::MAX), 3_719_550_785);
    for q in 0..5000u32 {
        let expected = ((q as f64) * (std::f64::consts::PI / 3.0).sin()).floor() as u32;
        assert_eq!(scale_by_sine(q), expected, "for {}", q);
    }
}

#[test]
fn rows_to_span_rounds_up() {
    assert_eq!(count_rows_to_span(0, 20), 0);
    assert_eq!(count_rows_to_span(1, 20), 1);
    assert_eq!(count_rows_to_span(17, 20), 1);
    assert_eq!(count_rows_to_span(18, 20), 2);
    assert_eq!(count_rows_to_span(100, 20), 6);
    assert_eq!(count_rows_to_span(100, 1), 116);
    assert_eq!(count_rows_to_span(u32::MAX, 1), 4_959_401_048);
    assert_eq!(count_rows_to_span(5, u32::MAX), 1);
    for height in 0..300u32 {
        for size in 1..40u32 {
            let half_height = (std::f64::consts::PI / 3.0).sin() * size as f64;
            let expected = (height as f64 / half_height).ceil() as u64;
            assert_eq!(count_rows_to_span(height, size), expected);
        }
    }
}

#[test]
fn hexagon_lattice_of_one_hundred_by_one_hundred() {
    let tiles = generate_hexagon_anchors(100, 100, 20);
    // columns at -20 and 40; rows from -20 to 6
    assert_eq!(tiles.len(), 2 * 27);
    // column -20, row 0
    assert_eq!(
        tiles[20],
        [
            Point { x: -20, y: 0 },
            Point { x: 0, y: 0 },
            Point { x: 10, y: 17 },
            Point { x: 0, y: 34 },
            Point { x: -20, y: 34 },
            Point { x: -30, y: 17 },
        ]
    );
    // column 40, row 1: an odd row, one and a half sides to the right
    assert_eq!(
        tiles[27 + 21],
        [
            Point { x: 70, y: 17 },
            Point { x: 90, y: 17 },
            Point { x: 100, y: 34 },
            Point { x: 90, y: 51 },
            Point { x: 70, y: 51 },
            Point { x: 60, y: 34 },
        ]
    );
    // row -1: above the origin, rounded towards it
    assert_eq!(tiles[19][0], Point { x: 10, y: -17 });
    assert_eq!(tiles[19][2], Point { x: 40, y: 0 });
}

#[test]
fn hexagon_lattice_agrees_with_floating_point() {
    for &(width, height, size) in &[
        (100u32, 100u32, 20u32),
        (640, 480, 33),
        (50, 200, 7),
        (17, 3, 1),
        (1, 1, 2),
        (0, 0, 5),
        (300, 10, 64),
        (1000, 1000, 101),
    ] {
        assert_eq!(
            generate_hexagon_anchors(width, height, size),
            hexagons_in_floating_point(width, height, size),
            "for {} by {} with side {}",
            width,
            height,
            size
        );
    }
}

#[test]
fn hexagon_corners_are_clamped() {
    let right = hexagon_corners(4_000_000_000, 0, 10);
    assert_eq!(right[0], Point { x: i32::MAX, y: 0 });
    assert_eq!(right[2], Point { x: i32::MAX, y: 8 });
    let left = hexagon_corners(-4_000_000_000, 2, 10);
    assert_eq!(left[0], Point { x: i32::MIN, y: 17 });
    let low = hexagon_corners(0, 3_000_000_000, 1);
    assert_eq!(low[0], Point { x: 0, y: i32::MAX });
    assert_eq!(low[3], Point { x: 1, y: i32::MAX });
    let high = hexagon_corners(0, -3_000_000_000, 1);
    assert_eq!(high[1], Point { x: 1, y: i32::MIN });
    let wide = hexagon_corners(0, -1, u32::MAX);
    assert_eq!(wide[0], Point { x: i32::MAX, y: i32::MIN });
    assert_eq!(wide[2], Point { x: i32::MAX, y: 0 });
    assert_eq!(wide[5], Point { x: i32::MAX, y: 0 });
    // just short of the limit nothing is clamped
    let near = hexagon_corners(0, 2_479_700_523, 1);
    assert_eq!(near[0].y, 2_147_483_646);
    assert_eq!(near[2].y, i32::MAX);
    let opposite = hexagon_corners(0, -2_479_700_525, 1);
    assert_eq!(opposite[0].y, i32::MIN);
    assert_eq!(opposite[2].y, -2_147_483_647);
}

#[test]
fn hexagon_corners_round_towards_the_origin() {
    // side 5: half a side is two and a half
    let tile = hexagon_corners(0, 0, 5);
    assert_eq!(tile[2].x, 7);
    assert_eq!(tile[5].x, -2);
    let odd = hexagon_corners(-5, -1, 5);
    // the anchor is at two and a half: rounded down to 2; five further, 7
    assert_eq!(odd[0], Point { x: 2, y: -4 });
    assert_eq!(odd[1], Point { x: 7, y: -4 });
    assert_eq!(odd[5], Point { x: 0, y: 0 });
    let left = hexagon_corners(-20, 0, 5);
    assert_eq!(left[5], Point { x: -22, y: 4 });
}

#[test]
fn adjacent_hexagons_share_their_corners() {
    let rows = 27;
    let tiles = generate_hexagon_anchors(200, 100, 20);
    let columns = tiles.len() / rows;
    assert_eq!(columns, 4);
    for c in 0..columns {
        for r in 0..rows {
            let here = tiles[c * rows + r];
            if r + 2 < rows {
                let below = tiles[c * rows + r + 2];
                assert_eq!(here[4], below[0]);
                assert_eq!(here[3], below[1]);
            }
            if r + 1 < rows {
                // rows count from -20, so an even place is an even row
                let (right, left) = if r % 2 == 0 {
                    (Some(c), c.checked_sub(1))
                } else {
                    (if c + 1 < columns { Some(c + 1) } else { None }, Some(c))
                };
                if let Some(rc) = right {
                    let next = tiles[rc * rows + r + 1];
                    assert_eq!(here[2], next[0]);
                    assert_eq!(here[3], next[5]);
                }
                if let Some(lc) = left {
                    let next = tiles[lc * rows + r + 1];
                    assert_eq!(here[5], next[1]);
                    assert_eq!(here[4], next[2]);
                }
            }
        }
    }
}

#[test]
fn hexagon_pattern_is_what_the_polygon_filler_paints() {
    let (width, height, size) = (90u32, 70u32, 12u32);
    let turn = Cell::new(0u32);
    let canvas = generate_hexagon_pattern(width, height, size, BASE, &|base: Rgb8| {
        assert_eq!(base, BASE);
        turn.set(turn.get() + 1);
        numbered(turn.get() - 1)
    });
    let tiles = generate_hexagon_anchors(width, height, size);
    assert_eq!(turn.get() as usize, tiles.len());

    let mut expected = image::RgbaImage::new(width, height);
    for (n, tile) in tiles.iter().enumerate() {
        let corners = tile.map(|p| imageproc::point::Point::new(p.x, p.y));
        let c = numbered(n as u32);
        let color = image::Rgba([c.red, c.green, c.blue, c.alpha]);
        imageproc::drawing::draw_polygon_mut(&mut expected, &corners, color);
    }
    let mut painted = 0;
    for x in 0..width {
        for y in 0..height {
            let p = expected.get_pixel(x, y).0;
            let color = Rgba8 { red: p[0], green: p[1], blue: p[2], alpha: p[3] };
            assert_eq!(canvas.pixel(x, y), Some(color), "at ({}, {})", x, y);
            if color != TRANSPARENT {
                painted += 1;
            }
        }
    }
    assert_eq!(painted, width * height);
    assert_eq!(canvas.into_rgba_bytes(), expected.into_raw());
}

#[test]
fn hexagon_pattern_with_side_one_leaves_out_what_cannot_be_drawn() {
    let turn = Cell::new(0u32);
    let canvas = generate_hexagon_pattern(9, 6, 1, BASE, &|_| {
        turn.set(turn.get() + 1);
        numbered(5)
    });
    assert_eq!(turn.get() as usize, generate_hexagon_anchors(9, 6, 1).len());
    assert_eq!((canvas.width(), canvas.height()), (9, 6));
    let mut painted = 0;
    for x in 0..9 {
        for y in 0..6 {
            let color = canvas.pixel(x, y).unwrap();
            assert!(color == numbered(5) || color == TRANSPARENT);
            if color == numbered(5) {
                painted += 1;
            }
        }
    }
    assert!(painted > 0);
}
