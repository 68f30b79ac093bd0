use std::cell::Cell;

use tiling_patterns::canvas::{Canvas, Rgb8, Rgba8};
use tiling_patterns::geometry::{Bounds, PixelPosition, Point};
use tiling_patterns::patterns::{assign_colors, generate_voronoi_random_pattern};
use tiling_patterns::raster::{
    anchors_near_column, band_end, merge_pixels, pixel_calculator, rasterize, Anchor, BAND_WIDTH,
};

const TRANSPARENT: Rgba8 = Rgba8 { red: 0, green: 0, blue: 0, alpha: 0 };

fn shade(n: u8) -> Rgba8 {
    Rgba8 { red: n, green: 255 - n, blue: n / 2, alpha: 255 }
}

fn anchor(x: i32, y: i32, n: u8) -> Anchor {
    Anchor { point: Point { x, y }, color: shade(n) }
}

fn distance(pixel: &PixelPosition, anchor: &Anchor) -> i64 {
    let dx = pixel.x as i64 - anchor.point.x as i64;
    let dy = pixel.y as i64 - anchor.point.y as i64;
    dx * dx + dy * dy
}

/// The pass over the anchors as the pattern defines it, written down once more.
fn governing(pixel: &PixelPosition, anchors: &[Anchor], minimum_distance: u32) -> Option<Anchor> {
    let m = minimum_distance as i64;
    let mut best: Option<(Anchor, i64)> = None;
    for a in anchors {
        if (a.point.x as i64) <= pixel.x as i64 - m || (a.point.x as i64) >= pixel.x as i64 + m {
            continue;
        }
        let d = distance(pixel, a);
        if 4 * d < m * m {
            best = Some((*a, d));
        } else {
            match best {
                None => best = Some((*a, d)),
                Some((_, nearest)) => {
                    if nearest > d {
                        best = Some((*a, d));
                    }
                }
            }
        }
    }
    best.map(|(a, _)| a)
}

#[test]
fn no_anchor_no_governor() {
    let pixel = PixelPosition { x: 3, y: 4 };
    assert_eq!(pixel.closest_anchor(&vec![], 10), None);
}

#[test]
fn pixel_distance_is_exact() {
    let pixel = PixelPosition { x: 10, y: 2 };
    assert_eq!(pixel.squared_distance_from(&Point { x: 7, y: 6 }), 25);
    let corner = PixelPosition { x: u32::MAX, y: u32::MAX };
    let far = Point { x: i32::MIN, y: i32::MIN };
    let side = u32::MAX as u128 + (1u128 << 31);
    assert_eq!(corner.squared_distance_from(&far), 2 * side * side);
}

#[test]
fn nearest_anchor_governs_when_anchors_are_spread() {
    // all anchors are more than 20 apart
    let anchors = vec![
        anchor(10, 10, 1),
        anchor(40, 12, 2),
        anchor(25, 35, 3),
        anchor(60, 40, 4),
        anchor(5, 50, 5),
    ];
    for x in 0..70u32 {
        for y in 0..60u32 {
            let pixel = PixelPosition { x, y };
            let found = pixel.closest_anchor(&anchors, 20).unwrap();
            let least = anchors.iter().map(|a| distance(&pixel, a)).min().unwrap();
            assert_eq!(distance(&pixel, &found), least, "at {:?}", pixel);
            // of several nearest ones the first in the list
            let first = anchors.iter().find(|a| distance(&pixel, a) == least).unwrap();
            assert_eq!(found, *first);
        }
    }
}

#[test]
fn nearest_of_two_is_found_in_either_order() {
    let pixel = PixelPosition { x: 50, y: 50 };
    let near = anchor(50, 62, 1);
    let far = anchor(50, 20, 2);
    assert_eq!(pixel.closest_anchor(&vec![near, far], 20), Some(near));
    assert_eq!(pixel.closest_anchor(&vec![far, near], 20), Some(near));
}

#[test]
fn later_anchor_inside_the_inner_threshold_overrides_a_nearer_one() {
    // minimum distance 20: the inner threshold is a distance of 10
    let pixel = PixelPosition { x: 50, y: 50 };
    let nearer = anchor(51, 50, 1);
    let further = anchor(50, 58, 2);
    assert_eq!(pixel.closest_anchor(&vec![nearer, further], 20), Some(further));
    assert_eq!(pixel.closest_anchor(&vec![further, nearer], 20), Some(nearer));
}

#[test]
fn anchor_inside_the_inner_threshold_beats_a_nearer_one_outside_of_it_only_if_later() {
    let pixel = PixelPosition { x: 50, y: 50 };
    // 4 * 25 < 121 but 4 * 36 >= 121, with minimum distance 11
    let inside = anchor(50, 55, 1);
    let outside = anchor(50, 44, 2);
    assert_eq!(pixel.closest_anchor(&vec![outside, inside], 11), Some(inside));
    assert_eq!(pixel.closest_anchor(&vec![inside, outside], 11), Some(inside));
    // two anchors at the same distance outside the threshold: the first stays
    let left = anchor(40, 50, 3);
    let right = anchor(60, 50, 4);
    assert_eq!(pixel.closest_anchor(&vec![left, right], 11), Some(left));
    assert_eq!(pixel.closest_anchor(&vec![right, left], 11), Some(right));
}

#[test]
fn inner_threshold_is_half_the_minimum_distance_and_strict() {
    let pixel = PixelPosition { x: 50, y: 50 };
    // minimum distance 10: exactly 5 away is not inside, 4 away is
    let exactly = anchor(50, 55, 1);
    let nearer = anchor(53, 50, 2);
    assert_eq!(pixel.closest_anchor(&vec![nearer, exactly], 10), Some(nearer));
    let inside = anchor(50, 54, 3);
    assert_eq!(pixel.closest_anchor(&vec![nearer, inside], 10), Some(inside));
    // an odd minimum distance: 7 / 2 is three and a half, so 3 away is inside
    let three = anchor(50, 53, 4);
    let two = anchor(48, 50, 5);
    assert_eq!(pixel.closest_anchor(&vec![two, three], 7), Some(three));
    let four = anchor(50, 54, 6);
    assert_eq!(pixel.closest_anchor(&vec![two, four], 7), Some(two));
}

#[test]
fn window_leaves_out_anchors_a_minimum_distance_away() {
    let anchors = vec![
        anchor(30, 0, 1),
        anchor(31, 0, 2),
        anchor(50, 0, 3),
        anchor(69, 0, 4),
        anchor(70, 0, 5),
        anchor(-100, 0, 6),
    ];
    let near = anchors_near_column(&anchors, 50, 20);
    assert_eq!(near, vec![anchors[1], anchors[2], anchors[3]]);
    assert_eq!(anchors_near_column(&anchors, 50, 0), vec![]);
    assert_eq!(anchors_near_column(&anchors, 5, 20).len(), 0);
}

#[test]
fn column_without_anchors_in_its_window_gets_no_pixels() {
    let anchors = vec![anchor(100, 5, 1)];
    assert_eq!(pixel_calculator(10, 20, &anchors, 15), vec![]);
    assert_eq!(pixel_calculator(85, 20, &anchors, 15), vec![]);
    let pixels = pixel_calculator(86, 20, &anchors, 15);
    assert_eq!(pixels.len(), 20);
    for (y, (position, color)) in pixels.iter().enumerate() {
        assert_eq!(*position, PixelPosition { x: 86, y: y as u32 });
        assert_eq!(*color, shade(1));
    }
}

#[test]
fn window_hides_a_nearer_anchor() {
    // the anchor at x = 30 is nearer to the pixel than the one in the window
    let anchors = vec![anchor(30, 10, 1), anchor(15, 60, 2)];
    let pixels = pixel_calculator(10, 11, &anchors, 20);
    assert_eq!(pixels[10], (PixelPosition { x: 10, y: 10 }, shade(2)));
}

#[test]
fn bands_are_ten_columns_wide() {
    assert_eq!(BAND_WIDTH, 10);
    assert_eq!(band_end(0, 35), 10);
    assert_eq!(band_end(10, 35), 20);
    assert_eq!(band_end(30, 35), 35);
    assert_eq!(band_end(35, 35), 35);
    assert_eq!(band_end(0, 10), 10);
    assert_eq!(band_end(0, 0), 0);
    assert_eq!(band_end(u32::MAX - 3, u32::MAX), u32::MAX);
    assert_eq!(band_end(40, 35), 40);
}

#[test]
fn merging_paints_the_listed_pixels_only() {
    let mut canvas = Canvas::new(4, 3);
    let batch = vec![
        (PixelPosition { x: 1, y: 2 }, shade(9)),
        (PixelPosition { x: 3, y: 0 }, shade(8)),
        (PixelPosition { x: 4, y: 0 }, shade(7)),
        (PixelPosition { x: 1, y: 2 }, shade(6)),
    ];
    merge_pixels(&mut canvas, &batch);
    for x in 0..4 {
        for y in 0..3 {
            let expected = match (x, y) {
                (1, 2) => shade(6),
                (3, 0) => shade(8),
                _ => TRANSPARENT,
            };
            assert_eq!(canvas.pixel(x, y), Some(expected));
        }
    }
}

#[test]
fn rasterized_canvas_follows_the_pass_over_the_anchors() {
    let anchors = vec![
        anchor(12, 7, 1),
        anchor(14, 9, 2),
        anchor(40, 20, 3),
        anchor(41, 22, 4),
        anchor(70, 5, 5),
        anchor(20, 30, 6),
    ];
    let canvas = rasterize(64, 40, &anchors, 12);
    assert_eq!(canvas.width(), 64);
    assert_eq!(canvas.height(), 40);
    let mut untouched = 0;
    for x in 0..64u32 {
        for y in 0..40u32 {
            let expected = match governing(&PixelPosition { x, y }, &anchors, 12) {
                Some(a) => a.color,
                None => {
                    untouched += 1;
                    TRANSPARENT
                }
            };
            assert_eq!(canvas.pixel(x, y), Some(expected), "at ({}, {})", x, y);
        }
    }
    // the columns from 52 to 58 have no anchor in their window
    assert_eq!(untouched, 7 * 40);
}

#[test]
fn rasterizing_without_anchors_leaves_the_canvas_blank() {
    let canvas = rasterize(5, 4, &vec![], 10);
    for x in 0..5 {
        for y in 0..4 {
            assert_eq!(canvas.pixel(x, y), Some(TRANSPARENT));
        }
    }
    let empty = rasterize(0, 7, &vec![anchor(1, 1, 1)], 10);
    assert_eq!(empty.width(), 0);
    assert_eq!(empty.pixel(0, 0), None);
}

#[test]
fn every_point_gets_its_own_colour() {
    let points = vec![Point { x: 1, y: 2 }, Point { x: 3, y: 4 }, Point { x: 5, y: 6 }];
    let turn = Cell::new(0u8);
    let base = Rgb8 { red: 27, green: 67, blue: 50 };
    let anchors = assign_colors(&points, base, &|b: Rgb8| {
        turn.set(turn.get() + 1);
        Rgba8 { red: b.red, green: b.green, blue: turn.get(), alpha: 255 }
    });
    assert_eq!(anchors.len(), 3);
    for (i, a) in anchors.iter().enumerate() {
        assert_eq!(a.point, points[i]);
        assert_eq!(a.color, Rgba8 { red: 27, green: 67, blue: i as u8 + 1, alpha: 255 });
    }
}

#[test]
fn cellular_pattern_paints_every_pixel_of_a_covered_canvas() {
    let state = Cell::new(0x2545f4914f6cdd1du64);
    let next = || {
        let mut x = state.get();
        x ^= x << 13;
        x ^= x >> 7;
        x ^= x << 17;
        state.set(x);
        (x >> 11) as f64 / (1u64 << 53) as f64
    };
    let turn = Cell::new(0u32);
    let base = Rgb8 { red: 27, green: 67, blue: 50 };
    let canvas = generate_voronoi_random_pattern(
        120,
        80,
        30,
        base,
        Point { x: 60, y: 40 },
        &|center: Point, range, _: Bounds| {
            let angle = next() * 2.0 * std::f64::consts::PI;
            let radius = range.minimum as f64 + next() * (range.maximum - range.minimum) as f64;
            Point {
                x: (center.x as f64 + radius * angle.cos()).round() as i32,
                y: (center.y as f64 + radius * angle.sin()).round() as i32,
            }
        },
        &|b: Rgb8| {
            turn.set(turn.get() + 1);
            Rgba8 { red: b.red, green: (turn.get() % 256) as u8, blue: b.blue, alpha: 255 }
        },
    );
    assert_eq!((canvas.width(), canvas.height()), (120, 80));
    assert!(turn.get() >= 10, "only {} anchors", turn.get());
    for x in 0..120 {
        for y in 0..80 {
            let color = canvas.pixel(x, y).unwrap();
            assert_eq!((color.red, color.blue, color.alpha), (27, 50, 255), "at ({}, {})", x, y);
        }
    }
}
