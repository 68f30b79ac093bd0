use std::cell::Cell;

use tiling_patterns::geometry::{Bounds, Point};
use tiling_patterns::sampler::{
    generate_anchor_candidates, generate_anchor_points, random_point_at_certain_distance,
    AnchorSampler, DistanceRange, CANDIDATES_PER_ANCHOR, MAX_PLACEMENT_ATTEMPTS,
};

/// A small deterministic generator, so that the tests repeat.
struct Dice {
    state: Cell<u64>,
}

impl Dice {
    fn new(seed: u64) -> Dice {
        Dice { state: Cell::new(seed) }
    }

    fn next(&self) -> u64 {
        let mut x = self.state.get();
        x ^= x << 13;
        x ^= x >> 7;
        x ^= x << 17;
        self.state.set(x);
        x
    }

    fn unit(&self) -> f64 {
        (self.next() >> 11) as f64 / (1u64 << 53) as f64
    }

    fn around(&self, center: Point, distance: DistanceRange) -> Point {
        let angle = self.unit() * 2.0 * std::f64::consts::PI;
        let radius =
            distance.minimum as f64 + self.unit() * (distance.maximum - distance.minimum) as f64;
        Point {
            x: (center.x as f64 + radius * angle.cos()).round() as i32,
            y: (center.y as f64 + radius * angle.sin()).round() as i32,
        }
    }
}

fn squared_distance(a: &Point, b: &Point) -> i64 {
    let dx = a.x as i64 - b.x as i64;
    let dy = a.y as i64 - b.y as i64;
    dx * dx + dy * dy
}

#[test]
fn squared_distance_is_exact() {
    let a = Point { x: 3, y: -4 };
    let b = Point { x: 0, y: 0 };
    assert_eq!(a.squared_distance_from(&b), 25);
    assert_eq!(b.squared_distance_from(&a), 25);
    assert_eq!(a.squared_distance_from(&a), 0);
    let far = Point { x: i32::MAX, y: i32::MAX };
    let near = Point { x: i32::MIN, y: i32::MIN };
    assert_eq!(far.squared_distance_from(&near), 2 * (u32::MAX as u128) * (u32::MAX as u128));
}

#[test]
fn bounds_are_strict_on_every_edge() {
    let bounds = Bounds { width: 10, height: 5 };
    assert!(bounds.contains(&Point { x: 1, y: 1 }));
    assert!(bounds.contains(&Point { x: 9, y: 4 }));
    assert!(!bounds.contains(&Point { x: 0, y: 2 }));
    assert!(!bounds.contains(&Point { x: 2, y: 0 }));
    assert!(!bounds.contains(&Point { x: 10, y: 2 }));
    assert!(!bounds.contains(&Point { x: 2, y: 5 }));
    assert!(!bounds.contains(&Point { x: -3, y: 2 }));
}

#[test]
fn distance_range_spans_one_to_two_minimums() {
    let range = DistanceRange::around(20);
    assert_eq!(range, DistanceRange { minimum: 20, maximum: 40 });
    let widest = DistanceRange::around(u32::MAX);
    assert_eq!(widest.maximum, 2 * (u32::MAX as u64));
}

#[test]
fn anchors_keep_their_distance() {
    let dice = Dice::new(0x9e3779b97f4a7c15);
    let bounds = Bounds { width: 500, height: 500 };
    let seed = Point { x: 250, y: 250 };
    let anchors = generate_anchor_points(&bounds, 20, seed, &|center, distance, _| {
        dice.around(center, distance)
    });
    assert!(!anchors.is_empty());
    assert_eq!(anchors[0], seed);
    assert!(anchors.len() > 100, "only {} anchors", anchors.len());
    for (i, a) in anchors.iter().enumerate() {
        if i > 0 {
            assert!(bounds.contains(a));
        }
        for b in &anchors[..i] {
            assert!(squared_distance(a, b) >= 400, "{:?} and {:?} are too close", a, b);
        }
    }
}

#[test]
fn sampling_ends_when_nothing_fits() {
    let bounds = Bounds { width: 4, height: 4 };
    let seed = Point { x: 2, y: 2 };
    let calls = Cell::new(0u64);
    let anchors = generate_anchor_points(&bounds, 100, seed, &|center, _, _| {
        calls.set(calls.get() + 1);
        Point { x: center.x + 150, y: center.y }
    });
    assert_eq!(anchors, vec![seed]);
    assert_eq!(calls.get(), CANDIDATES_PER_ANCHOR as u64 * MAX_PLACEMENT_ATTEMPTS as u64);
}

#[test]
fn sampling_fills_a_small_lattice_and_stops() {
    let bounds = Bounds { width: 4, height: 3 };
    let dice = Dice::new(7);
    let seed = Point { x: 1, y: 1 };
    let anchors = generate_anchor_points(&bounds, 1, seed, &|center, distance, _| {
        dice.around(center, distance)
    });
    // strictly inside a 4 by 3 region there are 3 * 2 lattice points
    assert!(anchors.len() <= 6);
    for (i, a) in anchors.iter().enumerate() {
        assert!(bounds.contains(a));
        for b in &anchors[..i] {
            assert!(a != b);
        }
    }
}

#[test]
fn placement_retries_until_inside() {
    let bounds = Bounds { width: 100, height: 100 };
    let range = DistanceRange::around(10);
    let center = Point { x: 50, y: 50 };
    let turn = Cell::new(0);
    let found = random_point_at_certain_distance(&center, &range, &bounds, &|c, _, _| {
        turn.set(turn.get() + 1);
        if turn.get() < 4 {
            Point { x: -5, y: c.y }
        } else {
            Point { x: c.x + 12, y: c.y }
        }
    });
    assert_eq!(found, Some(Point { x: 62, y: 50 }));
    assert_eq!(turn.get(), 4);
}

#[test]
fn placement_gives_up_after_the_cap() {
    let bounds = Bounds { width: 100, height: 100 };
    let range = DistanceRange::around(10);
    let center = Point { x: 50, y: 50 };
    let turn = Cell::new(0u32);
    let found = random_point_at_certain_distance(&center, &range, &bounds, &|_, _, _| {
        turn.set(turn.get() + 1);
        Point { x: 100, y: 50 }
    });
    assert_eq!(found, None);
    assert_eq!(turn.get(), MAX_PLACEMENT_ATTEMPTS);
}

#[test]
fn a_batch_holds_twenty_five_candidates() {
    let bounds = Bounds { width: 100, height: 100 };
    let range = DistanceRange::around(10);
    let center = Point { x: 50, y: 50 };
    let turn = Cell::new(0);
    let batch = generate_anchor_candidates(&center, &range, &bounds, &|c, _, _| {
        turn.set(turn.get() + 1);
        Point { x: c.x + 10, y: c.y - 10 + turn.get() % 20 }
    });
    assert_eq!(batch.len(), CANDIDATES_PER_ANCHOR);
    assert_eq!(batch.len(), 25);
    assert_eq!(batch[0], Point { x: 60, y: 41 });
    assert_eq!(batch[24], Point { x: 60, y: 45 });
}

#[test]
fn sampler_judges_candidates_in_order() {
    let bounds = Bounds { width: 100, height: 100 };
    let mut sampler = AnchorSampler::new(bounds, 10, Point { x: 50, y: 50 });
    // too close to the seed
    assert!(sampler.enqueue(Point { x: 55, y: 50 }));
    // outside: never queued
    assert!(!sampler.enqueue(Point { x: 100, y: 50 }));
    // exactly at the minimum distance: accepted
    assert!(sampler.enqueue(Point { x: 60, y: 50 }));
    // fine against the seed, too close to the one before
    assert!(sampler.enqueue(Point { x: 66, y: 57 }));
    // fine against both
    assert!(sampler.enqueue(Point { x: 50, y: 70 }));

    assert!(!sampler.is_admissible(&Point { x: 55, y: 50 }));
    assert!(sampler.is_admissible(&Point { x: 60, y: 50 }));

    assert_eq!(sampler.next_anchor(), Some(Point { x: 60, y: 50 }));
    assert_eq!(sampler.next_anchor(), Some(Point { x: 50, y: 70 }));
    assert_eq!(sampler.next_anchor(), None);
    assert_eq!(
        sampler.into_anchors(),
        vec![Point { x: 50, y: 50 }, Point { x: 60, y: 50 }, Point { x: 50, y: 70 }]
    );
}

#[test]
fn seed_is_accepted_wherever_it_lies() {
    let bounds = Bounds { width: 10, height: 10 };
    let seed = Point { x: 0, y: -7 };
    let sampler = AnchorSampler::new(bounds, 3, seed);
    assert_eq!(sampler.into_anchors(), vec![seed]);
}

/// The growth written down once more, with a queue, to hold the library against.
fn grow_by_hand(
    bounds: &Bounds,
    minimum_distance: u32,
    seed: Point,
    propose: &dyn Fn(Point, DistanceRange) -> Point,
) -> Vec<Point> {
    let range = DistanceRange::around(minimum_distance);
    let batch = |center: Point| -> Vec<Point> {
        let mut found = Vec::new();
        for _ in 0..25 {
            for _ in 0..1024 {
                let p = propose(center, range);
                if bounds.contains(&p) {
                    found.push(p);
                    break;
                }
            }
        }
        found
    };
    let threshold = minimum_distance as i64 * minimum_distance as i64;
    let mut anchors = vec![seed];
    let mut frontier: std::collections::VecDeque<Point> = batch(seed).into();
    while let Some(candidate) = frontier.pop_front() {
        if anchors.iter().all(|a| squared_distance(a, &candidate) >= threshold) {
            anchors.push(candidate);
            frontier.extend(batch(candidate));
        }
    }
    anchors
}

#[test]
fn growth_judges_candidates_first_in_first_out() {
    let bounds = Bounds { width: 200, height: 150 };
    let seed = Point { x: 0, y: 0 };
    let dice = Dice::new(42);
    let expected = grow_by_hand(&bounds, 12, seed, &|c, d| dice.around(c, d));
    let dice = Dice::new(42);
    let anchors = generate_anchor_points(&bounds, 12, seed, &|c, d, _| dice.around(c, d));
    assert!(anchors.len() > 20);
    assert_eq!(anchors, expected);
}

#[test]
fn every_anchor_was_placed_around_an_earlier_one() {
    let bounds = Bounds { width: 120, height: 120 };
    let seed = Point { x: 60, y: 60 };
    let dice = Dice::new(99);
    let placed = std::cell::RefCell::new(Vec::new());
    let anchors = generate_anchor_points(&bounds, 15, seed, &|center, distance, b| {
        assert_eq!(b, bounds);
        assert_eq!(distance, DistanceRange { minimum: 15, maximum: 30 });
        let p = dice.around(center, distance);
        placed.borrow_mut().push((center, p));
        p
    });
    let placed = placed.into_inner();
    for (i, anchor) in anchors.iter().enumerate().skip(1) {
        assert!(placed.iter().any(|(center, p)| p == anchor && anchors[..i].contains(center)));
    }
    // every anchor sent its batch, and no one else did
    for (center, _) in &placed {
        assert!(anchors.contains(center));
    }
    for anchor in &anchors {
        assert!(placed.iter().filter(|(center, _)| center == anchor).count() >= 25);
    }
}

#[test]
fn first_candidate_around_the_seed_becomes_the_second_anchor() {
    let bounds = Bounds { width: 300, height: 300 };
    let seed = Point { x: 150, y: 150 };
    let turn = Cell::new(0i32);
    // always inside the bounds and exactly the minimum distance from the centre
    let anchors = generate_anchor_points(&bounds, 10, seed, &|center, distance, _| {
        turn.set(turn.get() + 1);
        let step = distance.minimum as i32;
        let p = match turn.get() % 4 {
            0 => Point { x: center.x + step, y: center.y },
            1 => Point { x: center.x, y: center.y + step },
            2 => Point { x: center.x - step, y: center.y },
            _ => Point { x: center.x, y: center.y - step },
        };
        Point { x: p.x.clamp(1, 299), y: p.y.clamp(1, 299) }
    });
    assert!(anchors.len() >= 2);
    assert_eq!(anchors[0], seed);
    assert_eq!(anchors[1], Point { x: 150, y: 160 });
}
