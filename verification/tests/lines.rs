//! What holds of every point of a straight line.
use nav_scene::gate::move_allowed;
use nav_scene::geometry::segment_distance_sq;
use nav_scene::{
    next_u64, NavConfig, NavShared, NavStatus, Navigator, Point, Real, Threat, WalkView,
};

fn number(value: f64) -> Real {
    Real { bits: value.to_bits() }
}

fn float(value: Real) -> f64 {
    f64::from_bits(value.bits)
}

fn point(world: [f64; 2]) -> Point {
    Point { x: number(world[0]), z: number(world[1]) }
}

fn view(width: usize, height: usize, blocked: impl Fn(usize, usize) -> bool) -> WalkView {
    let cells: Vec<u8> =
        (0..width * height).map(|index| u8::from(blocked(index % width, index / width))).collect();
    WalkView::from_blocked(width, height, point([0.0, 0.0]), number(1.0), &cells)
}

/// Whether a segment comes into a cell by more than a sliver.
fn enters(from: [f64; 2], to: [f64; 2], col: isize, row: isize) -> bool {
    let (mut first, mut last) = (0.0_f64, 1.0_f64);
    for (a, b, cell) in [(from[0], to[0], col), (from[1], to[1], row)] {
        let (low, high) = (cell as f64 + 1e-6, cell as f64 + 1.0 - 1e-6);
        if a == b {
            if a <= low || a >= high {
                return false;
            }
        } else {
            let (s, t) = ((low - a) / (b - a), (high - a) / (b - a));
            first = first.max(s.min(t));
            last = last.min(s.max(t));
        }
    }
    first < last
}

#[test]
fn a_clear_segment_touches_no_blocked_cell() {
    let mut state = 3_u64;
    let (mut clear, mut stopped) = (0, 0);
    for _ in 0..60 {
        let seed = next_u64(&mut state);
        let walls = view(40, 30, |col, row| {
            let mut mixed = seed ^ (col as u64 * 977 + row as u64);
            next_u64(&mut mixed) % 12 == 0
        });
        for turn in 0..400_u64 {
            let mut place = |most: f64| {
                let share = (next_u64(&mut state) % 1_000_001) as f64 / 1_000_000.0 * most;
                // every third line lies on halves of cells
                if turn % 3 == 0 { (share * 2.0).floor() / 2.0 } else { share }
            };
            let from = [place(40.0), place(30.0)];
            let to = [place(40.0), place(30.0)];
            if !walls.segment_is_clear(point(from), point(to)) {
                stopped += 1;
                continue;
            }
            clear += 1;
            for row in 0..30 {
                for col in 0..40 {
                    let touched = walls.blocked(col, row) && enters(from, to, col, row);
                    assert!(!touched, "{from:?} {to:?} {col} {row}");
                }
            }
        }
    }
    assert!(clear > 1000 && stopped > 1000, "{clear} {stopped}");
}

#[test]
fn a_segment_through_a_wall_is_stopped_on_the_right_axis() {
    // one blocked cell, lines that pass just beside it and through it
    let wall = view(12, 12, |col, row| (col, row) == (6, 3));
    let clear = |from: [f64; 2], to: [f64; 2]| wall.segment_is_clear(point(from), point(to));
    assert!(!clear([1.5, 1.5], [11.5, 5.5]));
    assert!(!clear([11.5, 5.5], [1.5, 1.5]));
    assert!(clear([1.5, 2.5], [11.5, 6.5]));
    assert!(clear([1.5, 0.5], [11.5, 4.25]));
    assert!(!clear([6.5, 0.5], [6.5, 9.5]));
    assert!(clear([5.5, 0.5], [5.5, 9.5]));
}

#[test]
fn motion_touches_no_blocked_cell() {
    let base = view(48, 48, |col, row| (col * 13 + row * 7) % 17 == 0 && (col + row) % 5 != 0);
    let config = NavConfig { agent_radius: number(0.25), ..NavConfig::default() };
    let shared = NavShared::from_view(base.clone(), config);
    let mut strides = 0;
    for (start, goal) in [([1.5, 1.5], [45.5, 44.5]), ([40.5, 3.5], [4.5, 40.5])] {
        let mut navigator = Navigator::new(point(start));
        navigator.set_goal(point(goal));
        for _ in 0..400 {
            let from = navigator.position();
            // short enough for one stride at a time
            let status = navigator.tick(&shared, &shared.fine, &[], number(0.01));
            let to = navigator.position();
            let (a, b) = ([float(from.x), float(from.z)], [float(to.x), float(to.z)]);
            for row in 0..48 {
                for col in 0..48 {
                    let started = a[0].floor() as isize == col && a[1].floor() as isize == row;
                    assert!(started || !shared.fine.blocked(col, row) || !enters(a, b, col, row));
                    assert!(!base.blocked(col, row) || !enters(a, b, col, row));
                }
            }
            if from != to {
                strides += 1;
            }
            if status != NavStatus::Moving {
                break;
            }
        }
    }
    assert!(strides > 50, "{strides}");
}

#[test]
fn no_point_of_a_segment_is_nearer_than_the_distance_says() {
    let mut state = 21_u64;
    let mut place = || (next_u64(&mut state) % 2_000_001) as f64 / 1000.0 - 1000.0;
    for _ in 0..2000 {
        let (from, to, center) =
            ([place(), place()], [place(), place()], [place(), place()]);
        let distance = float(segment_distance_sq(point(from), point(to), point(center)));
        let mut least = f64::INFINITY;
        for part in 0..=500 {
            let share = f64::from(part) / 500.0;
            let x = from[0] + (to[0] - from[0]) * share - center[0];
            let z = from[1] + (to[1] - from[1]) * share - center[1];
            least = least.min(x * x + z * z);
        }
        assert!(distance <= least + 1e-6, "{distance} {least}");
        // and some point is about as near
        let length = (to[0] - from[0]).hypot(to[1] - from[1]);
        assert!(least.sqrt() <= distance.sqrt() + length / 500.0, "{distance} {least}");
    }
    assert_eq!(
        segment_distance_sq(point([0.0, 0.0]), point([4.0, 0.0]), point([1.0, 3.0])),
        number(9.0)
    );
    assert_eq!(
        segment_distance_sq(point([0.0, 0.0]), point([4.0, 0.0]), point([7.0, 4.0])),
        number(25.0)
    );
    assert_eq!(
        segment_distance_sq(point([2.0, 2.0]), point([2.0, 2.0]), point([5.0, 6.0])),
        number(25.0)
    );
}

#[test]
fn an_admitted_step_keeps_out_of_a_disc_at_every_point() {
    let open = view(60, 60, |_, _| false);
    let config = NavConfig { agent_radius: number(0.0), ..NavConfig::default() };
    let threats = vec![Threat { center: point([30.0, 30.0]), radius: number(8.0) }];
    let guarded = 8.0 - float(config.threat_margin) / 2.0;
    let mut state = 8_u64;
    let mut place = || (next_u64(&mut state) % 60_000) as f64 / 1000.0;
    let (mut admitted, mut refused) = (0, 0);
    for _ in 0..4000 {
        let (from, to) = ([place(), place()], [place(), place()]);
        if (from[0] - 30.0).hypot(from[1] - 30.0) <= guarded {
            continue;
        }
        if !move_allowed(&open, &config, &threats, point(from), point(to)) {
            refused += 1;
            continue;
        }
        admitted += 1;
        for part in 0..=400 {
            let share = f64::from(part) / 400.0;
            let x = from[0] + (to[0] - from[0]) * share - 30.0;
            let z = from[1] + (to[1] - from[1]) * share - 30.0;
            assert!(x.hypot(z) > guarded - 1e-9, "{from:?} {to:?}");
        }
    }
    assert!(admitted > 500 && refused > 500, "{admitted} {refused}");
}
