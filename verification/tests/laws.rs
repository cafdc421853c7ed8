//! What the library states of all inputs, on some of them.
use nav_scene::gate::move_allowed;
use nav_scene::snap::snap_goal;
use nav_scene::{
    next_index, next_u64, next_unit, seed_from_id, shuffle, CoarseView, NavConfig, NavShared,
    NavStatus, Navigator, Point, Real, Threat, WalkView, Window, DEFAULT_SENSE_RADIUS,
};

fn number(value: f64) -> Real {
    Real { bits: value.to_bits() }
}

fn float(value: Real) -> f64 {
    f64::from_bits(value.bits)
}

fn point(world: [f64; 2]) -> Point {
    Point { x: number(world[0]), z: number(world[1]) }
}

fn view(width: usize, height: usize, blocked: impl Fn(usize, usize) -> bool) -> WalkView {
    let cells: Vec<u8> =
        (0..width * height).map(|index| u8::from(blocked(index % width, index / width))).collect();
    WalkView::from_blocked(width, height, point([0.0, 0.0]), number(1.0), &cells)
}

#[test]
fn a_hypotenuse_is_not_shorter_than_a_side() {
    let mut state = 7_u64;
    for turn in 0..100_000 {
        let scale = [1.0, 1e-200, 1e200, 1e-310][turn % 4];
        let a = (next_u64(&mut state) % 1_000_003) as f64 * scale + 5e-324;
        let b = (next_u64(&mut state) % 1_000_003) as f64 * scale;
        assert!(number(a).le(number(a).hypot(number(b))), "{a:e} {b:e}");
        assert_eq!(number(a).hypot(number(b)), number(b).hypot(number(a)));
    }
    assert_eq!(number(3.0).hypot(number(4.0)), number(5.0));
    assert_eq!(number(0.0).hypot(number(-2.0)), number(2.0));
}

#[test]
fn cells_that_stay_open_keep_the_clearance() {
    let base = view(24, 24, |col, row| (col * 7 + row * 5) % 31 == 0);
    for radius in [0.3, 1.0, 1.7, 2.5] {
        let dilated = base.dilated(number(radius));
        for row in 0..24_isize {
            for col in 0..24_isize {
                if base.blocked(col, row) {
                    assert!(dilated.blocked(col, row));
                }
                if dilated.blocked(col, row) {
                    continue;
                }
                for r in 0..24_isize {
                    for c in 0..24_isize {
                        if base.blocked(c, r) {
                            let dx = ((col - c).abs() - 1).max(0) as f64;
                            let dz = ((row - r).abs() - 1).max(0) as f64;
                            assert!(dx.hypot(dz) >= radius);
                        }
                    }
                }
            }
        }
    }
}

#[test]
fn steps_between_open_cells_are_clear_segments() {
    let view = view(16, 16, |col, row| (col * 5 + row * 3) % 11 == 0);
    for row in 0..16_usize {
        for col in 0..16_usize {
            if view.blocked(col as isize, row as isize) {
                continue;
            }
            for (dx, dz) in [(1, 0), (0, 1), (1, 1), (-1, 1), (-1, 0), (0, -1), (1, -1), (-1, -1)] {
                let (c, r) = (col as isize + dx, row as isize + dz);
                let open = !view.blocked(c, r)
                    && !view.blocked(c, row as isize)
                    && !view.blocked(col as isize, r);
                if c < 0 || r < 0 {
                    continue;
                }
                let to = view.center(c as usize, r as usize);
                assert_eq!(view.segment_is_clear(view.center(col, row), to), open);
            }
        }
    }
}

#[test]
fn a_coarse_cell_is_open_when_any_fine_cell_in_it_is() {
    let fine = view(10, 6, |col, row| !(col == 5 && row == 2) && col >= 4 && col < 8 && row < 4);
    let coarse = CoarseView::from_fine(&fine, 4);
    assert!(coarse.is_open(0, 0));
    assert!(coarse.is_open(1, 0));
    assert_eq!(float(coarse.density[1]), f64::from(15.0_f32 / 16.0));
    assert_eq!(float(coarse.density[0]), 0.0);
    assert!(coarse.is_open(2, 1));
    assert!(!coarse.is_open(3, 0));
    assert!(!coarse.is_open(0, -1));
    assert_eq!(coarse.cell_of(point([9.5, 5.5])), Some((2, 1)));
    assert_eq!(coarse.center(1, 0), point([6.0, 2.0]));
    let closed = view(4, 4, |_, _| true);
    assert!(!CoarseView::from_fine(&closed, 4).is_open(0, 0));
}

#[test]
fn a_window_numbers_its_cells() {
    let window = Window { min_col: 3, min_row: 2, width: 4, height: 2 };
    assert!(window.contains(3, 2));
    assert!(window.contains(6, 3));
    assert!(!window.contains(7, 3));
    assert!(!window.contains(2, 2));
    assert!(!window.contains(3, 4));
    assert_eq!(window.index(3, 2), 0);
    assert_eq!(window.index(5, 3), 6);
}

#[test]
fn time_that_does_not_pass_changes_nothing() {
    let truth = view(16, 16, |_, _| false);
    let shared = NavShared::from_view(truth, NavConfig::default());
    let mut navigator = Navigator::new(point([2.5, 2.5]));
    assert_eq!(navigator.tick(&shared, &shared.fine, &[], number(0.1)), NavStatus::Idle);
    navigator.set_goal(point([12.5, 12.5]));
    for dt in [0.0, -1.0, f64::NAN, f64::INFINITY] {
        assert_eq!(navigator.tick(&shared, &shared.fine, &[], number(dt)), NavStatus::Moving);
        assert_eq!(navigator.position(), point([2.5, 2.5]));
        assert!(navigator.corridor().is_empty());
    }
    navigator.tick(&shared, &shared.fine, &[], number(0.1));
    assert_ne!(navigator.position(), point([2.5, 2.5]));
    assert!(!navigator.corridor().is_empty());
    assert!(!navigator.local_remaining().is_empty());
    navigator.stop();
    assert_eq!(navigator.status(), NavStatus::Idle);
    assert_eq!(navigator.goal(), None);
    assert!(navigator.corridor().is_empty());
}

#[test]
fn a_goal_at_hand_is_reached_at_once() {
    let truth = view(16, 16, |_, _| false);
    let shared = NavShared::from_view(truth, NavConfig::default());
    let mut navigator = Navigator::new(point([2.5, 2.5]));
    navigator.set_goal(point([2.5, 2.53]));
    assert_eq!(navigator.tick(&shared, &shared.fine, &[], number(0.1)), NavStatus::Arrived);
    assert_eq!(navigator.position(), point([2.5, 2.5]));
    assert_eq!(navigator.tick(&shared, &shared.fine, &[], number(0.1)), NavStatus::Arrived);
}

#[test]
fn a_blocked_agent_probes_again_after_the_cooldown() {
    let truth = view(16, 16, |_, _| true);
    let shared = NavShared::from_view(truth, NavConfig::default());
    let mut navigator = Navigator::new(point([2.5, 2.5]));
    navigator.set_goal(point([12.5, 12.5]));
    assert_eq!(navigator.tick(&shared, &shared.fine, &[], number(0.1)), NavStatus::Blocked);
    let wait = float(shared.config.replan_seconds).max(0.05) * 10.0;
    let mut waited = 0.0;
    while navigator.tick(&shared, &shared.fine, &[], number(0.1)) == NavStatus::Blocked {
        waited += 0.1;
        assert!(waited <= wait + 0.1);
    }
    assert!(waited >= wait - 0.2);
    assert_eq!(navigator.status(), NavStatus::Moving);
    assert_eq!(navigator.position(), point([2.5, 2.5]));
    assert_eq!(navigator.goal(), Some(point([12.5, 12.5])));
}

#[test]
fn a_disc_is_escaped_and_not_crossed() {
    let truth = view(32, 32, |_, _| false);
    let shared = NavShared::from_view(truth, NavConfig::default());
    let threat = Threat { center: point([16.5, 16.5]), radius: number(5.0) };
    let away = |place: Point| (float(place.x) - 16.5).hypot(float(place.z) - 16.5);
    for dt in [0.05, 0.5, 2.0, 10.0] {
        let mut navigator = Navigator::new(point([14.5, 16.5]));
        navigator.set_goal(point([28.5, 16.5]));
        let mut nearest = away(navigator.position());
        for _ in 0..400 {
            let before = navigator.position();
            navigator.tick(&shared, &shared.fine, &[threat], number(dt));
            let now = away(navigator.position());
            if nearest < 5.0 {
                assert!(now >= nearest - 1e-6, "{now} after {nearest}");
                for part in 0..=100 {
                    let share = f64::from(part) / 100.0;
                    let along = |from: Real, to: Real| {
                        number(float(from) + (float(to) - float(from)) * share)
                    };
                    let after = navigator.position();
                    let between =
                        Point { x: along(before.x, after.x), z: along(before.z, after.z) };
                    assert!(away(between) >= nearest - 1e-6, "{dt}: {between:?}");
                }
                nearest = now;
            } else {
                assert!(now >= 5.0, "{now}");
            }
        }
        // a step that is longer than the grid is wide leaves no way out of the disc
        let end = if dt < 10.0 { NavStatus::Arrived } else { NavStatus::Moving };
        assert_eq!(navigator.status(), end, "{dt}");
    }
}

#[test]
fn a_long_step_does_not_cross_a_disc() {
    let open = view(12, 12, |_, _| false);
    let config =
        NavConfig { threat_margin: number(0.0), agent_radius: number(0.0), ..NavConfig::default() };
    let disc = vec![Threat { center: point([5.5, 5.5]), radius: number(2.0) }];
    let admitted = |discs: &Vec<Threat>, from: [f64; 2], to: [f64; 2]| {
        move_allowed(&open, &config, discs, point(from), point(to))
    };
    // straight through the centre, past it, and deeper
    assert!(!admitted(&disc, [4.5, 5.5], [6.5, 5.5]));
    assert!(!admitted(&disc, [4.5, 5.5], [9.5, 5.5]));
    assert!(!admitted(&disc, [4.5, 5.5], [8.5, 6.5]));
    assert!(!admitted(&disc, [4.5, 5.5], [5.0, 5.5]));
    // away from it and along its tangent
    assert!(admitted(&disc, [4.5, 5.5], [1.5, 5.5]));
    assert!(admitted(&disc, [4.5, 5.5], [4.5, 9.5]));
    assert!(admitted(&disc, [4.5, 5.5], [4.5, 5.5]));
    // a disc that does not hold the agent is not touched at all
    assert!(!admitted(&disc, [2.5, 5.5], [9.5, 5.5]));
    assert!(!admitted(&disc, [2.5, 5.5], [3.5, 5.5]));
    assert!(admitted(&disc, [2.5, 5.5], [2.5, 9.5]));
    // between two discs that both hold it the agent may slide
    let pair = vec![
        Threat { center: point([3.5, 5.5]), radius: number(2.0) },
        Threat { center: point([6.5, 5.5]), radius: number(2.0) },
    ];
    assert!(admitted(&pair, [4.75, 5.5], [5.0, 5.5]));
}

#[test]
fn a_disc_is_not_entered_however_long_the_step() {
    let open = view(64, 64, |_, _| false);
    let config =
        NavConfig { sense_radius: number(3.0), speed: number(40.0), ..NavConfig::default() };
    let shared = NavShared::from_view(open, config);
    let threat = Threat { center: point([32.5, 32.5]), radius: number(4.0) };
    let kept = 4.0 + float(shared.config.agent_radius) + float(shared.config.threat_margin) * 0.5;
    for dt in [0.01, 0.1, 0.5, 1.0] {
        let mut navigator = Navigator::new(point([10.5, 32.5]));
        navigator.set_goal(point([55.5, 32.5]));
        for _ in 0..200 {
            let before = navigator.position();
            navigator.tick(&shared, &shared.fine, &[threat], number(dt));
            let after = navigator.position();
            let away = (float(after.x) - 32.5).hypot(float(after.z) - 32.5);
            assert!(away > kept - 1e-9, "{dt}: {away}");
            let walked = (float(after.x) - float(before.x)).hypot(float(after.z) - float(before.z));
            assert!(walked <= 40.0 * dt + 1e-9, "{dt}: {walked}");
        }
    }
}

#[test]
fn segments_inside_an_open_grid_are_clear() {
    let open = view(10, 10, |_, _| false);
    let clear = |from: [f64; 2], to: [f64; 2]| open.segment_is_clear(point(from), point(to));
    assert!(clear([4.5, 5.5], [5.0, 5.0]));
    assert!(clear([5.0, 5.0], [4.5, 5.5]));
    assert!(clear([4.5, 0.5], [5.0, 0.0]));
    assert!(clear([0.5, 0.5], [0.0, 0.0]));
    assert!(clear([9.5, 0.5], [0.0, 9.0]));
    let mut state = 11_u64;
    let mut place = |most: u64| (next_u64(&mut state) % most) as f64;
    for _ in 0..20_000 {
        let from = [place(20) / 2.0, place(40) / 4.0];
        let to = [place(40) / 4.0, place(1000) / 100.0];
        assert!(clear(from, to), "{from:?} {to:?}");
    }
    // a blocked cell beside the corner where a segment ends still stops it
    let corner = view(10, 10, |col, row| (col, row) == (4, 4));
    assert!(!corner.segment_is_clear(point([4.5, 5.5]), point([5.0, 5.0])));
    // and so does one across that corner, whichever way the segment comes
    let across = view(10, 10, |col, row| (col, row) == (5, 4));
    assert!(!across.segment_is_clear(point([4.5, 5.5]), point([5.0, 5.0])));
    let across = view(10, 10, |col, row| (col, row) == (4, 5));
    assert!(!across.segment_is_clear(point([5.5, 4.5]), point([5.0, 5.0])));
    // a cell elsewhere does not
    let elsewhere = view(10, 10, |col, row| (col, row) == (6, 4) || (col, row) == (3, 4));
    assert!(elsewhere.segment_is_clear(point([4.5, 5.5]), point([5.0, 5.0])));
}

#[test]
fn a_segment_from_beyond_the_grid_is_not_clear() {
    let open = view(10, 10, |_, _| false);
    for outside in [[12.5, 2.5], [2.5, 12.5], [-0.5, 2.5], [2.5, -0.5], [10.0, 10.0]] {
        for ignore in [false, true] {
            let from = point(outside);
            assert!(!open.segment_clear_from(from, from, ignore), "{outside:?}");
            assert!(!open.segment_clear_from(from, point([5.5, 5.5]), ignore), "{outside:?}");
            assert!(!open.segment_clear_from(point([5.5, 5.5]), from, ignore), "{outside:?}");
        }
    }
    // only the blocked state of the start cell is exempt
    let walled = view(10, 10, |col, _| col == 4);
    let (from, to) = (point([4.5, 2.5]), point([6.5, 2.5]));
    assert!(!walled.segment_clear_from(from, to, false));
    assert!(walled.segment_clear_from(from, to, true));
}

#[test]
fn an_illegal_goal_goes_to_the_nearest_legal_cell() {
    let config = NavConfig::default();
    let ringed = view(3, 3, |col, row| (col, row) == (1, 1));
    let side = snap_goal(&ringed, &config, &[], point([1.5, 1.5]));
    assert_eq!(side, Some(point([1.5, 0.5])));
    // a wider ring can hold a nearer middle than the first ring with a legal cell
    let sparse = view(9, 9, |col, row| (col, row) != (7, 7) && (col, row) != (4, 0));
    assert_eq!(snap_goal(&sparse, &config, &[], point([4.5, 4.5])), Some(point([4.5, 0.5])));
    // a legal goal stays as it is
    assert_eq!(snap_goal(&sparse, &config, &[], point([7.2, 7.9])), Some(point([7.2, 7.9])));
    // off the grid
    let open = view(5, 5, |_, _| false);
    assert_eq!(snap_goal(&open, &config, &[], point([9.0, 2.2])), Some(point([4.5, 2.5])));
    // out of a disc
    let threat = Threat { center: point([2.5, 2.5]), radius: number(1.6) };
    let bare =
        NavConfig { threat_margin: number(0.0), agent_radius: number(0.0), ..NavConfig::default() };
    assert_eq!(
        snap_goal(&open, &bare, &[threat], point([2.6, 2.5])),
        Some(point([4.5, 2.5])),
    );
    // nowhere to stop
    let full = view(4, 4, |_, _| true);
    assert_eq!(snap_goal(&full, &config, &[], point([1.5, 1.5])), None);
}

#[test]
fn a_goal_far_from_any_legal_cell_is_walked_towards() {
    let config = NavConfig::default();
    let strip = view(64, 8, |col, _| col >= 8);
    assert_eq!(snap_goal(&strip, &config, &[], point([60.5, 3.5])), Some(point([7.5, 3.5])));
    let shared = NavShared::from_view(strip, config);
    let mut navigator = Navigator::new(point([1.5, 3.5]));
    navigator.set_goal(point([60.5, 3.5]));
    for _ in 0..400 {
        navigator.tick(&shared, &shared.fine, &[], number(0.1));
    }
    assert_eq!(navigator.status(), NavStatus::Arrived);
    assert!(float(navigator.position().x) > 4.0);
}

#[test]
fn planned_legs_are_clear() {
    let walls = view(40, 40, |col, row| (col * 13 + row * 7) % 11 == 0 && (col + row) % 3 != 0);
    let config = NavConfig { agent_radius: number(0.0), ..NavConfig::default() };
    let shared = NavShared::from_view(walls, config);
    let mut legs = 0;
    for goal in [[38.5, 38.5], [3.5, 30.5], [30.5, 2.5], [20.5, 21.5]] {
        let mut navigator = Navigator::new(point([1.5, 1.5]));
        navigator.set_goal(point(goal));
        for _ in 0..60 {
            navigator.tick(&shared, &shared.fine, &[], number(0.2));
            let mut from = navigator.position();
            for &to in navigator.local_remaining() {
                assert!(shared.fine.segment_is_clear(from, to), "{from:?} {to:?}");
                from = to;
                legs += 1;
            }
        }
    }
    assert!(legs > 100);
}

#[test]
fn the_usual_configuration() {
    let config = NavConfig::default();
    assert_eq!(config.sense_radius, number(f64::from_bits(DEFAULT_SENSE_RADIUS)));
    assert_eq!(f64::from_bits(DEFAULT_SENSE_RADIUS), 72.0);
}

#[test]
fn random_numbers_are_reproducible() {
    let step = |value: u64| {
        let value = value ^ (value << 13);
        let value = value ^ (value >> 7);
        value ^ (value << 17)
    };
    let mut state = 42_u64;
    assert_eq!(next_u64(&mut state), step(42));
    assert_eq!(state, step(42));
    let unit = next_unit(&mut state);
    assert_eq!(float(unit), step(step(42)) as f64 / u64::MAX as f64);
    let index = next_index(&mut state, 10);
    assert_eq!(index as u64, step(step(step(42))) % 10);
    let mut hash = 0xcbf2_9ce4_8422_2325_u64;
    for byte in "wolf é".bytes() {
        hash = (hash ^ u64::from(byte)).wrapping_mul(0x1000_0000_01b3);
    }
    assert_eq!(seed_from_id("wolf é"), hash.max(1));
    let mut values: Vec<usize> = (0..20).collect();
    shuffle(&mut values, &mut state);
    assert_ne!(values, (0..20).collect::<Vec<usize>>());
    values.sort();
    assert_eq!(values, (0..20).collect::<Vec<usize>>());
}
