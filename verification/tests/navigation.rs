//! Steering agents through whole scenes.
use std::time::Instant;

use nav_scene::{NavConfig, NavShared, NavStatus, Navigator, Point, Real, Threat, WalkView};

fn number(value: f64) -> Real {
    Real { bits: value.to_bits() }
}

fn float(value: Real) -> f64 {
    f64::from_bits(value.bits)
}

fn point(world: [f64; 2]) -> Point {
    Point { x: number(world[0]), z: number(world[1]) }
}

fn coordinates(world: Point) -> [f64; 2] {
    [float(world.x), float(world.z)]
}

fn distance_sq(left: [f64; 2], right: [f64; 2]) -> f64 {
    (left[0] - right[0]).powi(2) + (left[1] - right[1]).powi(2)
}

fn distance(left: [f64; 2], right: [f64; 2]) -> f64 {
    distance_sq(left, right).sqrt()
}

fn segment_distance_sq(from: [f64; 2], to: [f64; 2], point: [f64; 2]) -> f64 {
    let delta = [to[0] - from[0], to[1] - from[1]];
    let length_sq = delta[0] * delta[0] + delta[1] * delta[1];
    let t = if length_sq <= f64::EPSILON {
        0.0
    } else {
        (((point[0] - from[0]) * delta[0] + (point[1] - from[1]) * delta[1]) / length_sq)
            .clamp(0.0, 1.0)
    };
    let nearest = [from[0] + delta[0] * t, from[1] + delta[1] * t];
    distance_sq(point, nearest)
}

fn view(width: usize, height: usize, blocked: impl Fn(usize, usize) -> bool) -> WalkView {
    let cells: Vec<u8> = (0..width * height)
        .map(|index| u8::from(blocked(index % width, index / width)))
        .collect();
    WalkView::from_blocked(width, height, point([0.0, 0.0]), number(1.0), &cells)
}

fn test_config() -> NavConfig {
    NavConfig {
        coarse_factor: 4,
        sense_radius: number(12.0),
        speed: number(4.0),
        replan_seconds: number(0.2),
        max_fail_streak: 24,
        ..NavConfig::default()
    }
}

struct RunResult {
    reached: bool,
    status: NavStatus,
    min_threat_distance: f64,
}

/// Drive a navigator to `goal`, asserting on EVERY tick that the swept,
/// interpolated segment never crosses ground-truth collision terrain and
/// keeps the configured clearance radius from every blocked cell (checked
/// with exact segment-to-rectangle geometry against the RAW grid).
/// With `stream`, the agent's known map starts as the shared base view and
/// ground-truth cells are copied in only within the sensing radius,
/// simulating obstacles being streamed as the agent approaches.
fn run(
    shared: &NavShared,
    truth: &WalkView,
    threats: &[Threat],
    start: [f64; 2],
    goal: [f64; 2],
    stream: bool,
    max_ticks: usize,
) -> RunResult {
    let radius = float(shared.config.agent_radius);
    let plan_view = if radius > 0.0 {
        truth.dilated(number(radius))
    } else {
        truth.clone()
    };
    let mut known = if stream {
        shared.fine.clone()
    } else {
        plan_view.clone()
    };
    let mut navigator = Navigator::new(point(start));
    navigator.set_goal(point(goal));
    let dt = 0.05;
    let mut min_threat = f64::INFINITY;
    for _ in 0..max_ticks {
        if stream {
            stream_sense(
                &mut known,
                &plan_view,
                coordinates(navigator.position()),
                float(shared.config.sense_radius),
            );
        }
        let before = coordinates(navigator.position());
        let status = navigator.tick(shared, &known, threats, number(dt));
        let after = coordinates(navigator.position());
        assert!(
            truth.segment_is_clear(point(before), point(after)),
            "interpolated move {before:?} -> {after:?} crossed collision terrain"
        );
        assert_clearance(truth, before, after, radius);
        for threat in threats {
            min_threat = min_threat.min(distance(after, coordinates(threat.center)));
        }
        match status {
            NavStatus::Arrived => {
                return RunResult {
                    reached: true,
                    status,
                    min_threat_distance: min_threat,
                }
            }
            NavStatus::Blocked => {
                return RunResult {
                    reached: false,
                    status,
                    min_threat_distance: min_threat,
                }
            }
            _ => {}
        }
    }
    RunResult {
        reached: false,
        status: NavStatus::Moving,
        min_threat_distance: min_threat,
    }
}

fn stream_sense(known: &mut WalkView, truth: &WalkView, position: [f64; 2], radius: f64) {
    let cell = float(known.cell_size);
    let min_col = (((position[0] - radius) / cell).floor() as isize).max(0);
    let max_col = (((position[0] + radius) / cell).floor() as isize)
        .min(known.width as isize - 1);
    let min_row = (((position[1] - radius) / cell).floor() as isize).max(0);
    let max_row = (((position[1] + radius) / cell).floor() as isize)
        .min(known.height as isize - 1);
    for row in min_row..=max_row {
        for col in min_col..=max_col {
            let center = coordinates(known.center(col as usize, row as usize));
            if distance_sq(center, position) <= radius * radius {
                known.set_blocked(
                    col as usize,
                    row as usize,
                    truth.blocked(col, row),
                );
            }
        }
    }
}

fn orient(a: [f64; 2], b: [f64; 2], c: [f64; 2]) -> f64 {
    (b[0] - a[0]) * (c[1] - a[1]) - (b[1] - a[1]) * (c[0] - a[0])
}

fn segments_cross(a1: [f64; 2], a2: [f64; 2], b1: [f64; 2], b2: [f64; 2]) -> bool {
    let d1 = orient(b1, b2, a1);
    let d2 = orient(b1, b2, a2);
    let d3 = orient(a1, a2, b1);
    let d4 = orient(a1, a2, b2);
    (d1 > 0.0) != (d2 > 0.0) && (d3 > 0.0) != (d4 > 0.0)
}

fn seg_seg_distance(a1: [f64; 2], a2: [f64; 2], b1: [f64; 2], b2: [f64; 2]) -> f64 {
    if segments_cross(a1, a2, b1, b2) {
        return 0.0;
    }
    segment_distance_sq(a1, a2, b1)
        .min(segment_distance_sq(a1, a2, b2))
        .min(segment_distance_sq(b1, b2, a1))
        .min(segment_distance_sq(b1, b2, a2))
        .sqrt()
}

fn segment_rect_distance(
    from: [f64; 2],
    to: [f64; 2],
    rect_min: [f64; 2],
    rect_max: [f64; 2],
) -> f64 {
    let inside = |p: [f64; 2]| {
        p[0] >= rect_min[0] && p[0] <= rect_max[0] && p[1] >= rect_min[1] && p[1] <= rect_max[1]
    };
    if inside(from) || inside(to) {
        return 0.0;
    }
    let corners = [
        [rect_min[0], rect_min[1]],
        [rect_max[0], rect_min[1]],
        [rect_max[0], rect_max[1]],
        [rect_min[0], rect_max[1]],
    ];
    (0..4)
        .map(|index| seg_seg_distance(from, to, corners[index], corners[(index + 1) % 4]))
        .fold(f64::INFINITY, f64::min)
}

/// Exact geometric check that a disc of `radius` swept along the segment
/// never clips any blocked cell of the raw grid.
fn assert_clearance(truth: &WalkView, from: [f64; 2], to: [f64; 2], radius: f64) {
    if radius <= 0.0 {
        return;
    }
    let cell = float(truth.cell_size);
    let reach = (radius / cell).ceil() as isize + 1;
    let min_col = ((((from[0].min(to[0]) - float(truth.origin.x)) / cell).floor() as isize) - reach)
        .max(0);
    let max_col = ((((from[0].max(to[0]) - float(truth.origin.x)) / cell).floor() as isize) + reach)
        .min(truth.width as isize - 1);
    let min_row = ((((from[1].min(to[1]) - float(truth.origin.z)) / cell).floor() as isize) - reach)
        .max(0);
    let max_row = ((((from[1].max(to[1]) - float(truth.origin.z)) / cell).floor() as isize) + reach)
        .min(truth.height as isize - 1);
    for row in min_row..=max_row {
        for col in min_col..=max_col {
            if !truth.blocked(col, row) {
                continue;
            }
            let rect_min = [
                float(truth.origin.x) + col as f64 * cell,
                float(truth.origin.z) + row as f64 * cell,
            ];
            let rect_max = [rect_min[0] + cell, rect_min[1] + cell];
            let clearance = segment_rect_distance(from, to, rect_min, rect_max);
            assert!(
                clearance + 1e-6 >= radius,
                "clearance violated: segment {from:?} -> {to:?} passes {clearance:.3} from \
                 blocked cell ({col},{row}), need {radius}"
            );
        }
    }
}

#[test]
fn supercover_detects_wall_hit_and_corner_cut() {
    let walled = view(10, 10, |col, row| col == 5 && row != 5);
    assert!(!walled.segment_is_clear(point([2.5, 2.5]), point([8.5, 2.5])));
    assert!(walled.segment_is_clear(point([2.5, 5.5]), point([8.5, 5.5])));

    let corner = view(10, 10, |col, row| (col, row) == (5, 5) || (col, row) == (4, 4));
    assert!(
        !corner.segment_is_clear(point([4.5, 5.5]), point([5.5, 4.5])),
        "exact corner crossing between two diagonal blocks must be conservative"
    );
    assert!(corner.segment_is_clear(point([2.5, 7.5]), point([7.5, 7.5])));
    // Leaving the grid is never clear.
    assert!(!corner.segment_is_clear(point([2.5, 2.5]), point([12.5, 2.5])));
}

#[test]
fn dilated_view_blocks_cells_near_walls() {
    let base = view(5, 5, |col, row| (col, row) == (2, 2));
    let fat = base.dilated(number(1.0));
    for row in 1..=3_isize {
        for col in 1..=3_isize {
            assert!(fat.blocked(col, row), "({col},{row}) should be dilated");
        }
    }
    assert!(!fat.blocked(0, 2));
    assert!(!fat.blocked(2, 0));
    assert!(!base.blocked(1, 1), "base view must stay untouched");
}

#[test]
fn maze_steering_reaches_goal_without_crossing_collision() {
    // Thick walls (full coarse columns) with alternating gaps: the coarse
    // view routes the zig-zag, the fine window walks it.
    let truth = view(64, 64, |col, row| {
        ((16..20).contains(&col) && row >= 8)
            || ((32..36).contains(&col) && row < 56)
            || ((48..52).contains(&col) && row >= 8)
    });
    let shared = NavShared::from_view(truth.clone(), test_config());
    let result = run(&shared, &truth, &[], [2.5, 2.5], [61.5, 61.5], false, 6000);
    assert!(result.reached, "status {:?}", result.status);
}

#[test]
fn hidden_obstacles_streamed_in_are_avoided() {
    // The shared/known map is empty; ground truth has small 2x2 blobs that
    // only stream into the known map inside the sensing radius.
    let empty = view(80, 80, |_, _| false);
    let truth = view(80, 80, |col, row| {
        (0..6).any(|i| {
            (0..7).any(|j| {
                let (bx, bz) = (10 + 13 * i, 7 + 11 * j);
                (bx..bx + 2).contains(&col) && (bz..bz + 2).contains(&row)
            })
        })
    });
    let shared = NavShared::from_view(empty, test_config());
    let result = run(&shared, &truth, &[], [2.5, 2.5], [76.5, 76.5], true, 6000);
    assert!(result.reached, "status {:?}", result.status);
}

#[test]
fn route_keeps_outside_enemy_awareness() {
    let truth = view(48, 48, |_, _| false);
    let shared = NavShared::from_view(truth.clone(), test_config());
    let threats = [Threat {
        center: point([24.0, 24.0]),
        radius: number(6.0),
    }];
    let result = run(&shared, &truth, &threats, [4.5, 24.5], [44.5, 24.5], false, 4000);
    assert!(result.reached, "status {:?}", result.status);
    assert!(
        result.min_threat_distance > 6.0,
        "entered enemy radius: closest approach {:.3}",
        result.min_threat_distance
    );
}

#[test]
fn blocked_when_every_route_enters_enemy_radius() {
    // A single corridor fully covered by the enemy awareness disc.
    let truth = view(40, 16, |_, row| !(6..10).contains(&row));
    let shared = NavShared::from_view(truth.clone(), test_config());
    let threats = [Threat {
        center: point([20.0, 8.0]),
        radius: number(4.0),
    }];
    let result = run(&shared, &truth, &threats, [4.5, 8.5], [36.5, 8.5], false, 4000);
    assert!(!result.reached);
    assert_eq!(result.status, NavStatus::Blocked);
    assert!(
        result.min_threat_distance > 4.0,
        "entered enemy radius while probing: closest approach {:.3}",
        result.min_threat_distance
    );
}

#[test]
fn optimistic_coarse_gap_is_repaired_by_penalties() {
    // The wall spans coarse column 7 (fine cols 28..32). The pocket at
    // rows 30..36 is open for the wall's first three columns but dead-ends
    // against the last, so the coarse view promises a passage that does
    // not exist even after clearance dilation; the real gap is at rows
    // 55..61. The navigator must penalize the fake gap and reroute.
    let truth = view(64, 64, |col, row| {
        if !(28..32).contains(&col) {
            return false;
        }
        if (55..61).contains(&row) {
            return false;
        }
        if (30..36).contains(&row) {
            return col == 31;
        }
        true
    });
    let shared = NavShared::from_view(truth.clone(), test_config());
    let result = run(&shared, &truth, &[], [10.5, 32.5], [54.5, 32.5], false, 8000);
    assert!(result.reached, "status {:?}", result.status);
}

#[test]
fn wandering_mobs_aggro_is_never_breached_to_080_radius() {
    // Live simulation: mobs wander around home points while the agent
    // walks long crossings between distant waypoints through their field.
    // The lanes between aggro discs open and close as the mobs drift, so
    // discs regularly sweep over the moving agent; the agent must never be
    // found inside 0.80x of any raw aggro radius.
    const AGGRO: f64 = 4.0;
    const MOB_SPEED: f64 = 1.5;
    const HOME_RADIUS: f64 = 6.0;
    let spots = [14_usize, 34, 54, 74];
    let truth = view(96, 96, |col, row| {
        spots.iter().any(|&bx| {
            spots.iter().any(|&bz| {
                (bx == 14 || bx == 74 || bz == 14 || bz == 74)
                    && (bx..bx + 2).contains(&col)
                    && (bz..bz + 2).contains(&row)
            })
        })
    });
    let shared = NavShared::from_view(truth.clone(), test_config());
    let plan_view = truth.dilated(shared.config.agent_radius);

    struct Mob {
        position: [f64; 2],
        home: [f64; 2],
        direction: [f64; 2],
        retarget: f64,
    }
    let mut rng = 0x2545_F491_4F6C_DD1D_u64;
    let roll = |state: &mut u64| {
        let mut value = *state;
        value ^= value << 13;
        value ^= value >> 7;
        value ^= value << 17;
        *state = value;
        value as f64 / u64::MAX as f64
    };
    let mut mobs: Vec<Mob> = [32.0, 48.0, 64.0]
        .iter()
        .flat_map(|&x| {
            [32.0, 48.0, 64.0].map(move |z| Mob {
                position: [x, z],
                home: [x, z],
                direction: [0.0, 0.0],
                retarget: 0.0,
            })
        })
        .collect();
    let goals = [[89.5, 89.5], [6.5, 89.5], [89.5, 6.5], [6.5, 6.5]];
    let mut goal_index = 0;
    let mut navigator = Navigator::new(point([6.5, 6.5]));
    navigator.set_goal(point(goals[goal_index]));

    let dt = 0.05;
    let mut arrivals = 0;
    let mut min_ratio = f64::INFINITY;
    let mut threats = Vec::with_capacity(mobs.len());
    for _ in 0..12_000 {
        for mob in &mut mobs {
            mob.retarget -= dt;
            if mob.retarget <= 0.0 {
                let angle = roll(&mut rng) * std::f64::consts::TAU;
                mob.direction = [angle.sin(), angle.cos()];
                mob.retarget = 0.8 + roll(&mut rng) * 2.0;
            }
            let mut next = [
                mob.position[0] + mob.direction[0] * MOB_SPEED * dt,
                mob.position[1] + mob.direction[1] * MOB_SPEED * dt,
            ];
            if distance(next, mob.home) > HOME_RADIUS {
                let home = [mob.home[0] - mob.position[0], mob.home[1] - mob.position[1]];
                let length = home[0].hypot(home[1]).max(1e-9);
                mob.direction = [home[0] / length, home[1] / length];
                next = [
                    mob.position[0] + mob.direction[0] * MOB_SPEED * dt,
                    mob.position[1] + mob.direction[1] * MOB_SPEED * dt,
                ];
            }
            mob.position = next;
        }
        threats.clear();
        threats.extend(mobs.iter().map(|mob| Threat {
            center: point(mob.position),
            radius: number(AGGRO),
        }));

        let before = coordinates(navigator.position());
        let status = navigator.tick(&shared, &plan_view, &threats, number(dt));
        let after = coordinates(navigator.position());
        assert!(
            truth.segment_is_clear(point(before), point(after)),
            "interpolated move {before:?} -> {after:?} crossed collision terrain"
        );
        assert_clearance(&truth, before, after, float(shared.config.agent_radius));
        for mob in &mobs {
            let separation = distance(after, mob.position);
            min_ratio = min_ratio.min(separation / AGGRO);
            assert!(
                separation > AGGRO * 0.8,
                "agent breached aggro to {separation:.2} (0.8x = {:.2}) at {after:?}, \
                 mob at {:?}",
                AGGRO * 0.8,
                mob.position
            );
        }
        match status {
            NavStatus::Arrived | NavStatus::Blocked | NavStatus::Idle => {
                if status == NavStatus::Arrived {
                    arrivals += 1;
                }
                goal_index = (goal_index + 1) % goals.len();
                navigator.set_goal(point(goals[goal_index]));
            }
            NavStatus::Moving => {}
        }
    }
    println!("arrivals {arrivals}, min separation ratio {min_ratio:.3}");
    assert!(
        arrivals >= 2,
        "expected repeated field crossings, got {arrivals} arrivals"
    );
}

#[test]
fn short_range_goals_are_reached() {
    // Goals only a fraction of a cell away (same cell, orthogonal and
    // diagonal neighbours) must still be walked to, from positions on and
    // off cell centers.
    let truth = view(32, 32, |_, _| false);
    let shared = NavShared::from_view(truth.clone(), test_config());
    let starts = [[10.5, 10.5], [10.3, 10.7], [10.999, 10.001]];
    let offsets = [
        [0.5, 0.0],
        [-0.5, 0.0],
        [0.0, 0.5],
        [0.4, 0.4],
        [-0.6, 0.8],
        [1.2, 0.0],
        [1.4, 1.4],
    ];
    for start in starts {
        for offset in offsets {
            let goal = [start[0] + offset[0], start[1] + offset[1]];
            let mut navigator = Navigator::new(point(start));
            navigator.set_goal(point(goal));
            let mut status = NavStatus::Moving;
            for _ in 0..200 {
                status = navigator.tick(&shared, &shared.fine, &[], number(0.05));
                if status != NavStatus::Moving {
                    break;
                }
            }
            assert_eq!(
                status,
                NavStatus::Arrived,
                "goal {goal:?} from {start:?} ended {status:?} at {:?}",
                coordinates(navigator.position())
            );
            assert!(
                distance(coordinates(navigator.position()), goal) <= 0.36,
                "stopped {:.3} away from {goal:?}",
                distance(coordinates(navigator.position()), goal)
            );
        }
    }
}

#[test]
fn illegal_goals_snap_to_the_nearest_legal_point() {
    // A goal inside the wall's clearance dilation: walk to the nearest
    // open cell instead of refusing to move.
    let walled = view(32, 32, |col, _| col == 20);
    let shared = NavShared::from_view(walled.clone(), test_config());
    let mut navigator = Navigator::new(point([15.5, 15.5]));
    navigator.set_goal(point([19.9, 15.5]));
    let mut status = NavStatus::Moving;
    for _ in 0..400 {
        status = navigator.tick(&shared, &shared.fine, &[], number(0.05));
        if status != NavStatus::Moving {
            break;
        }
    }
    assert_eq!(status, NavStatus::Arrived, "at {:?}", coordinates(navigator.position()));
    assert!(
        distance(coordinates(navigator.position()), [19.9, 15.5]) <= 2.0,
        "stopped {:?}, too far from the ordered point",
        coordinates(navigator.position())
    );

    // A goal inside an enemy shell: stop at the closest safe point
    // outside it instead of refusing (or entering).
    let open = view(32, 32, |_, _| false);
    let shared = NavShared::from_view(open.clone(), test_config());
    let threats = [Threat {
        center: point([20.5, 15.5]),
        radius: number(4.0),
    }];
    let mut navigator = Navigator::new(point([10.5, 15.5]));
    navigator.set_goal(point([20.0, 15.5]));
    let mut status = NavStatus::Moving;
    for _ in 0..400 {
        status = navigator.tick(&shared, &shared.fine, &threats, number(0.05));
        if status != NavStatus::Moving {
            break;
        }
        let separation = distance(coordinates(navigator.position()), coordinates(threats[0].center));
        assert!(separation > 4.0, "entered aggro radius: {separation:.2}");
    }
    assert_eq!(status, NavStatus::Arrived, "at {:?}", coordinates(navigator.position()));
    assert!(
        distance(coordinates(navigator.position()), coordinates(threats[0].center)) > 5.2,
        "stopped inside the threat shell at {:?}",
        coordinates(navigator.position())
    );
}

#[test]
fn narrow_corridor_keeps_clearance_on_interpolation() {
    // A four-cell corridor leaves exactly a two-cell strip after the
    // 0.75-unit clearance dilation; the exact per-tick geometry check in
    // `run` proves the swept disc never comes closer than the clearance.
    let truth = view(40, 12, |_, row| !(4..8).contains(&row));
    let shared = NavShared::from_view(truth.clone(), test_config());
    let result = run(&shared, &truth, &[], [2.5, 5.5], [37.5, 6.5], false, 4000);
    assert!(result.reached, "status {:?}", result.status);
}

#[test]
fn many_navigators_smoke() {
    let truth = view(160, 160, |col, row| {
        col % 16 >= 8 && col % 16 < 11 && row % 16 >= 8 && row % 16 < 11
    });
    let shared = NavShared::from_view(truth.clone(), test_config());
    let threats: Vec<Threat> = (0..40)
        .map(|index| Threat {
            center: point([
                4.5 + (index * 37 % 150) as f64,
                4.5 + (index * 53 % 150) as f64,
            ]),
            radius: number(3.0),
        })
        .collect();
    let count = 100;
    let ticks = 60;
    let mut navigators: Vec<Navigator> = (0..count)
        .map(|index| {
            let start = [2.5 + (index * 29 % 150) as f64, 2.5 + (index * 41 % 150) as f64];
            let goal = [2.5 + (index * 59 % 150) as f64, 2.5 + (index * 31 % 150) as f64];
            let mut navigator = Navigator::new(point(start));
            navigator.set_goal(point(goal));
            navigator
        })
        .collect();
    let clock = Instant::now();
    for _ in 0..ticks {
        for navigator in &mut navigators {
            navigator.tick(&shared, &truth, &threats, number(0.05));
        }
    }
    let elapsed = clock.elapsed();
    println!(
        "{count} navigators x {ticks} ticks: {elapsed:?} total, {:.1}us per agent-tick",
        elapsed.as_secs_f64() * 1e6 / (count * ticks) as f64
    );
}

