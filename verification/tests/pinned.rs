//! An agent pinned against a wall while the discs of other mobs cover its
//! escape routes works its way out, or holds and resumes once they move off.
use nav_scene::{NavConfig, NavShared, NavStatus, Navigator, Point, Real, Threat, WalkView};

fn number(value: f64) -> Real {
    Real { bits: value.to_bits() }
}

fn float(value: Real) -> f64 {
    f64::from_bits(value.bits)
}

fn point(world: [f64; 2]) -> Point {
    Point { x: number(world[0]), z: number(world[1]) }
}

fn distance(left: Point, right: Point) -> f64 {
    ((float(left.x) - float(right.x)).powi(2) + (float(left.z) - float(right.z)).powi(2)).sqrt()
}

#[test]
fn pinned_against_wall_with_mobs_on_escape_routes() {
    // Solid wall across rows 0..=3; everything else open.
    let cells: Vec<u8> = (0..48 * 32).map(|index| u8::from(index / 48 <= 3)).collect();
    let truth = WalkView::from_blocked(48, 32, point([0.0, 0.0]), number(1.0), &cells);
    let config = NavConfig {
        coarse_factor: 4,
        sense_radius: number(12.0),
        speed: number(4.0),
        replan_seconds: number(0.2),
        max_fail_streak: 24,
        ..NavConfig::default()
    };
    let shared = NavShared::from_view(truth.clone(), config);

    // Agent right under the wall's clearance band, ordered to the open south.
    let mut navigator = Navigator::new(point([24.5, 5.5]));
    navigator.set_goal(point([24.5, 28.5]));

    // Mob A pins from the south; mobs B and C sit on the east/west escape
    // routes. All three margin-inflated discs (4.0 + 0.5 + 0.75) contain the
    // agent, the wall closes the north.
    let pinned_threats = vec![
        Threat { center: point([24.5, 10.0]), radius: number(4.0) },
        Threat { center: point([20.5, 5.5]), radius: number(4.0) },
        Threat { center: point([28.5, 5.5]), radius: number(4.0) },
    ];

    let dt = 0.05;
    let mut total_moved = 0.0;
    let mut status = NavStatus::Moving;
    for tick in 0..200 {
        let before = navigator.position();
        status = navigator.tick(&shared, &shared.fine, &pinned_threats, number(dt));
        total_moved += distance(before, navigator.position());
        if status != NavStatus::Moving {
            println!("phase 1: status {status:?} after tick {tick} ({}s)", tick as f64 * dt);
            break;
        }
    }
    println!(
        "phase 1 (pinned): status {status:?}, moved {total_moved:.3} units total, position {:?}",
        navigator.position()
    );

    // Mobs wander away: no threats at all any more, route to goal is trivial.
    let mut recovered_moved = 0.0;
    for _ in 0..2000 {
        let before = navigator.position();
        status = navigator.tick(&shared, &shared.fine, &[], number(dt));
        recovered_moved += distance(before, navigator.position());
        if status == NavStatus::Arrived {
            break;
        }
    }
    println!(
        "phase 2 (mobs gone): status {status:?}, moved {recovered_moved:.3} units, position {:?}",
        navigator.position()
    );

    assert_eq!(
        status,
        NavStatus::Arrived,
        "agent should escape once mobs leave; got {status:?} at {:?}",
        navigator.position()
    );
}
