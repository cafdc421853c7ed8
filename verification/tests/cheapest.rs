//! What is found costs the least.
use nav_scene::corridor::plan_global;
use nav_scene::random::next_u64;
use nav_scene::refine::plan_local;
use nav_scene::scratch::Scratch;
use nav_scene::stamped::StampedMap;
use nav_scene::{NavConfig, NavShared, Point, Real, Threat, WalkView};

fn number(value: f64) -> Real {
    Real { bits: value.to_bits() }
}

fn float(value: Real) -> f64 {
    f64::from_bits(value.bits)
}

fn point(world: [f64; 2]) -> Point {
    Point { x: number(world[0]), z: number(world[1]) }
}

fn distance(a: Point, b: Point) -> f64 {
    (float(a.x) - float(b.x)).hypot(float(a.z) - float(b.z))
}

fn view(width: usize, height: usize, blocked: impl Fn(usize, usize) -> bool) -> WalkView {
    let cells: Vec<u8> =
        (0..width * height).map(|index| u8::from(blocked(index % width, index / width))).collect();
    WalkView::from_blocked(width, height, point([0.0, 0.0]), number(1.0), &cells)
}

/// Least costs from a cell to all others, by trying every step until none helps.
fn least_costs(
    width: usize,
    height: usize,
    start: usize,
    open: impl Fn(isize, isize) -> bool,
    step: impl Fn(usize, bool) -> f64,
) -> Vec<f64> {
    let mut costs = vec![f64::INFINITY; width * height];
    costs[start] = 0.0;
    loop {
        let mut better = false;
        for index in 0..width * height {
            let (col, row) = ((index % width) as isize, (index / width) as isize);
            for (dc, dr) in [(-1, 0), (1, 0), (0, -1), (0, 1), (-1, -1), (-1, 1), (1, -1), (1, 1)] {
                let diagonal = dc != 0 && dr != 0;
                if !open(col + dc, row + dr)
                    || diagonal && !(open(col + dc, row) && open(col, row + dr))
                {
                    continue;
                }
                let next = (row + dr) as usize * width + (col + dc) as usize;
                let cost = costs[index] + step(next, diagonal);
                if cost < costs[next] {
                    costs[next] = cost;
                    better = true;
                }
            }
        }
        if !better {
            return costs;
        }
    }
}

#[test]
fn a_corridor_is_the_cheapest_coarse_route() {
    let mut state = 5_u64;
    let mut found = 0;
    for _ in 0..40 {
        let seed = next_u64(&mut state);
        let fine = view(64, 64, |col, row| {
            let mut mixed = seed ^ (col as u64 / 3 * 71 + row as u64 / 2);
            next_u64(&mut mixed) % 10 < 5
        });
        let config = NavConfig {
            coarse_factor: 4,
            agent_radius: number(0.0),
            density_cost: number(6.0),
            ..NavConfig::default()
        };
        let shared = NavShared::from_view(fine, config);
        let coarse = &shared.coarse;
        let threats = [
            Threat { center: point([30.0, 30.0]), radius: number(9.0) },
            Threat { center: point([44.0, 20.0]), radius: number(5.0) },
        ];
        let mut penalties: StampedMap<Real> = StampedMap::new();
        penalties.reset(coarse.width * coarse.height, number(0.0));
        for index in [17_usize, 90, 91, 92, 140] {
            penalties.set(index, number(24.0));
        }
        let size = float(coarse.cell_size);
        let toll = |index: usize| {
            let middle = coarse.center(index % coarse.width, index / coarse.width);
            let loom = |threat: &&Threat| {
                let berth = float(threat.radius) + float(shared.config.inflation()) + size / 2.0;
                distance(middle, threat.center) <= berth
            };
            threats.iter().filter(loom).count() as f64 * 10.0 * size
        };
        let step = |to: usize, diagonal: bool| {
            let stride = if diagonal { std::f64::consts::SQRT_2 } else { 1.0 } * size;
            let weight = 1.0 + 6.0 * float(coarse.density[to]);
            stride * weight + toll(to) + penalties.get(to).map_or(0.0, float)
        };
        let mut scratch = Scratch::new();
        let (from, to) = (point([2.0, 2.0]), point([61.0, 60.0]));
        let corridor = plan_global(&shared, &threats, &penalties, from, to, &mut scratch);
        let Some(corridor) = corridor else { continue };
        let cells: Vec<usize> = corridor
            .iter()
            .map(|&place| {
                let (col, row) = coarse.cell_of(place).unwrap();
                row * coarse.width + col
            })
            .collect();
        let mut cost = 0.0;
        for pair in cells.windows(2) {
            let (a, b) = (pair[0], pair[1]);
            let sideways = a % coarse.width != b % coarse.width;
            cost += step(b, sideways && a / coarse.width != b / coarse.width);
        }
        let least = least_costs(
            coarse.width,
            coarse.height,
            cells[0],
            |col, row| {
                col >= 0
                    && row >= 0
                    && (col as usize) < coarse.width
                    && (row as usize) < coarse.height
                    && coarse.is_open(col, row)
            },
            step,
        )[cells[cells.len() - 1]];
        assert!((cost - least).abs() <= least * 1e-5, "{cost} {least}");
        found += 1;
    }
    assert!(found > 20);
}

#[test]
fn a_local_plan_is_no_longer_than_the_shortest_way_through_the_window() {
    let mut state = 9_u64;
    let mut found = 0;
    for _ in 0..60 {
        let seed = next_u64(&mut state);
        let walls = view(24, 24, |col, row| {
            let mut mixed = seed ^ (col as u64 * 131 + row as u64);
            (col, row) != (2, 3) && (col, row) != (20, 21) && next_u64(&mut mixed) % 10 < 3
        });
        let config = NavConfig { agent_radius: number(0.0), ..NavConfig::default() };
        let (from, to) = (point([2.5, 3.5]), point([20.5, 21.5]));
        let least = least_costs(
            24,
            24,
            3 * 24 + 2,
            |col, row| !walls.blocked(col, row),
            |_, diagonal| if diagonal { std::f64::consts::SQRT_2 } else { 1.0 },
        )[21 * 24 + 20];
        let mut scratch = Scratch::new();
        let plan = plan_local(&walls, &config, &vec![], from, &vec![], 0, to, &mut scratch);
        if least.is_infinite() {
            continue;
        }
        let path = plan.path.unwrap();
        assert_eq!(path[0], from);
        assert_eq!(path[path.len() - 1], to);
        let length: f64 = path.windows(2).map(|pair| distance(pair[0], pair[1])).sum();
        assert!(length <= least + 1e-4, "{length} {least}");
        found += 1;
    }
    assert!(found > 20);
}

#[test]
fn the_shortest_way_out_of_a_disc_wins() {
    // a passage along row 24, open at both ends
    let passage = view(48, 48, |col, row| (5..45).contains(&col) && (row == 23 || row == 25));
    let config = NavConfig {
        agent_radius: number(0.0),
        sense_radius: number(64.0),
        ..NavConfig::default()
    };
    let (from, to) = (point([26.5, 24.5]), point([2.5, 24.5]));
    let mut scratch = Scratch::new();
    let mut first = |threats: Vec<Threat>| {
        let plan = plan_local(&passage, &config, &threats, from, &vec![], 0, to, &mut scratch);
        float(plan.path.unwrap()[1].x)
    };
    // the goal lies behind the left end
    assert!(first(vec![]) < 26.5);
    // most of a disc that holds the agent lies on that side, too
    assert!(first(vec![Threat { center: point([22.5, 24.5]), radius: number(6.0) }]) > 26.5);
    assert!(first(vec![Threat { center: point([29.5, 24.5]), radius: number(6.0) }]) < 26.5);
}

#[test]
fn a_target_beyond_the_window_is_not_the_end_of_a_plan() {
    let open = view(60, 8, |_, _| false);
    let config = NavConfig {
        agent_radius: number(0.0),
        sense_radius: number(8.0),
        ..NavConfig::default()
    };
    let mut scratch = Scratch::new();
    let mut plan = |to: [f64; 2]| {
        let start = point([4.5, 4.5]);
        let r = plan_local(&open, &config, &vec![], start, &vec![], 0, point(to), &mut scratch);
        let path = r.path.unwrap();
        path[path.len() - 1]
    };
    // inside the window a plan ends at the target itself
    assert_eq!(plan([7.25, 4.75]), point([7.25, 4.75]));
    // a target beyond it is approached as far as the window's last cell
    let end = plan([50.25, 4.75]);
    assert_ne!(end, point([50.25, 4.75]));
    assert_eq!(float(end.z), 4.5);
    assert!(float(end.x) < 20.0);
    assert_eq!(float(end.x).fract(), 0.5);
}
