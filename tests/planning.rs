use rand::rngs::StdRng;
use rand::SeedableRng;
use ride_dispatch::alns::{
    destroy_and_repair, draw_heuristic, optimize_alns, select_heuristic, weight_sum, OperatorPools,
};
use ride_dispatch::construct::{construct_initial_solution, PlanError};
use ride_dispatch::costs::CostTable;
use ride_dispatch::insert::{best_insertion, greedy};
use ride_dispatch::remove::{relatedness_removal, removal_count, shawn_heuristic, take_out};
use ride_dispatch::solution::Solution;

const EARTH_RADIUS_METERS: f64 = 6371000.0;

fn haversine(lat1: f64, lon1: f64, lat2: f64, lon2: f64) -> u32 {
    let (p1, p2) = (lat1.to_radians(), lat2.to_radians());
    let dlat = p2 - p1;
    let dlon = (lon2 - lon1).to_radians();
    let a = (dlat / 2.0).sin().powi(2) + p1.cos() * p2.cos() * (dlon / 2.0).sin().powi(2);
    let c = 2.0 * a.sqrt().atan2((1.0 - a).sqrt());
    (EARTH_RADIUS_METERS * c).round() as u32
}

/// Costs from vehicle positions and customer (origin, destination) pairs.
fn table(vehicles: &[(f64, f64)], customers: &[((f64, f64), (f64, f64))]) -> CostTable {
    let pickup = vehicles
        .iter()
        .map(|v| customers.iter().map(|c| haversine(v.0, v.1, c.0 .0, c.0 .1)).collect())
        .collect();
    let link = customers
        .iter()
        .map(|a| customers.iter().map(|b| haversine(a.1 .0, a.1 .1, b.0 .0, b.0 .1)).collect())
        .collect();
    let ride = customers.iter().map(|c| haversine(c.0 .0, c.0 .1, c.1 .0, c.1 .1)).collect();
    CostTable { pickup, link, ride }
}

fn uniform_table(n: usize, m: usize, value: u32) -> CostTable {
    CostTable {
        pickup: vec![vec![value; m]; n],
        link: vec![vec![value; m]; m],
        ride: vec![value; m],
    }
}

/// Each of `0..m` appears exactly once over all routes.
fn each_once(s: &Solution, m: usize) -> bool {
    let mut seen = vec![0usize; m];
    for route in &s.route {
        for &c in route {
            if c >= m {
                return false;
            }
            seen[c] += 1;
        }
    }
    seen.iter().all(|&k| k == 1)
}

fn grid_table(n: usize, m: usize) -> CostTable {
    let vehicles: Vec<(f64, f64)> = (0..n).map(|i| (0.1 * i as f64, -0.05 * i as f64)).collect();
    let customers: Vec<((f64, f64), (f64, f64))> = (0..m)
        .map(|i| {
            let x = (i as f64 * 0.37).sin();
            let y = (i as f64 * 0.71).cos();
            ((x, y), (y * 0.5, x * 0.8))
        })
        .collect();
    table(&vehicles, &customers)
}

#[test]
fn test_initial_solution1() {
    let vehicles = [(0.0, 0.0), (0.5, 0.5)];
    let customers = [
        ((0.51, 0.51), (0.33, -0.20)),
        ((0.30, -0.30), (0.90, 0.90)),
        ((0.0, 0.0), (-0.5, -0.5)),
        ((-0.6, -0.6), (0.0, 0.0)),
    ];
    let ids = ["c1", "c2", "c3", "c4"];
    let s = construct_initial_solution(&table(&vehicles, &customers)).unwrap();
    assert_eq!(s.route.len(), 2);
    assert_eq!(s.route[0].len(), 2);
    assert_eq!(s.route[1].len(), 2);
    assert_eq!(ids[s.route[0][0]], "c3");
    assert_eq!(ids[s.route[0][1]], "c4");
    assert_eq!(ids[s.route[1][0]], "c1");
    assert_eq!(ids[s.route[1][1]], "c2");
}

#[test]
fn construction_visits_every_customer_once() {
    let costs = grid_table(3, 11);
    let s = construct_initial_solution(&costs).unwrap();
    assert_eq!(s.route.len(), 3);
    assert!(each_once(&s, 11));
    let lens: Vec<usize> = s.route.iter().map(|r| r.len()).collect();
    assert_eq!(lens, vec![4, 4, 3]);
}

#[test]
fn construction_breaks_ties_by_lowest_index() {
    let s = construct_initial_solution(&uniform_table(2, 5, 7)).unwrap();
    assert_eq!(s.route, vec![vec![0, 2, 4], vec![1, 3]]);
}

#[test]
fn construction_without_vehicles() {
    let err = construct_initial_solution(&uniform_table(0, 2, 1));
    assert_eq!(err.err(), Some(PlanError::NoVehicles));
    let empty = construct_initial_solution(&uniform_table(0, 0, 1)).unwrap();
    assert!(empty.route.is_empty());
    let idle = construct_initial_solution(&uniform_table(2, 0, 1)).unwrap();
    assert_eq!(idle.route, vec![Vec::<usize>::new(), Vec::new()]);
}

#[test]
fn removal_count_is_a_fifth_rounded_down() {
    assert_eq!(removal_count(0), 0);
    assert_eq!(removal_count(4), 0);
    assert_eq!(removal_count(5), 1);
    assert_eq!(removal_count(12), 2);
    assert_eq!(removal_count(100), 20);
}

#[test]
fn relatedness_removal_takes_least_related_first() {
    let mut costs = uniform_table(1, 4, 5);
    costs.ride = vec![10, 20, 40, 11];
    let s = construct_initial_solution(&costs).unwrap();
    let noise = vec![1000; 4];
    assert_eq!(relatedness_removal(&costs, &s, 2, 0, &noise), vec![0, 3]);
    assert_eq!(relatedness_removal(&costs, &s, 9, 2, &noise), vec![2, 1, 3, 0]);
    // keys with noise: 0, 10 * 950, 30 * 1000, 1 * 1050
    let noisy = vec![1000, 950, 1000, 1050];
    assert_eq!(relatedness_removal(&costs, &s, 3, 0, &noisy), vec![0, 3, 1]);
    assert_eq!(relatedness_removal(&costs, &s, 0, 0, &noise), Vec::<usize>::new());
}

#[test]
fn shawn_heuristic_respects_the_removal_count() {
    let costs = grid_table(2, 12);
    let s = construct_initial_solution(&costs).unwrap();
    let mut rng = StdRng::seed_from_u64(7);
    let q = removal_count(12);
    let picked = shawn_heuristic(&costs, &s, q, &mut rng);
    assert_eq!(picked.len(), 2);
    assert_ne!(picked[0], picked[1]);
    let all = shawn_heuristic(&costs, &s, 40, &mut rng);
    let mut sorted = all.clone();
    sorted.sort();
    assert_eq!(sorted, (0..12).collect::<Vec<usize>>());
}

fn three_stop_table() -> CostTable {
    // one vehicle, customers 0, 1, 2 on the route, customer 3 to insert
    let mut costs = uniform_table(1, 4, 10);
    costs.link[0][3] = 1;
    costs.link[3][1] = 1;
    costs
}

#[test]
fn best_insertion_picks_the_cheapest_position() {
    let costs = three_stop_table();
    let s = Solution { route: vec![vec![0, 1, 2]] };
    // start: 10 + 10 - 10, between 0 and 1: 1 + 1 - 10, between 1 and 2: 10, end: 10
    assert_eq!(best_insertion(&costs, &s, 3), (0, 1));
}

#[test]
fn best_insertion_prefers_the_first_of_equal_costs() {
    let costs = uniform_table(1, 4, 10);
    let s = Solution { route: vec![vec![0, 1, 2]] };
    assert_eq!(best_insertion(&costs, &s, 3), (0, 0));
    let mut end_cheap = uniform_table(1, 4, 10);
    end_cheap.link[2][3] = 3;
    assert_eq!(best_insertion(&end_cheap, &s, 3), (0, 3));
}

#[test]
fn best_insertion_into_an_empty_route() {
    let mut costs = uniform_table(2, 3, 10);
    costs.pickup[1][2] = 2;
    let s = Solution { route: vec![vec![0, 1], vec![]] };
    assert_eq!(best_insertion(&costs, &s, 2), (1, 0));
}

#[test]
fn greedy_reinserts_in_order() {
    let costs = three_stop_table();
    let mut s = Solution { route: vec![vec![0, 1, 2, 3]] };
    take_out(&mut s, &vec![3, 1], 4);
    assert_eq!(s.route, vec![vec![0, 2]]);
    greedy(&costs, &mut s, vec![3, 1]);
    // 3 goes after 0 (1 - 10 + 10 = 1 is cheaper than elsewhere), then 1 after 3
    assert_eq!(s.route, vec![vec![0, 3, 1, 2]]);
}

#[test]
fn select_heuristic_follows_the_wheel() {
    let w = vec![1, 1, 1];
    assert_eq!(select_heuristic(&w, 0), 0);
    assert_eq!(select_heuristic(&w, 1), 1);
    assert_eq!(select_heuristic(&w, 2), 2);
    let skewed = vec![0, 2, 3];
    assert_eq!(select_heuristic(&skewed, 0), 1);
    assert_eq!(select_heuristic(&skewed, 1), 1);
    assert_eq!(select_heuristic(&skewed, 2), 2);
    assert_eq!(select_heuristic(&skewed, 4), 2);
}

#[test]
fn draw_heuristic_never_picks_a_zero_weight() {
    let mut rng = StdRng::seed_from_u64(3);
    for _ in 0..50 {
        assert_eq!(draw_heuristic(&vec![0, 5, 0], &mut rng), 1);
    }
}

#[test]
fn optimize_keeps_every_customer_once() {
    let costs = grid_table(3, 14);
    let s = construct_initial_solution(&costs).unwrap();
    let mut rng = StdRng::seed_from_u64(11);
    let best = optimize_alns(&costs, s, &OperatorPools::uniform(), 50, &mut rng);
    assert_eq!(best.route.len(), 3);
    assert!(each_once(&best, 14));
}

#[test]
fn operator_pools_are_uniform() {
    let pools = OperatorPools::uniform();
    assert_eq!(pools.destroy.len(), 3);
    assert_eq!(pools.repair.len(), 4);
    assert!(pools.destroy_weights.iter().chain(pools.repair_weights.iter()).all(|&w| w == 1));
}

#[test]
fn cost_table_shape_and_restriction() {
    let costs = grid_table(3, 4);
    assert!(costs.is_well_formed());
    let mut bad = grid_table(2, 3);
    bad.link[1].pop();
    assert!(!bad.is_well_formed());
    let sub = costs.restrict(&vec![2, 0], &vec![3, 1]);
    assert_eq!(sub.pickup, vec![vec![costs.pickup[2][3], costs.pickup[2][1]], vec![costs.pickup[0][3], costs.pickup[0][1]]]);
    assert_eq!(sub.link[0][1], costs.link[3][1]);
    assert_eq!(sub.ride, vec![costs.ride[3], costs.ride[1]]);
}

#[test]
fn total_visits_counts_all_routes() {
    let s = Solution { route: vec![vec![0, 1], vec![], vec![2]] };
    assert_eq!(s.total_visits(), 3);
}

#[test]
fn destroy_and_repair_round_trip() {
    let costs = three_stop_table();
    let mut s = Solution { route: vec![vec![0, 1, 2, 3]] };
    destroy_and_repair(&costs, &mut s, vec![3, 1]);
    assert_eq!(s.route, vec![vec![0, 3, 1, 2]]);
    destroy_and_repair(&costs, &mut s, vec![]);
    assert_eq!(s.route, vec![vec![0, 3, 1, 2]]);
}


#[test]
fn optimize_without_iterations_keeps_the_first_plan() {
    let costs = grid_table(2, 9);
    let s = construct_initial_solution(&costs).unwrap();
    let first = s.route.clone();
    let mut rng = StdRng::seed_from_u64(2);
    let same = optimize_alns(&costs, s, &OperatorPools::uniform(), 0, &mut rng);
    assert_eq!(same.route, first);
}

#[test]
fn weight_sum_adds_all_weights() {
    assert_eq!(weight_sum(&vec![]), 0);
    assert_eq!(weight_sum(&vec![1, 2, 3, 4]), 10);
}
