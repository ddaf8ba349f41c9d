use rand::rngs::StdRng;
use rand::SeedableRng;
use ride_dispatch::alns::{compute_assignment, VehiclePlan};
use ride_dispatch::construct::PlanError;
use ride_dispatch::costs::CostTable;
use ride_dispatch::models::{
    Coord, Customer, Scenario, UpdateScenarioResponse, UpdateVehicle, Vehicle,
};
use ride_dispatch::nearest::update_scenario_first;
use ride_dispatch::simulation::{Algorithm, DispatchError, Session};

fn vehicle(id: &str, x: i32, y: i32, customer: Option<&str>) -> Vehicle {
    Vehicle {
        id: id.to_string(),
        position: Coord { x, y },
        is_available: customer.is_none(),
        customer_id: customer.map(|c| c.to_string()),
    }
}

fn customer(id: &str, x: i32, y: i32, awaiting: bool) -> Customer {
    Customer {
        id: id.to_string(),
        origin: Coord { x, y },
        destination: Some(Coord { x: -x, y: -y }),
        awaiting_service: awaiting,
    }
}

fn scenario(vehicles: Vec<Vehicle>, customers: Vec<Customer>) -> Scenario {
    Scenario {
        id: "s1".to_string(),
        start_time: None,
        end_time: None,
        status: "running".to_string(),
        vehicles,
        customers,
    }
}

fn pairs(u: &[UpdateVehicle]) -> Vec<(String, String)> {
    u.iter().map(|v| (v.id.clone(), v.customer_id.clone())).collect()
}

fn sample() -> Scenario {
    scenario(
        vec![
            vehicle("A", 0, 0, None),
            vehicle("B", 100, 100, Some("c9")),
            vehicle("C", 50, 50, None),
        ],
        vec![
            customer("c1", 60, 60, true),
            customer("c9", 100, 100, true),
            customer("c2", 0, 10, false),
            customer("c3", 5, 5, true),
            customer("c4", 7, 7, true),
        ],
    )
}

#[test]
fn nearest_pairs_each_waiting_customer_with_the_closest_free_vehicle() {
    let u = update_scenario_first(&sample());
    assert_eq!(
        pairs(&u.vehicles),
        vec![("C".to_string(), "c1".to_string()), ("A".to_string(), "c3".to_string())]
    );
}

#[test]
fn nearest_never_repeats_a_customer_nor_exceeds_the_bound() {
    let s = sample();
    let u = update_scenario_first(&s);
    let free = s.vehicles.iter().filter(|v| v.customer_id.is_none()).count();
    let waiting = s.customers.iter().filter(|c| c.awaiting_service).count();
    assert!(u.vehicles.len() <= free.min(waiting));
    let mut ids: Vec<&String> = u.vehicles.iter().map(|v| &v.customer_id).collect();
    ids.sort();
    ids.dedup();
    assert_eq!(ids.len(), u.vehicles.len());
}

#[test]
fn nearest_breaks_ties_by_vehicle_order() {
    let s = scenario(
        vec![vehicle("A", 10, 0, None), vehicle("B", -10, 0, None)],
        vec![customer("c1", 0, 0, true)],
    );
    assert_eq!(pairs(&update_scenario_first(&s).vehicles), vec![("A".to_string(), "c1".to_string())]);
}

#[test]
fn nearest_with_far_coordinates() {
    let s = scenario(
        vec![vehicle("A", i32::MIN, i32::MIN, None), vehicle("B", i32::MAX, i32::MAX, None)],
        vec![customer("c1", i32::MAX, i32::MAX - 1, true), customer("c2", 0, 0, true)],
    );
    assert_eq!(
        pairs(&update_scenario_first(&s).vehicles),
        vec![("B".to_string(), "c1".to_string()), ("A".to_string(), "c2".to_string())]
    );
}

#[test]
fn nearest_on_an_empty_scenario() {
    assert!(update_scenario_first(&scenario(vec![], vec![customer("c1", 0, 0, true)])).vehicles.is_empty());
    assert!(update_scenario_first(&scenario(vec![vehicle("A", 0, 0, None)], vec![])).vehicles.is_empty());
}

fn plan(vehicle: &str, queue: &[&str]) -> VehiclePlan {
    VehiclePlan {
        vehicle_id: vehicle.to_string(),
        customer_ids: queue.iter().map(|c| c.to_string()).collect(),
    }
}

#[test]
fn session_follows_planned_queues() {
    let mut session = Session {
        algorithm: Algorithm::Alns,
        plans: vec![plan("A", &["c3", "c4"]), plan("C", &[])],
    };
    let s = sample();
    let u = session.propose(&s).ok().unwrap();
    assert_eq!(pairs(&u.vehicles), vec![("A".to_string(), "c3".to_string())]);
    let response = UpdateScenarioResponse {
        failed_to_update: vec![],
        updated_vehicles: vec![vehicle("A", 0, 0, Some("c3"))],
    };
    assert!(session.confirm(&response).is_ok());
    assert_eq!(session.plans[0].customer_ids, vec!["c4".to_string()]);
    assert!(session.plans[1].customer_ids.is_empty());
}

#[test]
fn session_reports_too_many_assignments() {
    let session = Session {
        algorithm: Algorithm::Alns,
        plans: vec![plan("A", &["c1"]), plan("B", &["c3"]), plan("C", &["c4"])],
    };
    // two vehicles without a customer, three customers waiting
    match session.propose(&sample()) {
        Err(DispatchError::TooManyAssignments { proposed, bound }) => {
            assert_eq!(
                pairs(&proposed.vehicles),
                vec![
                    ("A".to_string(), "c1".to_string()),
                    ("B".to_string(), "c3".to_string()),
                    ("C".to_string(), "c4".to_string()),
                ]
            );
            assert_eq!(bound, 2);
        },
        _ => panic!("expected the bound to be exceeded"),
    }
}

#[test]
fn session_reports_rejected_updates() {
    let mut session = Session { algorithm: Algorithm::Alns, plans: vec![plan("A", &["c3"])] };
    let response = UpdateScenarioResponse {
        failed_to_update: vec!["A".to_string()],
        updated_vehicles: vec![vehicle("A", 0, 0, None)],
    };
    match session.confirm(&response) {
        Err(DispatchError::UpdateRejected { vehicle_ids }) => assert_eq!(vehicle_ids, vec!["A".to_string()]),
        _ => panic!("expected a rejection"),
    }
    assert_eq!(session.plans[0].customer_ids, vec!["c3".to_string()]);
}

#[test]
fn session_with_the_nearest_policy() {
    let mut session = Session { algorithm: Algorithm::Nearest, plans: vec![] };
    let mut s = sample();
    assert!(!Session::is_finished(&s));
    let u = session.propose(&s).ok().unwrap();
    assert_eq!(u.vehicles.len(), 2);
    let response = UpdateScenarioResponse { failed_to_update: vec![], updated_vehicles: vec![] };
    assert!(session.confirm(&response).is_ok());
    s.end_time = Some("2024-01-01T00:00:00Z".to_string());
    assert!(Session::is_finished(&s));
}

/// Costs from the fixed-point positions, Manhattan distance in units.
fn costs_of(s: &Scenario) -> CostTable {
    let d = |a: Coord, b: Coord| ((a.x - b.x).abs() + (a.y - b.y).abs()) as u32;
    let dest = |c: &Customer| c.destination.unwrap_or(c.origin);
    CostTable {
        pickup: s.vehicles.iter().map(|v| s.customers.iter().map(|c| d(v.position, c.origin)).collect()).collect(),
        link: s.customers.iter().map(|a| s.customers.iter().map(|b| d(dest(a), b.origin)).collect()).collect(),
        ride: s.customers.iter().map(|c| d(c.origin, dest(c))).collect(),
    }
}

#[test]
fn compute_assignment_plans_every_waiting_customer_once() {
    let s = sample();
    let mut rng = StdRng::seed_from_u64(5);
    let plans = compute_assignment(&s, &costs_of(&s), &mut rng).ok().unwrap();
    let vehicles: Vec<&String> = plans.iter().map(|p| &p.vehicle_id).collect();
    assert_eq!(vehicles, vec!["A", "C"]);
    let mut planned: Vec<String> = plans.iter().flat_map(|p| p.customer_ids.clone()).collect();
    planned.sort();
    assert_eq!(planned, vec!["c1", "c3", "c4", "c9"]);
}

#[test]
fn compute_assignment_without_available_vehicles() {
    let s = scenario(vec![vehicle("B", 0, 0, Some("c9"))], vec![customer("c1", 1, 1, true)]);
    let mut rng = StdRng::seed_from_u64(1);
    assert_eq!(compute_assignment(&s, &costs_of(&s), &mut rng).err(), Some(PlanError::NoVehicles));
}

#[test]
fn merge_replaces_updated_vehicles() {
    let mut s = sample();
    let response = UpdateScenarioResponse {
        failed_to_update: vec![],
        updated_vehicles: vec![vehicle("C", 1, 2, Some("c1")), vehicle("Z", 0, 0, None)],
    };
    s.merge(&response);
    assert_eq!(s.vehicles.len(), 3);
    assert_eq!(s.vehicles[2].customer_id, Some("c1".to_string()));
    assert_eq!(s.vehicles[2].position, Coord { x: 1, y: 2 });
    assert_eq!(s.vehicles[0].customer_id, None);
}
