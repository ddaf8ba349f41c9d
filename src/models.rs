//! The scenario as the dispatch logic sees it, and the messages exchanged
//! with the runner.

use vstd::prelude::*;

verus! {

/// A position in fixed point: degrees times ten million.
#[derive(Debug, Clone, Copy, PartialEq, Eq, Structural)]
pub struct Coord {
    pub x: i32,
    pub y: i32,
}

pub struct Customer {
    pub id: String,
    pub origin: Coord,
    /// Known once service begins.
    pub destination: Option<Coord>,
    pub awaiting_service: bool,
}

pub struct Vehicle {
    pub id: String,
    pub position: Coord,
    pub is_available: bool,
    /// The customer the runner has linked to this vehicle, if any.
    pub customer_id: Option<String>,
}

pub struct Scenario {
    pub id: String,
    pub start_time: Option<String>,
    /// Present once the scenario has ended.
    pub end_time: Option<String>,
    pub status: String,
    pub vehicles: Vec<Vehicle>,
    pub customers: Vec<Customer>,
}

/// One proposed pairing: vehicle `id` should next serve `customer_id`.
pub struct UpdateVehicle {
    pub id: String,
    pub customer_id: String,
}

/// The assignments proposed to the runner in one tick.
pub struct UpdateScenario {
    pub vehicles: Vec<UpdateVehicle>,
}

/// The runner's answer to an `UpdateScenario`.
pub struct UpdateScenarioResponse {
    pub failed_to_update: Vec<String>,
    pub updated_vehicles: Vec<Vehicle>,
}

/// The runner's answer to a launch.
pub struct LaunchScenarioResponse {
    pub message: String,
    pub scenario_id: String,
    pub start_time: String,
}

/// Vehicle `v` as the updates leave it: the last update with its id, or
/// itself when none has.
pub open spec fn merged_vehicle(v: Vehicle, updates: Seq<Vehicle>) -> Vehicle
    decreases updates.len(),
{
    if updates.len() == 0 {
        v
    } else if updates.last().id@ == v.id@ {
        updates.last()
    } else {
        merged_vehicle(v, updates.drop_last())
    }
}

impl Coord {
    fn copy(&self) -> (r: Coord)
        ensures
            r == *self,
    {
        Coord { x: self.x, y: self.y }
    }
}

impl Vehicle {
    /// A field-by-field copy.
    pub fn duplicate(&self) -> (r: Vehicle)
        ensures
            r == *self,
    {
        let customer_id = match &self.customer_id {
            Some(c) => Some(c.clone()),
            None => None,
        };
        Vehicle {
            id: self.id.clone(),
            position: self.position.copy(),
            is_available: self.is_available,
            customer_id,
        }
    }
}

impl Scenario {
    /// Applies the runner's updated vehicles: each vehicle of the scenario
    /// with the id of an updated one becomes the last such update.
    pub fn merge(&mut self, update: &UpdateScenarioResponse)
        ensures
            final(self).id == old(self).id,
            final(self).start_time == old(self).start_time,
            final(self).end_time == old(self).end_time,
            final(self).status == old(self).status,
            final(self).customers == old(self).customers,
            final(self).vehicles@.len() == old(self).vehicles@.len(),
            forall|i: int|
                0 <= i < old(self).vehicles@.len() ==> #[trigger] final(self).vehicles@[i] == merged_vehicle(
                    old(self).vehicles@[i],
                    update.updated_vehicles@,
                ),
    {
        let ghost start = self.vehicles@;
        let n = self.vehicles.len();
        let mut i: usize = 0;
        while i < n
            invariant
                n == start.len(),
                i <= n,
                self.vehicles@.len() == n,
                self.id == old(self).id,
                self.start_time == old(self).start_time,
                self.end_time == old(self).end_time,
                self.status == old(self).status,
                self.customers == old(self).customers,
                start == old(self).vehicles@,
                forall|x: int| 0 <= x < i ==> #[trigger] self.vehicles@[x] == merged_vehicle(start[x], update.updated_vehicles@),
                forall|x: int| i <= x < n ==> #[trigger] self.vehicles@[x] == start[x],
            decreases n - i,
        {
            let mut j: usize = 0;
            assert(self.vehicles@[i as int] == start[i as int]);
            let own_id = self.vehicles[i].id.clone();
            let mut current = self.vehicles[i].duplicate();
            while j < update.updated_vehicles.len()
                invariant
                    i < n == start.len(),
                    j <= update.updated_vehicles@.len(),
                    current == merged_vehicle(start[i as int], update.updated_vehicles@.take(j as int)),
                    current.id@ == start[i as int].id@,
                    own_id@ == start[i as int].id@,
                decreases update.updated_vehicles@.len() - j,
            {
                assert(update.updated_vehicles@.take(j + 1).drop_last() =~= update.updated_vehicles@.take(j as int));
                if update.updated_vehicles[j].id == own_id {
                    current = update.updated_vehicles[j].duplicate();
                }
                j += 1;
            }
            assert(update.updated_vehicles@.take(j as int) =~= update.updated_vehicles@);
            self.vehicles.set(i, current);
            i += 1;
        }
    }
}

} // verus!
