//! The decisions of the live dispatch loop. The caller performs the I/O: it
//! submits what `propose` returns to the runner, hands the answer to
//! `confirm`, fetches the next snapshot and repeats until `is_finished`.

use vstd::prelude::*;
use crate::alns::VehiclePlan;
use crate::models::{Scenario, UpdateScenario, UpdateScenarioResponse, UpdateVehicle};
use crate::nearest::{available_count, awaiting_count, is_nearest_update, update_scenario_first};

verus! {

/// The dispatch policy of a session.
#[derive(Debug, Clone, Copy, PartialEq, Eq, Structural)]
pub enum Algorithm {
    /// Recompute nearest pairs on every snapshot.
    Nearest,
    /// Follow the queues planned once by the adaptive search.
    Alns,
}

/// A fatal fault of the dispatch policy.
pub enum DispatchError {
    /// The policy proposed `proposed`, which holds more assignments than
    /// `bound`, the least of the vehicles without a customer and the
    /// customers awaiting service.
    TooManyAssignments { proposed: UpdateScenario, bound: usize },
    /// The runner refused the assignments of these vehicles.
    UpdateRejected { vehicle_ids: Vec<String> },
}

/// The pairs (vehicle id, front customer id) of the plans whose queue is not
/// empty, in plan order.
pub open spec fn fronts(plans: Seq<VehiclePlan>) -> Seq<(Seq<char>, Seq<char>)>
    decreases plans.len(),
{
    if plans.len() == 0 {
        Seq::empty()
    } else {
        let p = fronts(plans.drop_last());
        let last = plans.last();
        if last.customer_ids@.len() > 0 {
            p.push((last.vehicle_id@, last.customer_ids@[0]@))
        } else {
            p
        }
    }
}

pub open spec fn pairs_of(r: Seq<UpdateVehicle>) -> Seq<(Seq<char>, Seq<char>)> {
    r.map_values(|u: UpdateVehicle| (u.id@, u.customer_id@))
}

/// The plans after the vehicle `id` confirmed its assignment: the queues of
/// that vehicle lose their front.
pub open spec fn popped(plans: Seq<(Seq<char>, Seq<Seq<char>>)>, id: Seq<char>) -> Seq<
    (Seq<char>, Seq<Seq<char>>),
> {
    plans.map_values(
        |e: (Seq<char>, Seq<Seq<char>>)|
            if e.0 == id && e.1.len() > 0 {
                (e.0, e.1.drop_first())
            } else {
                e
            },
    )
}

/// The plans after each of `ids`, in order, confirmed its assignment.
pub open spec fn popped_all(plans: Seq<(Seq<char>, Seq<Seq<char>>)>, ids: Seq<Seq<char>>) -> Seq<
    (Seq<char>, Seq<Seq<char>>),
>
    decreases ids.len(),
{
    if ids.len() == 0 {
        plans
    } else {
        popped(popped_all(plans, ids.drop_last()), ids.last())
    }
}

pub open spec fn plan_views(plans: Seq<VehiclePlan>) -> Seq<(Seq<char>, Seq<Seq<char>>)> {
    plans.map_values(|p: VehiclePlan| (p.vehicle_id@, p.queue()))
}

pub open spec fn min(a: nat, b: nat) -> nat {
    if a < b { a } else { b }
}

/// `u` is the delta that the session's policy computes for `s`.
pub open spec fn is_policy_delta(
    algorithm: Algorithm,
    plans: Seq<VehiclePlan>,
    s: Scenario,
    u: Seq<UpdateVehicle>,
) -> bool {
    &&& algorithm == Algorithm::Nearest ==> is_nearest_update(s, u)
    &&& algorithm == Algorithm::Alns ==> pairs_of(u) == fronts(plans)
}

/// The state of one session: its policy and, for the adaptive search, the
/// queue planned for each vehicle.
pub struct Session {
    pub algorithm: Algorithm,
    pub plans: Vec<VehiclePlan>,
}

impl Session {
    /// The scenario reports its end.
    pub fn is_finished(scenario: &Scenario) -> (r: bool)
        ensures
            r == scenario.end_time is Some,
    {
        scenario.end_time.is_some()
    }

    /// The assignments for this tick, unless there are more of them than
    /// vehicles without a customer or customers awaiting service.
    pub fn propose(&self, scenario: &Scenario) -> (r: Result<UpdateScenario, DispatchError>)
        ensures
            ({
                let bound = min(
                    available_count(*scenario, scenario.vehicles@.len()),
                    awaiting_count(*scenario, scenario.customers@.len()),
                );
                match r {
                    Ok(u) => {
                        &&& u.vehicles@.len() <= bound
                        &&& is_policy_delta(self.algorithm, self.plans@, *scenario, u.vehicles@)
                    },
                    Err(DispatchError::TooManyAssignments { proposed, bound: b }) => {
                        &&& b == bound
                        &&& proposed.vehicles@.len() > bound
                        &&& is_policy_delta(self.algorithm, self.plans@, *scenario, proposed.vehicles@)
                        &&& self.algorithm == Algorithm::Alns
                    },
                    Err(DispatchError::UpdateRejected { .. }) => false,
                }
            }),
    {
        let update = match self.algorithm {
            Algorithm::Nearest => update_scenario_first(scenario),
            Algorithm::Alns => UpdateScenario { vehicles: plan_fronts(&self.plans) },
        };
        let bound = assignment_bound(scenario);
        if update.vehicles.len() > bound {
            Err(DispatchError::TooManyAssignments { proposed: update, bound })
        } else {
            Ok(update)
        }
    }

    /// Takes in the runner's answer: a refusal of any vehicle is fatal;
    /// otherwise, under the adaptive policy, each updated vehicle's queue
    /// loses its front.
    pub fn confirm(&mut self, response: &UpdateScenarioResponse) -> (r: Result<(), DispatchError>)
        ensures
            final(self).algorithm == old(self).algorithm,
            response.failed_to_update@.len() > 0 <==> r is Err,
            r matches Err(DispatchError::UpdateRejected { vehicle_ids }) ==> vehicle_ids@ == response.failed_to_update@,
            !(r matches Err(DispatchError::TooManyAssignments { .. })),
            r is Err ==> final(self).plans@ == old(self).plans@,
            r is Ok && old(self).algorithm == Algorithm::Alns ==> plan_views(final(self).plans@) == popped_all(
                plan_views(old(self).plans@),
                response.updated_vehicles@.map_values(|v: crate::models::Vehicle| v.id@),
            ),
            r is Ok && old(self).algorithm == Algorithm::Nearest ==> final(self).plans@ == old(self).plans@,
    {
        if response.failed_to_update.len() > 0 {
            return Err(DispatchError::UpdateRejected { vehicle_ids: response.failed_to_update.clone() });
        }
        if self.algorithm == Algorithm::Alns {
            let ghost start = plan_views(self.plans@);
            let ghost ids = response.updated_vehicles@.map_values(|v: crate::models::Vehicle| v.id@);
            let mut j: usize = 0;
            while j < response.updated_vehicles.len()
                invariant
                    j <= response.updated_vehicles@.len(),
                    ids == response.updated_vehicles@.map_values(|v: crate::models::Vehicle| v.id@),
                    plan_views(self.plans@) == popped_all(start, ids.take(j as int)),
                    self.algorithm == old(self).algorithm,
                decreases response.updated_vehicles@.len() - j,
            {
                pop_front_of(&mut self.plans, &response.updated_vehicles[j].id);
                assert(ids.take(j + 1).drop_last() =~= ids.take(j as int));
                j += 1;
            }
            assert(ids.take(j as int) =~= ids);
        }
        Ok(())
    }
}

/// The front of every non-empty queue, paired with its vehicle.
fn plan_fronts(plans: &Vec<VehiclePlan>) -> (r: Vec<UpdateVehicle>)
    ensures
        pairs_of(r@) == fronts(plans@),
{
    let mut r: Vec<UpdateVehicle> = Vec::new();
    let mut i: usize = 0;
    while i < plans.len()
        invariant
            i <= plans@.len(),
            pairs_of(r@) == fronts(plans@.take(i as int)),
        decreases plans@.len() - i,
    {
        assert(plans@.take(i + 1).drop_last() =~= plans@.take(i as int));
        let plan = &plans[i];
        if plan.customer_ids.len() > 0 {
            let ghost before = r@;
            r.push(UpdateVehicle { id: plan.vehicle_id.clone(), customer_id: plan.customer_ids[0].clone() });
            assert(pairs_of(r@) =~= pairs_of(before).push((plan.vehicle_id@, plan.customer_ids@[0]@)));
        }
        i += 1;
    }
    assert(plans@.take(i as int) =~= plans@);
    r
}

/// The least of the number of vehicles without a customer and the number
/// of customers awaiting service.
fn assignment_bound(s: &Scenario) -> (r: usize)
    ensures
        r == min(available_count(*s, s.vehicles@.len()), awaiting_count(*s, s.customers@.len())),
{
    let mut free: usize = 0;
    let mut i: usize = 0;
    while i < s.vehicles.len()
        invariant
            i <= s.vehicles@.len(),
            free == available_count(*s, i as nat),
            free <= i,
        decreases s.vehicles@.len() - i,
    {
        if s.vehicles[i].customer_id.is_none() {
            free += 1;
        }
        i += 1;
    }
    let mut waiting: usize = 0;
    let mut k: usize = 0;
    while k < s.customers.len()
        invariant
            k <= s.customers@.len(),
            waiting == awaiting_count(*s, k as nat),
            waiting <= k,
        decreases s.customers@.len() - k,
    {
        if s.customers[k].awaiting_service {
            waiting += 1;
        }
        k += 1;
    }
    if free < waiting {
        free
    } else {
        waiting
    }
}

/// Drops the front of the queue of each plan of vehicle `id`.
fn pop_front_of(plans: &mut Vec<VehiclePlan>, id: &String)
    ensures
        plan_views(final(plans)@) == popped(plan_views(old(plans)@), id@),
{
    let ghost start = plan_views(plans@);
    let mut i: usize = 0;
    while i < plans.len()
        invariant
            i <= plans@.len(),
            start.len() == plans@.len(),
            forall|x: int| 0 <= x < i ==> #[trigger] plan_views(plans@)[x] == popped(start, id@)[x],
            forall|x: int| i <= x < plans@.len() ==> #[trigger] plan_views(plans@)[x] == start[x],
        decreases plans@.len() - i,
    {
        let ghost before = plans@;
        assert(plan_views(before)[i as int] == start[i as int]);
        if plans[i].vehicle_id == *id && plans[i].customer_ids.len() > 0 {
            plans[i].customer_ids.remove(0);
            assert(plans@[i as int].queue() =~= before[i as int].queue().drop_first());
            assert(plan_views(plans@)[i as int] == popped(start, id@)[i as int]);
        } else {
            assert(plan_views(plans@)[i as int] == popped(start, id@)[i as int]);
        }
        assert forall|x: int| 0 <= x < plans@.len() && x != i implies #[trigger] plan_views(plans@)[x]
            == plan_views(before)[x] by {
            assert(plans@[x] == before[x]);
        }
        i += 1;
    }
    assert(plan_views(plans@) =~= popped(start, id@));
}

} // verus!
