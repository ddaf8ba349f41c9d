//! The adaptive search: operator selection by roulette wheel, the
//! destroy-and-repair loop, and the per-vehicle queues drawn from its result.

use vstd::prelude::*;
use crate::construct::{PlanError, construct_initial_solution, is_initial_plan};
use crate::costs::CostTable;
use crate::insert::{greedy, repaired};
use crate::models::{Customer, Scenario, Vehicle};
use crate::random::draw_below;
use crate::remove::{removal_count, shawn_heuristic, take_out, without};
use crate::solution::{
    Solution, routes_wf, visits, total_visits, each_once, lemma_each_once_len, lemma_visits_len,
};

verus! {

broadcast use vstd::multiset::group_multiset_axioms;

/// The iterations of one solve.
pub const MAX_ITERATIONS: u32 = 50;

/// The sum of the first `i` weights.
pub open spec fn prefix_weight(w: Seq<u64>, i: int) -> int
    decreases i,
{
    if i <= 0 {
        0
    } else {
        prefix_weight(w, i - 1) + w[i - 1]
    }
}

pub open spec fn total_weight(w: Seq<u64>) -> int {
    prefix_weight(w, w.len() as int)
}

proof fn lemma_prefix_weight_mono(w: Seq<u64>, i: int, j: int)
    requires
        0 <= i <= j <= w.len(),
    ensures
        prefix_weight(w, i) <= prefix_weight(w, j),
    decreases j - i,
{
    if i < j {
        lemma_prefix_weight_mono(w, i, j - 1);
    }
}

/// Roulette-wheel choice for a draw in `[0, total weight)`: the index whose
/// slice of the wheel holds the draw, that is the first index at which the
/// draw less the weights so far falls below zero.
pub fn select_heuristic(weights: &Vec<u64>, draw: u64) -> (r: usize)
    requires
        draw < total_weight(weights@),
    ensures
        r < weights@.len(),
        prefix_weight(weights@, r as int) <= draw < prefix_weight(weights@, r as int + 1),
{
    let mut rest = draw;
    let mut i: usize = 0;
    loop
        invariant
            draw < total_weight(weights@),
            i < weights@.len() || prefix_weight(weights@, i as int) <= draw,
            i <= weights@.len(),
            prefix_weight(weights@, i as int) <= draw,
            rest == draw - prefix_weight(weights@, i as int),
        decreases weights@.len() - i,
    {
        if i == weights.len() {
            assert(false);
        }
        if rest < weights[i] {
            return i;
        }
        rest = rest - weights[i];
        i += 1;
    }
}

/// A weighted random choice from `weights`.
pub fn draw_heuristic(weights: &Vec<u64>, rng: &mut rand::rngs::StdRng) -> (r: usize)
    requires
        0 < total_weight(weights@) <= u64::MAX,
    ensures
        r < weights@.len(),
        weights@[r as int] > 0,
{
    let total = weight_sum(weights);
    let draw = draw_below(rng, total);
    select_heuristic(weights, draw)
}

/// The sum of the weights.
pub fn weight_sum(weights: &Vec<u64>) -> (t: u64)
    requires
        total_weight(weights@) <= u64::MAX,
    ensures
        t == total_weight(weights@),
{
    let mut total: u64 = 0;
    let mut i: usize = 0;
    while i < weights.len()
        invariant
            i <= weights@.len(),
            total_weight(weights@) <= u64::MAX,
            total == prefix_weight(weights@, i as int),
        decreases weights@.len() - i,
    {
        proof {
            lemma_prefix_weight_mono(weights@, i + 1, weights@.len() as int);
        }
        total = total + weights[i];
        i += 1;
    }
    total
}

/// The destroy operators.
#[derive(Debug, Clone, Copy, PartialEq, Eq, Structural)]
pub enum DestroyOperator {
    /// Relatedness removal, see `shawn_heuristic`.
    Relatedness,
}

/// The repair operators.
#[derive(Debug, Clone, Copy, PartialEq, Eq, Structural)]
pub enum RepairOperator {
    /// Greedy cheapest insertion, see `greedy`.
    GreedyInsertion,
}

/// The operators the search chooses from, each with its weight.
pub struct OperatorPools {
    pub destroy: Vec<DestroyOperator>,
    pub destroy_weights: Vec<u64>,
    pub repair: Vec<RepairOperator>,
    pub repair_weights: Vec<u64>,
}

impl OperatorPools {
    /// Each operator has a weight, and each pool a positive total that fits
    /// in a `u64`.
    pub open spec fn wf(&self) -> bool {
        &&& self.destroy@.len() == self.destroy_weights@.len()
        &&& self.repair@.len() == self.repair_weights@.len()
        &&& 0 < total_weight(self.destroy_weights@) <= u64::MAX
        &&& 0 < total_weight(self.repair_weights@) <= u64::MAX
    }

    /// Three destroy and four repair slots, all of weight one.
    pub fn uniform() -> (r: OperatorPools)
        ensures
            r.wf(),
            r.destroy@.len() == 3,
            r.repair@.len() == 4,
            forall|i: int| 0 <= i < 3 ==> #[trigger] r.destroy_weights@[i] == 1,
            forall|i: int| 0 <= i < 4 ==> #[trigger] r.repair_weights@[i] == 1,
    {
        let r = OperatorPools {
            destroy: vec![DestroyOperator::Relatedness, DestroyOperator::Relatedness, DestroyOperator::Relatedness],
            destroy_weights: vec![1, 1, 1],
            repair: vec![
                RepairOperator::GreedyInsertion,
                RepairOperator::GreedyInsertion,
                RepairOperator::GreedyInsertion,
                RepairOperator::GreedyInsertion,
            ],
            repair_weights: vec![1, 1, 1, 1],
        };
        assert(total_weight(r.destroy_weights@) == 3) by {
            reveal_with_fuel(prefix_weight, 4);
        }
        assert(total_weight(r.repair_weights@) == 4) by {
            reveal_with_fuel(prefix_weight, 5);
        }
        r
    }
}

/// One destroy-and-repair step on the customers `removed`: takes them out
/// of their routes, then inserts them back greedily in the order given.
pub fn destroy_and_repair(costs: &CostTable, solution: &mut Solution, removed: Vec<usize>)
    requires
        costs.wf(),
        routes_wf(old(solution)@, costs.vehicles(), costs.customers()),
        visits(old(solution)@) == each_once(costs.customers()),
        removed@.no_duplicates(),
        forall|i: int| 0 <= i < removed@.len() ==> (#[trigger] removed@[i] as nat) < costs.customers(),
    ensures
        final(solution)@ == repaired(
            *costs,
            old(solution)@.map_values(|s: Seq<usize>| without(s, removed@)),
            removed@,
        ),
        routes_wf(final(solution)@, costs.vehicles(), costs.customers()),
        visits(final(solution)@) == each_once(costs.customers()),
{
    let m = costs.ride.len();
    proof {
        if costs.vehicles() == 0 {
            crate::solution::lemma_visits_empty(solution@);
            lemma_each_once_len(m as nat);
            if removed@.len() > 0 {
                assert((removed@[0] as nat) < m);
            }
        }
    }
    take_out(solution, &removed, m);
    greedy(costs, solution, removed);
}

/// The plan after one destroy-and-repair step per entry of `removals`, in
/// order: the customers of the entry are taken out of their routes and
/// inserted back greedily (see `destroy_and_repair`).
pub open spec fn alns_run(t: CostTable, routes: Seq<Seq<usize>>, removals: Seq<Seq<usize>>) -> Seq<
    Seq<usize>,
>
    decreases removals.len(),
{
    if removals.len() == 0 {
        routes
    } else {
        let before = alns_run(t, routes, removals.drop_last());
        let rm = removals.last();
        repaired(t, before.map_values(|s: Seq<usize>| without(s, rm)), rm)
    }
}

/// `removals` could have been drawn by a search of `iterations` rounds with
/// removal count `q` over `m` customers: one set per round, each of `q`
/// distinct customers.
pub open spec fn valid_removals(removals: Seq<Seq<usize>>, iterations: nat, q: nat, m: nat) -> bool {
    &&& removals.len() == iterations
    &&& forall|k: int|
        0 <= k < removals.len() ==> {
            &&& (#[trigger] removals[k]).no_duplicates()
            &&& removals[k].len() == q
            &&& forall|i: int| 0 <= i < removals[k].len() ==> (#[trigger] removals[k][i] as nat) < m
        }
}

/// Improves `initial` for `max_iterations` rounds: each round draws a
/// destroy and a repair operator by weight, takes a fifth of the visits out
/// and puts them back. Every customer stays visited exactly once.
pub fn optimize_alns(
    costs: &CostTable,
    initial: Solution,
    pools: &OperatorPools,
    max_iterations: u32,
    rng: &mut rand::rngs::StdRng,
) -> (r: Solution)
    requires
        costs.wf(),
        pools.wf(),
        routes_wf(initial@, costs.vehicles(), costs.customers()),
        visits(initial@) == each_once(costs.customers()),
    ensures
        routes_wf(r@, costs.vehicles(), costs.customers()),
        visits(r@) == each_once(costs.customers()),
        exists|removals: Seq<Seq<usize>>|
            valid_removals(
                removals,
                max_iterations as nat,
                total_visits(initial@) / 5,
                costs.customers(),
            ) && r@ == alns_run(*costs, initial@, removals),
{
    let m = costs.ride.len();
    proof {
        lemma_visits_len(initial@);
        lemma_each_once_len(m as nat);
    }
    let q = removal_count(initial.total_visits());
    let ghost start = initial@;
    let mut current = initial;
    let ghost mut removals: Seq<Seq<usize>> = Seq::empty();
    let mut it: u32 = 0;
    while it < max_iterations
        invariant
            costs.wf(),
            pools.wf(),
            m == costs.customers(),
            q == total_visits(start) / 5,
            total_visits(start) == m,
            it <= max_iterations,
            routes_wf(current@, costs.vehicles(), costs.customers()),
            visits(current@) == each_once(costs.customers()),
            valid_removals(removals, it as nat, q as nat, m as nat),
            current@ == alns_run(*costs, start, removals),
        decreases max_iterations - it,
    {
        let d = draw_heuristic(&pools.destroy_weights, rng);
        let removed = match pools.destroy[d] {
            DestroyOperator::Relatedness => shawn_heuristic(costs, &current, q, rng),
        };
        proof {
            assert forall|i: int| 0 <= i < removed@.len() implies (#[trigger] removed@[i] as nat) < m by {
                crate::solution::lemma_each_once_count(m as nat, removed@[i]);
            }
        }
        let p = draw_heuristic(&pools.repair_weights, rng);
        let ghost before = current@;
        let ghost rm = removed@;
        match pools.repair[p] {
            RepairOperator::GreedyInsertion => destroy_and_repair(costs, &mut current, removed),
        }
        proof {
            let old_removals = removals;
            removals = removals.push(rm);
            assert(removals.drop_last() =~= old_removals);
            assert forall|k: int| 0 <= k < removals.len() implies {
                &&& (#[trigger] removals[k]).no_duplicates()
                &&& removals[k].len() == q
                &&& forall|i: int| 0 <= i < removals[k].len() ==> (#[trigger] removals[k][i] as nat) < m
            } by {
                if k < old_removals.len() {
                    assert(removals[k] == old_removals[k]);
                } else {
                    lemma_visits_len(before);
                    lemma_each_once_len(m as nat);
                    assert(removals[k] == rm);
                }
            }
        }
        it += 1;
    }
    current
}

/// The queue of customers planned for one vehicle. `compute_assignment`
/// gives one plan per available vehicle, so vehicle ids that are unique in
/// the scenario (as the runner keeps them) are unique among the plans.
pub struct VehiclePlan {
    pub vehicle_id: String,
    pub customer_ids: Vec<String>,
}

impl VehiclePlan {
    /// The queue, front first.
    pub open spec fn queue(&self) -> Seq<Seq<char>> {
        self.customer_ids@.map_values(|s: String| s@)
    }
}

/// The vehicles, by index, that the runner reports available.
pub open spec fn available_indices(vs: Seq<Vehicle>) -> Seq<usize>
    decreases vs.len(),
{
    if vs.len() == 0 {
        Seq::empty()
    } else {
        let p = available_indices(vs.drop_last());
        if vs.last().is_available {
            p.push((vs.len() - 1) as usize)
        } else {
            p
        }
    }
}

/// The customers, by index, that await service.
pub open spec fn waiting_indices(cs: Seq<Customer>) -> Seq<usize>
    decreases cs.len(),
{
    if cs.len() == 0 {
        Seq::empty()
    } else {
        let p = waiting_indices(cs.drop_last());
        if cs.last().awaiting_service {
            p.push((cs.len() - 1) as usize)
        } else {
            p
        }
    }
}

/// `plans` lists, for the vehicles `av` in order, the customers of `routes`
/// by the ids of the customers `wt` that they number.
pub open spec fn plans_match(
    s: Scenario,
    av: Seq<usize>,
    wt: Seq<usize>,
    routes: Seq<Seq<usize>>,
    plans: Seq<VehiclePlan>,
) -> bool {
    &&& plans.len() == av.len()
    &&& routes.len() == av.len()
    &&& forall|i: int| 0 <= i < av.len() ==> (#[trigger] plans[i]).vehicle_id@ == s.vehicles@[av[i] as int].id@
    &&& forall|i: int| 0 <= i < av.len() ==> (#[trigger] plans[i]).customer_ids@.len() == routes[i].len()
    &&& forall|i: int, k: int|
        0 <= i < av.len() && 0 <= k < routes[i].len() ==> (#[trigger] plans[i].customer_ids@[k])@
            == s.customers@[wt[routes[i][k] as int] as int].id@
}

fn available_vehicles(s: &Scenario) -> (r: Vec<usize>)
    ensures
        r@ == available_indices(s.vehicles@),
        forall|i: int| 0 <= i < r@.len() ==> (#[trigger] r@[i] as nat) < s.vehicles@.len(),
{
    let mut r: Vec<usize> = Vec::new();
    let mut i: usize = 0;
    while i < s.vehicles.len()
        invariant
            i <= s.vehicles@.len(),
            r@ == available_indices(s.vehicles@.take(i as int)),
            forall|k: int| 0 <= k < r@.len() ==> (#[trigger] r@[k] as nat) < i,
        decreases s.vehicles@.len() - i,
    {
        assert(s.vehicles@.take(i + 1).drop_last() =~= s.vehicles@.take(i as int));
        if s.vehicles[i].is_available {
            r.push(i);
        }
        i += 1;
    }
    assert(s.vehicles@.take(i as int) =~= s.vehicles@);
    r
}

fn waiting_customers(s: &Scenario) -> (r: Vec<usize>)
    ensures
        r@ == waiting_indices(s.customers@),
        forall|i: int| 0 <= i < r@.len() ==> (#[trigger] r@[i] as nat) < s.customers@.len(),
{
    let mut r: Vec<usize> = Vec::new();
    let mut i: usize = 0;
    while i < s.customers.len()
        invariant
            i <= s.customers@.len(),
            r@ == waiting_indices(s.customers@.take(i as int)),
            forall|k: int| 0 <= k < r@.len() ==> (#[trigger] r@[k] as nat) < i,
        decreases s.customers@.len() - i,
    {
        assert(s.customers@.take(i + 1).drop_last() =~= s.customers@.take(i as int));
        if s.customers[i].awaiting_service {
            r.push(i);
        }
        i += 1;
    }
    assert(s.customers@.take(i as int) =~= s.customers@);
    r
}

/// Plans the customers awaiting service over the available vehicles of
/// `scenario`: builds the first plan, improves it for `MAX_ITERATIONS`
/// rounds, and returns for each available vehicle, in order, the queue of
/// customer ids it should serve. `costs` covers every vehicle and customer
/// of the scenario. Fails when customers wait and no vehicle is available.
pub fn compute_assignment(
    scenario: &Scenario,
    costs: &CostTable,
    rng: &mut rand::rngs::StdRng,
) -> (r: Result<Vec<VehiclePlan>, PlanError>)
    requires
        costs.wf(),
        costs.vehicles() == scenario.vehicles@.len(),
        costs.customers() == scenario.customers@.len(),
    ensures
        r is Err <==> available_indices(scenario.vehicles@).len() == 0 && waiting_indices(
            scenario.customers@,
        ).len() > 0,
        r matches Ok(plans) ==> exists|
            sub: CostTable,
            initial: Seq<Seq<usize>>,
            removals: Seq<Seq<usize>>,
            routes: Seq<Seq<usize>>,
        |
            {
                &&& costs.is_restriction(
                    sub,
                    available_indices(scenario.vehicles@),
                    waiting_indices(scenario.customers@),
                )
                &&& is_initial_plan(sub, initial)
                &&& valid_removals(
                    removals,
                    MAX_ITERATIONS as nat,
                    waiting_indices(scenario.customers@).len() / 5,
                    waiting_indices(scenario.customers@).len(),
                )
                &&& routes == alns_run(sub, initial, removals)
                &&& routes_wf(
                    routes,
                    available_indices(scenario.vehicles@).len(),
                    waiting_indices(scenario.customers@).len(),
                )
                &&& visits(routes) == each_once(waiting_indices(scenario.customers@).len())
                &&& plans_match(
                    *scenario,
                    available_indices(scenario.vehicles@),
                    waiting_indices(scenario.customers@),
                    routes,
                    plans@,
                )
            },
{
    let av = available_vehicles(scenario);
    let wt = waiting_customers(scenario);
    let sub = costs.restrict(&av, &wt);
    let initial = match construct_initial_solution(&sub) {
        Ok(s) => s,
        Err(e) => {
            return Err(e);
        },
    };
    let pools = OperatorPools::uniform();
    let ghost init = initial@;
    let best = optimize_alns(&sub, initial, &pools, MAX_ITERATIONS, rng);
    let ghost removals = choose|removals: Seq<Seq<usize>>|
        valid_removals(removals, MAX_ITERATIONS as nat, total_visits(init) / 5, sub.customers())
            && best@ == alns_run(sub, init, removals);
    let mut plans: Vec<VehiclePlan> = Vec::new();
    let mut i: usize = 0;
    while i < av.len()
        invariant
            av@ == available_indices(scenario.vehicles@),
            wt@ == waiting_indices(scenario.customers@),
            forall|x: int| 0 <= x < av@.len() ==> (#[trigger] av@[x] as nat) < scenario.vehicles@.len(),
            forall|x: int| 0 <= x < wt@.len() ==> (#[trigger] wt@[x] as nat) < scenario.customers@.len(),
            routes_wf(best@, av@.len(), wt@.len()),
            i <= av@.len(),
            plans@.len() == i,
            forall|x: int| 0 <= x < i ==> (#[trigger] plans@[x]).vehicle_id@ == scenario.vehicles@[av@[x] as int].id@,
            forall|x: int| 0 <= x < i ==> (#[trigger] plans@[x]).customer_ids@.len() == best@[x].len(),
            forall|x: int, k: int|
                0 <= x < i && 0 <= k < best@[x].len() ==> (#[trigger] plans@[x].customer_ids@[k])@
                    == scenario.customers@[wt@[best@[x][k] as int] as int].id@,
        decreases av@.len() - i,
    {
        let route = &best.route[i];
        assert(route@ == best@[i as int]);
        let mut ids: Vec<String> = Vec::new();
        let mut k: usize = 0;
        while k < route.len()
            invariant
                wt@ == waiting_indices(scenario.customers@),
                forall|x: int| 0 <= x < wt@.len() ==> (#[trigger] wt@[x] as nat) < scenario.customers@.len(),
                routes_wf(best@, av@.len(), wt@.len()),
                i < av@.len(),
                route@ == best@[i as int],
                k <= route@.len(),
                ids@.len() == k,
                forall|y: int| 0 <= y < k ==> (#[trigger] ids@[y])@ == scenario.customers@[wt@[route@[y] as int] as int].id@,
            decreases route@.len() - k,
        {
            let c = route[k];
            assert((c as nat) < wt@.len());
            ids.push(scenario.customers[wt[c]].id.clone());
            k += 1;
        }
        plans.push(VehiclePlan { vehicle_id: scenario.vehicles[av[i]].id.clone(), customer_ids: ids });
        i += 1;
    }
    assert(plans_match(*scenario, av@, wt@, best@, plans@));
    assert(costs.is_restriction(sub, av@, wt@));
    assert(is_initial_plan(sub, init));
    assert(valid_removals(removals, MAX_ITERATIONS as nat, wt@.len() / 5, wt@.len()));
    assert(best@ == alns_run(sub, init, removals));
    Ok(plans)
}

} // verus!
