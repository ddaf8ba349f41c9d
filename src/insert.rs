//! Repair: greedy cheapest insertion of removed customers.

use vstd::prelude::*;
use crate::costs::CostTable;
use crate::solution::{Solution, routes_wf, visits, total_visits, lemma_visits_update};

verus! {

broadcast use vstd::multiset::group_multiset_axioms;

/// The increase in cost of serving customer `c` at position `p` of `route`,
/// the route of vehicle `v`: the new legs less the leg they replace. No leg
/// back is charged after the last stop.
pub open spec fn insertion_cost(t: CostTable, route: Seq<usize>, v: int, c: int, p: int) -> int {
    if route.len() == 0 {
        t.pickup_cost(v, c)
    } else if p == 0 {
        t.pickup_cost(v, c) + t.link_cost(c, route[0] as int) - t.pickup_cost(v, route[0] as int)
    } else if p == route.len() {
        t.link_cost(route[p - 1] as int, c)
    } else {
        t.link_cost(route[p - 1] as int, c) + t.link_cost(c, route[p] as int) - t.link_cost(
            route[p - 1] as int,
            route[p] as int,
        )
    }
}

/// Position `p` of route `r` is a place to insert at: before the first stop,
/// between two stops, or after the last.
pub open spec fn is_position(routes: Seq<Seq<usize>>, r: int, p: int) -> bool {
    0 <= r < routes.len() && 0 <= p <= routes[r].len()
}

/// Positions are scanned route by route, and in each route from the front.
pub open spec fn scanned_before(r1: int, p1: int, r2: int, p2: int) -> bool {
    r1 < r2 || (r1 == r2 && p1 < p2)
}

pub open spec fn cost_at(t: CostTable, routes: Seq<Seq<usize>>, c: int, r: int, p: int) -> int {
    insertion_cost(t, routes[r], r, c, p)
}

/// `(r, p)` has the least insertion cost of all positions, and every position
/// scanned before it costs strictly more.
pub open spec fn is_best_insertion(
    t: CostTable,
    routes: Seq<Seq<usize>>,
    c: int,
    r: int,
    p: int,
) -> bool {
    &&& is_position(routes, r, p)
    &&& forall|r2: int, p2: int|
        is_position(routes, r2, p2) ==> cost_at(t, routes, c, r, p) <= #[trigger] cost_at(
            t,
            routes,
            c,
            r2,
            p2,
        )
    &&& forall|r2: int, p2: int|
        is_position(routes, r2, p2) && scanned_before(r2, p2, r, p) ==> cost_at(
            t,
            routes,
            c,
            r,
            p,
        ) < #[trigger] cost_at(t, routes, c, r2, p2)
}

/// The best position of customer `c`.
pub open spec fn best_insertion_of(t: CostTable, routes: Seq<Seq<usize>>, c: int) -> (int, int) {
    choose|rp: (int, int)| is_best_insertion(t, routes, c, rp.0, rp.1)
}

/// The routes after inserting each of `removed`, in order, at its best position.
pub open spec fn repaired(t: CostTable, routes: Seq<Seq<usize>>, removed: Seq<usize>) -> Seq<
    Seq<usize>,
>
    decreases removed.len(),
{
    if removed.len() == 0 {
        routes
    } else {
        let c = removed[0];
        let (r, p) = best_insertion_of(t, routes, c as int);
        repaired(t, routes.update(r, routes[r].insert(p, c)), removed.drop_first())
    }
}

/// At most one position is the best.
pub proof fn lemma_best_insertion_unique(
    t: CostTable,
    routes: Seq<Seq<usize>>,
    c: int,
    r: int,
    p: int,
)
    requires
        is_best_insertion(t, routes, c, r, p),
    ensures
        best_insertion_of(t, routes, c) == (r, p),
{
    assert(is_best_insertion(t, routes, c, (r, p).0, (r, p).1));
    let rp = best_insertion_of(t, routes, c);
    assert(is_best_insertion(t, routes, c, rp.0, rp.1));
    assert(cost_at(t, routes, c, r, p) <= cost_at(t, routes, c, rp.0, rp.1));
    assert(cost_at(t, routes, c, rp.0, rp.1) <= cost_at(t, routes, c, r, p));
    if scanned_before(r, p, rp.0, rp.1) {
        assert(cost_at(t, routes, c, rp.0, rp.1) < cost_at(t, routes, c, r, p));
    }
    if scanned_before(rp.0, rp.1, r, p) {
        assert(cost_at(t, routes, c, r, p) < cost_at(t, routes, c, rp.0, rp.1));
    }
}

/// The insertion cost of `c` at position `p` of `route`, the route of vehicle `v`.
fn marginal_cost(costs: &CostTable, route: &Vec<usize>, v: usize, c: usize, p: usize) -> (r: i64)
    requires
        costs.wf(),
        v < costs.vehicles(),
        c < costs.customers(),
        p <= route@.len(),
        forall|i: int| 0 <= i < route@.len() ==> (#[trigger] route@[i] as nat) < costs.customers(),
    ensures
        r == insertion_cost(*costs, route@, v as int, c as int, p as int),
{
    let n = route.len();
    if n == 0 {
        costs.pickup[v][c] as i64
    } else if p == 0 {
        let first = route[0];
        costs.pickup[v][c] as i64 + costs.link[c][first] as i64 - costs.pickup[v][first] as i64
    } else if p == n {
        costs.link[route[p - 1]][c] as i64
    } else {
        let before = route[p - 1];
        let after = route[p];
        costs.link[before][c] as i64 + costs.link[c][after] as i64 - costs.link[before][after] as i64
    }
}

/// The position at which inserting customer `c` costs least; of equal
/// costs, the first scanned.
pub fn best_insertion(costs: &CostTable, solution: &Solution, c: usize) -> (r: (usize, usize))
    requires
        costs.wf(),
        costs.vehicles() > 0,
        routes_wf(solution@, costs.vehicles(), costs.customers()),
        c < costs.customers(),
    ensures
        is_best_insertion(*costs, solution@, c as int, r.0 as int, r.1 as int),
        best_insertion_of(*costs, solution@, c as int) == (r.0 as int, r.1 as int),
{
    let ghost routes = solution@;
    let ghost ci = c as int;
    assert(solution.route@[0]@ == routes[0]);
    let mut best_r: usize = 0;
    let mut best_p: usize = 0;
    let mut best_cost = marginal_cost(costs, &solution.route[0], 0, c, 0);
    let mut r: usize = 0;
    while r < solution.route.len()
        invariant
            routes == solution@,
            ci == c as int,
            costs.wf(),
            routes_wf(routes, costs.vehicles(), costs.customers()),
            c < costs.customers(),
            r <= routes.len(),
            is_position(routes, best_r as int, best_p as int),
            best_cost == cost_at(*costs, routes, ci, best_r as int, best_p as int),
            best_r < r || (best_r == 0 && best_p == 0),
            forall|r2: int, p2: int|
                is_position(routes, r2, p2) && r2 < r ==> best_cost <= #[trigger] cost_at(
                    *costs,
                    routes,
                    ci,
                    r2,
                    p2,
                ),
            forall|r2: int, p2: int|
                is_position(routes, r2, p2) && r2 < r && scanned_before(
                    r2,
                    p2,
                    best_r as int,
                    best_p as int,
                ) ==> best_cost < #[trigger] cost_at(*costs, routes, ci, r2, p2),
        decreases routes.len() - r,
    {
        let route = &solution.route[r];
        assert(route@ == routes[r as int]);
        let mut p: usize = 0;
        while p < route.len()
            invariant
                routes == solution@,
                ci == c as int,
                route@ == routes[r as int],
                costs.wf(),
                routes_wf(routes, costs.vehicles(), costs.customers()),
                c < costs.customers(),
                r < routes.len(),
                p <= route@.len(),
                is_position(routes, best_r as int, best_p as int),
                best_cost == cost_at(*costs, routes, ci, best_r as int, best_p as int),
                scanned_before(best_r as int, best_p as int, r as int, p as int) || (best_r == 0
                    && best_p == 0),
                forall|r2: int, p2: int|
                    is_position(routes, r2, p2) && scanned_before(r2, p2, r as int, p as int)
                        ==> best_cost <= #[trigger] cost_at(*costs, routes, ci, r2, p2),
                forall|r2: int, p2: int|
                    is_position(routes, r2, p2) && scanned_before(r2, p2, r as int, p as int)
                        && scanned_before(r2, p2, best_r as int, best_p as int) ==> best_cost
                        < #[trigger] cost_at(*costs, routes, ci, r2, p2),
            decreases route@.len() - p,
        {
            let cost = marginal_cost(costs, route, r, c, p);
            if cost < best_cost {
                best_r = r;
                best_p = p;
                best_cost = cost;
            }
            assert(best_cost == cost_at(*costs, routes, ci, best_r as int, best_p as int));
            p += 1;
        }
        let cost = marginal_cost(costs, route, r, c, p);
        if cost < best_cost {
            best_r = r;
            best_p = p;
            best_cost = cost;
        }
        assert forall|r2: int, p2: int|
            is_position(routes, r2, p2) && r2 < r + 1 implies best_cost <= #[trigger] cost_at(
                *costs,
                routes,
                ci,
                r2,
                p2,
            ) by {
            if r2 == r && p2 == p {
            } else {
                assert(scanned_before(r2, p2, r as int, p as int));
            }
        }
        assert forall|r2: int, p2: int|
            is_position(routes, r2, p2) && r2 < r + 1 && scanned_before(
                r2,
                p2,
                best_r as int,
                best_p as int,
            ) implies best_cost < #[trigger] cost_at(*costs, routes, ci, r2, p2) by {
            if r2 == r && p2 == p {
            } else {
                assert(scanned_before(r2, p2, r as int, p as int));
            }
        }
        r += 1;
    }
    proof {
        lemma_best_insertion_unique(*costs, routes, ci, best_r as int, best_p as int);
    }
    (best_r, best_p)
}

/// Inserts each removed customer, in the order given, at the position where
/// it costs least at that moment (see `best_insertion`).
pub fn greedy(costs: &CostTable, solution: &mut Solution, removed: Vec<usize>)
    requires
        costs.wf(),
        routes_wf(old(solution)@, costs.vehicles(), costs.customers()),
        costs.vehicles() > 0 || removed@.len() == 0,
        forall|i: int| 0 <= i < removed@.len() ==> (#[trigger] removed@[i] as nat) < costs.customers(),
    ensures
        final(solution)@ == repaired(*costs, old(solution)@, removed@),
        routes_wf(final(solution)@, costs.vehicles(), costs.customers()),
        visits(final(solution)@) =~= visits(old(solution)@).add(removed@.to_multiset()),
        total_visits(final(solution)@) == total_visits(old(solution)@) + removed@.len(),
{
    let ghost start = solution@;
    let mut i: usize = 0;
    assert(removed@.skip(0) =~= removed@);
    assert(removed@.take(0) =~= Seq::<usize>::empty());
    proof {
        removed@.take(0).to_multiset_ensures();
        vstd::multiset::lemma_multiset_empty_len(removed@.take(0).to_multiset());
    }
    assert(visits(start) =~= visits(start).add(removed@.take(0).to_multiset()));
    while i < removed.len()
        invariant
            costs.wf(),
            costs.vehicles() > 0 || removed@.len() == 0,
            forall|k: int| 0 <= k < removed@.len() ==> (#[trigger] removed@[k] as nat) < costs.customers(),
            i <= removed@.len(),
            routes_wf(solution@, costs.vehicles(), costs.customers()),
            repaired(*costs, solution@, removed@.skip(i as int)) == repaired(*costs, start, removed@),
            visits(solution@) =~= visits(start).add(removed@.take(i as int).to_multiset()),
            total_visits(solution@) == total_visits(start) + i,
        decreases removed@.len() - i,
    {
        let c = removed[i];
        let (r, p) = best_insertion(costs, solution, c);
        let ghost before = solution@;
        let ghost new_route = before[r as int].insert(p as int, c);
        solution.route[r].insert(p, c);
        assert(solution@ =~= before.update(r as int, new_route));
        proof {
            lemma_visits_update(before, r as int, new_route);
            vstd::seq_lib::to_multiset_insert(before[r as int], p as int, c);
            assert(removed@.take(i + 1) =~= removed@.take(i as int).push(c));
            removed@.take(i as int).to_multiset_ensures();
            assert forall|v: usize| #[trigger] visits(solution@).count(v) == visits(start).add(
                removed@.take(i + 1).to_multiset(),
            ).count(v) by {
                assert(visits(solution@).add(before[r as int].to_multiset()).count(v) == visits(
                    before,
                ).add(new_route.to_multiset()).count(v));
            }
            assert(removed@.skip(i as int).drop_first() =~= removed@.skip(i + 1));
            assert forall|r2: int, p2: int|
                0 <= r2 < solution@.len() && 0 <= p2 < solution@[r2].len() implies (
                #[trigger] solution@[r2][p2] as nat) < costs.customers() by {
                if r2 == r {
                    if p2 < p {
                        assert(solution@[r2][p2] == before[r2][p2]);
                    } else if p2 > p {
                        assert(solution@[r2][p2] == before[r2][p2 - 1]);
                    }
                }
            }
        }
        i += 1;
    }
    assert(removed@.skip(i as int) =~= Seq::<usize>::empty());
    assert(removed@.take(i as int) =~= removed@);
}

} // verus!
