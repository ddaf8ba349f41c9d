//! Construction: the first plan, built by round-robin nearest neighbour.

use vstd::prelude::*;
use crate::costs::CostTable;
use crate::solution::{
    Solution, routes_wf, visits, total_visits, each_once, lemma_each_once_len, lemma_visits_len,
    lemma_visits_update, lemma_visits_empty,
};

verus! {

broadcast use vstd::multiset::group_multiset_axioms;

/// Why no plan can be made.
#[derive(Debug, Clone, Copy, PartialEq, Eq, Structural)]
pub enum PlanError {
    /// There are customers to serve and no vehicle to serve them.
    NoVehicles,
}

/// Step `(k1, v1)`, the `k1`-th pick of vehicle `v1`, comes before step
/// `(k2, v2)`: the vehicles pick in turn, round after round.
pub open spec fn step_before(k1: int, v1: int, k2: int, v2: int) -> bool {
    k1 < k2 || (k1 == k2 && v1 < v2)
}

/// Customer `c` was picked at a step before `(k, v)`.
pub open spec fn placed_before(routes: Seq<Seq<usize>>, k: int, v: int, c: usize) -> bool {
    exists|k2: int, v2: int|
        0 <= v2 < routes.len() && 0 <= k2 < routes[v2].len() && step_before(k2, v2, k, v)
            && #[trigger] routes[v2][k2] == c
}

/// The cost of reaching customer `c` from where vehicle `v` stands before its
/// `k`-th pick: its own position, or the destination of its previous customer.
pub open spec fn cursor_cost(t: CostTable, routes: Seq<Seq<usize>>, k: int, v: int, c: int) -> int {
    if k == 0 {
        t.pickup_cost(v, c)
    } else {
        t.link_cost(routes[v][k - 1] as int, c)
    }
}

/// Every pick is a customer nearest to the vehicle's cursor among those not
/// picked yet; of equally near ones, the lowest index.
pub open spec fn nearest_first(t: CostTable, routes: Seq<Seq<usize>>) -> bool {
    forall|v: int, k: int, c: usize|
        0 <= v < routes.len() && 0 <= k < routes[v].len() && (c as nat) < t.customers()
            && !placed_before(routes, k, v, c) ==> {
            let picked = routes[v][k];
            &&& cursor_cost(t, routes, k, v, picked as int) <= #[trigger] cursor_cost(
                t,
                routes,
                k,
                v,
                c as int,
            )
            &&& cursor_cost(t, routes, k, v, picked as int) == cursor_cost(t, routes, k, v, c as int)
                ==> picked <= c
        }
}

/// Vehicle `v` made `m / n` picks, and one more if it is among the first
/// `m % n`.
pub open spec fn round_robin_shape(routes: Seq<Seq<usize>>, m: nat) -> bool {
    forall|v: int|
        0 <= v < routes.len() ==> #[trigger] routes[v].len() == m / routes.len() + if v < m
            % routes.len() {
            1nat
        } else {
            0nat
        }
}

/// Customer `c` stands somewhere in the routes.
spec fn placed(routes: Seq<Seq<usize>>, c: usize) -> bool {
    exists|k: int, v: int| 0 <= v < routes.len() && 0 <= k < routes[v].len() && #[trigger] routes[v][k] == c
}

/// `routes` is the plan that construction builds from `t`: every customer
/// once, round-robin, nearest first.
pub open spec fn is_initial_plan(t: CostTable, routes: Seq<Seq<usize>>) -> bool {
    &&& routes_wf(routes, t.vehicles(), t.customers())
    &&& visits(routes) == each_once(t.customers())
    &&& total_visits(routes) == t.customers()
    &&& t.vehicles() > 0 ==> round_robin_shape(routes, t.customers())
    &&& nearest_first(t, routes)
}

/// Builds the first plan: the vehicles pick in turn, each the nearest
/// customer not yet picked from where its route currently ends, until no
/// customer is left.
pub fn construct_initial_solution(costs: &CostTable) -> (r: Result<Solution, PlanError>)
    requires
        costs.wf(),
    ensures
        r is Err <==> costs.vehicles() == 0 && costs.customers() > 0,
        r matches Ok(s) ==> is_initial_plan(*costs, s@),
{
    let n = costs.pickup.len();
    let m = costs.ride.len();
    let ghost mm = m as nat;
    if n == 0 {
        if m > 0 {
            return Err(PlanError::NoVehicles);
        }
    }
    let mut routes: Vec<Vec<usize>> = Vec::new();
    let mut w: usize = 0;
    while w < n
        invariant
            w <= n,
            routes@.len() == w,
            forall|x: int| 0 <= x < w ==> (#[trigger] routes@[x])@.len() == 0,
        decreases n - w,
    {
        routes.push(Vec::new());
        w += 1;
    }
    let mut pool: Vec<usize> = Vec::new();
    let mut c: usize = 0;
    proof {
        pool@.to_multiset_ensures();
        vstd::multiset::lemma_multiset_empty_len(pool@.to_multiset());
    }
    while c < m
        invariant
            c <= m,
            pool@.len() == c,
            forall|i: int| 0 <= i < c ==> #[trigger] pool@[i] == i,
            pool@.to_multiset() == each_once(c as nat),
        decreases m - c,
    {
        proof {
            pool@.to_multiset_ensures();
        }
        pool.push(c);
        c += 1;
    }
    let mut s = Solution { route: routes };
    proof {
        lemma_visits_empty(s@);
        assert forall|x: int, p: int|
            0 <= x < s@.len() && 0 <= p < s@[x].len() implies (#[trigger] s@[x][p] as nat) < mm by {
        }
        assert forall|cc: usize| (cc as nat) < mm implies pool@.contains(cc) <==> !placed(s@, cc) by {
            if pool@.contains(cc) {
            } else {
                assert(pool@[cc as int] == cc);
            }
        }
    }
    if n == 0 {
        return Ok(s);
    }
    let mut round: usize = 0;
    let mut v: usize = 0;
    while pool.len() > 0
        invariant
            n == costs.vehicles(),
            m == costs.customers(),
            mm == m,
            n > 0,
            costs.wf(),
            v < n,
            round * n + v + pool@.len() == m,
            routes_wf(s@, n as nat, mm),
            forall|x: int| 0 <= x < n ==> #[trigger] s@[x].len() == round + if x < v { 1nat } else { 0nat },
            forall|i: int, j: int| 0 <= i < j < pool@.len() ==> pool@[i] < pool@[j],
            forall|i: int| 0 <= i < pool@.len() ==> (#[trigger] pool@[i] as nat) < mm,
            forall|cc: usize| (cc as nat) < mm ==> (pool@.contains(cc) <==> !#[trigger] placed(s@, cc)),
            visits(s@).add(pool@.to_multiset()) == each_once(mm),
            nearest_first(*costs, s@),
        decreases pool@.len(),
    {
        let ghost before = s@;
        // The scan for the nearest customer left in the pool.
        let mut best: usize = 0;
        let first = pool[0];
        assert(s@[v as int].len() == round);
        assert(s.route@[v as int]@ == s@[v as int]);
        let mut best_cost: u32 = if round == 0 {
            costs.pickup[v][first]
        } else {
            costs.link[s.route[v][round - 1]][first]
        };
        let mut i: usize = 1;
        while i < pool.len()
            invariant
                n == costs.vehicles(),
                m == costs.customers(),
                costs.wf(),
                v < n,
                routes_wf(s@, n as nat, mm),
                s@ == before,
                mm == m,
                s@[v as int].len() == round,
                forall|x: int| 0 <= x < pool@.len() ==> (#[trigger] pool@[x] as nat) < mm,
                1 <= i <= pool@.len(),
                best < i,
                best_cost == cursor_cost(*costs, s@, round as int, v as int, pool@[best as int] as int),
                forall|x: int| 0 <= x < i ==> best_cost <= #[trigger] cursor_cost(*costs, s@, round as int, v as int, pool@[x] as int),
                forall|x: int| 0 <= x < best ==> best_cost < #[trigger] cursor_cost(*costs, s@, round as int, v as int, pool@[x] as int),
            decreases pool@.len() - i,
        {
            let cand = pool[i];
            assert(s.route@[v as int]@ == s@[v as int]);
            let cost = if round == 0 {
                costs.pickup[v][cand]
            } else {
                costs.link[s.route[v][round - 1]][cand]
            };
            if cost < best_cost {
                best = i;
                best_cost = cost;
            }
            i += 1;
        }
        let ghost old_pool = pool@;
        let picked = pool.remove(best);
        let ghost new_route = before[v as int].push(picked);
        s.route[v].push(picked);
        assert(s@ =~= before.update(v as int, new_route));
        proof {
            lemma_visits_update(before, v as int, new_route);
            before[v as int].to_multiset_ensures();
            old_pool.to_multiset_ensures();
            assert forall|u: usize| #[trigger] visits(s@).add(pool@.to_multiset()).count(u)
                == each_once(mm).count(u) by {
                assert(visits(s@).add(before[v as int].to_multiset()).count(u) == visits(before).add(
                    new_route.to_multiset(),
                ).count(u));
                assert(visits(before).add(old_pool.to_multiset()).count(u) == each_once(mm).count(u));
            }
            assert(visits(s@).add(pool@.to_multiset()) =~= each_once(mm));
            // entries stay below m
            assert forall|x: int, p: int|
                0 <= x < s@.len() && 0 <= p < s@[x].len() implies (#[trigger] s@[x][p] as nat) < mm by {
                if x == v && p == round {
                    assert(s@[x][p] == old_pool[best as int]);
                } else {
                    assert(s@[x][p] == before[x][p]);
                }
            }
            // the pool still holds exactly the customers not placed
            assert forall|cc: usize| (cc as nat) < mm implies (pool@.contains(cc) <==> !#[trigger] placed(s@, cc)) by {
                if pool@.contains(cc) {
                    let j = choose|j: int| 0 <= j < pool@.len() && pool@[j] == cc;
                    if j < best {
                        assert(old_pool[j] == cc);
                    } else {
                        assert(old_pool[j + 1] == cc);
                    }
                    assert(old_pool.contains(cc));
                    if placed(s@, cc) {
                        let (k, x) = choose|k: int, x: int| 0 <= x < s@.len() && 0 <= k < s@[x].len() && #[trigger] s@[x][k] == cc;
                        if x == v && k == round {
                            assert(cc == old_pool[best as int]);
                            if j < best {
                                assert(old_pool[j] < old_pool[best as int]);
                            } else {
                                assert(old_pool[best as int] < old_pool[j + 1]);
                            }
                        } else {
                            if x == v {
                                assert(s@[x][k] == new_route[k]);
                            }
                            assert(before[x][k] == cc);
                            assert(placed(before, cc));
                        }
                    }
                } else {
                    if cc == picked {
                        assert(s@[v as int][round as int] == cc);
                    } else if old_pool.contains(cc) {
                        let j = choose|j: int| 0 <= j < old_pool.len() && old_pool[j] == cc;
                        assert(j != best);
                        if j < best {
                            assert(pool@[j] == cc);
                        } else {
                            assert(pool@[j - 1] == cc);
                        }
                    } else {
                        assert(placed(before, cc));
                        let (k, x) = choose|k: int, x: int| 0 <= x < before.len() && 0 <= k < before[x].len() && #[trigger] before[x][k] == cc;
                        if x == v {
                            assert(s@[x][k] == new_route[k]);
                        }
                        assert(s@[x][k] == cc);
                    }
                }
            }
        }
        proof {
            assert forall|x: int, k: int, cc: usize|
                0 <= x < s@.len() && 0 <= k < s@[x].len() && (cc as nat) < costs.customers()
                    && !placed_before(s@, k, x, cc) implies {
                let picked2 = s@[x][k];
                &&& cursor_cost(*costs, s@, k, x, picked2 as int) <= #[trigger] cursor_cost(
                    *costs,
                    s@,
                    k,
                    x,
                    cc as int,
                )
                &&& cursor_cost(*costs, s@, k, x, picked2 as int) == cursor_cost(
                    *costs,
                    s@,
                    k,
                    x,
                    cc as int,
                ) ==> picked2 <= cc
            } by {
                if k > 0 {
                    if x == v {
                        assert(s@[x][k - 1] == new_route[k - 1]);
                    }
                    assert(s@[x][k - 1] == before[x][k - 1]);
                }
                assert(cursor_cost(*costs, s@, k, x, cc as int) == cursor_cost(*costs, before, k, x, cc as int));
                assert(cursor_cost(*costs, s@, k, x, s@[x][k] as int) == cursor_cost(*costs, before, k, x, s@[x][k] as int));
                if x == v && k == round {
                    if placed(before, cc) {
                        let (k2, x2) = choose|k2: int, x2: int| 0 <= x2 < before.len() && 0 <= k2 < before[x2].len() && #[trigger] before[x2][k2] == cc;
                        assert(step_before(k2, x2, round as int, v as int));
                        if x2 == v {
                            assert(s@[x2][k2] == new_route[k2]);
                        }
                        assert(s@[x2][k2] == cc);
                        assert(placed_before(s@, k, x, cc));
                    }
                    assert(old_pool.contains(cc));
                    let y = choose|y: int| 0 <= y < old_pool.len() && old_pool[y] == cc;
                    assert(s@[x][k] == old_pool[best as int]);
                    assert(best_cost <= cursor_cost(*costs, before, round as int, v as int, old_pool[y] as int));
                    if y < best {
                        assert(best_cost < cursor_cost(*costs, before, round as int, v as int, old_pool[y] as int));
                    } else if y > best {
                        assert(old_pool[best as int] < old_pool[y]);
                    }
                } else {
                    if x == v {
                        assert(s@[x][k] == new_route[k]);
                    }
                    assert(s@[x][k] == before[x][k]);
                    if placed_before(before, k, x, cc) {
                        let (k2, x2) = choose|k2: int, x2: int|
                            0 <= x2 < before.len() && 0 <= k2 < before[x2].len() && step_before(k2, x2, k, x)
                                && #[trigger] before[x2][k2] == cc;
                        if x2 == v {
                            assert(s@[x2][k2] == new_route[k2]);
                        }
                        assert(s@[x2][k2] == cc);
                        assert(placed_before(s@, k, x, cc));
                    }
                    assert(cursor_cost(*costs, before, k, x, before[x][k] as int) <= cursor_cost(*costs, before, k, x, cc as int));
                }
            }
        }
        v += 1;
        if v == n {
            proof {
                assert((round as int + 1) * n as int == round as int * n as int + n as int) by (nonlinear_arith);
                assert(round as int + 1 <= (round as int + 1) * n as int) by (nonlinear_arith)
                    requires n >= 1, round >= 0;
            }
            v = 0;
            round += 1;
        }
    }
    proof {
        lemma_visits_len(s@);
        lemma_each_once_len(mm);
        pool@.to_multiset_ensures();
        vstd::multiset::lemma_multiset_empty_len(pool@.to_multiset());
        assert(visits(s@) =~= visits(s@).add(pool@.to_multiset()));
        vstd::arithmetic::div_mod::lemma_fundamental_div_mod_converse(
            m as int,
            n as int,
            round as int,
            v as int,
        );
    }
    Ok(s)
}

} // verus!
