//! The stateless dispatcher: each waiting customer, in order, gets the
//! nearest vehicle that has no customer yet.

use vstd::prelude::*;
use crate::models::{Coord, Scenario, UpdateScenario, UpdateVehicle};

verus! {

/// The square of the straight-line distance; it orders vehicles as the
/// distance does.
pub open spec fn sq_dist(a: Coord, b: Coord) -> int {
    (a.x - b.x) * (a.x - b.x) + (a.y - b.y) * (a.y - b.y)
}

pub open spec fn holds_id(o: Option<String>, id: Seq<char>) -> bool {
    match o {
        Some(s) => s@ == id,
        None => false,
    }
}

/// Some vehicle of the scenario is already serving customer `c`.
pub open spec fn is_riding(s: Scenario, c: int) -> bool {
    exists|v: int|
        0 <= v < s.vehicles@.len() && holds_id(#[trigger] s.vehicles@[v].customer_id, s.customers@[c].id@)
}

/// Customer `c` waits and no vehicle serves it yet.
pub open spec fn wants_vehicle(s: Scenario, c: int) -> bool {
    s.customers@[c].awaiting_service && !is_riding(s, c)
}

/// Vehicle `v` has no customer and was not given one in `taken`.
pub open spec fn is_free(s: Scenario, taken: Seq<int>, v: int) -> bool {
    0 <= v < s.vehicles@.len() && s.vehicles@[v].customer_id is None && !taken.contains(v)
}

/// Vehicle `v` is the free vehicle nearest to customer `c`; of equally near
/// ones, the first.
pub open spec fn is_nearest_free(s: Scenario, taken: Seq<int>, c: int, v: int) -> bool {
    &&& is_free(s, taken, v)
    &&& forall|u: int|
        is_free(s, taken, u) ==> sq_dist(s.vehicles@[v].position, s.customers@[c].origin) < sq_dist(
            #[trigger] s.vehicles@[u].position,
            s.customers@[c].origin,
        ) || (sq_dist(s.vehicles@[v].position, s.customers@[c].origin) == sq_dist(
            s.vehicles@[u].position,
            s.customers@[c].origin,
        ) && v <= u)
}

pub open spec fn taken_of(plan: Seq<(int, int)>) -> Seq<int> {
    plan.map_values(|a: (int, int)| a.0)
}

/// The pairs (vehicle, customer) made from the first `k` customers.
pub open spec fn nearest_plan(s: Scenario, k: nat) -> Seq<(int, int)>
    decreases k,
{
    if k == 0 {
        Seq::empty()
    } else {
        let p = nearest_plan(s, (k - 1) as nat);
        let c = k - 1;
        if wants_vehicle(s, c) && exists|v: int| is_free(s, taken_of(p), v) {
            p.push((choose|v: int| is_nearest_free(s, taken_of(p), c, v), c))
        } else {
            p
        }
    }
}

/// The number of vehicles with no customer.
pub open spec fn available_count(s: Scenario, n: nat) -> nat
    decreases n,
{
    if n == 0 {
        0
    } else {
        available_count(s, (n - 1) as nat) + if s.vehicles@[n - 1].customer_id is None {
            1nat
        } else {
            0nat
        }
    }
}

/// The number of customers awaiting service.
pub open spec fn awaiting_count(s: Scenario, m: nat) -> nat
    decreases m,
{
    if m == 0 {
        0
    } else {
        awaiting_count(s, (m - 1) as nat) + if s.customers@[m - 1].awaiting_service {
            1nat
        } else {
            0nat
        }
    }
}

pub open spec fn unique_customer_ids(s: Scenario) -> bool {
    forall|i: int, j: int|
        0 <= i < j < s.customers@.len() ==> s.customers@[i].id@ != s.customers@[j].id@
}

proof fn lemma_nearest_unique(s: Scenario, taken: Seq<int>, c: int, v: int)
    requires
        is_nearest_free(s, taken, c, v),
    ensures
        (choose|u: int| is_nearest_free(s, taken, c, u)) == v,
{
    let u = choose|u: int| is_nearest_free(s, taken, c, u);
    assert(is_nearest_free(s, taken, c, u));
    let o = s.customers@[c].origin;
    let du = sq_dist(s.vehicles@[u].position, o);
    let dv = sq_dist(s.vehicles@[v].position, o);
    assert(dv < du || (dv == du && v <= u));
    assert(du < dv || (du == dv && u <= v));
}

spec fn nearer_or_first(s: Scenario, c: int, v: int, u: int) -> bool {
    sq_dist(s.vehicles@[v].position, s.customers@[c].origin) < sq_dist(
        s.vehicles@[u].position,
        s.customers@[c].origin,
    ) || (sq_dist(s.vehicles@[v].position, s.customers@[c].origin) == sq_dist(
        s.vehicles@[u].position,
        s.customers@[c].origin,
    ) && v <= u)
}

proof fn lemma_nearest_below(s: Scenario, taken: Seq<int>, c: int, b: int)
    requires
        0 <= b <= s.vehicles@.len(),
        exists|u: int| u < b && is_free(s, taken, u),
    ensures
        exists|v: int|
            v < b && is_free(s, taken, v) && forall|u: int|
                u < b && is_free(s, taken, u) ==> #[trigger] nearer_or_first(s, c, v, u),
    decreases b,
{
    if exists|u: int| u < b - 1 && is_free(s, taken, u) {
        lemma_nearest_below(s, taken, c, b - 1);
        let v0 = choose|v: int|
            v < b - 1 && is_free(s, taken, v) && forall|u: int|
                u < b - 1 && is_free(s, taken, u) ==> #[trigger] nearer_or_first(s, c, v, u);
        if is_free(s, taken, b - 1) && !nearer_or_first(s, c, v0, b - 1) {
            assert forall|u: int| u < b && is_free(s, taken, u) implies #[trigger] nearer_or_first(
                s,
                c,
                b - 1,
                u,
            ) by {
                if u < b - 1 {
                    assert(nearer_or_first(s, c, v0, u));
                }
            }
        } else {
            assert forall|u: int| u < b && is_free(s, taken, u) implies #[trigger] nearer_or_first(
                s,
                c,
                v0,
                u,
            ) by {
                if u < b - 1 {
                } else {
                    assert(u == b - 1);
                }
            }
        }
    } else {
        assert forall|u: int| u < b && is_free(s, taken, u) implies #[trigger] nearer_or_first(
            s,
            c,
            b - 1,
            u,
        ) by {
            assert(u == b - 1);
        }
        let w = choose|u: int| u < b && is_free(s, taken, u);
        assert(w == b - 1);
    }
}

/// A nearest free vehicle exists whenever some vehicle is free.
proof fn lemma_nearest_exists(s: Scenario, taken: Seq<int>, c: int, w: int)
    requires
        is_free(s, taken, w),
    ensures
        is_nearest_free(s, taken, c, choose|v: int| is_nearest_free(s, taken, c, v)),
{
    let n = s.vehicles@.len() as int;
    lemma_nearest_below(s, taken, c, n);
    let v = choose|v: int|
        v < n && is_free(s, taken, v) && forall|u: int|
            u < n && is_free(s, taken, u) ==> #[trigger] nearer_or_first(s, c, v, u);
    assert forall|u: int| is_free(s, taken, u) implies sq_dist(s.vehicles@[v].position, s.customers@[c].origin) < sq_dist(
            #[trigger] s.vehicles@[u].position,
            s.customers@[c].origin,
        ) || (sq_dist(s.vehicles@[v].position, s.customers@[c].origin) == sq_dist(
            s.vehicles@[u].position,
            s.customers@[c].origin,
        ) && v <= u) by {
        assert(nearer_or_first(s, c, v, u));
    }
    assert(is_nearest_free(s, taken, c, v));
}

/// Once no vehicle is free, the later customers change nothing.
proof fn lemma_plan_stalls(s: Scenario, c: nat, k: nat)
    requires
        c <= k,
        forall|v: int| !is_free(s, taken_of(nearest_plan(s, c)), v),
    ensures
        nearest_plan(s, k) == nearest_plan(s, c),
    decreases k - c,
{
    if k > c {
        lemma_plan_stalls(s, c, (k - 1) as nat);
    }
}

/// The plan's pairs are made in customer order, each with a vehicle that had
/// no customer and was not taken before.
proof fn lemma_plan_shape(s: Scenario, k: nat)
    requires
        k <= s.customers@.len(),
    ensures
        forall|i: int, j: int|
            0 <= i < j < nearest_plan(s, k).len() ==> nearest_plan(s, k)[i].1 < nearest_plan(s, k)[j].1
                && nearest_plan(s, k)[i].0 != nearest_plan(s, k)[j].0,
        forall|i: int|
            0 <= i < nearest_plan(s, k).len() ==> 0 <= #[trigger] nearest_plan(s, k)[i].1 < k
                && 0 <= nearest_plan(s, k)[i].0 < s.vehicles@.len()
                && s.vehicles@[nearest_plan(s, k)[i].0].customer_id is None
                && s.customers@[nearest_plan(s, k)[i].1].awaiting_service,
        nearest_plan(s, k).len() <= awaiting_count(s, k),
    decreases k,
{
    if k > 0 {
        lemma_plan_shape(s, (k - 1) as nat);
        let p = nearest_plan(s, (k - 1) as nat);
        let c = k - 1;
        if wants_vehicle(s, c) && exists|v: int| is_free(s, taken_of(p), v) {
            let v = choose|v: int| is_nearest_free(s, taken_of(p), c, v);
            let w = choose|w: int| is_free(s, taken_of(p), w);
            lemma_nearest_exists(s, taken_of(p), c, w);
            assert(is_nearest_free(s, taken_of(p), c, v));
            assert forall|i: int| 0 <= i < p.len() implies p[i].0 != v by {
                assert(taken_of(p)[i] == p[i].0);
            }
        }
    }
}

proof fn lemma_available_bound(s: Scenario, t: Set<int>, n: nat)
    requires
        n <= s.vehicles@.len(),
        t.finite(),
        forall|x: int| t.contains(x) ==> 0 <= x < n && s.vehicles@[x].customer_id is None,
    ensures
        t.len() <= available_count(s, n),
    decreases n,
{
    if n == 0 {
        assert(t =~= Set::<int>::empty());
    } else {
        let t2 = t.remove(n - 1);
        lemma_available_bound(s, t2, (n - 1) as nat);
    }
}

/// The dispatcher never gives one customer to two vehicles, and pairs no
/// more customers than there are vehicles without a customer, nor more than
/// there are customers awaiting service.
pub proof fn lemma_nearest_plan_bounds(s: Scenario)
    ensures
        ({
            let p = nearest_plan(s, s.customers@.len());
            &&& forall|i: int, j: int| 0 <= i < j < p.len() ==> p[i].1 != p[j].1
            &&& unique_customer_ids(s) ==> forall|i: int, j: int|
                0 <= i < j < p.len() ==> s.customers@[p[i].1].id@ != s.customers@[p[j].1].id@
            &&& p.len() <= available_count(s, s.vehicles@.len())
            &&& p.len() <= awaiting_count(s, s.customers@.len())
        }),
{
    let m = s.customers@.len();
    let p = nearest_plan(s, m);
    lemma_plan_shape(s, m);
    let vs = taken_of(p);
    assert(vs.no_duplicates()) by {
        assert forall|i: int, j: int| 0 <= i < vs.len() && 0 <= j < vs.len() && i != j implies vs[i]
            != vs[j] by {
            if i < j {
                assert(p[i].0 != p[j].0);
            } else {
                assert(p[j].0 != p[i].0);
            }
        }
    }
    vs.unique_seq_to_set();
    assert forall|x: int| vs.to_set().contains(x) implies 0 <= x < s.vehicles@.len()
        && s.vehicles@[x].customer_id is None by {
        let i = choose|i: int| 0 <= i < vs.len() && vs[i] == x;
        assert(p[i].0 == x);
    }
    lemma_available_bound(s, vs.to_set(), s.vehicles@.len());
}

/// The squared distance, computed exactly.
fn sq_dist_exact(a: Coord, b: Coord) -> (r: i128)
    ensures
        r == sq_dist(a, b),
{
    let dx: i128 = a.x as i128 - b.x as i128;
    let dy: i128 = a.y as i128 - b.y as i128;
    assert(dx * dx <= 0x1_0000_0000_0000_0000) by (nonlinear_arith)
        requires
            -0x1_0000_0000 <= dx <= 0x1_0000_0000,
    ;
    assert(dy * dy <= 0x1_0000_0000_0000_0000) by (nonlinear_arith)
        requires
            -0x1_0000_0000 <= dy <= 0x1_0000_0000,
    ;
    assert(dx * dx >= 0 && dy * dy >= 0) by (nonlinear_arith);
    dx * dx + dy * dy
}

/// `r` proposes exactly the pairs of `nearest_plan`, by vehicle and customer id.
pub open spec fn is_nearest_update(s: Scenario, r: Seq<UpdateVehicle>) -> bool {
    let p = nearest_plan(s, s.customers@.len());
    &&& r.len() == p.len()
    &&& forall|k: int|
        0 <= k < p.len() ==> (#[trigger] r[k]).id@ == s.vehicles@[p[k].0].id@ && r[k].customer_id@
            == s.customers@[p[k].1].id@
}

/// Pairs each customer awaiting service that no vehicle serves yet, in order,
/// with the nearest vehicle that has no customer (the first of equally near
/// ones), until no such vehicle is left.
#[verifier::loop_isolation(false)]
pub fn update_scenario_first(scenario: &Scenario) -> (r: UpdateScenario)
    ensures
        is_nearest_update(*scenario, r.vehicles@),
        unique_customer_ids(*scenario) ==> forall|i: int, j: int|
            0 <= i < j < r.vehicles@.len() ==> r.vehicles@[i].customer_id@
                != r.vehicles@[j].customer_id@,
        r.vehicles@.len() <= available_count(*scenario, scenario.vehicles@.len()),
        r.vehicles@.len() <= awaiting_count(*scenario, scenario.customers@.len()),
{
    let ghost s = *scenario;
    let n = scenario.vehicles.len();
    let m = scenario.customers.len();
    let mut taken: Vec<bool> = Vec::new();
    let mut i: usize = 0;
    while i < n
        invariant
            i <= n,
            taken@.len() == i,
            forall|v: int| 0 <= v < i ==> !(#[trigger] taken@[v]),
        decreases n - i,
    {
        taken.push(false);
        i += 1;
    }
    let mut out: Vec<UpdateVehicle> = Vec::new();
    let ghost mut plan: Seq<(int, int)> = Seq::empty();
    let mut c: usize = 0;
    while c < m
        invariant
            s == *scenario,
            n == s.vehicles@.len(),
            m == s.customers@.len(),
            c <= m,
            plan == nearest_plan(s, c as nat),
            taken@.len() == n,
            forall|v: int| 0 <= v < n ==> #[trigger] taken@[v] == taken_of(plan).contains(v),
            out@.len() == plan.len(),
            forall|k: int|
                0 <= k < plan.len() ==> (#[trigger] out@[k]).id@ == s.vehicles@[plan[k].0].id@
                    && out@[k].customer_id@ == s.customers@[plan[k].1].id@,
        decreases m - c,
    {
        let cust = &scenario.customers[c];
        let mut wants = cust.awaiting_service;
        if wants {
            let mut v: usize = 0;
            while v < n
                invariant
                    s == *scenario,
                    n == s.vehicles@.len(),
                    c < m == s.customers@.len(),
                    *cust == s.customers@[c as int],
                    v <= n,
                    wants == !exists|u: int|
                        0 <= u < v && holds_id(#[trigger] s.vehicles@[u].customer_id, s.customers@[c as int].id@),
                decreases n - v,
            {
                match &scenario.vehicles[v].customer_id {
                    Some(id) => {
                        if *id == cust.id {
                            wants = false;
                        }
                    },
                    None => {},
                }
                v += 1;
            }
        }
        assert(wants == wants_vehicle(s, c as int));
        if wants {
            let mut found = false;
            let mut best: usize = 0;
            let mut best_d: i128 = 0;
            let mut v: usize = 0;
            while v < n
                invariant
                    s == *scenario,
                    n == s.vehicles@.len(),
                    c < m == s.customers@.len(),
                    *cust == s.customers@[c as int],
                    taken@.len() == n,
                    forall|u: int| 0 <= u < n ==> #[trigger] taken@[u] == taken_of(plan).contains(u),
                    v <= n,
                    found ==> best < v && is_free(s, taken_of(plan), best as int) && best_d == sq_dist(
                        s.vehicles@[best as int].position,
                        s.customers@[c as int].origin,
                    ) && forall|u: int|
                        0 <= u < v && is_free(s, taken_of(plan), u) ==> #[trigger] nearer_or_first(
                            s,
                            c as int,
                            best as int,
                            u,
                        ),
                    !found ==> forall|u: int| 0 <= u < v ==> !#[trigger] is_free(s, taken_of(plan), u),
                decreases n - v,
            {
                let veh = &scenario.vehicles[v];
                if veh.customer_id.is_none() && !taken[v] {
                    let d = sq_dist_exact(veh.position, cust.origin);
                    assert(is_free(s, taken_of(plan), v as int));
                    if !found || d < best_d {
                        proof {
                            assert forall|u: int|
                                0 <= u < v + 1 && is_free(s, taken_of(plan), u) implies #[trigger] nearer_or_first(
                                s,
                                c as int,
                                v as int,
                                u,
                            ) by {
                                if u < v {
                                    assert(found);
                                    assert(nearer_or_first(s, c as int, best as int, u));
                                }
                            }
                        }
                        found = true;
                        best = v;
                        best_d = d;
                    } else {
                        assert(nearer_or_first(s, c as int, best as int, v as int));
                    }
                }
                v += 1;
            }
            if found {
                let ghost p = plan;
                proof {
                    assert forall|u: int| is_free(s, taken_of(p), u) implies sq_dist(
                        s.vehicles@[best as int].position,
                        s.customers@[c as int].origin,
                    ) < sq_dist(#[trigger] s.vehicles@[u].position, s.customers@[c as int].origin) || (
                    sq_dist(s.vehicles@[best as int].position, s.customers@[c as int].origin)
                        == sq_dist(s.vehicles@[u].position, s.customers@[c as int].origin) && best
                        <= u) by {
                        assert(nearer_or_first(s, c as int, best as int, u));
                    }
                    lemma_nearest_unique(s, taken_of(p), c as int, best as int);
                    plan = p.push((best as int, c as int));
                    assert(taken_of(plan) =~= taken_of(p).push(best as int));
                }
                out.push(
                    UpdateVehicle {
                        id: scenario.vehicles[best].id.clone(),
                        customer_id: cust.id.clone(),
                    },
                );
                taken.set(best, true);
                proof {
                    assert forall|u: int| 0 <= u < n implies #[trigger] taken@[u] == taken_of(plan).contains(u) by {
                        if u != best {
                            if taken_of(plan).contains(u) {
                                let i = choose|i: int| 0 <= i < taken_of(plan).len() && taken_of(plan)[i] == u;
                                assert(i < taken_of(p).len());
                                assert(taken_of(p)[i] == u);
                            }
                            if taken_of(p).contains(u) {
                                let i = choose|i: int| 0 <= i < taken_of(p).len() && taken_of(p)[i] == u;
                                assert(taken_of(plan)[i] == u);
                            }
                        } else {
                            assert(taken_of(plan)[taken_of(p).len() as int] == u);
                        }
                    }
                }
            } else {
                proof {
                    lemma_plan_stalls(s, c as nat, m as nat);
                }
                        c = m;
                continue;
            }
        }
        c += 1;
    }
    proof {
        lemma_nearest_plan_bounds(s);
    }
    UpdateScenario { vehicles: out }
}

} // verus!
