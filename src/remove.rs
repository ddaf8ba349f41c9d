//! Destroy: relatedness removal, and taking the removed customers out of the
//! plan.

use vstd::prelude::*;
use crate::costs::CostTable;
use crate::random::draw_below;
use crate::solution::{
    Solution, routes_wf, visits, total_visits, each_once, lemma_each_once_count, lemma_each_once_len,
    lemma_visits_len,
};

verus! {

broadcast use vstd::multiset::group_multiset_axioms;

/// The least noise factor, in thousandths.
pub const NOISE_MIN: u64 = 950;

/// The greatest noise factor, in thousandths.
pub const NOISE_MAX: u64 = 1050;

/// How far customer `c` is from the anchor: the difference of their ride
/// costs, scaled by the noise factor drawn for `c` (in thousandths).
pub open spec fn relatedness_key(t: CostTable, anchor: int, noise: Seq<u64>, c: int) -> int {
    let d = t.ride_cost(c) - t.ride_cost(anchor);
    (if d < 0 { -d } else { d }) * noise[c]
}

/// The number of visits removed in one iteration: a fifth of them, rounded
/// down.
pub fn removal_count(total_visits: usize) -> (q: usize)
    ensures
        q == total_visits / 5,
        q <= total_visits,
{
    total_visits / 5
}

/// The customers, by index, that relatedness removal picks for the anchor
/// customer `anchor` and the noise factors `noise` (one per customer, in
/// thousandths): the `q` least related keys first, or all customers when
/// there are fewer. Every customer is visited exactly once in `solution`, so
/// the customers stand for its visits.
pub fn relatedness_removal(
    costs: &CostTable,
    solution: &Solution,
    q: usize,
    anchor: usize,
    noise: &Vec<u64>,
) -> (r: Vec<usize>)
    requires
        costs.wf(),
        routes_wf(solution@, costs.vehicles(), costs.customers()),
        visits(solution@) == each_once(costs.customers()),
        anchor < costs.customers(),
        noise@.len() == costs.customers(),
        forall|c: int| 0 <= c < noise@.len() ==> NOISE_MIN <= #[trigger] noise@[c] <= NOISE_MAX,
    ensures
        r@.len() == if q < total_visits(solution@) { q as nat } else { total_visits(solution@) },
        r@.no_duplicates(),
        forall|i: int| 0 <= i < r@.len() ==> visits(solution@).count(#[trigger] r@[i]) == 1,
        forall|i: int, j: int|
            0 <= i < j < r@.len() ==> relatedness_key(*costs, anchor as int, noise@, r@[i] as int)
                <= relatedness_key(*costs, anchor as int, noise@, r@[j] as int),
        forall|i: int, c: usize|
            #![trigger r@[i], relatedness_key(*costs, anchor as int, noise@, c as int)]
            0 <= i < r@.len() && (c as nat) < costs.customers() && !r@.contains(c) ==> relatedness_key(
                *costs,
                anchor as int,
                noise@,
                r@[i] as int,
            ) <= relatedness_key(*costs, anchor as int, noise@, c as int),
{
    let m = costs.ride.len();
    proof {
        lemma_visits_len(solution@);
        lemma_each_once_len(m as nat);
    }
    let wanted = if q < m {
        q
    } else {
        m
    };
    let base = costs.ride[anchor];
    let mut pool: Vec<usize> = Vec::new();
    let mut c: usize = 0;
    while c < m
        invariant
            c <= m,
            pool@.len() == c,
            forall|i: int| 0 <= i < c ==> #[trigger] pool@[i] == i,
        decreases m - c,
    {
        pool.push(c);
        c += 1;
    }
    let mut out: Vec<usize> = Vec::new();
    assert forall|cc: usize| (cc as nat) < m implies (pool@.contains(cc) <==> !out@.contains(cc)) by {
        assert(pool@[cc as int] == cc);
    }
    while out.len() < wanted
        invariant
            m == costs.customers(),
            costs.wf(),
            anchor < m,
            base == costs.ride@[anchor as int],
            noise@.len() == m,
            forall|x: int| 0 <= x < noise@.len() ==> NOISE_MIN <= #[trigger] noise@[x] <= NOISE_MAX,
            wanted <= m,
            out@.len() + pool@.len() == m,
            out@.len() <= wanted,
            forall|i: int, j: int| 0 <= i < j < pool@.len() ==> pool@[i] < pool@[j],
            forall|i: int| 0 <= i < pool@.len() ==> (#[trigger] pool@[i] as nat) < m,
            forall|i: int| 0 <= i < out@.len() ==> (#[trigger] out@[i] as nat) < m,
            forall|cc: usize| (cc as nat) < m ==> (pool@.contains(cc) <==> !out@.contains(cc)),
            out@.no_duplicates(),
            forall|i: int, j: int| 0 <= i < j < out@.len() ==> relatedness_key(*costs, anchor as int, noise@, out@[i] as int) <= relatedness_key(*costs, anchor as int, noise@, out@[j] as int),
            forall|i: int, x: int|
                #![trigger out@[i], pool@[x]]
                0 <= i < out@.len() && 0 <= x < pool@.len() ==> relatedness_key(*costs, anchor as int, noise@, out@[i] as int) <= relatedness_key(*costs, anchor as int, noise@, 
                    pool@[x] as int,
                ),
        decreases wanted - out@.len(),
    {
        let first = pool[0];
        let mut best: usize = 0;
        let mut best_key: u64 = key_of(costs, base, noise, first);
        let mut i: usize = 1;
        while i < pool.len()
            invariant
                m == costs.customers(),
                costs.wf(),
                base == costs.ride@[anchor as int],
                noise@.len() == m,
                forall|x: int| 0 <= x < noise@.len() ==> NOISE_MIN <= #[trigger] noise@[x] <= NOISE_MAX,
                forall|x: int| 0 <= x < pool@.len() ==> (#[trigger] pool@[x] as nat) < m,
                1 <= i <= pool@.len(),
                best < i,
                best_key == relatedness_key(*costs, anchor as int, noise@, pool@[best as int] as int),
                forall|x: int| 0 <= x < i ==> best_key <= relatedness_key(*costs, anchor as int, noise@, #[trigger] pool@[x] as int),
            decreases pool@.len() - i,
        {
            let k = key_of(costs, base, noise, pool[i]);
            if k < best_key {
                best = i;
                best_key = k;
            }
            i += 1;
        }
        let ghost old_pool = pool@;
        let ghost old_out = out@;
        let picked = pool.remove(best);
        out.push(picked);
        proof {
            assert(old_pool.contains(picked));
            assert(!old_out.contains(picked));
            assert forall|cc: usize| (cc as nat) < m implies (pool@.contains(cc) <==> !out@.contains(cc)) by {
                if pool@.contains(cc) {
                    let j = choose|j: int| 0 <= j < pool@.len() && pool@[j] == cc;
                    if j < best {
                        assert(old_pool[j] == cc);
                        assert(old_pool[j] < old_pool[best as int]);
                    } else {
                        assert(old_pool[j + 1] == cc);
                        assert(old_pool[best as int] < old_pool[j + 1]);
                    }
                    assert(old_pool.contains(cc));
                    assert(!old_out.contains(cc));
                    if out@.contains(cc) {
                        let k = choose|k: int| 0 <= k < out@.len() && out@[k] == cc;
                        if k < old_out.len() {
                            assert(old_out[k] == cc);
                        }
                    }
                } else if cc != picked {
                    if old_pool.contains(cc) {
                        let j = choose|j: int| 0 <= j < old_pool.len() && old_pool[j] == cc;
                        if j < best {
                            assert(pool@[j] == cc);
                        } else {
                            assert(j != best);
                            assert(pool@[j - 1] == cc);
                        }
                    }
                    let k = choose|k: int| 0 <= k < old_out.len() && old_out[k] == cc;
                    assert(out@[k] == cc);
                } else {
                    assert(out@[old_out.len() as int] == cc);
                }
            }
            assert forall|a: int, b: int| 0 <= a < out@.len() && 0 <= b < out@.len() && a != b implies out@[a] != out@[b] by {
                if a < old_out.len() && b < old_out.len() {
                    assert(old_out[a] != old_out[b]);
                } else if a < old_out.len() {
                    assert(old_out.contains(out@[a]));
                } else {
                    assert(old_out.contains(out@[b]));
                }
            }
            assert forall|a: int, x: int|
                #![trigger out@[a], pool@[x]]
                0 <= a < out@.len() && 0 <= x < pool@.len() implies relatedness_key(*costs, anchor as int, noise@, out@[a] as int) <= relatedness_key(*costs, anchor as int, noise@, 
                    pool@[x] as int,
                ) by {
                if x < best {
                    assert(pool@[x] == old_pool[x]);
                } else {
                    assert(pool@[x] == old_pool[x + 1]);
                }
                if a < old_out.len() {
                    assert(out@[a] == old_out[a]);
                }
            }
            assert forall|a: int, b: int| 0 <= a < b < out@.len() implies relatedness_key(*costs, anchor as int, noise@, out@[a] as int) <= relatedness_key(*costs, anchor as int, noise@, out@[b] as int) by {
                if b < old_out.len() {
                    assert(old_out[a] == out@[a]);
                } else {
                    assert(out@[b] == old_pool[best as int]);
                    assert(old_out[a] == out@[a]);
                }
            }
        }
    }
    proof {
        assert forall|i: int| 0 <= i < out@.len() implies visits(solution@).count(#[trigger] out@[i]) == 1 by {
            lemma_each_once_count(m as nat, out@[i]);
        }
        assert forall|i: int, cc: usize|
            #![trigger out@[i], relatedness_key(*costs, anchor as int, noise@, cc as int)]
            0 <= i < out@.len() && (cc as nat) < m && !out@.contains(cc) implies relatedness_key(*costs, anchor as int, noise@, out@[i] as int) <= relatedness_key(*costs, anchor as int, noise@, cc as int) by {
            assert(pool@.contains(cc));
            let x = choose|x: int| 0 <= x < pool@.len() && pool@[x] == cc;
            assert(relatedness_key(*costs, anchor as int, noise@, out@[i] as int) <= relatedness_key(*costs, anchor as int, noise@, pool@[x] as int));
        }
    }
    out
}

/// The relatedness key of customer `c`, computed exactly.
fn key_of(costs: &CostTable, base: u32, noise: &Vec<u64>, c: usize) -> (k: u64)
    requires
        costs.wf(),
        c < costs.customers(),
        noise@.len() == costs.customers(),
        forall|x: int| 0 <= x < noise@.len() ==> NOISE_MIN <= #[trigger] noise@[x] <= NOISE_MAX,
    ensures
        k == ({
            let d = costs.ride_cost(c as int) - base;
            (if d < 0 { -d } else { d }) * noise@[c as int]
        }),
{
    let own = costs.ride[c];
    let d: u64 = if own >= base {
        (own - base) as u64
    } else {
        (base - own) as u64
    };
    let f = noise[c];
    assert(d * f <= 0xffff_ffff * 1050) by (nonlinear_arith)
        requires
            d <= 0xffff_ffff,
            f <= 1050,
    ;
    d * f
}

/// Relatedness removal with a random anchor and random noise: picks
/// `min(q, total visits)` distinct visited customers.
pub fn shawn_heuristic(
    costs: &CostTable,
    solution: &Solution,
    q: usize,
    rng: &mut rand::rngs::StdRng,
) -> (r: Vec<usize>)
    requires
        costs.wf(),
        routes_wf(solution@, costs.vehicles(), costs.customers()),
        visits(solution@) == each_once(costs.customers()),
    ensures
        r@.len() == if q < total_visits(solution@) { q as nat } else { total_visits(solution@) },
        r@.len() <= q,
        r@.len() <= total_visits(solution@),
        r@.no_duplicates(),
        forall|i: int| 0 <= i < r@.len() ==> visits(solution@).count(#[trigger] r@[i]) == 1,
{
    let m = costs.ride.len();
    proof {
        lemma_visits_len(solution@);
        lemma_each_once_len(m as nat);
    }
    if m == 0 {
        return Vec::new();
    }
    let anchor = draw_below(rng, m as u64) as usize;
    let mut noise: Vec<u64> = Vec::new();
    let mut c: usize = 0;
    while c < m
        invariant
            c <= m,
            noise@.len() == c,
            forall|x: int| 0 <= x < c ==> NOISE_MIN <= #[trigger] noise@[x] <= NOISE_MAX,
        decreases m - c,
    {
        let f = NOISE_MIN + draw_below(rng, NOISE_MAX - NOISE_MIN + 1);
        noise.push(f);
        c += 1;
    }
    relatedness_removal(costs, solution, q, anchor, &noise)
}

/// Route `s` with the customers of `ids` taken out, the rest in order.
pub open spec fn without(s: Seq<usize>, ids: Seq<usize>) -> Seq<usize>
    decreases s.len(),
{
    if s.len() == 0 {
        s
    } else {
        let w = without(s.drop_last(), ids);
        if ids.contains(s.last()) {
            w
        } else {
            w.push(s.last())
        }
    }
}

proof fn lemma_without_count(s: Seq<usize>, ids: Seq<usize>, c: usize)
    ensures
        without(s, ids).to_multiset().count(c) == if ids.contains(c) {
            0
        } else {
            s.to_multiset().count(c)
        },
    decreases s.len(),
{
    if s.len() > 0 {
        lemma_without_count(s.drop_last(), ids, c);
        assert(s.drop_last().push(s.last()) =~= s);
        s.drop_last().to_multiset_ensures();
        without(s.drop_last(), ids).to_multiset_ensures();
        assert(s.to_multiset() == s.drop_last().push(s.last()).to_multiset());
        assert(without(s.drop_last(), ids).push(s.last()).to_multiset() == without(
            s.drop_last(),
            ids,
        ).to_multiset().insert(s.last()));
        if ids.contains(s.last()) {
            assert(without(s, ids) == without(s.drop_last(), ids));
        } else {
            assert(without(s, ids) == without(s.drop_last(), ids).push(s.last()));
        }
    } else {
        s.to_multiset_ensures();
        vstd::multiset::lemma_multiset_empty_len(s.to_multiset());
    }
}

proof fn lemma_without_visits(routes: Seq<Seq<usize>>, ids: Seq<usize>, c: usize)
    ensures
        visits(routes.map_values(|s: Seq<usize>| without(s, ids))).count(c) == if ids.contains(c) {
            0
        } else {
            visits(routes).count(c)
        },
        total_visits(routes.map_values(|s: Seq<usize>| without(s, ids))) <= total_visits(routes),
    decreases routes.len(),
{
    if routes.len() > 0 {
        let mapped = routes.map_values(|s: Seq<usize>| without(s, ids));
        assert(mapped.drop_last() =~= routes.drop_last().map_values(|s: Seq<usize>| without(s, ids)));
        lemma_without_visits(routes.drop_last(), ids, c);
        lemma_without_count(routes.last(), ids, c);
        lemma_without_len(routes.last(), ids);
    }
}

proof fn lemma_without_len(s: Seq<usize>, ids: Seq<usize>)
    ensures
        without(s, ids).len() <= s.len(),
    decreases s.len(),
{
    if s.len() > 0 {
        lemma_without_len(s.drop_last(), ids);
    }
}

proof fn lemma_without_below(s: Seq<usize>, ids: Seq<usize>, m: nat)
    requires
        forall|i: int| 0 <= i < s.len() ==> (#[trigger] s[i] as nat) < m,
    ensures
        forall|i: int| 0 <= i < without(s, ids).len() ==> (#[trigger] without(s, ids)[i] as nat) < m,
    decreases s.len(),
{
    if s.len() > 0 {
        assert forall|i: int| 0 <= i < s.drop_last().len() implies (#[trigger] s.drop_last()[i] as nat) < m by {
            assert(s.drop_last()[i] == s[i]);
        }
        lemma_without_below(s.drop_last(), ids, m);
        let w = without(s.drop_last(), ids);
        assert forall|i: int| 0 <= i < without(s, ids).len() implies (#[trigger] without(s, ids)[i] as nat) < m by {
            if i < w.len() {
                assert(without(s, ids)[i] == w[i]);
            } else {
                assert(without(s, ids)[i] == s[s.len() - 1]);
            }
        }
    }
}

/// Takes the customers of `ids` out of their routes; the other visits keep
/// their order.
pub fn take_out(solution: &mut Solution, ids: &Vec<usize>, m: usize)
    requires
        visits(old(solution)@) == each_once(m as nat),
        routes_wf(old(solution)@, old(solution)@.len(), m as nat),
        ids@.no_duplicates(),
        forall|i: int| 0 <= i < ids@.len() ==> (#[trigger] ids@[i] as nat) < m,
    ensures
        final(solution)@ == old(solution)@.map_values(|s: Seq<usize>| without(s, ids@)),
        routes_wf(final(solution)@, old(solution)@.len(), m as nat),
        visits(final(solution)@).add(ids@.to_multiset()) =~= each_once(m as nat),
{
    let mut marked: Vec<bool> = Vec::new();
    let mut c: usize = 0;
    while c < m
        invariant
            c <= m,
            marked@.len() == c,
            forall|x: int| 0 <= x < c ==> !(#[trigger] marked@[x]),
        decreases m - c,
    {
        marked.push(false);
        c += 1;
    }
    let mut i: usize = 0;
    while i < ids.len()
        invariant
            marked@.len() == m,
            i <= ids@.len(),
            forall|i2: int| 0 <= i2 < ids@.len() ==> (#[trigger] ids@[i2] as nat) < m,
            forall|x: int| 0 <= x < m ==> #[trigger] marked@[x] == ids@.take(i as int).contains(x as usize),
        decreases ids@.len() - i,
    {
        let id = ids[i];
        marked.set(id, true);
        proof {
            assert forall|x: int| 0 <= x < m implies #[trigger] marked@[x] == ids@.take(i + 1).contains(x as usize) by {
                let t = ids@.take(i as int);
                assert(ids@.take(i + 1) =~= t.push(id));
                if x as usize == id {
                    assert(t.push(id)[t.len() as int] == id);
                } else {
                    if t.push(id).contains(x as usize) {
                        let k = choose|k: int| 0 <= k < t.push(id).len() && t.push(id)[k] == x as usize;
                        assert(t[k] == x as usize);
                    }
                    if t.contains(x as usize) {
                        let k = choose|k: int| 0 <= k < t.len() && t[k] == x as usize;
                        assert(t.push(id)[k] == x as usize);
                    }
                }
            }
        }
        i += 1;
    }
    assert(ids@.take(i as int) =~= ids@);
    let ghost start = solution@;
    let n = solution.route.len();
    let mut r: usize = 0;
    while r < n
        invariant
            n == start.len(),
            r <= n,
            marked@.len() == m,
            forall|x: int| 0 <= x < m ==> #[trigger] marked@[x] == ids@.contains(x as usize),
            routes_wf(start, n as nat, m as nat),
            solution@.len() == n,
            forall|x: int| 0 <= x < r ==> #[trigger] solution@[x] == without(start[x], ids@),
            forall|x: int| r <= x < n ==> #[trigger] solution@[x] == start[x],
        decreases n - r,
    {
        let mut kept: Vec<usize> = Vec::new();
        let mut p: usize = 0;
        let len = solution.route[r].len();
        assert(solution@[r as int] == start[r as int]);
        assert(solution.route@[r as int]@ == start[r as int]);
        while p < len
            invariant
                n == start.len(),
                r < n,
                len == start[r as int].len(),
                solution@[r as int] == start[r as int],
                solution.route@.len() == n,
                p <= len,
                marked@.len() == m,
                forall|x: int| 0 <= x < m ==> #[trigger] marked@[x] == ids@.contains(x as usize),
                routes_wf(start, n as nat, m as nat),
                kept@ == without(start[r as int].take(p as int), ids@),
            decreases len - p,
        {
            assert(solution.route@[r as int]@ == start[r as int]);
            let x = solution.route[r][p];
            assert(start[r as int].take(p + 1).drop_last() =~= start[r as int].take(p as int));
            assert((x as nat) < m);
            if !marked[x] {
                kept.push(x);
            }
            p += 1;
        }
        assert(start[r as int].take(len as int) =~= start[r as int]);
        let ghost before = solution@;
        solution.route[r] = kept;
        assert(solution@ =~= before.update(r as int, without(start[r as int], ids@)));
        r += 1;
    }
    assert(solution@ =~= start.map_values(|s: Seq<usize>| without(s, ids@)));
    proof {
        ids@.lemma_multiset_has_no_duplicates();
        ids@.to_multiset_ensures();
        assert forall|x: int, p: int|
            0 <= x < solution@.len() && 0 <= p < solution@[x].len() implies (#[trigger] solution@[x][p] as nat) < m by {
            lemma_without_below(start[x], ids@, m as nat);
        }
        assert forall|c: usize| #[trigger] visits(solution@).add(ids@.to_multiset()).count(c) == each_once(m as nat).count(c) by {
            lemma_without_visits(start, ids@, c);
            lemma_each_once_count(m as nat, c);
            if ids@.contains(c) {
                let k = choose|k: int| 0 <= k < ids@.len() && ids@[k] == c;
                assert((ids@[k] as nat) < m);
            }
        }
    }
}

} // verus!
