//! The plan that the search works on: one ordered route of customers per
//! vehicle.

use vstd::prelude::*;
use vstd::multiset::Multiset;

verus! {

broadcast use vstd::multiset::group_multiset_axioms;

/// Route `r` lists, in visiting order, the customers (by index into the
/// customer list of the solve) that vehicle `r` serves.
pub struct Solution {
    pub route: Vec<Vec<usize>>,
}

impl View for Solution {
    type V = Seq<Seq<usize>>;

    open spec fn view(&self) -> Seq<Seq<usize>> {
        self.route@.map_values(|r: Vec<usize>| r@)
    }
}

/// One route per vehicle and only customers below `m`.
pub open spec fn routes_wf(routes: Seq<Seq<usize>>, n: nat, m: nat) -> bool {
    &&& routes.len() == n
    &&& forall|r: int, p: int|
        0 <= r < routes.len() && 0 <= p < routes[r].len() ==> (#[trigger] routes[r][p] as nat) < m
}

/// Every visit of the plan, counted with multiplicity.
pub open spec fn visits(routes: Seq<Seq<usize>>) -> Multiset<usize>
    decreases routes.len(),
{
    if routes.len() == 0 {
        Multiset::empty()
    } else {
        visits(routes.drop_last()).add(routes.last().to_multiset())
    }
}

/// The number of visits of the plan.
pub open spec fn total_visits(routes: Seq<Seq<usize>>) -> nat
    decreases routes.len(),
{
    if routes.len() == 0 {
        0
    } else {
        total_visits(routes.drop_last()) + routes.last().len()
    }
}

/// The customers `0..m`, each once.
pub open spec fn each_once(m: nat) -> Multiset<usize>
    decreases m,
{
    if m == 0 {
        Multiset::empty()
    } else {
        each_once((m - 1) as nat).insert((m - 1) as usize)
    }
}

pub proof fn lemma_each_once_count(m: nat, c: usize)
    requires
        m <= usize::MAX + 1,
    ensures
        each_once(m).count(c) == if (c as nat) < m { 1nat } else { 0nat },
    decreases m,
{
    if m > 0 {
        lemma_each_once_count((m - 1) as nat, c);
    }
}

pub proof fn lemma_each_once_len(m: nat)
    ensures
        each_once(m).len() == m,
    decreases m,
{
    if m > 0 {
        lemma_each_once_len((m - 1) as nat);
    }
}

pub proof fn lemma_visits_len(routes: Seq<Seq<usize>>)
    ensures
        visits(routes).len() == total_visits(routes),
    decreases routes.len(),
{
    if routes.len() > 0 {
        lemma_visits_len(routes.drop_last());
        routes.last().to_multiset_ensures();
    }
}

/// Replacing one route changes the visits by what the two routes differ in.
pub proof fn lemma_visits_update(routes: Seq<Seq<usize>>, r: int, s: Seq<usize>)
    requires
        0 <= r < routes.len(),
    ensures
        visits(routes.update(r, s)).add(routes[r].to_multiset()) =~= visits(routes).add(
            s.to_multiset(),
        ),
        total_visits(routes.update(r, s)) + routes[r].len() == total_visits(routes) + s.len(),
    decreases routes.len(),
{
    let u = routes.update(r, s);
    let rest = routes.drop_last();
    assert(visits(u) == visits(u.drop_last()).add(u.last().to_multiset()));
    assert(visits(routes) == visits(rest).add(routes.last().to_multiset()));
    if r == routes.len() - 1 {
        assert(u.drop_last() =~= rest);
        assert(u.last() == s);
    } else {
        assert(u.drop_last() =~= rest.update(r, s));
        assert(u.last() == routes.last());
        lemma_visits_update(rest, r, s);
        assert(visits(rest.update(r, s)).add(rest[r].to_multiset()) =~= visits(rest).add(
            s.to_multiset(),
        ));
        assert forall|v: usize|
            #[trigger] visits(u).add(routes[r].to_multiset()).count(v) == visits(routes).add(
                s.to_multiset(),
            ).count(v) by {
            assert(visits(rest.update(r, s)).add(rest[r].to_multiset()).count(v) == visits(
                rest,
            ).add(s.to_multiset()).count(v));
        }
    }
}

/// Routes with no visits.
pub proof fn lemma_visits_empty(routes: Seq<Seq<usize>>)
    requires
        forall|r: int| 0 <= r < routes.len() ==> (#[trigger] routes[r]).len() == 0,
    ensures
        visits(routes) =~= Multiset::<usize>::empty(),
        total_visits(routes) == 0,
    decreases routes.len(),
{
    if routes.len() > 0 {
        lemma_visits_empty(routes.drop_last());
        let last = routes.last();
        last.to_multiset_ensures();
        vstd::multiset::lemma_multiset_empty_len(last.to_multiset());
        assert(visits(routes) == visits(routes.drop_last()).add(last.to_multiset()));
    }
}

/// A customer that is visited stands at some position of some route.
pub proof fn lemma_visited_has_position(routes: Seq<Seq<usize>>, c: usize)
    requires
        visits(routes).count(c) > 0,
    ensures
        exists|r: int, p: int| 0 <= r < routes.len() && 0 <= p < routes[r].len() && routes[r][p] == c,
    decreases routes.len(),
{
    let last = routes.last();
    last.to_multiset_ensures();
    if visits(routes.drop_last()).count(c) > 0 {
        lemma_visited_has_position(routes.drop_last(), c);
        let (r, p) = choose|r: int, p: int|
            0 <= r < routes.drop_last().len() && 0 <= p < routes.drop_last()[r].len()
                && routes.drop_last()[r][p] == c;
        assert(routes[r][p] == c);
    } else {
        assert(last.contains(c));
        let p = choose|p: int| 0 <= p < last.len() && last[p] == c;
        assert(routes[routes.len() - 1][p] == c);
    }
}

/// A plan whose visits are the customers `0..m`, each once, has `m` visits
/// in all, visits every customer below `m` exactly once and no other.
pub proof fn lemma_each_customer_once(routes: Seq<Seq<usize>>, m: nat)
    requires
        visits(routes) == each_once(m),
        m <= usize::MAX + 1,
    ensures
        total_visits(routes) == m,
        forall|c: usize| #[trigger] visits(routes).count(c) == if (c as nat) < m { 1nat } else { 0nat },
{
    lemma_visits_len(routes);
    lemma_each_once_len(m);
    assert forall|c: usize| #[trigger] visits(routes).count(c) == if (c as nat) < m { 1nat } else { 0nat } by {
        lemma_each_once_count(m, c);
    }
}

/// A prefix of the routes has no more visits than the whole.
pub proof fn lemma_total_prefix(routes: Seq<Seq<usize>>, i: int)
    requires
        0 <= i <= routes.len(),
    ensures
        total_visits(routes.take(i)) <= total_visits(routes),
    decreases routes.len(),
{
    if i < routes.len() {
        assert(routes.take(i) =~= routes.drop_last().take(i));
        lemma_total_prefix(routes.drop_last(), i);
    } else {
        assert(routes.take(i) =~= routes);
    }
}

impl Solution {
    /// The number of visits of the plan.
    pub fn total_visits(&self) -> (r: usize)
        requires
            total_visits(self@) <= usize::MAX,
        ensures
            r == total_visits(self@),
    {
        let mut sum: usize = 0;
        let mut i: usize = 0;
        while i < self.route.len()
            invariant
                i <= self.route@.len(),
                total_visits(self@) <= usize::MAX,
                sum == total_visits(self@.take(i as int)),
            decreases self.route@.len() - i,
        {
            assert(self@.take(i + 1).drop_last() =~= self@.take(i as int));
            proof {
                lemma_total_prefix(self@, i as int + 1);
            }
            sum = sum + self.route[i].len();
            i += 1;
        }
        assert(self@.take(i as int) =~= self@);
        sum
    }
}

} // verus!
