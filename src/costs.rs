//! Travel costs of one solve, measured once by the caller with the metric of
//! its choice and handed to the search as whole numbers.

use vstd::prelude::*;

verus! {

/// Costs between the places of a solve with `vehicles()` vehicles and
/// `customers()` customers.
///
/// - `pickup[v][c]`: from the position of vehicle `v` to the origin of customer `c`;
/// - `link[a][b]`: from the destination of customer `a` to the origin of customer `b`;
/// - `ride[c]`: from the origin of customer `c` to its destination.
pub struct CostTable {
    pub pickup: Vec<Vec<u32>>,
    pub link: Vec<Vec<u32>>,
    pub ride: Vec<u32>,
}

impl CostTable {
    pub open spec fn vehicles(&self) -> nat {
        self.pickup@.len()
    }

    pub open spec fn customers(&self) -> nat {
        self.ride@.len()
    }

    /// Every row has one entry per customer.
    pub open spec fn wf(&self) -> bool {
        &&& forall|v: int| 0 <= v < self.pickup@.len() ==> #[trigger] self.pickup@[v]@.len() == self.ride@.len()
        &&& self.link@.len() == self.ride@.len()
        &&& forall|a: int| 0 <= a < self.link@.len() ==> #[trigger] self.link@[a]@.len() == self.ride@.len()
    }

    pub open spec fn pickup_cost(&self, v: int, c: int) -> int {
        self.pickup@[v]@[c] as int
    }

    pub open spec fn link_cost(&self, a: int, b: int) -> int {
        self.link@[a]@[b] as int
    }

    pub open spec fn ride_cost(&self, c: int) -> int {
        self.ride@[c] as int
    }

    /// Whether the table is well formed, so that a caller outside the
    /// verified code can check it before a solve.
    pub fn is_well_formed(&self) -> (r: bool)
        ensures
            r == self.wf(),
    {
        let m = self.ride.len();
        if self.link.len() != m {
            return false;
        }
        let mut v: usize = 0;
        while v < self.pickup.len()
            invariant
                v <= self.pickup@.len(),
                m == self.ride@.len(),
                forall|w: int| 0 <= w < v ==> #[trigger] self.pickup@[w]@.len() == m,
            decreases self.pickup@.len() - v,
        {
            if self.pickup[v].len() != m {
                return false;
            }
            v += 1;
        }
        let mut a: usize = 0;
        while a < self.link.len()
            invariant
                a <= self.link@.len(),
                m == self.ride@.len(),
                forall|b: int| 0 <= b < a ==> #[trigger] self.link@[b]@.len() == m,
            decreases self.link@.len() - a,
        {
            if self.link[a].len() != m {
                return false;
            }
            a += 1;
        }
        true
    }

    /// `sub` is the table of the sub-problem of the vehicles `vs` and the
    /// customers `cs`, renumbered in the order given.
    pub open spec fn is_restriction(&self, sub: CostTable, vs: Seq<usize>, cs: Seq<usize>) -> bool {
        &&& sub.wf()
        &&& sub.vehicles() == vs.len()
        &&& sub.customers() == cs.len()
        &&& forall|i: int, j: int|
            0 <= i < vs.len() && 0 <= j < cs.len() ==> #[trigger] sub.pickup_cost(i, j)
                == self.pickup_cost(vs[i] as int, cs[j] as int)
        &&& forall|i: int, j: int|
            0 <= i < cs.len() && 0 <= j < cs.len() ==> #[trigger] sub.link_cost(i, j)
                == self.link_cost(cs[i] as int, cs[j] as int)
        &&& forall|j: int| 0 <= j < cs.len() ==> #[trigger] sub.ride_cost(j) == self.ride_cost(cs[j] as int)
    }

    /// The table of a sub-problem: the vehicles `vs` and the customers `cs`
    /// (indices into this table), renumbered in the order given.
    pub fn restrict(&self, vs: &Vec<usize>, cs: &Vec<usize>) -> (r: CostTable)
        requires
            self.wf(),
            forall|i: int| 0 <= i < vs@.len() ==> (#[trigger] vs@[i] as nat) < self.vehicles(),
            forall|j: int| 0 <= j < cs@.len() ==> (#[trigger] cs@[j] as nat) < self.customers(),
        ensures
            self.is_restriction(r, vs@, cs@),
    {
        let mut pickup: Vec<Vec<u32>> = Vec::new();
        let mut i: usize = 0;
        while i < vs.len()
            invariant
                self.wf(),
                forall|i2: int| 0 <= i2 < vs@.len() ==> (#[trigger] vs@[i2] as nat) < self.vehicles(),
                forall|j: int| 0 <= j < cs@.len() ==> (#[trigger] cs@[j] as nat) < self.customers(),
                i <= vs@.len(),
                pickup@.len() == i,
                forall|a: int| 0 <= a < i ==> (#[trigger] pickup@[a])@.len() == cs@.len(),
                forall|a: int, j: int|
                    0 <= a < i && 0 <= j < cs@.len() ==> #[trigger] pickup@[a]@[j] == self.pickup@[vs@[a] as int]@[cs@[j] as int],
            decreases vs@.len() - i,
        {
            let row = self.select_row(&self.pickup[vs[i]], cs);
            pickup.push(row);
            i += 1;
        }
        let mut link: Vec<Vec<u32>> = Vec::new();
        let mut a: usize = 0;
        while a < cs.len()
            invariant
                self.wf(),
                forall|j: int| 0 <= j < cs@.len() ==> (#[trigger] cs@[j] as nat) < self.customers(),
                a <= cs@.len(),
                link@.len() == a,
                forall|x: int| 0 <= x < a ==> (#[trigger] link@[x])@.len() == cs@.len(),
                forall|x: int, j: int|
                    0 <= x < a && 0 <= j < cs@.len() ==> #[trigger] link@[x]@[j] == self.link@[cs@[x] as int]@[cs@[j] as int],
            decreases cs@.len() - a,
        {
            let row = self.select_row(&self.link[cs[a]], cs);
            link.push(row);
            a += 1;
        }
        let ride = self.select_row(&self.ride, cs);
        CostTable { pickup, link, ride }
    }

    /// The entries `cs` of `row`, in the order given.
    fn select_row(&self, row: &Vec<u32>, cs: &Vec<usize>) -> (r: Vec<u32>)
        requires
            row@.len() == self.customers(),
            forall|j: int| 0 <= j < cs@.len() ==> (#[trigger] cs@[j] as nat) < self.customers(),
        ensures
            r@.len() == cs@.len(),
            forall|j: int| 0 <= j < cs@.len() ==> #[trigger] r@[j] == row@[cs@[j] as int],
    {
        let mut r: Vec<u32> = Vec::new();
        let mut j: usize = 0;
        while j < cs.len()
            invariant
                row@.len() == self.customers(),
                forall|j2: int| 0 <= j2 < cs@.len() ==> (#[trigger] cs@[j2] as nat) < self.customers(),
                j <= cs@.len(),
                r@.len() == j,
                forall|x: int| 0 <= x < j ==> #[trigger] r@[x] == row@[cs@[x] as int],
            decreases cs@.len() - j,
        {
            r.push(row[cs[j]]);
            j += 1;
        }
        r
    }
}

} // verus!
