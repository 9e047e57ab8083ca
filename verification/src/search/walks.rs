use vstd::prelude::*;

verus! {

/// A graph of numbered cells with the cost of entering each.
pub struct CostGraph {
    /// For each cell, the cells that one step leads to.
    pub links: Vec<Vec<usize>>,
    /// For each cell, whether it may be entered.
    pub passable: Vec<bool>,
    /// For each cell, the cost of entering it.
    pub cost: Vec<u64>,
}

impl CostGraph {
    /// The number of cells.
    pub open spec fn size(&self) -> int {
        self.links@.len() as int
    }

    /// The three tables speak of the same cells, and every link leads to
    /// a cell of the graph.
    pub open spec fn well_formed(&self) -> bool {
        &&& self.passable@.len() == self.links@.len()
        &&& self.cost@.len() == self.links@.len()
        &&& forall|a: int, k: int|
            0 <= a < self.links@.len() && 0 <= k < self.links@[a]@.len()
                ==> #[trigger] self.links@[a]@[k] < self.links@.len()
    }

    /// Whether one step leads from `a` to `b`: `a` links to `b`, and `b`
    /// may be entered.
    pub open spec fn edge(&self, a: int, b: int) -> bool {
        &&& 0 <= a < self.size()
        &&& 0 <= b < self.size()
        &&& exists|k: int| 0 <= k < self.links@[a]@.len() && #[trigger] self.links@[a]@[k] == b
        &&& self.passable@[b]
    }

    /// Whether `p` is a walk: a sequence of at least one cell in which
    /// each cell leads to the next by one step.
    pub open spec fn walk(&self, p: Seq<int>) -> bool {
        &&& p.len() >= 1
        &&& 0 <= p[0] < self.size()
        &&& forall|i: int| 0 <= i < p.len() - 1 ==> #[trigger] self.step(p, i)
    }

    /// Whether one step leads from the `i`-th cell of `p` to the next.
    pub open spec fn step(&self, p: Seq<int>, i: int) -> bool {
        self.edge(p[i], p[i + 1])
    }

    /// Whether `p` is a walk from `a` to `b`.
    pub open spec fn route(&self, p: Seq<int>, a: int, b: int) -> bool {
        &&& self.walk(p)
        &&& p[0] == a
        &&& p[p.len() - 1] == b
    }

    /// The cost of a walk: the sum of the costs of the cells it enters,
    /// which are all but the first.
    pub open spec fn walk_cost(&self, p: Seq<int>) -> nat
        decreases p.len(),
    {
        if p.len() <= 1 {
            0
        } else {
            self.walk_cost(p.drop_last()) + self.cost@[p.last()] as nat
        }
    }

    /// Whether `estimate` never falls by more than the cost of the step:
    /// along every step from `a` to `b`, the estimate at `a` is at most
    /// the cost of entering `b` plus the estimate at `b`.
    pub open spec fn consistent(&self, estimate: Seq<u64>) -> bool {
        &&& estimate.len() == self.size()
        &&& forall|a: int, b: int|
            #[trigger] self.edge(a, b) ==> estimate[a] <= self.cost@[b] + estimate[b]
    }

    /// Whether some walk leads from `a` to `b`.
    pub open spec fn connected(&self, a: int, b: int) -> bool {
        exists|p: Seq<int>| #[trigger] self.route(p, a, b)
    }

    /// Whether `d` is the cost of a cheapest walk from `a` to `b`.
    pub open spec fn distance_is(&self, a: int, b: int, d: nat) -> bool {
        &&& exists|p: Seq<int>| #[trigger] self.route(p, a, b) && self.walk_cost(p) == d
        &&& forall|p: Seq<int>| #[trigger] self.route(p, a, b) ==> d <= self.walk_cost(p)
    }

    /// Every cell of a walk is a cell of the graph.
    pub proof fn lemma_walk_cells(&self, p: Seq<int>, i: int)
        requires
            self.walk(p),
            0 <= i < p.len(),
        ensures
            0 <= p[i] < self.size(),
    {
        if i > 0 {
            assert(self.step(p, i - 1));
        }
    }

    /// The first `k` cells of a walk are a walk.
    pub proof fn lemma_walk_take(&self, p: Seq<int>, k: int)
        requires
            self.walk(p),
            1 <= k <= p.len(),
        ensures
            self.walk(p.take(k)),
    {
        let q = p.take(k);
        assert forall|i: int| 0 <= i < q.len() - 1 implies #[trigger] self.step(q, i) by {
            assert(self.step(p, i));
        }
    }

    /// What is left of a walk after its first `k` cells is a walk.
    pub proof fn lemma_walk_skip(&self, p: Seq<int>, k: int)
        requires
            self.walk(p),
            0 <= k < p.len(),
        ensures
            self.walk(p.skip(k)),
    {
        let q = p.skip(k);
        self.lemma_walk_cells(p, k);
        assert forall|i: int| 0 <= i < q.len() - 1 implies #[trigger] self.step(q, i) by {
            assert(self.step(p, i + k));
        }
    }

    /// A walk that is lengthened by one step is a walk, and costs what
    /// the step's target costs more.
    pub proof fn lemma_walk_push(&self, p: Seq<int>, b: int)
        requires
            self.walk(p),
            self.edge(p[p.len() - 1], b),
        ensures
            self.walk(p.push(b)),
            self.walk_cost(p.push(b)) == self.walk_cost(p) + self.cost@[b],
    {
        let q = p.push(b);
        assert(q.drop_last() =~= p);
        assert forall|i: int| 0 <= i < q.len() - 1 implies #[trigger] self.step(q, i) by {
            if i < p.len() - 1 {
                assert(self.step(p, i));
            }
        }
    }

    /// The cost of a walk is the cost up to its `k`-th cell plus the cost
    /// from there on.
    pub proof fn lemma_cost_split(&self, p: Seq<int>, k: int)
        requires
            0 <= k < p.len(),
        ensures
            self.walk_cost(p) == self.walk_cost(p.take(k + 1)) + self.walk_cost(p.skip(k)),
        decreases p.len(),
    {
        if k == p.len() - 1 {
            assert(p.take(k + 1) =~= p);
            assert(p.skip(k).len() == 1);
        } else {
            let q = p.drop_last();
            self.lemma_cost_split(q, k);
            assert(q.take(k + 1) =~= p.take(k + 1));
            assert(p.skip(k).drop_last() =~= q.skip(k));
            assert(p.skip(k).last() == p.last());
        }
    }

    /// A walk of `m` cells costs at most `m - 1` times the largest cost
    /// that a cell can have.
    pub proof fn lemma_cost_bound(&self, p: Seq<int>)
        requires
            p.len() >= 1,
        ensures
            self.walk_cost(p) <= (p.len() - 1) * u64::MAX,
        decreases p.len(),
    {
        if p.len() > 1 {
            self.lemma_cost_bound(p.drop_last());
            assert((p.len() - 2) * u64::MAX + u64::MAX == (p.len() - 1) * u64::MAX)
                by (nonlinear_arith);
        }
    }

    /// Along a walk a consistent estimate falls by no more than the walk
    /// costs.
    pub proof fn lemma_estimate_along(&self, estimate: Seq<u64>, p: Seq<int>)
        requires
            self.well_formed(),
            self.consistent(estimate),
            self.walk(p),
        ensures
            estimate[p[0]] <= self.walk_cost(p) + estimate[p[p.len() - 1]],
        decreases p.len(),
    {
        if p.len() > 1 {
            let q = p.drop_last();
            self.lemma_walk_take(p, p.len() - 1);
            assert(q =~= p.take(p.len() - 1));
            self.lemma_estimate_along(estimate, q);
            assert(self.step(p, p.len() - 2));
        }
    }
}

/// Whether some link of `row` leads to `b`.
pub open spec fn links_to(row: Seq<usize>, b: int) -> bool {
    exists|k: int| 0 <= k < row.len() && #[trigger] row[k] == b
}

/// Whether entering a cell costs at least one wherever it is allowed.
pub open spec fn unit_costs(passable: Seq<bool>, cost: Seq<u64>) -> bool {
    forall|k: int| 0 <= k < cost.len() && 0 <= k < passable.len() && passable[k] ==> #[trigger] cost[k] >= 1
}

/// Whether entering a cell costs at least one wherever it is allowed.
pub fn all_unit(passable: &Vec<bool>, cost: &Vec<u64>) -> (r: bool)
    requires
        passable@.len() == cost@.len(),
    ensures
        r == unit_costs(passable@, cost@),
{
    let mut k: usize = 0;
    while k < cost.len()
        invariant
            k <= cost@.len(),
            passable@.len() == cost@.len(),
            forall|m: int| 0 <= m < k && passable@[m] ==> #[trigger] cost@[m] >= 1,
        decreases cost@.len() - k,
    {
        if passable[k] && cost[k] < 1 {
            return false;
        }
        k = k + 1;
    }
    true
}

} // verus!
