//! Shortest path lengths by breadth-first layers.
use vstd::prelude::*;
use crate::graph::{count_true, lemma_count_true_bound, lemma_count_true_update, TieNetwork};

verus! {

impl TieNetwork {
    /// There is a walk from `a` to `b` of at most `k` steps.
    pub open spec fn reaches_within(&self, a: int, b: int, k: int) -> bool {
        exists|p: Seq<int>| #[trigger] self.is_walk(p, None) && p[0] == a && p.last() == b && p.len() <= k + 1
    }

    /// The shortest walk from `a` to `b` has `d` steps.
    pub open spec fn is_distance(&self, a: int, b: int, d: int) -> bool {
        d >= 0 && self.reaches_within(a, b, d) && !self.reaches_within(a, b, d - 1)
    }

    /// The number of steps of a shortest walk from `a` to `b` (meaningful
    /// when `a` reaches `b`).
    pub open spec fn distance(&self, a: int, b: int) -> int {
        choose|d: int| self.is_distance(a, b, d)
    }

    pub proof fn lemma_within_mono(&self, a: int, b: int, k: int, k2: int)
        requires
            self.reaches_within(a, b, k),
            k <= k2,
        ensures
            self.reaches_within(a, b, k2),
    {
        let p = choose|p: Seq<int>| #[trigger] self.is_walk(p, None) && p[0] == a && p.last() == b && p.len() <= k + 1;
        assert(self.is_walk(p, None) && p[0] == a && p.last() == b && p.len() <= k2 + 1);
    }

    pub proof fn lemma_within_step(&self, a: int, u: int, v: int, k: int)
        requires
            self.reaches_within(a, u, k),
            0 <= v < self.size(),
            self.adjacent(u, v),
        ensures
            self.reaches_within(a, v, k + 1),
    {
        let p = choose|p: Seq<int>| #[trigger] self.is_walk(p, None) && p[0] == a && p.last() == u && p.len() <= k + 1;
        let q = p.push(v);
        assert forall|i: int| 0 <= i < q.len() - 1 implies self.step_ok(#[trigger] q[i], q[i + 1], None) by {
            if i < p.len() - 1 {
                assert(q[i] == p[i] && q[i + 1] == p[i + 1]);
            }
        }
        assert(self.is_walk(q, None));
    }

    pub proof fn lemma_distance_unique(&self, a: int, b: int, d1: int, d2: int)
        requires
            self.is_distance(a, b, d1),
            self.is_distance(a, b, d2),
        ensures
            d1 == d2,
    {
        if d1 < d2 {
            self.lemma_within_mono(a, b, d1, d2 - 1);
        } else if d2 < d1 {
            self.lemma_within_mono(a, b, d2, d1 - 1);
        }
    }

    pub proof fn lemma_distance_is_chosen(&self, a: int, b: int, d: int)
        requires
            self.is_distance(a, b, d),
        ensures
            self.distance(a, b) == d,
    {
        self.lemma_distance_unique(a, b, d, self.distance(a, b));
    }

    /// A node first reached in `k + 1` steps is one step past a node at
    /// distance `k`.
    pub proof fn lemma_last_step(&self, a: int, v: int, k: int)
        requires
            k >= 0,
            self.reaches_within(a, v, k + 1),
            !self.reaches_within(a, v, k),
        ensures
            exists|u: int| 0 <= u < self.size() && #[trigger] self.adjacent(u, v) && self.is_distance(a, u, k),
    {
        let p = choose|p: Seq<int>| #[trigger] self.is_walk(p, None) && p[0] == a && p.last() == v && p.len() <= k + 2;
        assert(p.len() == k + 2);
        let q = p.drop_last();
        let u = q.last();
        assert forall|i: int| 0 <= i < q.len() - 1 implies self.step_ok(#[trigger] q[i], q[i + 1], None) by {
            assert(q[i] == p[i] && q[i + 1] == p[i + 1]);
            assert(self.step_ok(p[i], p[i + 1], None));
        }
        assert(self.is_walk(q, None));
        assert(self.reaches_within(a, u, k));
        assert(self.step_ok(p[k], p[k + 1], None));
        assert(self.adjacent(u, v));
        if self.reaches_within(a, u, k - 1) {
            self.lemma_within_step(a, u, v, k - 1);
        }
        assert(0 <= u < self.size());
    }

    pub proof fn lemma_reaches_within(&self, a: int, b: int)
        requires
            self.reaches(a, b, None),
        ensures
            exists|k: int| k >= 0 && #[trigger] self.reaches_within(a, b, k),
    {
        let p = choose|p: Seq<int>| #[trigger] self.is_walk(p, None) && p[0] == a && p.last() == b;
        assert(self.reaches_within(a, b, p.len() - 1));
    }

    /// Within zero steps a node reaches itself and nothing else.
    pub proof fn lemma_within_zero(&self, a: int, v: int)
        ensures
            (0 <= a < self.size() && a == v) ==> self.reaches_within(a, v, 0),
            self.reaches_within(a, v, 0) ==> a == v,
    {
        if 0 <= a < self.size() && a == v {
            assert(self.is_walk(seq![a], None));
        }
        if self.reaches_within(a, v, 0) {
            let p = choose|p: Seq<int>| #[trigger] self.is_walk(p, None) && p[0] == a && p.last() == v && p.len() <= 1;
        }
    }

    /// A walk of at most `k + 1` steps has at most `k`, or its last step
    /// leaves a node reached in at most `k`.
    pub proof fn lemma_within_last(&self, a: int, v: int, k: int)
        requires
            k >= 0,
            self.reaches_within(a, v, k + 1),
        ensures
            self.reaches_within(a, v, k) || exists|u: int|
                0 <= u < self.size() && #[trigger] self.adjacent(u, v) && self.reaches_within(a, u, k),
    {
        let p = choose|p: Seq<int>| #[trigger] self.is_walk(p, None) && p[0] == a && p.last() == v && p.len() <= k + 2;
        if p.len() <= k + 1 {
            assert(self.is_walk(p, None) && p[0] == a && p.last() == v && p.len() <= k + 1);
        } else {
            let q = p.drop_last();
            let u = q.last();
            assert forall|i: int| 0 <= i < q.len() - 1 implies self.step_ok(#[trigger] q[i], q[i + 1], None) by {
                assert(q[i] == p[i] && q[i + 1] == p[i + 1]);
                assert(self.step_ok(p[i], p[i + 1], None));
            }
            assert(self.is_walk(q, None));
            assert(self.is_walk(q, None) && q[0] == a && q.last() == u && q.len() <= k + 1);
            assert(self.step_ok(p[p.len() - 2], p[p.len() - 1], None));
            assert(0 <= u < self.size() && self.adjacent(u, v) && self.reaches_within(a, u, k));
        }
    }

    pub proof fn lemma_within_reaches(&self, a: int, b: int, k: int)
        requires
            self.reaches_within(a, b, k),
        ensures
            self.reaches(a, b, None),
    {
        let p = choose|p: Seq<int>| #[trigger] self.is_walk(p, None) && p[0] == a && p.last() == b && p.len() <= k + 1;
        assert(self.is_walk(p, None) && p[0] == a && p.last() == b);
    }

    /// With no node at distance `d`, nothing is further: whatever is reached
    /// in `k` steps is reached in `d`.
    proof fn lemma_no_layer_no_further(&self, a: int, d: int, dist: Seq<Option<usize>>, v: int, k: int)
        requires
            d >= 0,
            dist.len() == self.size(),
            forall|x: int| 0 <= x < self.size() && #[trigger] self.reaches_within(a, x, d) ==> dist[x] is Some,
            forall|x: int| 0 <= x < self.size() ==> (#[trigger] dist[x] matches Some(j) ==> j <= d && self.is_distance(a, x, j as int)),
            forall|x: int| 0 <= x < self.size() ==> dist[x] != Some(d as usize),
            0 <= v < self.size(),
            self.reaches_within(a, v, k),
        ensures
            self.reaches_within(a, v, d),
        decreases k,
    {
        if k > d {
            if self.reaches_within(a, v, k - 1) {
                self.lemma_no_layer_no_further(a, d, dist, v, k - 1);
            } else {
                self.lemma_last_step(a, v, k - 1);
                let u = choose|u: int| 0 <= u < self.size() && #[trigger] self.adjacent(u, v) && self.is_distance(a, u, k - 1);
                self.lemma_no_layer_no_further(a, d, dist, u, k - 1);
                let j = dist[u]->Some_0;
                self.lemma_distance_unique(a, u, j as int, k - 1);
                assert(false);
            }
        } else {
            self.lemma_within_mono(a, v, k, d);
        }
    }

    /// The distance from `a` to each node: `Some(d)` when the shortest walk
    /// has `d` steps, `None` when `a` does not reach the node.
    pub fn distances_from(&self, a: usize) -> (r: Vec<Option<usize>>)
        requires
            self.valid(),
            a < self.size(),
        ensures
            r@.len() == self.size(),
            forall|v: int|
                0 <= v < self.size() ==> (#[trigger] r@[v] matches Some(d) ==> self.is_distance(a as int, v, d as int)
                    && d <= self.size()),
            forall|v: int| 0 <= v < self.size() ==> (r@[v] is None <==> !#[trigger] self.reaches(a as int, v, None)),
    {
        let n = self.node_count();
        let mut dist: Vec<Option<usize>> = Vec::new();
        let mut seen: Vec<bool> = Vec::new();
        let mut i: usize = 0;
        while i < n
            invariant
                i <= n,
                dist@.len() == i,
                seen@.len() == i,
                forall|k: int| 0 <= k < i ==> (#[trigger] dist@[k]) is None,
                forall|k: int| 0 <= k < i ==> !#[trigger] seen@[k],
            decreases n - i,
        {
            dist.push(None);
            seen.push(false);
            i = i + 1;
        }
        proof {
            crate::graph::lemma_count_true_all(seen@);
            lemma_count_true_update(seen@, a as int, true);
            self.lemma_reaches_self(a as int, None);
            let p = seq![a as int];
            assert(self.is_walk(p, None));
            assert(self.reaches_within(a as int, a as int, 0));
            assert forall|x: int| 0 <= x < n && #[trigger] self.reaches_within(a as int, x, 0) implies x == a by {
                let p = choose|p: Seq<int>| #[trigger] self.is_walk(p, None) && p[0] == a && p.last() == x && p.len() <= 1;
            }
        }
        dist.set(a, Some(0));
        seen.set(a, true);
        let mut found: usize = 1;
        let mut frontier: Vec<usize> = vec![a];
        let mut d: usize = 0;
        proof {
            assert(!self.reaches_within(a as int, a as int, -1));
            assert(self.is_distance(a as int, a as int, 0));
            assert forall|v: usize| v < n implies (dist@[v as int] == Some(d) <==> #[trigger] frontier@.contains(v)) by {
                if v == a {
                    assert(frontier@[0] == a);
                }
            }
        }
        while frontier.len() > 0
            invariant
                self.valid(),
                n == self.size(),
                a < n,
                dist@.len() == n,
                seen@.len() == n,
                forall|v: int| 0 <= v < n ==> (#[trigger] seen@[v] <==> dist@[v] is Some),
                count_true(seen@) == found,
                found <= n,
                d <= found,
                frontier@.len() > 0 ==> d + 1 <= found,
                forall|v: int| 0 <= v < n ==> (#[trigger] dist@[v] matches Some(k) ==> k <= d && self.is_distance(a as int, v, k as int)),
                forall|v: int| 0 <= v < n && #[trigger] self.reaches_within(a as int, v, d as int) ==> dist@[v] is Some,
                forall|v: usize| v < n ==> (dist@[v as int] == Some(d) <==> #[trigger] frontier@.contains(v)),
                forall|i: int| 0 <= i < frontier@.len() ==> #[trigger] frontier@[i] < n,
            decreases 2 * (n - found) + if frontier@.len() > 0 {
                1int
            } else {
                0int
            },
        {
            proof {
                lemma_count_true_bound(seen@);
            }
            let ghost dist0 = dist@;
            let ghost found0 = found;
            let mut next: Vec<usize> = Vec::new();
            let mut fi: usize = 0;
            while fi < frontier.len()
                invariant
                    self.valid(),
                    n == self.size(),
                    a < n,
                    dist@.len() == n,
                    seen@.len() == n,
                    dist0.len() == n,
                    forall|v: int| 0 <= v < n ==> (#[trigger] seen@[v] <==> dist@[v] is Some),
                    count_true(seen@) == found,
                    found <= n,
                    found == found0 + next@.len(),
                    d + 1 <= found0,
                    fi <= frontier@.len(),
                    forall|v: int| 0 <= v < n ==> (#[trigger] dist0[v] matches Some(k) ==> k <= d && self.is_distance(a as int, v, k as int)),
                    forall|v: int| 0 <= v < n && #[trigger] self.reaches_within(a as int, v, d as int) ==> dist0[v] is Some,
                    forall|v: usize| v < n ==> (dist0[v as int] == Some(d) <==> #[trigger] frontier@.contains(v)),
                    forall|i: int| 0 <= i < frontier@.len() ==> #[trigger] frontier@[i] < n,
                    forall|v: int| 0 <= v < n && #[trigger] dist0[v] is Some ==> dist@[v] == dist0[v],
                    forall|v: int| 0 <= v < n && dist0[v] is None ==> (#[trigger] dist@[v] is None || dist@[v] == Some((d + 1) as usize)),
                    forall|v: usize| v < n ==> (#[trigger] next@.contains(v) <==> (dist0[v as int] is None && dist@[v as int] is Some)),
                    forall|i: int| 0 <= i < next@.len() ==> #[trigger] next@[i] < n,
                    forall|v: int| 0 <= v < n && dist0[v] is None && #[trigger] dist@[v] is Some ==> self.is_distance(a as int, v, d + 1),
                    forall|j: int, w: int| 0 <= j < fi && 0 <= w < n && #[trigger] self.adjacent(frontier@[j] as int, w) ==> dist@[w] is Some,
                decreases frontier@.len() - fi,
            {
                let u = frontier[fi];
                proof {
                    assert(frontier@.contains(u));
                    assert(dist0[u as int] == Some(d));
                }
                let mut w: usize = 0;
                while w < n
                    invariant
                        self.valid(),
                        n == self.size(),
                        a < n,
                        u < n,
                        dist0[u as int] == Some(d),
                        dist@.len() == n,
                        seen@.len() == n,
                        dist0.len() == n,
                        forall|v: int| 0 <= v < n ==> (#[trigger] seen@[v] <==> dist@[v] is Some),
                        count_true(seen@) == found,
                        found <= n,
                        found == found0 + next@.len(),
                        d + 1 <= found0,
                        w <= n,
                        forall|v: int| 0 <= v < n ==> (#[trigger] dist0[v] matches Some(k) ==> k <= d && self.is_distance(a as int, v, k as int)),
                        forall|v: int| 0 <= v < n && #[trigger] self.reaches_within(a as int, v, d as int) ==> dist0[v] is Some,
                        forall|v: int| 0 <= v < n && #[trigger] dist0[v] is Some ==> dist@[v] == dist0[v],
                        forall|v: int| 0 <= v < n && dist0[v] is None ==> (#[trigger] dist@[v] is None || dist@[v] == Some((d + 1) as usize)),
                        forall|v: usize| v < n ==> (#[trigger] next@.contains(v) <==> (dist0[v as int] is None && dist@[v as int] is Some)),
                        forall|i: int| 0 <= i < next@.len() ==> #[trigger] next@[i] < n,
                        forall|v: int| 0 <= v < n && dist0[v] is None && #[trigger] dist@[v] is Some ==> self.is_distance(a as int, v, d + 1),
                        forall|j: int, x: int| 0 <= j < fi && 0 <= x < n && #[trigger] self.adjacent(frontier@[j] as int, x) ==> dist@[x] is Some,
                        forall|x: int| 0 <= x < w && #[trigger] self.adjacent(u as int, x) ==> dist@[x] is Some,
                    decreases n - w,
                {
                    if self.edge_weight(u, w).is_some() && dist[w].is_none() {
                        proof {
                            lemma_count_true_update(seen@, w as int, true);
                            lemma_count_true_bound(seen@.update(w as int, true));
                            assert(dist0[w as int] is None);
                            assert(self.is_distance(a as int, u as int, d as int));
                            self.lemma_within_step(a as int, u as int, w as int, d as int);
                            if self.reaches_within(a as int, w as int, d as int) {
                                assert(dist0[w as int] is Some);
                            }
                        }
                        let ghost next0 = next@;
                        dist.set(w, Some(d + 1));
                        seen.set(w, true);
                        found = found + 1;
                        next.push(w);
                        proof {
                            assert forall|v: usize| v < n implies (#[trigger] next@.contains(v) <==> (dist0[v as int] is None && dist@[v as int] is Some)) by {
                                if v == w {
                                    assert(next@[next@.len() - 1] == w);
                                } else {
                                    if next@.contains(v) {
                                        let k = choose|k: int| 0 <= k < next@.len() && next@[k] == v;
                                        assert(next0[k] == v);
                                    }
                                    if next0.contains(v) {
                                        let k = choose|k: int| 0 <= k < next0.len() && next0[k] == v;
                                        assert(next@[k] == v);
                                    }
                                }
                            }
                        }
                    }
                    w = w + 1;
                }
                fi = fi + 1;
            }
            proof {
                assert forall|v: int| 0 <= v < n && #[trigger] self.reaches_within(a as int, v, d + 1) implies dist@[v] is Some by {
                    if self.reaches_within(a as int, v, d as int) {
                        assert(dist0[v] is Some);
                    } else {
                        self.lemma_last_step(a as int, v, d as int);
                        let u = choose|u: int| 0 <= u < n && #[trigger] self.adjacent(u, v) && self.is_distance(a as int, u, d as int);
                        self.lemma_within_mono(a as int, u, d as int, d as int);
                        let j = dist0[u]->Some_0;
                        self.lemma_distance_unique(a as int, u, j as int, d as int);
                        assert(dist0[(u as usize) as int] == Some(d));
                        assert(frontier@.contains(u as usize));
                        let k = choose|k: int| 0 <= k < frontier@.len() && frontier@[k] == u as usize;
                        assert(self.adjacent(frontier@[k] as int, v));
                    }
                }
                assert forall|v: int| 0 <= v < n implies (#[trigger] dist@[v] matches Some(k) ==> k <= d + 1 && self.is_distance(a as int, v, k as int)) by {
                    if dist0[v] is None && dist@[v] is Some {
                        assert(self.is_distance(a as int, v, d + 1));
                    }
                }
                assert forall|v: usize| v < n implies (dist@[v as int] == Some((d + 1) as usize) <==> #[trigger] next@.contains(v)) by {
                    if dist0[v as int] is Some {
                        assert(dist0[v as int]->Some_0 <= d);
                    }
                }
            }
            frontier = next;
            d = d + 1;
        }
        proof {
            assert forall|v: int| 0 <= v < n implies (dist@[v] is None <==> !#[trigger] self.reaches(a as int, v, None)) by {
                if self.reaches(a as int, v, None) {
                    self.lemma_reaches_within(a as int, v);
                    let k = choose|k: int| k >= 0 && #[trigger] self.reaches_within(a as int, v, k);
                    assert forall|x: int| 0 <= x < n implies dist@[x] != Some(d) by {
                        if dist@[x] == Some(d) {
                            assert(dist@[(x as usize) as int] == Some(d));
                            assert(frontier@.contains(x as usize));
                        }
                    }
                    self.lemma_no_layer_no_further(a as int, d as int, dist@, v, k);
                }
                if dist@[v] is Some {
                    let j = dist@[v]->Some_0;
                    assert(j <= d);
                    assert(self.is_distance(a as int, v, j as int));
                    self.lemma_within_reaches(a as int, v, j as int);
                }
            }
        }
        dist
    }
}


impl TieNetwork {
    /// The sum of the distances from `a` to the nodes below `k` that it
    /// reaches, `a` itself left out.
    pub open spec fn distance_sum_from(&self, a: int, k: int) -> int
        decreases k,
    {
        if k <= 0 {
            0
        } else {
            self.distance_sum_from(a, k - 1) + if k - 1 != a && self.reaches(a, k - 1, None) {
                self.distance(a, k - 1)
            } else {
                0
            }
        }
    }

    /// The number of nodes below `k` that `a` reaches, `a` itself left out.
    pub open spec fn reached_count_from(&self, a: int, k: int) -> int
        decreases k,
    {
        if k <= 0 {
            0
        } else {
            self.reached_count_from(a, k - 1) + if k - 1 != a && self.reaches(a, k - 1, None) {
                1int
            } else {
                0int
            }
        }
    }

    /// The sum, over the sources below `k`, of the distances to the nodes
    /// they reach.
    pub open spec fn distance_sum(&self, k: int) -> int
        decreases k,
    {
        if k <= 0 {
            0
        } else {
            self.distance_sum(k - 1) + self.distance_sum_from(k - 1, self.size() as int)
        }
    }

    /// The number of (ordered) pairs of distinct nodes, the first below `k`,
    /// the first reaching the second.
    pub open spec fn reached_pairs(&self, k: int) -> int
        decreases k,
    {
        if k <= 0 {
            0
        } else {
            self.reached_pairs(k - 1) + self.reached_count_from(k - 1, self.size() as int)
        }
    }

    /// The sum of the shortest path lengths over all ordered pairs of
    /// distinct nodes of which the first reaches the second, and the number
    /// of those pairs: the average path length is the first over the second.
    pub fn path_length_totals(&self) -> (r: (u128, u128))
        requires
            self.valid(),
            self.size() * self.size() <= usize::MAX,
        ensures
            r.0 == self.distance_sum(self.size() as int),
            r.1 == self.reached_pairs(self.size() as int),
    {
        let n = self.node_count();
        let mut total: u128 = 0;
        let mut pairs: u128 = 0;
        let mut a: usize = 0;
        while a < n
            invariant
                self.valid(),
                n == self.size(),
                n * n <= usize::MAX,
                a <= n,
                total == self.distance_sum(a as int),
                pairs == self.reached_pairs(a as int),
                total <= a * (usize::MAX as int),
                pairs <= a * (usize::MAX as int),
            decreases n - a,
        {
            let dist = self.distances_from(a);
            let mut sum: u128 = 0;
            let mut count: u128 = 0;
            let mut v: usize = 0;
            while v < n
                invariant
                    self.valid(),
                    n == self.size(),
                    n * n <= usize::MAX,
                    a < n,
                    v <= n,
                    dist@.len() == n,
                    forall|x: int|
                        0 <= x < n ==> (#[trigger] dist@[x] matches Some(d) ==> self.is_distance(a as int, x, d as int)
                            && d <= n),
                    forall|x: int| 0 <= x < n ==> (dist@[x] is None <==> !#[trigger] self.reaches(a as int, x, None)),
                    sum == self.distance_sum_from(a as int, v as int),
                    count == self.reached_count_from(a as int, v as int),
                    sum <= v * n,
                    count <= v,
                decreases n - v,
            {
                if v != a {
                    match dist[v] {
                        Some(d) => {
                            proof {
                                self.lemma_distance_is_chosen(a as int, v as int, d as int);
                                assert(sum + d <= (v + 1) * n) by (nonlinear_arith)
                                    requires
                                        sum <= v * n,
                                        d <= n,
                                ;
                                assert((v + 1) * n <= n * n) by (nonlinear_arith)
                                    requires
                                        v < n,
                                ;
                            }
                            sum = sum + d as u128;
                            count = count + 1;
                        },
                        None => {
                            proof {
                                assert(sum <= (v + 1) * n) by (nonlinear_arith)
                                    requires
                                        sum <= v * n,
                                        n >= 0,
                                ;
                            }
                        },
                    }
                } else {
                    proof {
                        assert(sum <= (v + 1) * n) by (nonlinear_arith)
                            requires
                                sum <= v * n,
                                n >= 0,
                        ;
                    }
                }
                v = v + 1;
            }
            proof {
                assert(total + sum <= (a + 1) * (usize::MAX as int) && pairs + count <= (a + 1) * (usize::MAX as int)
                    && (a + 1) * (usize::MAX as int) <= u128::MAX) by (nonlinear_arith)
                    requires
                        total <= a * (usize::MAX as int),
                        pairs <= a * (usize::MAX as int),
                        sum <= n * n,
                        n * n <= usize::MAX,
                        count <= n,
                        n <= usize::MAX,
                        a < n,
                        usize::MAX <= u64::MAX,
                ;
            }
            total = total + sum;
            pairs = pairs + count;
            a = a + 1;
        }
        (total, pairs)
    }
}

} // verus!
