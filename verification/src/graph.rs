//! An undirected network whose edge weights are tie strengths.
//!
//! Nodes are the indices `0..n`. The network is held as a symmetric matrix of
//! optional weights, so that a lookup of the tie between two nodes is direct
//! and the neighbours of a node come out in increasing order.
use vstd::prelude::*;
use crate::world::TieStrength;

verus! {

/// Number of present entries in a row.
pub open spec fn count_some(s: Seq<Option<TieStrength>>) -> nat
    decreases s.len(),
{
    if s.len() == 0 {
        0
    } else {
        count_some(s.drop_last()) + if s.last() is Some {
            1nat
        } else {
            0nat
        }
    }
}

/// Number of absent entries in a row.
pub open spec fn count_none(s: Seq<Option<TieStrength>>) -> nat
    decreases s.len(),
{
    if s.len() == 0 {
        0
    } else {
        count_none(s.drop_last()) + if s.last() is None {
            1nat
        } else {
            0nat
        }
    }
}

/// Number of present entries in the whole matrix (each edge is counted
/// once from each of its two ends).
pub open spec fn entry_total(m: Seq<Seq<Option<TieStrength>>>) -> nat
    decreases m.len(),
{
    if m.len() == 0 {
        0
    } else {
        entry_total(m.drop_last()) + count_some(m.last())
    }
}

/// Number of absent entries in the whole matrix.
pub open spec fn absent_total(m: Seq<Seq<Option<TieStrength>>>) -> nat
    decreases m.len(),
{
    if m.len() == 0 {
        0
    } else {
        absent_total(m.drop_last()) + count_none(m.last())
    }
}

pub proof fn lemma_count_update(s: Seq<Option<TieStrength>>, i: int, v: Option<TieStrength>)
    requires
        0 <= i < s.len(),
    ensures
        count_some(s.update(i, v)) + (if s[i] is Some { 1int } else { 0int })
            == count_some(s) + (if v is Some { 1int } else { 0int }),
        count_none(s.update(i, v)) + (if s[i] is None { 1int } else { 0int })
            == count_none(s) + (if v is None { 1int } else { 0int }),
    decreases s.len(),
{
    let t = s.update(i, v);
    if i == s.len() - 1 {
        assert(t.drop_last() =~= s.drop_last());
    } else {
        assert(t.drop_last() =~= s.drop_last().update(i, v));
        lemma_count_update(s.drop_last(), i, v);
    }
}

pub proof fn lemma_total_update(m: Seq<Seq<Option<TieStrength>>>, a: int, row: Seq<Option<TieStrength>>)
    requires
        0 <= a < m.len(),
    ensures
        entry_total(m.update(a, row)) + count_some(m[a]) == entry_total(m) + count_some(row),
        absent_total(m.update(a, row)) + count_none(m[a]) == absent_total(m) + count_none(row),
    decreases m.len(),
{
    let t = m.update(a, row);
    if a == m.len() - 1 {
        assert(t.drop_last() =~= m.drop_last());
    } else {
        assert(t.drop_last() =~= m.drop_last().update(a, row));
        lemma_total_update(m.drop_last(), a, row);
    }
}

pub proof fn lemma_count_bounds(s: Seq<Option<TieStrength>>)
    ensures
        count_some(s) <= s.len(),
        count_some(s) + count_none(s) == s.len(),
    decreases s.len(),
{
    if s.len() > 0 {
        lemma_count_bounds(s.drop_last());
    }
}


/// The pairs `(x, y)` with `x < y < n` that satisfy `p`, in lexicographic
/// order, starting from the pair `(a, b)`.
pub open spec fn pair_list(n: int, a: int, b: int, p: spec_fn(int, int) -> bool) -> Seq<(int, int)>
    decreases (if a < n { n - a } else { 0 }), (if b < n { n - b } else { 0 }),
{
    if a >= n {
        Seq::empty()
    } else if b >= n {
        pair_list(n, a + 1, a + 2, p)
    } else {
        (if p(a, b) {
            seq![(a, b)]
        } else {
            Seq::empty()
        }) + pair_list(n, a, b + 1, p)
    }
}

/// All pairs `(x, y)` with `x < y < n` that satisfy `p`, in lexicographic order.
pub open spec fn pairs_where(n: int, p: spec_fn(int, int) -> bool) -> Seq<(int, int)> {
    pair_list(n, 0, 1, p)
}

/// `p` comes before `q` in lexicographic order.
pub open spec fn pair_before(p: (int, int), q: (int, int)) -> bool {
    p.0 < q.0 || (p.0 == q.0 && p.1 < q.1)
}

/// The listed pairs satisfy `p`, lie in `[0, n)` with the first below the
/// second, come in strictly increasing order, and every such pair from
/// `(a, b)` on is listed.
pub proof fn lemma_pair_list(n: int, a: int, b: int, p: spec_fn(int, int) -> bool)
    requires
        0 <= a < b,
    ensures
        forall|i: int|
            0 <= i < pair_list(n, a, b, p).len() ==> {
                let q = #[trigger] pair_list(n, a, b, p)[i];
                &&& 0 <= q.0 < q.1 < n
                &&& p(q.0, q.1)
                &&& (q.0 > a || (q.0 == a && q.1 >= b))
            },
        forall|i: int, j: int|
            0 <= i < j < pair_list(n, a, b, p).len() ==> pair_before(
                #[trigger] pair_list(n, a, b, p)[i],
                #[trigger] pair_list(n, a, b, p)[j],
            ),
        forall|x: int, y: int|
            0 <= x < y < n && #[trigger] p(x, y) && (x > a || (x == a && y >= b)) ==> pair_list(
                n,
                a,
                b,
                p,
            ).contains((x, y)),
    decreases (if a < n { n - a } else { 0 }), (if b < n { n - b } else { 0 }),
{
    let l = pair_list(n, a, b, p);
    if a >= n {
        assert(l.len() == 0);
    } else if b >= n {
        lemma_pair_list(n, a + 1, a + 2, p);
        assert(l == pair_list(n, a + 1, a + 2, p));
    } else {
        lemma_pair_list(n, a, b + 1, p);
        let rest = pair_list(n, a, b + 1, p);
        let head: Seq<(int, int)> = if p(a, b) {
            seq![(a, b)]
        } else {
            Seq::empty()
        };
        assert(l == head + rest);
        assert forall|i: int| 0 <= i < l.len() implies {
            let q = #[trigger] l[i];
            &&& 0 <= q.0 < q.1 < n
            &&& p(q.0, q.1)
            &&& (q.0 > a || (q.0 == a && q.1 >= b))
        } by {
            if i < head.len() {
            } else {
                assert(l[i] == rest[i - head.len()]);
            }
        }
        assert forall|i: int, j: int| 0 <= i < j < l.len() implies pair_before(#[trigger] l[i], #[trigger] l[j]) by {
            if j < head.len() {
            } else if i < head.len() {
                assert(l[j] == rest[j - head.len()]);
            } else {
                assert(l[i] == rest[i - head.len()]);
                assert(l[j] == rest[j - head.len()]);
            }
        }
        assert forall|x: int, y: int|
            0 <= x < y < n && #[trigger] p(x, y) && (x > a || (x == a && y >= b)) implies l.contains((x, y)) by {
            if x == a && y == b {
                assert(l[0] == (x, y));
            } else {
                assert(rest.contains((x, y)));
                let k = choose|k: int| 0 <= k < rest.len() && rest[k] == (x, y);
                assert(l[k + head.len()] == (x, y));
            }
        }
    }
}

/// Fewer pairs satisfy a stronger condition.
pub proof fn lemma_pair_list_len_mono(n: int, a: int, b: int, p: spec_fn(int, int) -> bool, q: spec_fn(int, int) -> bool)
    requires
        forall|x: int, y: int| #[trigger] q(x, y) ==> p(x, y),
    ensures
        pair_list(n, a, b, q).len() <= pair_list(n, a, b, p).len(),
    decreases (if a < n { n - a } else { 0 }), (if b < n { n - b } else { 0 }),
{
    if a >= n {
    } else if b >= n {
        lemma_pair_list_len_mono(n, a + 1, a + 2, p, q);
    } else {
        lemma_pair_list_len_mono(n, a, b + 1, p, q);
    }
}

/// Conditions that agree on every pair list the same pairs.
pub proof fn lemma_pair_list_same(n: int, a: int, b: int, p: spec_fn(int, int) -> bool, q: spec_fn(int, int) -> bool)
    requires
        0 <= a < b,
        forall|x: int, y: int| 0 <= x < y < n ==> #[trigger] q(x, y) == p(x, y),
    ensures
        pair_list(n, a, b, q) == pair_list(n, a, b, p),
    decreases (if a < n { n - a } else { 0 }), (if b < n { n - b } else { 0 }),
{
    if a >= n {
    } else if b >= n {
        lemma_pair_list_same(n, a + 1, a + 2, p, q);
    } else {
        lemma_pair_list_same(n, a, b + 1, p, q);
        assert(q(a, b) == p(a, b));
    }
}

/// The matrix `m` with the entries at `(a, b)` and `(b, a)` set to `v`.
pub open spec fn set_pair(
    m: Seq<Seq<Option<TieStrength>>>,
    a: int,
    b: int,
    v: Option<TieStrength>,
) -> Seq<Seq<Option<TieStrength>>> {
    let m1 = m.update(a, m[a].update(b, v));
    m1.update(b, m1[b].update(a, v))
}

/// The matrix is square, symmetric, with an empty diagonal.
pub open spec fn valid_matrix(m: Seq<Seq<Option<TieStrength>>>) -> bool {
    &&& forall|a: int| 0 <= a < m.len() ==> #[trigger] m[a].len() == m.len()
    &&& forall|a: int, b: int| 0 <= a < m.len() && 0 <= b < m.len() ==> #[trigger] m[a][b] == m[b][a]
    &&& forall|a: int| 0 <= a < m.len() ==> #[trigger] m[a][a] is None
}

pub proof fn lemma_set_pair(m: Seq<Seq<Option<TieStrength>>>, a: int, b: int, v: Option<TieStrength>)
    requires
        valid_matrix(m),
        0 <= a < m.len(),
        0 <= b < m.len(),
        a != b || v is None,
    ensures
        valid_matrix(set_pair(m, a, b, v)),
        set_pair(m, a, b, v).len() == m.len(),
        set_pair(m, a, b, v)[a][b] == v,
        set_pair(m, a, b, v)[b][a] == v,
        forall|x: int, y: int|
            0 <= x < m.len() && 0 <= y < m.len() && !((x == a && y == b) || (x == b && y == a))
                ==> #[trigger] set_pair(m, a, b, v)[x][y] == m[x][y],
{
    let r = set_pair(m, a, b, v);
    let m1 = m.update(a, m[a].update(b, v));
    assert forall|x: int, y: int|
        0 <= x < m.len() && 0 <= y < m.len() && !((x == a && y == b) || (x == b && y == a))
            implies #[trigger] r[x][y] == m[x][y] by {
        if x == b {
            assert(r[x] == m1[b].update(a, v));
            if b == a {
            } else {
                assert(m1[b] == m[b]);
            }
        } else if x == a {
            assert(r[x] == m1[a]);
        } else {
            assert(r[x] == m[x]);
        }
    }
    assert forall|x: int| 0 <= x < m.len() implies #[trigger] r[x].len() == m.len() by {
        if x == b {
        } else if x == a {
        } else {
            assert(r[x] == m[x]);
        }
    }
}

/// An undirected, loop-free network on the nodes `0..n` whose edges carry a
/// tie strength.
#[derive(Debug, Clone)]
pub struct TieNetwork {
    rows: Vec<Vec<Option<TieStrength>>>,
}

impl View for TieNetwork {
    type V = Seq<Seq<Option<TieStrength>>>;

    closed spec fn view(&self) -> Seq<Seq<Option<TieStrength>>> {
        self.rows@.map_values(|r: Vec<Option<TieStrength>>| r@)
    }
}

impl TieNetwork {
    /// Number of nodes.
    pub open spec fn size(&self) -> nat {
        self@.len()
    }

    /// The tie between `a` and `b`, if any.
    pub open spec fn weight(&self, a: int, b: int) -> Option<TieStrength> {
        self@[a][b]
    }

    /// Whether `a` and `b` are tied.
    pub open spec fn adjacent(&self, a: int, b: int) -> bool {
        self.weight(a, b) is Some
    }

    /// The matrix is square, symmetric and has an empty diagonal.
    pub open spec fn valid(&self) -> bool {
        &&& valid_matrix(self@)
        &&& self.size() <= usize::MAX
    }

    /// Number of edges: each edge is seen from both of its ends.
    pub open spec fn edge_total(&self) -> nat {
        entry_total(self@) / 2
    }

    /// Number of (ordered) pairs of nodes that are not tied, the loops
    /// included.
    pub open spec fn absent_pairs(&self) -> nat {
        absent_total(self@)
    }

    /// Same nodes, same ties, same strengths.
    pub open spec fn same_as(&self, other: &TieNetwork) -> bool {
        self@ == other@
    }

    proof fn lemma_view(&self)
        ensures
            self@.len() == self.rows@.len(),
            forall|a: int| 0 <= a < self.rows@.len() ==> #[trigger] self@[a] == self.rows@[a]@,
    {
    }

    /// A network of `n` nodes and no ties.
    pub fn with_nodes(n: usize) -> (r: TieNetwork)
        ensures
            r.valid(),
            r.size() == n,
            forall|a: int, b: int| 0 <= a < n && 0 <= b < n ==> #[trigger] r.weight(a, b) is None,
    {
        let mut rows: Vec<Vec<Option<TieStrength>>> = Vec::new();
        let mut i: usize = 0;
        while i < n
            invariant
                i <= n,
                rows@.len() == i,
                forall|a: int| 0 <= a < i ==> #[trigger] rows@[a]@.len() == n,
                forall|a: int, b: int| 0 <= a < i && 0 <= b < n ==> (#[trigger] rows@[a]@[b]) is None,
            decreases n - i,
        {
            let mut row: Vec<Option<TieStrength>> = Vec::new();
            let mut j: usize = 0;
            while j < n
                invariant
                    j <= n,
                    row@.len() == j,
                    forall|b: int| 0 <= b < j ==> (#[trigger] row@[b]) is None,
                decreases n - j,
            {
                row.push(None);
                j = j + 1;
            }
            rows.push(row);
            i = i + 1;
        }
        let r = TieNetwork { rows };
        proof {
            r.lemma_view();
        }
        r
    }

    /// A network with no nodes.
    pub fn empty() -> (r: TieNetwork)
        ensures
            r.valid(),
            r.size() == 0,
    {
        TieNetwork::with_nodes(0)
    }

    /// Number of nodes.
    pub fn node_count(&self) -> (r: usize)
        ensures
            r == self.size(),
    {
        proof {
            self.lemma_view();
        }
        self.rows.len()
    }

    /// The tie between `a` and `b`, if any.
    pub fn edge_weight(&self, a: usize, b: usize) -> (r: Option<TieStrength>)
        requires
            self.valid(),
            a < self.size(),
            b < self.size(),
        ensures
            r == self.weight(a as int, b as int),
    {
        proof {
            self.lemma_view();
        }
        self.rows[a][b]
    }

    fn put(&mut self, a: usize, b: usize, x: Option<TieStrength>)
        requires
            a < old(self).size(),
            b < old(self)@[a as int].len(),
        ensures
            final(self)@ == old(self)@.update(a as int, old(self)@[a as int].update(b as int, x)),
    {
        proof {
            self.lemma_view();
        }
        self.rows[a].set(b, x);
        proof {
            self.lemma_view();
            assert(self@ =~= old(self)@.update(a as int, old(self)@[a as int].update(b as int, x)));
        }
    }

    /// Ties `a` and `b` with strength `w`, replacing any tie they had.
    pub fn add_edge_weighted(&mut self, a: usize, b: usize, w: TieStrength)
        requires
            old(self).valid(),
            a < old(self).size(),
            b < old(self).size(),
            a != b,
        ensures
            final(self).valid(),
            final(self).size() == old(self).size(),
            final(self)@ == set_pair(old(self)@, a as int, b as int, Some(w)),
            final(self).weight(a as int, b as int) == Some(w),
            final(self).weight(b as int, a as int) == Some(w),
            forall|x: int, y: int|
                0 <= x < old(self).size() && 0 <= y < old(self).size() && !((x == a && y == b) || (x
                    == b && y == a)) ==> #[trigger] final(self).weight(x, y) == old(self).weight(x, y),
            old(self).adjacent(a as int, b as int) ==> final(self).edge_total() == old(self).edge_total(),
            !old(self).adjacent(a as int, b as int) ==> final(self).edge_total() == old(self).edge_total() + 1,
            old(self).adjacent(a as int, b as int) ==> final(self).absent_pairs() == old(self).absent_pairs(),
            !old(self).adjacent(a as int, b as int) ==> final(self).absent_pairs() + 2 == old(self).absent_pairs(),
    {
        let ghost m0 = self@;
        self.put(a, b, Some(w));
        let ghost m1 = self@;
        self.put(b, a, Some(w));
        proof {
            lemma_set_pair(m0, a as int, b as int, Some(w));
            lemma_count_update(m0[a as int], b as int, Some(w));
            lemma_total_update(m0, a as int, m0[a as int].update(b as int, Some(w)));
            lemma_count_update(m1[b as int], a as int, Some(w));
            lemma_total_update(m1, b as int, m1[b as int].update(a as int, Some(w)));
        }
    }

    /// Removes the tie between `a` and `b`, returning it.
    pub fn remove_edge(&mut self, a: usize, b: usize) -> (r: Option<TieStrength>)
        requires
            old(self).valid(),
            a < old(self).size(),
            b < old(self).size(),
        ensures
            r == old(self).weight(a as int, b as int),
            final(self).valid(),
            final(self).size() == old(self).size(),
            final(self).weight(a as int, b as int) is None,
            final(self).weight(b as int, a as int) is None,
            forall|x: int, y: int|
                0 <= x < old(self).size() && 0 <= y < old(self).size() && !((x == a && y == b) || (x
                    == b && y == a)) ==> #[trigger] final(self).weight(x, y) == old(self).weight(x, y),
            old(self).adjacent(a as int, b as int) ==> final(self).edge_total() + 1 == old(self).edge_total(),
            !old(self).adjacent(a as int, b as int) ==> final(self).edge_total() == old(self).edge_total(),
    {
        let r = self.edge_weight(a, b);
        let ghost m0 = self@;
        self.put(a, b, None);
        let ghost m1 = self@;
        self.put(b, a, None);
        proof {
            lemma_set_pair(m0, a as int, b as int, None);
            lemma_count_update(m0[a as int], b as int, None);
            lemma_total_update(m0, a as int, m0[a as int].update(b as int, None));
            lemma_count_update(m1[b as int], a as int, None);
            lemma_total_update(m1, b as int, m1[b as int].update(a as int, None));
        }
        r
    }
}

impl TieNetwork {
    /// Whether `a` and `b` have a neighbour in common.
    pub open spec fn share_neighbor(&self, a: int, b: int) -> bool {
        exists|w: int| 0 <= w < self.size() && self.adjacent(a, w) && self.adjacent(b, w)
    }

    /// A tie whose two ends have no neighbour in common: removing it would
    /// put its ends more than two steps apart.
    pub open spec fn is_local_bridge_spec(&self, a: int, b: int) -> bool {
        self.adjacent(a, b) && !self.share_neighbor(a, b)
    }

    pub open spec fn edge_pred(&self) -> spec_fn(int, int) -> bool {
        |x: int, y: int| self.adjacent(x, y)
    }

    pub open spec fn bridge_pred(&self) -> spec_fn(int, int) -> bool {
        |x: int, y: int| self.is_local_bridge_spec(x, y)
    }

    pub open spec fn strength_pred(&self, w: TieStrength) -> spec_fn(int, int) -> bool {
        |x: int, y: int| self.weight(x, y) == Some(w)
    }

    /// The ties of strength `w` as pairs `(a, b)` with `a < b`, in
    /// lexicographic order.
    pub open spec fn strength_pairs(&self, w: TieStrength) -> Seq<(int, int)> {
        pairs_where(self.size() as int, self.strength_pred(w))
    }

    /// `x` and `y` are both strongly tied to `c` (and, when `open`, not
    /// tied to each other).
    pub open spec fn wedge_pred(&self, c: int, open: bool) -> spec_fn(int, int) -> bool {
        |x: int, y: int|
            self.weight(c, x) == Some(TieStrength::Strong) && self.weight(c, y) == Some(TieStrength::Strong)
                && (!open || !self.adjacent(x, y))
    }

    pub open spec fn weak_bridge_pred(&self) -> spec_fn(int, int) -> bool {
        |x: int, y: int| self.is_local_bridge_spec(x, y) && self.weight(x, y) == Some(TieStrength::Weak)
    }

    /// The edges as pairs `(a, b)` with `a < b`, in lexicographic order.
    pub open spec fn edge_pairs(&self) -> Seq<(int, int)> {
        pairs_where(self.size() as int, self.edge_pred())
    }

    /// The local bridges as pairs `(a, b)` with `a < b`, in lexicographic order.
    pub open spec fn bridge_pairs(&self) -> Seq<(int, int)> {
        pairs_where(self.size() as int, self.bridge_pred())
    }

    /// The local bridges that are weak ties.
    pub open spec fn weak_bridge_pairs(&self) -> Seq<(int, int)> {
        pairs_where(self.size() as int, self.weak_bridge_pred())
    }

    /// The neighbours of `v`, in increasing order.
    pub fn neighbors(&self, v: usize) -> (r: Vec<usize>)
        requires
            self.valid(),
            v < self.size(),
        ensures
            forall|i: int| 0 <= i < r@.len() ==> #[trigger] r@[i] < self.size() && self.adjacent(v as int, r@[i] as int),
            forall|i: int, j: int| 0 <= i < j < r@.len() ==> r@[i] < r@[j],
            forall|w: int| 0 <= w < self.size() && self.adjacent(v as int, w) ==> r@.contains(w as usize),
    {
        let n = self.node_count();
        let mut r: Vec<usize> = Vec::new();
        let mut w: usize = 0;
        while w < n
            invariant
                self.valid(),
                v < n,
                n == self.size(),
                w <= n,
                forall|i: int| 0 <= i < r@.len() ==> #[trigger] r@[i] < w && self.adjacent(v as int, r@[i] as int),
                forall|i: int, j: int| 0 <= i < j < r@.len() ==> r@[i] < r@[j],
                forall|x: int| 0 <= x < w && self.adjacent(v as int, x) ==> r@.contains(x as usize),
            decreases n - w,
        {
            let ghost before = r@;
            if self.edge_weight(v, w).is_some() {
                r.push(w);
            }
            proof {
                assert forall|x: int| 0 <= x < w + 1 && self.adjacent(v as int, x) implies r@.contains(
                    x as usize,
                ) by {
                    if x == w {
                        assert(r@[r@.len() - 1] == w);
                    } else {
                        let k = choose|k: int| 0 <= k < before.len() && before[k] == x as usize;
                        assert(r@[k] == x as usize);
                    }
                }
            }
            w = w + 1;
        }
        r
    }

    /// Whether `a` and `b` have a neighbour in common.
    pub fn has_common_neighbor(&self, a: usize, b: usize) -> (r: bool)
        requires
            self.valid(),
            a < self.size(),
            b < self.size(),
        ensures
            r == self.share_neighbor(a as int, b as int),
    {
        let n = self.node_count();
        let mut w: usize = 0;
        while w < n
            invariant
                self.valid(),
                a < n,
                b < n,
                n == self.size(),
                w <= n,
                forall|x: int| 0 <= x < w ==> !(self.adjacent(a as int, x) && self.adjacent(b as int, x)),
            decreases n - w,
        {
            if self.edge_weight(a, w).is_some() && self.edge_weight(b, w).is_some() {
                assert(self.adjacent(a as int, w as int) && self.adjacent(b as int, w as int));
                return true;
            }
            w = w + 1;
        }
        false
    }

    /// Whether the tie between `a` and `b` is a local bridge.
    pub fn is_local_bridge(&self, a: usize, b: usize) -> (r: bool)
        requires
            self.valid(),
            a < self.size(),
            b < self.size(),
        ensures
            r == self.is_local_bridge_spec(a as int, b as int),
    {
        self.edge_weight(a, b).is_some() && !self.has_common_neighbor(a, b)
    }

    /// The edges with their strengths, as `(a, b, w)` with `a < b`, in
    /// lexicographic order of `(a, b)`.
    pub fn weighted_edges(&self) -> (r: Vec<(usize, usize, TieStrength)>)
        requires
            self.valid(),
        ensures
            r@.len() == self.edge_pairs().len(),
            forall|i: int|
                0 <= i < r@.len() ==> (#[trigger] r@[i]).0 == self.edge_pairs()[i].0 && r@[i].1
                    == self.edge_pairs()[i].1 && self.weight(r@[i].0 as int, r@[i].1 as int) == Some(r@[i].2),
    {
        let n = self.node_count();
        let ghost p = self.edge_pred();
        let ghost all = pairs_where(n as int, p);
        let mut r: Vec<(usize, usize, TieStrength)> = Vec::new();
        let ghost mut done: Seq<(int, int)> = Seq::empty();
        let mut a: usize = 0;
        while a < n
            invariant
                self.valid(),
                n == self.size(),
                p == self.edge_pred(),
                all == pairs_where(n as int, p),
                a <= n,
                done + pair_list(n as int, a as int, a + 1, p) == all,
                r@.len() == done.len(),
                forall|i: int|
                    0 <= i < r@.len() ==> (#[trigger] r@[i]).0 == done[i].0 && r@[i].1 == done[i].1
                        && self.weight(r@[i].0 as int, r@[i].1 as int) == Some(r@[i].2),
            decreases n - a,
        {
            let mut b: usize = a + 1;
            while b < n
                invariant
                    self.valid(),
                    n == self.size(),
                    p == self.edge_pred(),
                    all == pairs_where(n as int, p),
                    a < n,
                    a < b <= n,
                    done + pair_list(n as int, a as int, b as int, p) == all,
                    r@.len() == done.len(),
                    forall|i: int|
                        0 <= i < r@.len() ==> (#[trigger] r@[i]).0 == done[i].0 && r@[i].1 == done[i].1
                            && self.weight(r@[i].0 as int, r@[i].1 as int) == Some(r@[i].2),
                decreases n - b,
            {
                let w = self.edge_weight(a, b);
                let ghost before = done;
                match w {
                    Some(s) => {
                        r.push((a, b, s));
                        proof {
                            done = done.push((a as int, b as int));
                            assert(seq![(a as int, b as int)] + pair_list(n as int, a as int, b + 1, p)
                                == pair_list(n as int, a as int, b as int, p));
                            assert(done + pair_list(n as int, a as int, b + 1, p) =~= before + (seq![(a as int, b as int)] + pair_list(n as int, a as int, b + 1, p)));
                        }
                    },
                    None => {
                        proof {
                            assert(Seq::<(int, int)>::empty() + pair_list(n as int, a as int, b + 1, p)
                                == pair_list(n as int, a as int, b as int, p));
                            assert(Seq::<(int, int)>::empty() + pair_list(n as int, a as int, b + 1, p) =~= pair_list(n as int, a as int, b + 1, p));
                        }
                    },
                }
                b = b + 1;
            }
            a = a + 1;
        }
        assert(done =~= all);
        r
    }
}


/// Which pairs of nodes to list.
#[derive(Clone, Copy)]
pub enum PairKind {
    /// Tied pairs.
    Edge,
    /// Local bridges.
    Bridge,
    /// Local bridges that are weak ties.
    WeakBridge,
    /// Weak ties.
    WeakTie,
    /// Strong ties.
    StrongTie,
    /// Pairs both strongly tied to the given node (strong two-paths through it).
    StrongWedge(usize),
    /// Pairs both strongly tied to the given node but not tied to each other
    /// (forbidden triads centred on it).
    OpenStrongWedge(usize),
}

impl PairKind {
    pub open spec fn pred(self, net: &TieNetwork) -> spec_fn(int, int) -> bool {
        match self {
            PairKind::Edge => net.edge_pred(),
            PairKind::Bridge => net.bridge_pred(),
            PairKind::WeakBridge => net.weak_bridge_pred(),
            PairKind::WeakTie => net.strength_pred(TieStrength::Weak),
            PairKind::StrongTie => net.strength_pred(TieStrength::Strong),
            PairKind::StrongWedge(c) => net.wedge_pred(c as int, false),
            PairKind::OpenStrongWedge(c) => net.wedge_pred(c as int, true),
        }
    }
}

impl TieNetwork {
    fn pair_holds(&self, kind: PairKind, a: usize, b: usize) -> (r: bool)
        requires
            self.valid(),
            a < self.size(),
            b < self.size(),
            kind matches PairKind::StrongWedge(c) ==> c < self.size(),
            kind matches PairKind::OpenStrongWedge(c) ==> c < self.size(),
        ensures
            r == (kind.pred(self))(a as int, b as int),
    {
        match kind {
            PairKind::Edge => self.edge_weight(a, b).is_some(),
            PairKind::Bridge => self.is_local_bridge(a, b),
            PairKind::WeakTie => match self.edge_weight(a, b) {
                Some(TieStrength::Weak) => true,
                _ => false,
            },
            PairKind::StrongTie => match self.edge_weight(a, b) {
                Some(TieStrength::Strong) => true,
                _ => false,
            },
            PairKind::StrongWedge(c) => self.is_strong(c, a) && self.is_strong(c, b),
            PairKind::OpenStrongWedge(c) => self.is_strong(c, a) && self.is_strong(c, b) && self.edge_weight(a, b).is_none(),
            PairKind::WeakBridge => {
                self.is_local_bridge(a, b) && match self.edge_weight(a, b) {
                    Some(TieStrength::Weak) => true,
                    _ => false,
                }
            },
        }
    }

    fn is_strong(&self, a: usize, b: usize) -> (r: bool)
        requires
            self.valid(),
            a < self.size(),
            b < self.size(),
        ensures
            r == (self.weight(a as int, b as int) == Some(TieStrength::Strong)),
    {
        match self.edge_weight(a, b) {
            Some(TieStrength::Strong) => true,
            _ => false,
        }
    }

    /// The pairs `(a, b)` with `a < b` of the given kind, in lexicographic order.
    pub fn pairs_of_kind(&self, kind: PairKind) -> (r: Vec<(usize, usize)>)
        requires
            self.valid(),
            kind matches PairKind::StrongWedge(c) ==> c < self.size(),
            kind matches PairKind::OpenStrongWedge(c) ==> c < self.size(),
        ensures
            r@.len() == pairs_where(self.size() as int, kind.pred(self)).len(),
            forall|i: int|
                0 <= i < r@.len() ==> (#[trigger] r@[i]).0 == pairs_where(self.size() as int, kind.pred(self))[i].0
                    && r@[i].1 == pairs_where(self.size() as int, kind.pred(self))[i].1,
    {
        let n = self.node_count();
        let ghost p = kind.pred(self);
        let ghost all = pairs_where(n as int, p);
        let mut r: Vec<(usize, usize)> = Vec::new();
        let ghost mut done: Seq<(int, int)> = Seq::empty();
        let mut a: usize = 0;
        while a < n
            invariant
                self.valid(),
                n == self.size(),
                kind matches PairKind::StrongWedge(c) ==> c < self.size(),
                kind matches PairKind::OpenStrongWedge(c) ==> c < self.size(),
                p == kind.pred(self),
                all == pairs_where(n as int, p),
                a <= n,
                done + pair_list(n as int, a as int, a + 1, p) == all,
                r@.len() == done.len(),
                forall|i: int| 0 <= i < r@.len() ==> (#[trigger] r@[i]).0 == done[i].0 && r@[i].1 == done[i].1,
            decreases n - a,
        {
            let mut b: usize = a + 1;
            while b < n
                invariant
                    self.valid(),
                    n == self.size(),
                    kind matches PairKind::StrongWedge(c) ==> c < self.size(),
                    kind matches PairKind::OpenStrongWedge(c) ==> c < self.size(),
                    p == kind.pred(self),
                    all == pairs_where(n as int, p),
                    a < n,
                    a < b <= n,
                    done + pair_list(n as int, a as int, b as int, p) == all,
                    r@.len() == done.len(),
                    forall|i: int| 0 <= i < r@.len() ==> (#[trigger] r@[i]).0 == done[i].0 && r@[i].1 == done[i].1,
                decreases n - b,
            {
                let ghost before = done;
                if self.pair_holds(kind, a, b) {
                    r.push((a, b));
                    proof {
                        done = done.push((a as int, b as int));
                        assert(seq![(a as int, b as int)] + pair_list(n as int, a as int, b + 1, p)
                            == pair_list(n as int, a as int, b as int, p));
                        assert(done + pair_list(n as int, a as int, b + 1, p) =~= before + (seq![(a as int, b as int)] + pair_list(n as int, a as int, b + 1, p)));
                    }
                } else {
                    proof {
                        assert(Seq::<(int, int)>::empty() + pair_list(n as int, a as int, b + 1, p)
                            == pair_list(n as int, a as int, b as int, p));
                        assert(Seq::<(int, int)>::empty() + pair_list(n as int, a as int, b + 1, p) =~= pair_list(n as int, a as int, b + 1, p));
                    }
                }
                b = b + 1;
            }
            a = a + 1;
        }
        assert(done =~= all);
        r
    }

    /// The local bridges as pairs `(a, b)` with `a < b`, in lexicographic order.
    pub fn local_bridges(&self) -> (r: Vec<(usize, usize)>)
        requires
            self.valid(),
        ensures
            r@.len() == self.bridge_pairs().len(),
            forall|i: int|
                0 <= i < r@.len() ==> (#[trigger] r@[i]).0 == self.bridge_pairs()[i].0 && r@[i].1
                    == self.bridge_pairs()[i].1,
    {
        self.pairs_of_kind(PairKind::Bridge)
    }

    /// Number of edges.
    pub fn edge_count(&self) -> (r: usize)
        requires
            self.valid(),
        ensures
            r == self.edge_pairs().len(),
    {
        self.pairs_of_kind(PairKind::Edge).len()
    }
}


/// Number of `true` entries.
pub open spec fn count_true(s: Seq<bool>) -> nat
    decreases s.len(),
{
    if s.len() == 0 {
        0
    } else {
        count_true(s.drop_last()) + if s.last() {
            1nat
        } else {
            0nat
        }
    }
}

pub proof fn lemma_count_true_update(s: Seq<bool>, i: int, v: bool)
    requires
        0 <= i < s.len(),
    ensures
        count_true(s.update(i, v)) + (if s[i] { 1int } else { 0int }) == count_true(s) + (if v {
            1int
        } else {
            0int
        }),
    decreases s.len(),
{
    let t = s.update(i, v);
    if i == s.len() - 1 {
        assert(t.drop_last() =~= s.drop_last());
    } else {
        assert(t.drop_last() =~= s.drop_last().update(i, v));
        lemma_count_true_update(s.drop_last(), i, v);
    }
}

pub proof fn lemma_count_true_bound(s: Seq<bool>)
    ensures
        count_true(s) <= s.len(),
    decreases s.len(),
{
    if s.len() > 0 {
        lemma_count_true_bound(s.drop_last());
    }
}

/// A set whose members all lie below `k` has at most `k` members.
pub proof fn lemma_count_true_below(s: Seq<bool>, k: int)
    requires
        k >= 0,
        forall|v: int| 0 <= v < s.len() && #[trigger] s[v] ==> v < k,
    ensures
        count_true(s) <= k,
    decreases s.len(),
{
    if s.len() > 0 {
        lemma_count_true_below(s.drop_last(), k);
        if s.len() > k {
            assert(!s[s.len() - 1]);
        } else {
            lemma_count_true_bound(s.drop_last());
        }
    }
}

/// A set holding every index below `k` has at least `k` members.
pub proof fn lemma_count_true_prefix(s: Seq<bool>, k: int)
    requires
        0 <= k <= s.len(),
        forall|v: int| 0 <= v < k ==> #[trigger] s[v],
    ensures
        count_true(s) >= k,
    decreases s.len(),
{
    if s.len() > 0 {
        if k == s.len() {
            lemma_count_true_prefix(s.drop_last(), k - 1);
        } else {
            lemma_count_true_prefix(s.drop_last(), k);
        }
    }
}

/// A set with as many members as places holds every place.
pub proof fn lemma_count_true_full(s: Seq<bool>)
    requires
        count_true(s) >= s.len(),
    ensures
        forall|i: int| 0 <= i < s.len() ==> s[i],
    decreases s.len(),
{
    if s.len() > 0 {
        lemma_count_true_bound(s.drop_last());
        lemma_count_true_full(s.drop_last());
        assert forall|i: int| 0 <= i < s.len() implies s[i] by {
            if i < s.len() - 1 {
                assert(s.drop_last()[i] == s[i]);
            }
        }
    }
}

/// A set with no member holds no place.
pub proof fn lemma_count_true_zero(s: Seq<bool>)
    requires
        count_true(s) == 0,
    ensures
        forall|i: int| 0 <= i < s.len() ==> !s[i],
    decreases s.len(),
{
    if s.len() > 0 {
        lemma_count_true_zero(s.drop_last());
        assert forall|i: int| 0 <= i < s.len() implies !s[i] by {
            if i < s.len() - 1 {
                assert(s.drop_last()[i] == s[i]);
            }
        }
    }
}

pub proof fn lemma_count_true_all(s: Seq<bool>)
    requires
        forall|i: int| 0 <= i < s.len() ==> !s[i],
    ensures
        count_true(s) == 0,
    decreases s.len(),
{
    if s.len() > 0 {
        lemma_count_true_all(s.drop_last());
    }
}

impl TieNetwork {
    /// A step from `a` to `b` along a tie, of strength `only` when given.
    pub open spec fn step_ok(&self, a: int, b: int, only: Option<TieStrength>) -> bool {
        match only {
            None => self.adjacent(a, b),
            Some(s) => self.weight(a, b) == Some(s),
        }
    }

    /// `p` is a walk through nodes of the network along ties (of strength
    /// `only` when given).
    pub open spec fn is_walk(&self, p: Seq<int>, only: Option<TieStrength>) -> bool {
        &&& p.len() >= 1
        &&& forall|i: int| 0 <= i < p.len() ==> 0 <= #[trigger] p[i] < self.size()
        &&& forall|i: int| 0 <= i < p.len() - 1 ==> self.step_ok(#[trigger] p[i], p[i + 1], only)
    }

    /// There is a walk from `a` to `b` (of ties of strength `only` when given).
    pub open spec fn reaches(&self, a: int, b: int, only: Option<TieStrength>) -> bool {
        exists|p: Seq<int>| #[trigger] self.is_walk(p, only) && p[0] == a && p.last() == b
    }

    /// Some seed reaches `v`.
    pub open spec fn reached_from(&self, seeds: Seq<usize>, v: int, only: Option<TieStrength>) -> bool {
        exists|i: int| 0 <= i < seeds.len() && #[trigger] self.reaches(seeds[i] as int, v, only)
    }

    pub proof fn lemma_reaches_self(&self, a: int, only: Option<TieStrength>)
        requires
            0 <= a < self.size(),
        ensures
            self.reaches(a, a, only),
    {
        let p = seq![a];
        assert(self.is_walk(p, only));
    }

    pub proof fn lemma_reaches_step(&self, a: int, b: int, c: int, only: Option<TieStrength>)
        requires
            self.reaches(a, b, only),
            0 <= c < self.size(),
            self.step_ok(b, c, only),
        ensures
            self.reaches(a, c, only),
    {
        let p = choose|p: Seq<int>| #[trigger] self.is_walk(p, only) && p[0] == a && p.last() == b;
        let q = p.push(c);
        assert forall|i: int| 0 <= i < q.len() - 1 implies self.step_ok(#[trigger] q[i], q[i + 1], only) by {
            if i < p.len() - 1 {
                assert(q[i] == p[i] && q[i + 1] == p[i + 1]);
            } else {
                assert(q[i] == b);
            }
        }
        assert(self.is_walk(q, only));
    }

    /// A set of nodes closed under steps holds the end of every walk that
    /// starts in it.
    pub proof fn lemma_closed_holds_walk(&self, vis: Seq<bool>, p: Seq<int>, only: Option<TieStrength>)
        requires
            vis.len() == self.size(),
            self.is_walk(p, only),
            vis[p[0]],
            forall|u: int, w: int|
                0 <= u < self.size() && 0 <= w < self.size() && vis[u] && #[trigger] self.step_ok(u, w, only)
                    ==> vis[w],
        ensures
            vis[p.last()],
        decreases p.len(),
    {
        if p.len() > 1 {
            let q = p.drop_last();
            assert(self.is_walk(q, only)) by {
                assert forall|i: int| 0 <= i < q.len() - 1 implies self.step_ok(#[trigger] q[i], q[i + 1], only) by {
                    assert(q[i] == p[i] && q[i + 1] == p[i + 1]);
                    assert(self.step_ok(p[i], p[i + 1], only));
                }
            }
            self.lemma_closed_holds_walk(vis, q, only);
            assert(self.step_ok(p[p.len() - 2], p[p.len() - 1], only));
        }
    }

    fn step_allowed(&self, a: usize, b: usize, only: Option<TieStrength>) -> (r: bool)
        requires
            self.valid(),
            a < self.size(),
            b < self.size(),
        ensures
            r == self.step_ok(a as int, b as int, only),
    {
        match (self.edge_weight(a, b), only) {
            (None, _) => false,
            (Some(_), None) => true,
            (Some(TieStrength::Strong), Some(TieStrength::Strong)) => true,
            (Some(TieStrength::Weak), Some(TieStrength::Weak)) => true,
            _ => false,
        }
    }

    /// The nodes reached from `seeds` by walking along ties (only those of
    /// strength `only`, when given): entry `v` tells whether `v` is reached.
    /// Every seed reaches itself.
    pub fn reachable_from(&self, seeds: &Vec<usize>, only: Option<TieStrength>) -> (r: Vec<bool>)
        requires
            self.valid(),
            forall|i: int| 0 <= i < seeds@.len() ==> #[trigger] seeds@[i] < self.size(),
        ensures
            r@.len() == self.size(),
            forall|v: int| 0 <= v < self.size() ==> #[trigger] r@[v] == self.reached_from(seeds@, v, only),
    {
        let n = self.node_count();
        let mut vis: Vec<bool> = Vec::new();
        let mut i: usize = 0;
        while i < n
            invariant
                i <= n,
                vis@.len() == i,
                forall|k: int| 0 <= k < i ==> !vis@[k],
            decreases n - i,
        {
            vis.push(false);
            i = i + 1;
        }
        proof {
            lemma_count_true_all(vis@);
        }
        let mut queue: Vec<usize> = Vec::new();
        let mut j: usize = 0;
        while j < seeds.len()
            invariant
                self.valid(),
                n == self.size(),
                forall|i: int| 0 <= i < seeds@.len() ==> #[trigger] seeds@[i] < self.size(),
                j <= seeds@.len(),
                vis@.len() == n,
                count_true(vis@) == queue@.len(),
                forall|k: int| 0 <= k < queue@.len() ==> #[trigger] queue@[k] < n && vis@[queue@[k] as int],
                forall|v: int| 0 <= v < n && vis@[v] ==> exists|k: int| 0 <= k < queue@.len() && queue@[k] == v,
                forall|v: int| 0 <= v < n && vis@[v] ==> self.reached_from(seeds@, v, only),
                forall|k: int| 0 <= k < j ==> vis@[#[trigger] seeds@[k] as int],
            decreases seeds@.len() - j,
        {
            let s = seeds[j];
            if !vis[s] {
                proof {
                    lemma_count_true_update(vis@, s as int, true);
                }
                let ghost old_queue = queue@;
                vis.set(s, true);
                queue.push(s);
                proof {
                    self.lemma_reaches_self(s as int, only);
                    assert(self.reaches(seeds@[j as int] as int, s as int, only));
                    assert forall|v: int| 0 <= v < n && vis@[v] implies exists|k: int| 0 <= k < queue@.len() && queue@[k] == v by {
                        if v == s {
                            assert(queue@[queue@.len() - 1] == v);
                        } else {
                            let k = choose|k: int| 0 <= k < old_queue.len() && old_queue[k] == v;
                            assert(queue@[k] == v);
                        }
                    }
                }
            }
            j = j + 1;
        }
        proof {
            lemma_count_true_bound(vis@);
        }
        let mut head: usize = 0;
        while head < queue.len()
            invariant
                self.valid(),
                n == self.size(),
                vis@.len() == n,
                count_true(vis@) == queue@.len(),
                head <= queue@.len() <= n,
                forall|i: int| 0 <= i < seeds@.len() ==> #[trigger] seeds@[i] < self.size(),
                forall|k: int| 0 <= k < queue@.len() ==> #[trigger] queue@[k] < n && vis@[queue@[k] as int],
                forall|v: int| 0 <= v < n && vis@[v] ==> exists|k: int| 0 <= k < queue@.len() && queue@[k] == v,
                forall|v: int| 0 <= v < n && vis@[v] ==> self.reached_from(seeds@, v, only),
                forall|k: int| 0 <= k < seeds@.len() ==> vis@[#[trigger] seeds@[k] as int],
                forall|k: int, w: int|
                    0 <= k < head && 0 <= w < n && #[trigger] self.step_ok(queue@[k] as int, w, only) ==> vis@[w],
            decreases 2 * n - queue@.len() - head,
        {
            let cur = queue[head];
            let ghost q0 = queue@.len();
            let mut w: usize = 0;
            while w < n
                invariant
                    self.valid(),
                    n == self.size(),
                    cur < n,
                    cur == queue@[head as int],
                    vis@.len() == n,
                    count_true(vis@) == queue@.len(),
                    head < queue@.len() <= n,
                    q0 <= queue@.len(),
                    w <= n,
                    forall|i: int| 0 <= i < seeds@.len() ==> #[trigger] seeds@[i] < self.size(),
                    forall|k: int| 0 <= k < queue@.len() ==> #[trigger] queue@[k] < n && vis@[queue@[k] as int],
                    forall|v: int| 0 <= v < n && vis@[v] ==> exists|k: int| 0 <= k < queue@.len() && queue@[k] == v,
                    forall|v: int| 0 <= v < n && vis@[v] ==> self.reached_from(seeds@, v, only),
                    forall|k: int| 0 <= k < seeds@.len() ==> vis@[#[trigger] seeds@[k] as int],
                    forall|k: int, x: int|
                        0 <= k < head && 0 <= x < n && #[trigger] self.step_ok(queue@[k] as int, x, only) ==> vis@[x],
                    forall|x: int| 0 <= x < w && #[trigger] self.step_ok(cur as int, x, only) ==> vis@[x],
                decreases n - w,
            {
                if self.step_allowed(cur, w, only) && !vis[w] {
                    proof {
                        lemma_count_true_update(vis@, w as int, true);
                        lemma_count_true_bound(vis@.update(w as int, true));
                        let i0 = choose|i: int| 0 <= i < seeds@.len() && #[trigger] self.reaches(seeds@[i] as int, cur as int, only);
                        self.lemma_reaches_step(seeds@[i0] as int, cur as int, w as int, only);
                    }
                    let ghost old_queue = queue@;
                    vis.set(w, true);
                    queue.push(w);
                    proof {
                        assert forall|v: int| 0 <= v < n && vis@[v] implies exists|k: int| 0 <= k < queue@.len() && queue@[k] == v by {
                            if v == w {
                                assert(queue@[queue@.len() - 1] == v);
                            } else {
                                let k = choose|k: int| 0 <= k < old_queue.len() && old_queue[k] == v;
                                assert(queue@[k] == v);
                            }
                        }
                        assert forall|k: int, x: int|
                            0 <= k < head && 0 <= x < n && #[trigger] self.step_ok(queue@[k] as int, x, only) implies vis@[x] by {
                            assert(queue@[k] == old_queue[k]);
                        }
                    }
                }
                w = w + 1;
            }
            head = head + 1;
        }
        proof {
            assert forall|u: int, x: int|
                0 <= u < n && 0 <= x < n && vis@[u] && #[trigger] self.step_ok(u, x, only) implies vis@[x] by {
                let k = choose|k: int| 0 <= k < queue@.len() && queue@[k] == u;
                assert(self.step_ok(queue@[k] as int, x, only));
            }
            assert forall|v: int| 0 <= v < n implies #[trigger] vis@[v] == self.reached_from(seeds@, v, only) by {
                if self.reached_from(seeds@, v, only) {
                    let i0 = choose|i: int| 0 <= i < seeds@.len() && #[trigger] self.reaches(seeds@[i] as int, v, only);
                    let p = choose|p: Seq<int>| #[trigger] self.is_walk(p, only) && p[0] == seeds@[i0] as int && p.last() == v;
                    self.lemma_closed_holds_walk(vis@, p, only);
                }
            }
        }
        vis
    }
}


impl TieNetwork {
    /// `v` is the smallest node of its connected component.
    pub open spec fn is_component_root(&self, v: int) -> bool {
        forall|u: int| 0 <= u < v ==> !#[trigger] self.reaches(u, v, None)
    }

    /// Number of nodes below `k` that are the smallest of their component.
    pub open spec fn roots_below(&self, k: int) -> nat
        decreases k,
    {
        if k <= 0 {
            0
        } else {
            self.roots_below(k - 1) + if self.is_component_root(k - 1) {
                1nat
            } else {
                0nat
            }
        }
    }

    /// Number of connected components.
    pub open spec fn component_total(&self) -> nat {
        self.roots_below(self.size() as int)
    }

    /// Number of nodes in the connected component of `v`.
    pub open spec fn component_size(&self, v: int) -> nat {
        count_true(Seq::new(self.size(), |u: int| self.reaches(v, u, None)))
    }

    pub proof fn lemma_reaches_trans(&self, a: int, b: int, c: int, only: Option<TieStrength>)
        requires
            self.reaches(a, b, only),
            self.reaches(b, c, only),
        ensures
            self.reaches(a, c, only),
    {
        let p = choose|p: Seq<int>| #[trigger] self.is_walk(p, only) && p[0] == a && p.last() == b;
        let q = choose|q: Seq<int>| #[trigger] self.is_walk(q, only) && q[0] == b && q.last() == c;
        let r = p + q.drop_first();
        assert forall|i: int| 0 <= i < r.len() implies 0 <= #[trigger] r[i] < self.size() by {
            if i < p.len() {
                assert(r[i] == p[i]);
            } else {
                assert(r[i] == q[i - p.len() + 1]);
            }
        }
        assert forall|i: int| 0 <= i < r.len() - 1 implies self.step_ok(#[trigger] r[i], r[i + 1], only) by {
            if i < p.len() - 1 {
                assert(r[i] == p[i] && r[i + 1] == p[i + 1]);
            } else if i == p.len() - 1 {
                assert(r[i] == b && r[i + 1] == q[1]);
                assert(self.step_ok(q[0], q[1], only));
            } else {
                assert(r[i] == q[i - p.len() + 1] && r[i + 1] == q[i - p.len() + 2]);
                assert(self.step_ok(q[i - p.len() + 1], q[i - p.len() + 2], only));
            }
        }
        assert(self.is_walk(r, only));
        if q.len() == 1 {
            assert(r =~= p);
        } else {
            assert(r.last() == q.last());
        }
    }

    proof fn lemma_single_seed(&self, v: int, u: int, only: Option<TieStrength>)
        ensures
            self.reached_from(seq![v as usize], u, only) == self.reaches(v as usize as int, u, only),
    {
        if self.reaches(v as usize as int, u, only) {
            assert(seq![v as usize][0] == v as usize);
        }
    }

    /// Number of connected components.
    pub fn connected_components(&self) -> (r: usize)
        requires
            self.valid(),
        ensures
            r == self.component_total(),
    {
        let n = self.node_count();
        let mut assigned: Vec<bool> = Vec::new();
        let mut i: usize = 0;
        while i < n
            invariant
                i <= n,
                assigned@.len() == i,
                forall|k: int| 0 <= k < i ==> !assigned@[k],
            decreases n - i,
        {
            assigned.push(false);
            i = i + 1;
        }
        let mut count: usize = 0;
        let mut v: usize = 0;
        while v < n
            invariant
                self.valid(),
                n == self.size(),
                v <= n,
                assigned@.len() == n,
                count == self.roots_below(v as int),
                count <= v,
                forall|u: int| 0 <= u < n ==> (#[trigger] assigned@[u] <==> exists|r: int| 0 <= r < v && #[trigger] self.reaches(r, u, None)),
            decreases n - v,
        {
            if !assigned[v] {
                let seeds = vec![v];
                let reach = self.reachable_from(&seeds, None);
                let mut u: usize = 0;
                while u < n
                    invariant
                        self.valid(),
                        n == self.size(),
                        v < n,
                        seeds@ == seq![v],
                        reach@.len() == n,
                        forall|x: int| 0 <= x < n ==> #[trigger] reach@[x] == self.reached_from(seeds@, x, None),
                        assigned@.len() == n,
                        u <= n,
                        forall|x: int| 0 <= x < n ==> (#[trigger] assigned@[x] <==> (exists|r: int| 0 <= r < v && #[trigger] self.reaches(r, x, None)) || (x < u && self.reaches(v as int, x, None))),
                    decreases n - u,
                {
                    proof {
                        self.lemma_single_seed(v as int, u as int, None);
                    }
                    if reach[u] {
                        assigned.set(u, true);
                    }
                    u = u + 1;
                }
                proof {
                    assert(self.is_component_root(v as int)) by {
                        assert forall|r: int| 0 <= r < v implies !#[trigger] self.reaches(r, v as int, None) by {
                            if self.reaches(r, v as int, None) {
                                assert(assigned@[v as int]);
                            }
                        }
                    }
                    assert forall|x: int| 0 <= x < n implies (#[trigger] assigned@[x] <==> exists|r: int| 0 <= r < v + 1 && #[trigger] self.reaches(r, x, None)) by {
                        if self.reaches(v as int, x, None) {
                            assert(0 <= v < v + 1 && self.reaches(v as int, x, None));
                        }
                        if exists|r: int| 0 <= r < v + 1 && #[trigger] self.reaches(r, x, None) {
                            let r = choose|r: int| 0 <= r < v + 1 && #[trigger] self.reaches(r, x, None);
                            if r < v {
                                assert(exists|r: int| 0 <= r < v && #[trigger] self.reaches(r, x, None));
                            }
                        }
                    }
                }
                count = count + 1;
            } else {
                proof {
                    let r0 = choose|r: int| 0 <= r < v && #[trigger] self.reaches(r, v as int, None);
                    assert(!self.is_component_root(v as int));
                    assert forall|x: int| 0 <= x < n implies (#[trigger] assigned@[x] <==> exists|r: int| 0 <= r < v + 1 && #[trigger] self.reaches(r, x, None)) by {
                        if exists|r: int| 0 <= r < v + 1 && #[trigger] self.reaches(r, x, None) {
                            let r = choose|r: int| 0 <= r < v + 1 && #[trigger] self.reaches(r, x, None);
                            if r == v {
                                self.lemma_reaches_trans(r0, v as int, x, None);
                                assert(0 <= r0 < v && self.reaches(r0, x, None));
                            } else {
                                assert(0 <= r < v && self.reaches(r, x, None));
                            }
                        }
                    }
                }
            }
            v = v + 1;
        }
        count
    }
}


/// Number of `true` entries of `s`.
pub fn count_marked(s: &Vec<bool>) -> (r: usize)
    ensures
        r == count_true(s@),
{
    let mut c: usize = 0;
    let mut i: usize = 0;
    while i < s.len()
        invariant
            i <= s@.len(),
            c == count_true(s@.take(i as int)),
            c <= i,
        decreases s@.len() - i,
    {
        proof {
            assert(s@.take(i + 1).drop_last() =~= s@.take(i as int));
        }
        if s[i] {
            c = c + 1;
        }
        i = i + 1;
    }
    assert(s@.take(s@.len() as int) =~= s@);
    c
}

impl TieNetwork {
    /// Number of nodes in the connected component of `v`.
    pub fn component_size_of(&self, v: usize) -> (r: usize)
        requires
            self.valid(),
            v < self.size(),
        ensures
            r == self.component_size(v as int),
    {
        let seeds = vec![v];
        let reach = self.reachable_from(&seeds, None);
        proof {
            assert forall|u: int| 0 <= u < self.size() implies reach@[u] == Seq::new(self.size(), |u: int| self.reaches(v as int, u, None))[u] by {
                self.lemma_single_seed(v as int, u, None);
            }
            assert(reach@ =~= Seq::new(self.size(), |u: int| self.reaches(v as int, u, None)));
        }
        count_marked(&reach)
    }

    /// Number of nodes in a largest connected component (0 for no nodes).
    pub fn largest_component_size(&self) -> (r: usize)
        requires
            self.valid(),
        ensures
            forall|v: int| 0 <= v < self.size() ==> self.component_size(v) <= r,
            self.size() == 0 ==> r == 0,
            self.size() > 0 ==> exists|v: int| 0 <= v < self.size() && self.component_size(v) == r,
    {
        let n = self.node_count();
        let mut best: usize = 0;
        let mut v: usize = 0;
        while v < n
            invariant
                self.valid(),
                n == self.size(),
                v <= n,
                forall|x: int| 0 <= x < v ==> self.component_size(x) <= best,
                v == 0 ==> best == 0,
                v > 0 ==> exists|x: int| 0 <= x < v && self.component_size(x) == best,
            decreases n - v,
        {
            let c = self.component_size_of(v);
            if v == 0 || c > best {
                best = c;
            }
            v = v + 1;
        }
        best
    }
}


/// The pair `{x, y}` is in `list`, in either order.
pub open spec fn listed(list: Seq<(usize, usize)>, x: int, y: int) -> bool {
    exists|i: int|
        0 <= i < list.len() && ((#[trigger] list[i].0 == x && list[i].1 == y) || (list[i].0 == y && list[i].1 == x))
}

impl TieNetwork {
    /// Removes the ties between the listed pairs.
    pub fn remove_listed(&mut self, list: &Vec<(usize, usize)>)
        requires
            old(self).valid(),
            forall|i: int| 0 <= i < list@.len() ==> #[trigger] list@[i].0 < old(self).size() && list@[i].1 < old(self).size(),
        ensures
            final(self).valid(),
            final(self).size() == old(self).size(),
            forall|x: int, y: int|
                0 <= x < old(self).size() && 0 <= y < old(self).size() ==> #[trigger] final(self).weight(x, y) == if listed(
                    list@,
                    x,
                    y,
                ) {
                    None
                } else {
                    old(self).weight(x, y)
                },
            ((forall|i: int| 0 <= i < list@.len() ==> #[trigger] list@[i].0 < list@[i].1 && old(self).adjacent(list@[i].0 as int, list@[i].1 as int))
                && list@.no_duplicates()) ==> final(self).edge_total() + list@.len() == old(self).edge_total(),
    {
        let ghost start = *self;
        let ghost n = start.size();
        let ghost distinct = (forall|i: int| 0 <= i < list@.len() ==> #[trigger] list@[i].0 < list@[i].1 && start.adjacent(list@[i].0 as int, list@[i].1 as int))
            && list@.no_duplicates();
        let mut k: usize = 0;
        while k < list.len()
            invariant
                self.valid(),
                start.valid(),
                self.size() == n,
                n == start.size(),
                k <= list@.len(),
                forall|i: int| 0 <= i < list@.len() ==> #[trigger] list@[i].0 < n && list@[i].1 < n,
                distinct == ((forall|i: int| 0 <= i < list@.len() ==> #[trigger] list@[i].0 < list@[i].1 && start.adjacent(list@[i].0 as int, list@[i].1 as int))
                    && list@.no_duplicates()),
                forall|x: int, y: int|
                    0 <= x < n && 0 <= y < n ==> #[trigger] self.weight(x, y) == if listed(list@.take(k as int), x, y) {
                        None
                    } else {
                        start.weight(x, y)
                    },
                distinct ==> self.edge_total() + k == start.edge_total(),
            decreases list@.len() - k,
        {
            let (a, b) = list[k];
            let ghost before = *self;
            proof {
                if distinct {
                    if listed(list@.take(k as int), a as int, b as int) {
                        let i = choose|i: int|
                            0 <= i < list@.take(k as int).len() && ((#[trigger] list@.take(k as int)[i].0 == a && list@.take(k as int)[i].1 == b) || (list@.take(k as int)[i].0 == b && list@.take(k as int)[i].1 == a));
                        assert(list@[i] == list@.take(k as int)[i]);
                        assert(list@[i].0 < list@[i].1);
                        assert(list@[k as int].0 < list@[k as int].1);
                        assert(list@[i] == list@[k as int]);
                    }
                    assert(before.adjacent(a as int, b as int));
                }
            }
            self.remove_edge(a, b);
            proof {
                let t0 = list@.take(k as int);
                let t1 = list@.take(k + 1);
                assert forall|x: int, y: int| 0 <= x < n && 0 <= y < n implies #[trigger] self.weight(x, y) == if listed(t1, x, y) {
                    None
                } else {
                    start.weight(x, y)
                } by {
                    if (x == a && y == b) || (x == b && y == a) {
                        assert(t1[k as int] == list@[k as int]);
                        assert(listed(t1, x, y));
                    } else {
                        if listed(t1, x, y) {
                            let i = choose|i: int| 0 <= i < t1.len() && ((#[trigger] t1[i].0 == x && t1[i].1 == y) || (t1[i].0 == y && t1[i].1 == x));
                            assert(i < k);
                            assert(t0[i] == t1[i]);
                            assert(listed(t0, x, y));
                        }
                        if listed(t0, x, y) {
                            let i = choose|i: int| 0 <= i < t0.len() && ((#[trigger] t0[i].0 == x && t0[i].1 == y) || (t0[i].0 == y && t0[i].1 == x));
                            assert(t0[i] == t1[i]);
                            assert(listed(t1, x, y));
                        }
                    }
                }
            }
            k = k + 1;
        }
        proof {
            assert(list@.take(list@.len() as int) =~= list@);
        }
    }

    /// Removes the ties between the first `count` pairs of `order`.
    pub fn remove_first(&mut self, order: &Vec<(usize, usize)>, count: usize)
        requires
            old(self).valid(),
            count <= order@.len(),
            forall|i: int| 0 <= i < order@.len() ==> #[trigger] order@[i].0 < old(self).size() && order@[i].1 < old(self).size(),
        ensures
            final(self).valid(),
            final(self).size() == old(self).size(),
            forall|x: int, y: int|
                0 <= x < old(self).size() && 0 <= y < old(self).size() ==> #[trigger] final(self).weight(x, y) == if listed(
                    order@.take(count as int),
                    x,
                    y,
                ) {
                    None
                } else {
                    old(self).weight(x, y)
                },
            ((forall|i: int| 0 <= i < order@.len() ==> #[trigger] order@[i].0 < order@[i].1 && old(self).adjacent(order@[i].0 as int, order@[i].1 as int))
                && order@.no_duplicates()) ==> final(self).edge_total() + count == old(self).edge_total(),
    {
        let mut first: Vec<(usize, usize)> = Vec::new();
        let mut k: usize = 0;
        while k < count
            invariant
                count <= order@.len(),
                k <= count,
                first@ == order@.take(k as int),
            decreases count - k,
        {
            first.push(order[k]);
            k = k + 1;
            proof {
                assert(first@ =~= order@.take(k as int));
            }
        }
        proof {
            assert forall|i: int| 0 <= i < first@.len() implies #[trigger] first@[i].0 < self.size() && first@[i].1 < self.size() by {
                assert(first@[i] == order@[i]);
            }
            if (forall|i: int| 0 <= i < order@.len() ==> #[trigger] order@[i].0 < order@[i].1 && self.adjacent(order@[i].0 as int, order@[i].1 as int))
                && order@.no_duplicates() {
                assert forall|i: int| 0 <= i < first@.len() implies #[trigger] first@[i].0 < first@[i].1 && self.adjacent(first@[i].0 as int, first@[i].1 as int) by {
                    assert(first@[i] == order@[i]);
                }
                assert forall|i: int, j: int| 0 <= i < first@.len() && 0 <= j < first@.len() && i != j implies first@[i] != first@[j] by {
                    assert(first@[i] == order@[i] && first@[j] == order@[j]);
                }
            }
        }
        self.remove_listed(&first);
    }
}

} // verus!
