//! Measures of a network and of a diffusion run: local bridges and how
//! many are weak, forbidden triads, reach along ties of one strength, the
//! largest component, and the rows written out for a network.
//!
//! Shares are given as exact counts (part, whole); a caller divides.
use vstd::prelude::*;
use crate::graph::{pairs_where, PairKind, TieNetwork};
use crate::mechanisms::count_where;
use crate::world::{TieStrength, WeakTieWorld};

verus! {

/// Number of local bridges.
pub fn n_local_bridges(net: &TieNetwork) -> (r: usize)
    requires
        net.valid(),
    ensures
        r == net.bridge_pairs().len(),
{
    net.local_bridges().len()
}

/// The local bridges that are weak ties, and all local bridges (the share
/// of weak ties among the bridges; with no bridge, nothing contradicts
/// "all bridges are weak").
pub fn weak_bridge_counts(net: &TieNetwork) -> (r: (usize, usize))
    requires
        net.valid(),
    ensures
        r.0 == net.weak_bridge_pairs().len(),
        r.1 == net.bridge_pairs().len(),
{
    let weak = net.pairs_of_kind(PairKind::WeakBridge).len();
    let all = net.pairs_of_kind(PairKind::Bridge).len();
    (weak, all)
}

/// Number of strong two-paths `x - c - y` (with `x < y`) over centres `c < k`,
/// and, when `open`, only those whose ends are not tied (forbidden triads).
pub open spec fn wedge_total(net: &TieNetwork, k: int, open: bool) -> nat
    decreases k,
{
    if k <= 0 {
        0
    } else {
        wedge_total(net, k - 1, open) + pairs_where(net.size() as int, net.wedge_pred(k - 1, open)).len()
    }
}

/// The forbidden triads (A-B strong, A-C strong, B-C absent) and all strong
/// two-paths (A-B strong, A-C strong): the observed rate of forbidden
/// triads is the first over the second (zero when there is no strong
/// two-path).
pub fn forbidden_triad_counts(net: &TieNetwork) -> (r: (u128, u128))
    requires
        net.valid(),
    ensures
        r.0 == wedge_total(net, net.size() as int, true),
        r.1 == wedge_total(net, net.size() as int, false),
{
    let n = net.node_count();
    let mut forbidden: u128 = 0;
    let mut total: u128 = 0;
    let mut c: usize = 0;
    while c < n
        invariant
            net.valid(),
            n == net.size(),
            c <= n,
            forbidden == wedge_total(net, c as int, true),
            total == wedge_total(net, c as int, false),
            forbidden <= c * (usize::MAX as int),
            total <= c * (usize::MAX as int),
        decreases n - c,
    {
        let open = net.pairs_of_kind(PairKind::OpenStrongWedge(c)).len();
        let all = net.pairs_of_kind(PairKind::StrongWedge(c)).len();
        assert(forbidden + open <= (c + 1) * (usize::MAX as int) && total + all <= (c + 1) * (usize::MAX as int)
            && (c + 1) * (usize::MAX as int) <= u128::MAX) by (nonlinear_arith)
            requires
                forbidden <= c * (usize::MAX as int),
                total <= c * (usize::MAX as int),
                open <= usize::MAX,
                all <= usize::MAX,
                c < usize::MAX,
                usize::MAX <= u64::MAX,
        ;
        forbidden = forbidden + open as u128;
        total = total + all as u128;
        c = c + 1;
    }
    (forbidden, total)
}

/// `v` is reached from the seeds along ties of strength `s` and is not
/// itself a seed.
pub open spec fn reached_beyond_seeds(net: &TieNetwork, seeds: Seq<usize>, s: TieStrength, v: int) -> bool {
    net.reached_from(seeds, v, Some(s)) && !seeds.contains(v as usize)
}

/// Number of agents reached from the seeds along ties of strength `s`
/// alone, the seeds themselves left out.
pub open spec fn reach_count(net: &TieNetwork, seeds: Seq<usize>, s: TieStrength) -> nat {
    count_where(net.size() as int, |v: int| reached_beyond_seeds(net, seeds, s, v))
}

fn reach_beyond(net: &TieNetwork, seeds: &Vec<usize>, s: TieStrength) -> (r: usize)
    requires
        net.valid(),
        forall|i: int| 0 <= i < seeds@.len() ==> #[trigger] seeds@[i] < net.size(),
    ensures
        r == reach_count(net, seeds@, s),
{
    let n = net.node_count();
    let reach = net.reachable_from(seeds, Some(s));
    let mut is_seed: Vec<bool> = Vec::new();
    let mut i: usize = 0;
    while i < n
        invariant
            i <= n,
            is_seed@.len() == i,
            forall|k: int| 0 <= k < i ==> !is_seed@[k],
        decreases n - i,
    {
        is_seed.push(false);
        i = i + 1;
    }
    let mut j: usize = 0;
    while j < seeds.len()
        invariant
            n == net.size(),
            forall|i: int| 0 <= i < seeds@.len() ==> #[trigger] seeds@[i] < n,
            is_seed@.len() == n,
            j <= seeds@.len(),
            forall|v: int| 0 <= v < n ==> (#[trigger] is_seed@[v] <==> seeds@.take(j as int).contains(v as usize)),
        decreases seeds@.len() - j,
    {
        let s0 = seeds[j];
        is_seed.set(s0, true);
        proof {
            let t1 = seeds@.take(j + 1);
            let t0 = seeds@.take(j as int);
            assert forall|v: int| 0 <= v < n implies (#[trigger] is_seed@[v] <==> t1.contains(v as usize)) by {
                if v == s0 as int {
                    assert(t1[j as int] == s0);
                } else {
                    if t1.contains(v as usize) {
                        let k = choose|k: int| 0 <= k < t1.len() && #[trigger] t1[k] == v as usize;
                        assert(t0[k] == v as usize);
                    }
                    if t0.contains(v as usize) {
                        let k = choose|k: int| 0 <= k < t0.len() && #[trigger] t0[k] == v as usize;
                        assert(t1[k] == v as usize);
                    }
                }
            }
        }
        j = j + 1;
    }
    proof {
        assert(seeds@.take(seeds@.len() as int) =~= seeds@);
    }
    let ghost p = |v: int| reached_beyond_seeds(net, seeds@, s, v);
    let mut count: usize = 0;
    let mut v: usize = 0;
    while v < n
        invariant
            n == net.size(),
            reach@.len() == n,
            is_seed@.len() == n,
            forall|x: int| 0 <= x < n ==> #[trigger] reach@[x] == net.reached_from(seeds@, x, Some(s)),
            forall|x: int| 0 <= x < n ==> (#[trigger] is_seed@[x] <==> seeds@.contains(x as usize)),
            p == (|v: int| reached_beyond_seeds(net, seeds@, s, v)),
            v <= n,
            count == count_where(v as int, p),
            count <= v,
        decreases n - v,
    {
        if reach[v] && !is_seed[v] {
            count = count + 1;
        }
        v = v + 1;
    }
    count
}

/// The agents reached from the seeds along strong ties alone, and along
/// weak ties alone (structural reach, the seeds left out).
pub fn reach_by_strength(net: &TieNetwork, seeds: &Vec<usize>) -> (r: (usize, usize))
    requires
        net.valid(),
        forall|i: int| 0 <= i < seeds@.len() ==> #[trigger] seeds@[i] < net.size(),
    ensures
        r.0 == reach_count(net, seeds@, TieStrength::Strong),
        r.1 == reach_count(net, seeds@, TieStrength::Weak),
{
    let strong = reach_beyond(net, seeds, TieStrength::Strong);
    let weak = reach_beyond(net, seeds, TieStrength::Weak);
    (strong, weak)
}

/// One row of the list of edges.
pub struct EdgeRow {
    pub a: u64,
    pub b: u64,
    pub strength: &'static str,
}

/// The edges as rows `(a, b, strength)` with `a < b`, sorted by `(a, b)`.
pub fn edge_rows(net: &TieNetwork) -> (r: Vec<EdgeRow>)
    requires
        net.valid(),
    ensures
        r@.len() == net.edge_pairs().len(),
        forall|i: int|
            0 <= i < r@.len() ==> (#[trigger] r@[i]).a == net.edge_pairs()[i].0 && r@[i].b == net.edge_pairs()[i].1
                && net.weight(r@[i].a as int, r@[i].b as int) is Some && r@[i].strength@ == net.weight(r@[i].a as int, r@[i].b as int).unwrap().label_text(),
{
    let edges = net.weighted_edges();
    let mut rows: Vec<EdgeRow> = Vec::new();
    let mut i: usize = 0;
    while i < edges.len()
        invariant
            net.valid(),
            edges@.len() == net.edge_pairs().len(),
            forall|k: int|
                0 <= k < edges@.len() ==> (#[trigger] edges@[k]).0 == net.edge_pairs()[k].0 && edges@[k].1
                    == net.edge_pairs()[k].1 && net.weight(edges@[k].0 as int, edges@[k].1 as int) == Some(edges@[k].2),
            i <= edges@.len(),
            rows@.len() == i,
            forall|k: int|
                0 <= k < i ==> (#[trigger] rows@[k]).a == net.edge_pairs()[k].0 && rows@[k].b == net.edge_pairs()[k].1
                    && net.weight(rows@[k].a as int, rows@[k].b as int) is Some && rows@[k].strength@ == net.weight(rows@[k].a as int, rows@[k].b as int).unwrap().label_text(),
        decreases edges@.len() - i,
    {
        let (a, b, w) = edges[i];
        rows.push(EdgeRow { a: a as u64, b: b as u64, strength: w.label() });
        i = i + 1;
    }
    rows
}

/// The cluster of each agent, as `(agent, cluster)` in increasing order of
/// agent.
pub fn cluster_map(world: &WeakTieWorld) -> (r: Vec<(u64, usize)>)
    ensures
        r@.len() == world.cluster_of@.len(),
        forall|i: int| 0 <= i < r@.len() ==> (#[trigger] r@[i]).0 == i && r@[i].1 == world.cluster_of@[i],
{
    let mut r: Vec<(u64, usize)> = Vec::new();
    let mut i: usize = 0;
    while i < world.cluster_of.len()
        invariant
            i <= world.cluster_of@.len(),
            r@.len() == i,
            forall|k: int| 0 <= k < i ==> (#[trigger] r@[k]).0 == k && r@[k].1 == world.cluster_of@[k],
        decreases world.cluster_of@.len() - i,
    {
        r.push((i as u64, world.cluster_of[i]));
        i = i + 1;
    }
    r
}

} // verus!
