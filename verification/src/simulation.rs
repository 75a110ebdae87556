//! Building a world, the ablation, and the diffusion run.
use vstd::prelude::*;
use crate::cascade::{cascade, settled, threshold_round};
use crate::config::{Config, DiffusionModel, RemovePolicy};
use crate::graph::{
    count_true, lemma_pair_list, lemma_pair_list_len_mono, listed, pair_before, pairs_where, PairKind,
    TieNetwork,
};
use crate::mechanisms::{has_informed_neighbor, round_outcome, si_round, spreads_along_ties, DiffusionMechanism};
use crate::network::{generate, generated, generated_from, GeneratedNetwork};
use crate::rng::{derive_seed, derived_seed, rng_from_seed, shuffle_draw, shuffle_in_place};
use crate::world::{TieStrength, WeakTieWorld};

verus! {

/// Label of the stream that generates the network.
pub const RNG_WORLD_INIT: u64 = 0;

/// Label of the stream of the diffusion run (activation order and SI draws).
pub const RNG_ENGINE: u64 = 1;

/// Label of the stream of the random ablation.
pub const RNG_ABLATION: u64 = 2;

/// The seeds of a run: the first `n_seeds` agents (at least one, at most
/// all of them), so that diffusion starts in cluster 0.
pub open spec fn seed_count(cfg: &Config) -> int {
    let n = cfg.clusters * cfg.cluster_size;
    if n == 0 {
        0
    } else if cfg.n_seeds < 1 {
        1
    } else if cfg.n_seeds > n {
        n
    } else {
        cfg.n_seeds as int
    }
}

/// The settings can be run: the number of agents fits in memory, and a
/// bridge never has to pick a member of an empty cluster.
pub open spec fn runnable(cfg: &Config) -> bool {
    &&& cfg.clusters * cfg.cluster_size <= usize::MAX
    &&& cfg.cluster_size > 0 || cfg.clusters < 2 || cfg.p_bridge.is_never()
}

/// What `init_world` promises of the world it builds.
pub open spec fn initialized(cfg: &Config, w: &WeakTieWorld) -> bool {
    &&& w.wf()
    &&& generated(cfg, &w.net, w.cluster_of@)
    &&& w.seeds@.len() == seed_count(cfg)
    &&& forall|i: int| 0 <= i < w.seeds@.len() ==> #[trigger] w.seeds@[i] == i
    &&& forall|v: int| 0 <= v < w.net.size() ==> (#[trigger] w.informed@[v] <==> v < w.seeds@.len())
    &&& w.n_informed_history@ == seq![seed_count(cfg) as usize]
    &&& w.max_iterations == cfg.max_iterations
}

/// Builds the world of a run: the network from the stream labelled
/// `RNG_WORLD_INIT` under `root`, and the first agents as seeds.
pub fn init_world(cfg: &Config, root: u64) -> (w: WeakTieWorld)
    requires
        runnable(cfg),
    ensures
        initialized(cfg, &w),
        // the network is fixed by the settings and the root seed
        w.net@ == generated_from(cfg, derived_seed(root, seq![RNG_WORLD_INIT]), 0).0,
{
    let path = [RNG_WORLD_INIT];
    let mut init_rng = rng_from_seed(derive_seed(root, &path));
    proof {
        assert(path@ =~= seq![RNG_WORLD_INIT]);
    }
    let g = generate(cfg, &mut init_rng);
    let GeneratedNetwork { net, cluster_of } = g;
    let n = cfg.n_agents();
    let n_seeds = if n == 0 {
        0
    } else if cfg.n_seeds < 1 {
        1
    } else if cfg.n_seeds > n {
        n
    } else {
        cfg.n_seeds
    };
    let mut seeds: Vec<usize> = Vec::new();
    let mut i: usize = 0;
    while i < n_seeds
        invariant
            n_seeds <= n,
            i <= n_seeds,
            seeds@.len() == i,
            forall|k: int| 0 <= k < i ==> #[trigger] seeds@[k] == k,
        decreases n_seeds - i,
    {
        seeds.push(i);
        i = i + 1;
    }
    let w = WeakTieWorld::new(net, cluster_of, seeds, cfg.max_iterations);
    proof {
        assert forall|v: int| 0 <= v < w.net.size() implies (#[trigger] w.informed@[v] <==> v < w.seeds@.len()) by {
            if v < w.seeds@.len() {
                assert(w.seeds@[v] == v as usize);
            }
            if w.seeds@.contains(v as usize) {
                let k = choose|k: int| 0 <= k < w.seeds@.len() && w.seeds@[k] == v as usize;
            }
        }
        crate::graph::lemma_count_true_prefix(w.informed@, n_seeds as int);
        crate::graph::lemma_count_true_below(w.informed@, n_seeds as int);
    }
    w
}

/// What an ablation by `policy` does to a network.
pub open spec fn ablated(before: &TieNetwork, after: &TieNetwork, policy: RemovePolicy) -> bool {
    let n = before.size();
    &&& after.valid()
    &&& after.size() == n
    // the baseline removes nothing
    &&& policy == RemovePolicy::Baseline ==> after.same_as(before)
    // every weak tie is removed, every strong tie kept
    &&& policy == RemovePolicy::Weak ==> forall|x: int, y: int|
        0 <= x < n && 0 <= y < n ==> #[trigger] after.weight(x, y) == if before.weight(x, y) == Some(
            TieStrength::Weak,
        ) {
            None
        } else {
            before.weight(x, y)
        }
    // every strong tie is removed, every weak tie kept
    &&& policy == RemovePolicy::Strong ==> forall|x: int, y: int|
        0 <= x < n && 0 <= y < n ==> #[trigger] after.weight(x, y) == if before.weight(x, y) == Some(
            TieStrength::Strong,
        ) {
            None
        } else {
            before.weight(x, y)
        }
    // the ties are put in some order, and as many of them as there are weak
    // ties are removed from the front; nothing else changes
    &&& policy == RemovePolicy::Random ==> {
        &&& exists|order: Seq<(usize, usize)>|
            edge_order(before, order) && #[trigger] removes_first(
                before,
                after,
                order,
                before.strength_pairs(TieStrength::Weak).len() as int,
            )
        &&& after.edge_total() + before.strength_pairs(TieStrength::Weak).len() == before.edge_total()
    }
}

/// `order` lists each tie of `net` once, as a pair `(x, y)` with `x < y`:
/// it is the list of ties, in some order.
pub open spec fn edge_order(net: &TieNetwork, order: Seq<(usize, usize)>) -> bool {
    &&& order.no_duplicates()
    &&& forall|i: int|
        0 <= i < order.len() ==> #[trigger] order[i].0 < order[i].1 < net.size() && net.adjacent(
            order[i].0 as int,
            order[i].1 as int,
        )
    &&& forall|x: int, y: int| 0 <= x < y < net.size() && #[trigger] net.adjacent(x, y) ==> listed(order, x, y)
}

/// `after` is `before` without the ties between the first `count` pairs
/// of `order`.
pub open spec fn removes_first(before: &TieNetwork, after: &TieNetwork, order: Seq<(usize, usize)>, count: int) -> bool {
    forall|x: int, y: int|
        0 <= x < before.size() && 0 <= y < before.size() ==> #[trigger] after.weight(x, y) == if listed(
            order.take(count),
            x,
            y,
        ) {
            None
        } else {
            before.weight(x, y)
        }
}

/// The order in which the random ablation under `root` takes the ties of
/// `net`: the ties by their first end and then their second, shuffled with
/// the stream labelled `RNG_ABLATION` under `root`.
pub open spec fn random_removal_order(net: &TieNetwork, root: u64) -> Seq<(usize, usize)> {
    let edges = pairs_where(net.size() as int, net.edge_pred());
    let perm = shuffle_draw(derived_seed(root, seq![RNG_ABLATION]), 0, edges.len()).0;
    Seq::new(edges.len(), |i: int| (edges[perm[i]].0 as usize, edges[perm[i]].1 as usize))
}

proof fn lemma_kind_list(net: &TieNetwork, kind: PairKind, list: Seq<(usize, usize)>)
    requires
        net.valid(),
        list.len() == pairs_where(net.size() as int, kind.pred(net)).len(),
        forall|i: int|
            0 <= i < list.len() ==> (#[trigger] list[i]).0 == pairs_where(net.size() as int, kind.pred(net))[i].0
                && list[i].1 == pairs_where(net.size() as int, kind.pred(net))[i].1,
    ensures
        forall|i: int| 0 <= i < list.len() ==> #[trigger] list[i].0 < list[i].1 < net.size() && (kind.pred(net))(list[i].0 as int, list[i].1 as int),
        forall|x: int, y: int| 0 <= x < y < net.size() && #[trigger] (kind.pred(net))(x, y) ==> listed(list, x, y),
        list.no_duplicates(),
{
    let n = net.size() as int;
    let p = kind.pred(net);
    let l = pairs_where(n, p);
    lemma_pair_list(n, 0, 1, p);
    assert forall|i: int| 0 <= i < list.len() implies #[trigger] list[i].0 < list[i].1 < net.size() && (kind.pred(net))(list[i].0 as int, list[i].1 as int) by {
        let q = l[i];
    }
    assert forall|x: int, y: int| 0 <= x < y < net.size() && #[trigger] (kind.pred(net))(x, y) implies listed(list, x, y) by {
        assert(l.contains((x, y)));
        let k = choose|k: int| 0 <= k < l.len() && l[k] == (x, y);
        assert(list[k].0 == x && list[k].1 == y);
    }
    assert forall|i: int, j: int| 0 <= i < list.len() && 0 <= j < list.len() && i != j implies list[i] != list[j] by {
        if i < j {
            assert(pair_before(l[i], l[j]));
        } else {
            assert(pair_before(l[j], l[i]));
        }
    }
}

/// Removes ties from the world's network as `cfg.remove` says: nothing,
/// every weak tie, every strong tie, or (the control) as many ties as
/// there are weak ties, drawn from the stream labelled `RNG_ABLATION`
/// under `root`.
#[verifier::spinoff_prover]
pub fn apply_ablation(world: &mut WeakTieWorld, cfg: &Config, root: u64)
    requires
        old(world).wf(),
    ensures
        final(world).wf(),
        ablated(&old(world).net, &final(world).net, cfg.remove),
        final(world).informed == old(world).informed,
        final(world).cluster_of == old(world).cluster_of,
        final(world).seeds == old(world).seeds,
        final(world).n_informed_history == old(world).n_informed_history,
        final(world).max_iterations == old(world).max_iterations,
        // the random ablation takes the ties in an order of all of them ...
        cfg.remove == RemovePolicy::Random ==> edge_order(&old(world).net, random_removal_order(&old(world).net, root)),
        // ... fixed by the network and the root seed
        cfg.remove == RemovePolicy::Random ==> removes_first(
            &old(world).net,
            &final(world).net,
            random_removal_order(&old(world).net, root),
            old(world).net.strength_pairs(TieStrength::Weak).len() as int,
        ),
{
    let ghost before = world.net;
    let ghost n = before.size();
    match cfg.remove {
        RemovePolicy::Baseline => {},
        RemovePolicy::Weak | RemovePolicy::Strong => {
            let (kind, strength) = match cfg.remove {
                RemovePolicy::Weak => (PairKind::WeakTie, TieStrength::Weak),
                _ => (PairKind::StrongTie, TieStrength::Strong),
            };
            let list = world.net.pairs_of_kind(kind);
            proof {
                lemma_kind_list(&before, kind, list@);
            }
            world.net.remove_listed(&list);
            proof {
                assert forall|x: int, y: int| 0 <= x < n && 0 <= y < n implies #[trigger] world.net.weight(x, y) == if before.weight(x, y) == Some(
                    strength,
                ) {
                    None
                } else {
                    before.weight(x, y)
                } by {
                    if listed(list@, x, y) {
                        let i = choose|i: int| 0 <= i < list@.len() && ((#[trigger] list@[i].0 == x && list@[i].1 == y) || (list@[i].0 == y && list@[i].1 == x));
                        assert((kind.pred(&before))(list@[i].0 as int, list@[i].1 as int));
                    }
                    if before.weight(x, y) == Some(strength) {
                        if x < y {
                            assert((kind.pred(&before))(x, y));
                        } else if y < x {
                            assert((kind.pred(&before))(y, x));
                            assert(listed(list@, y, x));
                        }
                    }
                }
            }
        },
        RemovePolicy::Random => {
            let n_weak = world.net.pairs_of_kind(PairKind::WeakTie).len();
            let pairs0 = world.net.pairs_of_kind(PairKind::Edge);
            proof {
                lemma_kind_list(&before, PairKind::Edge, pairs0@);
                lemma_pair_list_len_mono(n as int, 0, 1, before.edge_pred(), before.strength_pred(TieStrength::Weak));
                pairs0@.lemma_multiset_has_no_duplicates();
            }
            let mut pairs = pairs0;
            let path = [RNG_ABLATION];
            let mut rng = rng_from_seed(derive_seed(root, &path));
            proof {
                assert(path@ =~= seq![RNG_ABLATION]);
            }
            let ghost rng0 = rng;
            shuffle_in_place(&mut pairs, &mut rng);
            proof {
                broadcast use vstd::seq_lib::group_to_multiset_ensures;
                assert forall|x: (usize, usize)| pairs@.to_multiset().contains(x) implies pairs@.to_multiset().count(x) == 1 by {
                    assert(pairs0@.to_multiset().contains(x));
                }
                pairs@.lemma_multiset_has_no_duplicates_conv();
                assert(pairs@.len() == pairs@.to_multiset().len());
                assert(pairs0@.len() == pairs0@.to_multiset().len());
                assert forall|i: int| 0 <= i < pairs@.len() implies #[trigger] pairs@[i].0 < pairs@[i].1 < n && before.adjacent(pairs@[i].0 as int, pairs@[i].1 as int) by {
                    assert(pairs@.contains(pairs@[i]));
                    assert(pairs@.to_multiset().count(pairs@[i]) > 0);
                    assert(pairs0@.contains(pairs@[i]));
                    let k = choose|k: int| 0 <= k < pairs0@.len() && pairs0@[k] == pairs@[i];
                    assert((PairKind::Edge.pred(&before))(pairs0@[k].0 as int, pairs0@[k].1 as int));
                }
                assert forall|x: int, y: int| 0 <= x < y < n && #[trigger] before.adjacent(x, y) implies listed(pairs@, x, y) by {
                    assert((PairKind::Edge.pred(&before))(x, y));
                    assert(listed(pairs0@, x, y));
                    let i = choose|i: int| 0 <= i < pairs0@.len() && ((#[trigger] pairs0@[i].0 == x && pairs0@[i].1 == y) || (pairs0@[i].0 == y && pairs0@[i].1 == x));
                    assert(pairs0@.contains(pairs0@[i]));
                    assert(pairs@.to_multiset().count(pairs0@[i]) > 0);
                    assert(pairs@.contains(pairs0@[i]));
                    let j = choose|j: int| 0 <= j < pairs@.len() && pairs@[j] == pairs0@[i];
                    assert(pairs@[j].0 == x || pairs@[j].0 == y);
                }
                assert(edge_order(&before, pairs@));
                let edges = pairs_where(n as int, before.edge_pred());
                assert(pairs@ =~= random_removal_order(&before, root)) by {
                    assert(rng0.seed() == derived_seed(root, seq![RNG_ABLATION]));
                    assert(edges.len() == pairs0@.len());
                    assert forall|i: int| 0 <= i < pairs@.len() implies #[trigger] pairs@[i] == random_removal_order(&before, root)[i] by {
                        let p = shuffle_draw(rng0.seed(), rng0.position(), pairs0@.len()).0[i];
                        assert(pairs@[i] == pairs0@[p]);
                    }
                }
                assert forall|i: int| 0 <= i < pairs@.len() implies #[trigger] pairs@[i].0 < world.net.size() && pairs@[i].1 < world.net.size() by {
                    assert(pairs@[i].0 < pairs@[i].1 < n);
                }
            }
            world.net.remove_first(&pairs, n_weak);
            proof {
                assert(removes_first(&before, &world.net, pairs@, before.strength_pairs(TieStrength::Weak).len() as int));
            }
        },
    }
}


/// `v` is reached, along ties, from an agent informed in `init`.
pub open spec fn reached_from_informed(net: &TieNetwork, init: Seq<bool>, v: int) -> bool {
    exists|s: int| 0 <= s < net.size() && #[trigger] init[s] && net.reaches(s, v, None)
}

/// `v` lies within `k` ties of an agent informed in `init`.
pub open spec fn within_from_informed(net: &TieNetwork, init: Seq<bool>, v: int, k: int) -> bool {
    exists|s: int| 0 <= s < net.size() && #[trigger] init[s] && net.reaches_within(s, v, k)
}

/// Every neighbour of an agent informed in `state` is informed too.
pub open spec fn closed_under_ties(net: &TieNetwork, state: Seq<bool>) -> bool {
    forall|x: int, y: int|
        0 <= x < net.size() && 0 <= y < net.size() && state[x] && #[trigger] net.adjacent(x, y) ==> state[y]
}

/// Before the first round, the agents within zero ties of an informed one
/// are the informed ones.
proof fn lemma_within_start(net: &TieNetwork, init: Seq<bool>)
    requires
        init.len() == net.size(),
    ensures
        forall|v: int| 0 <= v < net.size() ==> (#[trigger] init[v] <==> within_from_informed(net, init, v, 0)),
{
    assert forall|v: int| 0 <= v < net.size() implies (#[trigger] init[v] <==> within_from_informed(net, init, v, 0)) by {
        net.lemma_within_zero(v, v);
        if within_from_informed(net, init, v, 0) {
            let s = choose|s: int| 0 <= s < net.size() && #[trigger] init[s] && net.reaches_within(s, v, 0);
            net.lemma_within_zero(s, v);
        }
    }
}

/// A round in which every newly informed agent has a tie to one informed
/// before carries information one tie further.
proof fn lemma_spread_step(net: &TieNetwork, init: Seq<bool>, before: Seq<bool>, after: Seq<bool>, t: int)
    requires
        net.valid(),
        t >= 0,
        before.len() == net.size(),
        after.len() == net.size(),
        forall|v: int| 0 <= v < net.size() && #[trigger] before[v] ==> within_from_informed(net, init, v, t),
        forall|v: int|
            0 <= v < net.size() && #[trigger] after[v] && !before[v] ==> has_informed_neighbor(net, before, v),
    ensures
        forall|v: int| 0 <= v < net.size() && #[trigger] after[v] ==> within_from_informed(net, init, v, t + 1),
{
    assert forall|v: int| 0 <= v < net.size() && #[trigger] after[v] implies within_from_informed(net, init, v, t + 1) by {
        if before[v] {
            let s = choose|s: int| 0 <= s < net.size() && #[trigger] init[s] && net.reaches_within(s, v, t);
            net.lemma_within_mono(s, v, t, t + 1);
        } else {
            let u = choose|u: int| 0 <= u < net.size() && net.adjacent(v, u) && before[u];
            assert(within_from_informed(net, init, u, t));
            let s = choose|s: int| 0 <= s < net.size() && #[trigger] init[s] && net.reaches_within(s, u, t);
            assert(net.weight(u, v) == net.weight(v, u));
            net.lemma_within_step(s, u, v, t);
        }
    }
}

/// SI with certain infection: when the informed agents are those within
/// `t` ties of one informed at the start, after the round they are those
/// within `t + 1`.
proof fn lemma_certain_step(net: &TieNetwork, init: Seq<bool>, before: Seq<bool>, after: Seq<bool>, t: int)
    requires
        net.valid(),
        t >= 0,
        before.len() == net.size(),
        after.len() == net.size(),
        forall|v: int| 0 <= v < net.size() ==> (#[trigger] before[v] <==> within_from_informed(net, init, v, t)),
        forall|v: int| 0 <= v < net.size() ==> (#[trigger] after[v] <==> (before[v] || has_informed_neighbor(net, before, v))),
    ensures
        forall|v: int| 0 <= v < net.size() ==> (#[trigger] after[v] <==> within_from_informed(net, init, v, t + 1)),
{
    lemma_spread_step(net, init, before, after, t);
    assert forall|v: int| 0 <= v < net.size() && within_from_informed(net, init, v, t + 1) implies #[trigger] after[v] by {
        let s = choose|s: int| 0 <= s < net.size() && #[trigger] init[s] && net.reaches_within(s, v, t + 1);
        net.lemma_within_last(s, v, t);
        if net.reaches_within(s, v, t) {
            assert(within_from_informed(net, init, v, t));
        } else {
            let u = choose|u: int| 0 <= u < net.size() && #[trigger] net.adjacent(u, v) && net.reaches_within(s, u, t);
            assert(within_from_informed(net, init, u, t));
            assert(before[u]);
            assert(net.weight(u, v) == net.weight(v, u));
            assert(has_informed_neighbor(net, before, v));
        }
    }
}

/// SI with certain infection: a round that informs nobody, or leaves
/// everybody informed, leaves a set closed under ties.
proof fn lemma_certain_closed(net: &TieNetwork, before: Seq<bool>, after: Seq<bool>)
    requires
        net.valid(),
        before.len() == net.size(),
        after.len() == net.size(),
        forall|v: int| 0 <= v < net.size() ==> (#[trigger] after[v] <==> (before[v] || has_informed_neighbor(net, before, v))),
        after == before || count_true(after) >= after.len(),
    ensures
        closed_under_ties(net, after),
{
    if count_true(after) >= after.len() {
        crate::graph::lemma_count_true_full(after);
    }
    assert forall|x: int, y: int|
        0 <= x < net.size() && 0 <= y < net.size() && after[x] && #[trigger] net.adjacent(x, y) implies after[y] by {
        if after == before {
            assert(net.weight(x, y) == net.weight(y, x));
            assert(has_informed_neighbor(net, before, y));
        }
    }
}

/// The outcome of a diffusion run.
pub struct SimulationResult {
    /// The world when the run stopped.
    pub world: WeakTieWorld,
    /// The number of informed agents before the first round and after each.
    pub history: Vec<usize>,
    /// The number of rounds run.
    pub cascade_rounds: usize,
    /// The root seed of the run.
    pub seed: u64,
}

fn copy_counts(v: &Vec<usize>) -> (r: Vec<usize>)
    ensures
        r@ == v@,
{
    let mut r: Vec<usize> = Vec::new();
    let mut i: usize = 0;
    while i < v.len()
        invariant
            i <= v@.len(),
            r@ == v@.take(i as int),
        decreases v@.len() - i,
    {
        r.push(v[i]);
        i = i + 1;
        proof {
            assert(r@ =~= v@.take(i as int));
        }
    }
    proof {
        assert(v@.take(v@.len() as int) =~= v@);
    }
    r
}

/// What `run_diffusion` promises of a run that starts from `start`.
pub open spec fn diffused(cfg: &Config, start: &WeakTieWorld, r: &SimulationResult) -> bool {
    let h = r.history@;
    let n = start.net.size();
    &&& r.world.wf()
    &&& r.world.net == start.net
    &&& r.world.cluster_of == start.cluster_of
    &&& r.world.seeds == start.seeds
    &&& r.world.max_iterations == start.max_iterations
    &&& r.cascade_rounds <= start.max_iterations
    &&& h.len() == r.cascade_rounds + 1
    &&& h[0] == start.informed_count()
    &&& h.last() == r.world.informed_count()
    &&& r.world.n_informed_history@ == h
    // the informed count never falls
    &&& forall|i: int, j: int| 0 <= i <= j < h.len() ==> #[trigger] h[i] <= #[trigger] h[j]
    // nobody is forgotten
    &&& forall|v: int| 0 <= v < n && #[trigger] start.informed@[v] ==> r.world.informed@[v]
    // a run that stops before its budget stops saturated: its last round informed
    // nobody, or everybody is informed
    &&& r.cascade_rounds < start.max_iterations ==> r.cascade_rounds >= 1 && (h[h.len() - 1] == h[h.len() - 2]
        || r.world.informed_count() >= n)
    // information only travels along ties
    &&& spreads_along_ties(cfg.diffusion, cfg.theta) ==> forall|v: int|
        0 <= v < n && #[trigger] r.world.informed@[v] ==> reached_from_informed(&start.net, start.informed@, v)
    // SI that never infects informs nobody new
    &&& (cfg.diffusion == DiffusionModel::Si && cfg.beta.is_never()) ==> r.world.informed@ == start.informed@
}

/// How far information has travelled when a run from `start` ends: a
/// round carries it one tie further.
pub open spec fn spread_in_rounds(cfg: &Config, start: &WeakTieWorld, r: &SimulationResult) -> bool {
    let n = start.net.size();
    // every informed agent is within `cascade_rounds` ties of one informed
    // at the start
    &&& spreads_along_ties(cfg.diffusion, cfg.theta) ==> forall|v: int|
        0 <= v < n && #[trigger] r.world.informed@[v] ==> within_from_informed(
            &start.net,
            start.informed@,
            v,
            r.cascade_rounds as int,
        )
    // SI with certain infection informs exactly the agents within as many
    // ties of one informed at the start as there were rounds
    &&& (cfg.diffusion == DiffusionModel::Si && cfg.beta.is_certain()) ==> forall|v: int|
        0 <= v < n ==> (#[trigger] r.world.informed@[v] <==> within_from_informed(
            &start.net,
            start.informed@,
            v,
            r.cascade_rounds as int,
        ))
    // ... and, when it stops before its budget, everybody reached along ties
    // from one informed at the start
    &&& (cfg.diffusion == DiffusionModel::Si && cfg.beta.is_certain() && r.cascade_rounds < start.max_iterations)
        ==> forall|v: int|
        0 <= v < n ==> (#[trigger] r.world.informed@[v] <==> reached_from_informed(&start.net, start.informed@, v))
}

/// What holds of the informed flags `state` after `t` rounds from `start`.
#[verifier::opaque]
spec fn spread_after(cfg: &Config, start: &WeakTieWorld, state: Seq<bool>, t: int) -> bool {
    let net = start.net;
    let n = net.size();
    &&& state.len() == n
    &&& forall|v: int| 0 <= v < n && #[trigger] start.informed@[v] ==> state[v]
    &&& spreads_along_ties(cfg.diffusion, cfg.theta) ==> forall|v: int|
        0 <= v < n && #[trigger] state[v] ==> reached_from_informed(&net, start.informed@, v)
    &&& spreads_along_ties(cfg.diffusion, cfg.theta) ==> forall|v: int|
        0 <= v < n && #[trigger] state[v] ==> within_from_informed(&net, start.informed@, v, t)
    &&& (cfg.diffusion == DiffusionModel::Si && cfg.beta.is_never()) ==> state == start.informed@
    &&& (cfg.diffusion == DiffusionModel::Si && cfg.beta.is_certain()) ==> forall|v: int|
        0 <= v < n ==> (#[trigger] state[v] <==> within_from_informed(&net, start.informed@, v, t))
}

proof fn lemma_spread_start(cfg: &Config, start: &WeakTieWorld)
    requires
        start.wf(),
    ensures
        spread_after(cfg, start, start.informed@, 0),
{
    reveal(spread_after);
    let n = start.net.size();
    assert forall|v: int| 0 <= v < n && #[trigger] start.informed@[v] implies reached_from_informed(&start.net, start.informed@, v) by {
        start.net.lemma_reaches_self(v, None);
    }
    lemma_within_start(&start.net, start.informed@);
}

/// One round keeps what `spread_after` says, one tie further; with
/// certain SI, a round that informs nobody or leaves everybody informed
/// leaves a set closed under ties.
proof fn lemma_spread_round(cfg: &Config, start: &WeakTieWorld, before: Seq<bool>, after: Seq<bool>, t: int)
    requires
        start.wf(),
        t >= 0,
        spread_after(cfg, start, before, t),
        round_outcome(&start.net, cfg.diffusion, cfg.beta, cfg.theta, before, after),
    ensures
        spread_after(cfg, start, after, t + 1),
        (cfg.diffusion == DiffusionModel::Si && cfg.beta.is_certain() && (after == before || count_true(after)
            >= after.len())) ==> closed_under_ties(&start.net, after),
{
    reveal(spread_after);
    let net = start.net;
    let n = net.size();
    if spreads_along_ties(cfg.diffusion, cfg.theta) {
        assert forall|v: int| 0 <= v < n && #[trigger] after[v] && !before[v] implies has_informed_neighbor(&net, before, v) by {
            if cfg.diffusion == DiffusionModel::Threshold {
                crate::mechanisms::lemma_threshold_has_informed_neighbor(&net, before, v, cfg.theta);
            }
        }
        assert forall|v: int| 0 <= v < n && #[trigger] after[v] implies reached_from_informed(&net, start.informed@, v) by {
            if !before[v] {
                let u = choose|u: int| 0 <= u < net.size() && net.adjacent(v, u) && before[u];
                let s0 = choose|s: int| 0 <= s < net.size() && #[trigger] start.informed@[s] && net.reaches(s, u, None);
                assert(net.weight(u, v) == net.weight(v, u));
                net.lemma_reaches_step(s0, u, v, None);
            }
        }
        lemma_spread_step(&net, start.informed@, before, after, t);
    }
    if cfg.diffusion == DiffusionModel::Si && cfg.beta.is_certain() {
        lemma_certain_step(&net, start.informed@, before, after, t);
        if after == before || count_true(after) >= after.len() {
            lemma_certain_closed(&net, before, after);
        }
    }
}

/// A set closed under ties that holds every agent of `init` holds every
/// agent reached from one of them.
proof fn lemma_closed_reach(net: &TieNetwork, init: Seq<bool>, state: Seq<bool>)
    requires
        state.len() == net.size(),
        closed_under_ties(net, state),
        forall|v: int| 0 <= v < net.size() && #[trigger] init[v] ==> state[v],
    ensures
        forall|v: int| 0 <= v < net.size() && reached_from_informed(net, init, v) ==> #[trigger] state[v],
{
    let n = net.size();
    assert forall|v: int| 0 <= v < n && reached_from_informed(net, init, v) implies #[trigger] state[v] by {
        let s0 = choose|s: int| 0 <= s < net.size() && #[trigger] init[s] && net.reaches(s, v, None);
        let p = choose|p: Seq<int>| #[trigger] net.is_walk(p, None) && p[0] == s0 && p.last() == v;
        assert forall|x: int, y: int|
            0 <= x < n && 0 <= y < n && state[x] && #[trigger] net.step_ok(x, y, None) implies state[y] by {
            assert(net.adjacent(x, y));
        }
        net.lemma_closed_holds_walk(state, p, None);
    }
}

/// What `spread_after` says of the flags a run ends with; with certain SI
/// and a set closed under ties, the informed agents are those reached
/// from one informed at the start.
proof fn lemma_spread_end(cfg: &Config, start: &WeakTieWorld, state: Seq<bool>, t: int, closed: bool)
    requires
        start.wf(),
        spread_after(cfg, start, state, t),
        closed ==> closed_under_ties(&start.net, state),
    ensures
        state.len() == start.net.size(),
        forall|v: int| 0 <= v < start.net.size() && #[trigger] start.informed@[v] ==> state[v],
        spreads_along_ties(cfg.diffusion, cfg.theta) ==> forall|v: int|
            0 <= v < start.net.size() && #[trigger] state[v] ==> reached_from_informed(&start.net, start.informed@, v),
        spreads_along_ties(cfg.diffusion, cfg.theta) ==> forall|v: int|
            0 <= v < start.net.size() && #[trigger] state[v] ==> within_from_informed(&start.net, start.informed@, v, t),
        (cfg.diffusion == DiffusionModel::Si && cfg.beta.is_never()) ==> state == start.informed@,
        (cfg.diffusion == DiffusionModel::Si && cfg.beta.is_certain()) ==> forall|v: int|
            0 <= v < start.net.size() ==> (#[trigger] state[v] <==> within_from_informed(&start.net, start.informed@, v, t)),
        (cfg.diffusion == DiffusionModel::Si && cfg.beta.is_certain() && closed) ==> forall|v: int|
            0 <= v < start.net.size() ==> (#[trigger] state[v] <==> reached_from_informed(&start.net, start.informed@, v)),
{
    reveal(spread_after);
    if cfg.diffusion == DiffusionModel::Si && cfg.beta.is_certain() && closed {
        lemma_closed_reach(&start.net, start.informed@, state);
    }
}

/// A threshold run is the cascade itself: its informed agents and its
/// history are those of the cascade from the agents informed at the start,
/// no round before its last settled the cascade, and a run that stops
/// before its budget stops because its last round did.
pub open spec fn cascade_run(cfg: &Config, start: &WeakTieWorld, r: &SimulationResult) -> bool {
    let net = start.net;
    let init = start.informed@;
    let t = r.cascade_rounds as nat;
    cfg.diffusion == DiffusionModel::Threshold ==> {
        &&& r.world.informed@ == cascade(&net, cfg.theta, init, t)
        &&& forall|i: int| 0 <= i <= t ==> #[trigger] r.history@[i] == count_true(cascade(&net, cfg.theta, init, i as nat))
        &&& forall|i: int| 1 <= i < t ==> !#[trigger] settled(&net, cfg.theta, init, i as nat)
        &&& r.cascade_rounds < start.max_iterations ==> settled(&net, cfg.theta, init, t)
    }
}

/// What a threshold run from `start` has done after `t` rounds, with the
/// informed flags `state` and the history `hist`; `stop` tells whether
/// round `t` settled the cascade.
#[verifier::opaque]
spec fn threshold_after(cfg: &Config, start: &WeakTieWorld, state: Seq<bool>, hist: Seq<usize>, t: int, stop: bool) -> bool {
    let net = start.net;
    let init = start.informed@;
    cfg.diffusion == DiffusionModel::Threshold ==> {
        &&& t >= 0
        &&& state == cascade(&net, cfg.theta, init, t as nat)
        &&& hist.len() == t + 1
        &&& forall|i: int| 0 <= i <= t ==> #[trigger] hist[i] == count_true(cascade(&net, cfg.theta, init, i as nat))
        &&& forall|i: int| 1 <= i < t ==> !#[trigger] settled(&net, cfg.theta, init, i as nat)
        &&& stop == settled(&net, cfg.theta, init, t as nat)
    }
}

proof fn lemma_threshold_start(cfg: &Config, start: &WeakTieWorld, hist: Seq<usize>)
    requires
        hist.len() == 1,
        hist[0] == count_true(start.informed@),
    ensures
        threshold_after(cfg, start, start.informed@, hist, 0, false),
{
    reveal(threshold_after);
}

proof fn lemma_threshold_round(
    cfg: &Config,
    start: &WeakTieWorld,
    before: Seq<bool>,
    after: Seq<bool>,
    hist: Seq<usize>,
    t: int,
    n_new: int,
    saturated: bool,
)
    requires
        start.wf(),
        threshold_after(cfg, start, before, hist, t, false),
        before.len() == start.net.size(),
        round_outcome(&start.net, cfg.diffusion, cfg.beta, cfg.theta, before, after),
        n_new + count_true(before) == count_true(after),
        n_new == 0 ==> after == before,
        saturated == (n_new == 0 || count_true(after) >= after.len()),
    ensures
        threshold_after(cfg, start, after, hist.push(count_true(after) as usize), t + 1, saturated),
{
    reveal(threshold_after);
    if cfg.diffusion == DiffusionModel::Threshold {
        let net = start.net;
        let init = start.informed@;
        assert(after =~= threshold_round(&net, cfg.theta, before));
        crate::cascade::lemma_cascade_len(&net, cfg.theta, init, t as nat);
        crate::graph::lemma_count_true_bound(after);
        let h = hist.push(count_true(after) as usize);
        assert forall|i: int| 0 <= i <= t + 1 implies #[trigger] h[i] == count_true(cascade(&net, cfg.theta, init, i as nat)) by {
            if i <= t {
                assert(h[i] == hist[i]);
            }
        }
    }
}

proof fn lemma_threshold_end(cfg: &Config, start: &WeakTieWorld, state: Seq<bool>, hist: Seq<usize>, t: int, stop: bool)
    requires
        threshold_after(cfg, start, state, hist, t, stop),
        t < start.max_iterations ==> stop,
    ensures
        cfg.diffusion == DiffusionModel::Threshold ==> {
            let net = start.net;
            let init = start.informed@;
            &&& state == cascade(&net, cfg.theta, init, t as nat)
            &&& forall|i: int| 0 <= i <= t ==> #[trigger] hist[i] == count_true(cascade(&net, cfg.theta, init, i as nat))
            &&& forall|i: int| 1 <= i < t ==> !#[trigger] settled(&net, cfg.theta, init, i as nat)
            &&& t < start.max_iterations ==> settled(&net, cfg.theta, init, t as nat)
        },
{
    reveal(threshold_after);
}

/// The order of a round over `n` agents: the agents `0 .. n` shuffled with
/// the stream seeded `seed` at `pos`; and the stream position after the
/// shuffle.
pub open spec fn round_order(n: nat, seed: u64, pos: nat) -> (Seq<usize>, nat) {
    let shuffled = shuffle_draw(seed, pos, n);
    (Seq::new(n, |i: int| shuffled.0[i] as usize), shuffled.1)
}

/// One round of a run on `net` from the informed flags `before`, with the
/// stream seeded `seed` at `pos`: the flags after it, and the stream
/// position after it.
pub open spec fn run_round(cfg: &Config, net: &TieNetwork, before: Seq<bool>, seed: u64, pos: nat) -> (Seq<bool>, nat) {
    let order = round_order(before.len(), seed, pos);
    if cfg.diffusion == DiffusionModel::Si {
        si_round(net@, before, order.0, cfg.beta, seed, order.1)
    } else {
        (threshold_round(net, cfg.theta, before), order.1)
    }
}

/// The rounds of a run on `net` from round `t` on, with the informed flags
/// `state`, the history `hist`, the stream seeded `seed` at `pos`, the
/// budget `max`, and `stop` telling whether the last round saturated: the
/// flags at the end, the history, and the number of rounds run.
pub open spec fn rounds_from(
    cfg: &Config,
    net: &TieNetwork,
    state: Seq<bool>,
    hist: Seq<usize>,
    seed: u64,
    pos: nat,
    t: nat,
    max: nat,
    stop: bool,
) -> (Seq<bool>, Seq<usize>, nat)
    decreases max - t,
{
    if t >= max || stop {
        (state, hist, t)
    } else {
        let next = run_round(cfg, net, state, seed, pos);
        let saturated = count_true(next.0) == count_true(state) || count_true(next.0) >= next.0.len();
        rounds_from(cfg, net, next.0, hist.push(count_true(next.0) as usize), seed, next.1, t + 1, max, saturated)
    }
}

/// The run of `run_diffusion` from `start` under the root seed `root`: the
/// informed flags at the end, the history, and the number of rounds.
pub open spec fn run_outcome(cfg: &Config, start: &WeakTieWorld, root: u64) -> (Seq<bool>, Seq<usize>, nat) {
    rounds_from(
        cfg,
        &start.net,
        start.informed@,
        seq![start.informed_count() as usize],
        derived_seed(root, seq![RNG_ENGINE]),
        0,
        0,
        start.max_iterations as nat,
        false,
    )
}

/// Runs the diffusion on `world` in synchronous rounds until it saturates
/// (a round informs nobody, or everybody is informed) or the round budget
/// `world.max_iterations` is spent. Each round takes the agents in an order
/// shuffled from the stream labelled `RNG_ENGINE` under `root`, which also
/// feeds the SI draws.
#[verifier::spinoff_prover]
pub fn run_diffusion(world: WeakTieWorld, cfg: &Config, root: u64) -> (r: SimulationResult)
    requires
        world.wf(),
    ensures
        diffused(cfg, &world, &r),
        spread_in_rounds(cfg, &world, &r),
        cascade_run(cfg, &world, &r),
        r.seed == root,
        // the run is fixed by the world, the settings and the root seed
        (r.world.informed@, r.history@, r.cascade_rounds as nat) == run_outcome(cfg, &world, root),
{
    let ghost start = world;
    let ghost n = world.net.size();
    let mut world = world;
    let path = [RNG_ENGINE];
    let mut rng = rng_from_seed(derive_seed(root, &path));
    proof {
        assert(path@ =~= seq![RNG_ENGINE]);
    }
    let ghost seed = rng.seed();
    let mechanism = DiffusionMechanism::new(cfg.diffusion, cfg.beta, cfg.theta);
    let mut history: Vec<usize> = Vec::new();
    history.push(world.n_informed());
    let max = world.max_iterations;
    proof {
        lemma_spread_start(cfg, &start);
        lemma_threshold_start(cfg, &start, history@);
    }
    let mut t: usize = 0;
    let mut stop = false;
    while t < max && !stop
        invariant
            world.wf(),
            world.net == start.net,
            world.cluster_of == start.cluster_of,
            world.seeds == start.seeds,
            world.max_iterations == start.max_iterations,
            max == start.max_iterations,
            n == start.net.size(),
            start.wf(),
            t <= max,
            history@.len() == t + 1,
            history@[0] == start.informed_count(),
            history@.last() == world.informed_count(),
            forall|i: int, j: int| 0 <= i <= j < history@.len() ==> #[trigger] history@[i] <= #[trigger] history@[j],
            stop ==> t >= 1 && (history@[t as int] == history@[t - 1] || world.informed_count() >= n),
            spread_after(cfg, &start, world.informed@, t as int),
            threshold_after(cfg, &start, world.informed@, history@, t as int, stop),
            (stop && cfg.diffusion == DiffusionModel::Si && cfg.beta.is_certain()) ==> closed_under_ties(&start.net, world.informed@),
            mechanism.model == cfg.diffusion,
            mechanism.beta == cfg.beta,
            mechanism.theta == cfg.theta,
            rng.seed() == seed,
            seed == derived_seed(root, seq![RNG_ENGINE]),
            rounds_from(cfg, &start.net, world.informed@, history@, seed, rng.position(), t as nat, max as nat, stop)
                == run_outcome(cfg, &start, root),
        decreases max - t,
    {
        let mut order = world.agent_ids();
        let ghost ids = order@;
        let ghost rng_before = rng;
        shuffle_in_place(&mut order, &mut rng);
        proof {
            broadcast use vstd::seq_lib::group_to_multiset_ensures;
            assert forall|i: int| 0 <= i < order@.len() implies #[trigger] order@[i] < world.net.size() by {
                assert(order@.contains(order@[i]));
                assert(order@.to_multiset().count(order@[i]) > 0);
                assert(ids.contains(order@[i]));
            }
            assert forall|v: usize| v < world.net.size() implies #[trigger] order@.contains(v) by {
                assert(ids[v as int] == v);
                assert(ids.contains(v));
                assert(ids.to_multiset().count(v) > 0);
            }
        }
        let ghost before = world.informed@;
        let ghost before_hist = history@;
        proof {
            assert(order@ =~= round_order(n, seed, rng_before.position()).0) by {
                assert forall|i: int| 0 <= i < order@.len() implies #[trigger] order@[i] == round_order(n, seed, rng_before.position()).0[i] by {
                    let p = shuffle_draw(seed, rng_before.position(), ids.len()).0[i];
                    assert(order@[i] == ids[p]);
                }
            }
        }
        let (n_new, saturated) = mechanism.apply(&mut world, &order, &mut rng);
        proof {
            if cfg.diffusion == DiffusionModel::Threshold {
                assert(world.informed@ =~= threshold_round(&start.net, cfg.theta, before));
            }
        }
        let count = world.n_informed();
        let ghost h0 = history@;
        history.push(count);
        proof {
            assert forall|i: int, j: int| 0 <= i <= j < history@.len() implies #[trigger] history@[i] <= #[trigger] history@[j] by {
                if j == history@.len() - 1 && i < j {
                    assert(h0[i] <= h0[h0.len() - 1]);
                    assert(history@[i] == h0[i]);
                }
            }
            lemma_spread_round(cfg, &start, before, world.informed@, t as int);
            lemma_threshold_round(cfg, &start, before, world.informed@, before_hist, t as int, n_new as int, saturated);
        }
        t = t + 1;
        stop = saturated;
    }
    proof {
        lemma_spread_end(
            cfg,
            &start,
            world.informed@,
            t as int,
            t < max && cfg.diffusion == DiffusionModel::Si && cfg.beta.is_certain(),
        );
        lemma_threshold_end(cfg, &start, world.informed@, history@, t as int, stop);
    }
    world.n_informed_history = copy_counts(&history);
    SimulationResult { world, history, cascade_rounds: t, seed: root }
}

/// How the worlds `w0` (built) and `w1` (ablated) of a trial under `cfg`
/// and the root seed `root` follow from the two, and the run `r` from `w1`.
pub open spec fn trial_worlds(cfg: &Config, root: u64, w0: &WeakTieWorld, w1: &WeakTieWorld, r: &SimulationResult) -> bool {
    &&& initialized(cfg, w0)
    &&& w0.net@ == generated_from(cfg, derived_seed(root, seq![RNG_WORLD_INIT]), 0).0
    &&& ablated(&w0.net, &w1.net, cfg.remove)
    &&& cfg.remove == RemovePolicy::Random ==> removes_first(
        &w0.net,
        &w1.net,
        random_removal_order(&w0.net, root),
        w0.net.strength_pairs(TieStrength::Weak).len() as int,
    )
    &&& w1.informed == w0.informed
    &&& w1.max_iterations == w0.max_iterations
    &&& (r.world.informed@, r.history@, r.cascade_rounds as nat) == run_outcome(cfg, w1, root)
}

/// One trial from start to end: build the world, apply the ablation (when
/// there is one), and run the diffusion.
#[verifier::spinoff_prover]
pub fn run(cfg: &Config, root: u64) -> (r: SimulationResult)
    requires
        runnable(cfg),
    ensures
        r.seed == root,
        exists|w0: WeakTieWorld, w1: WeakTieWorld| {
            &&& #[trigger] initialized(cfg, &w0)
            &&& ablated(&w0.net, &w1.net, cfg.remove)
            &&& w1.wf()
            &&& w1.informed == w0.informed
            &&& w1.cluster_of == w0.cluster_of
            &&& w1.seeds == w0.seeds
            &&& w1.max_iterations == w0.max_iterations
            &&& #[trigger] diffused(cfg, &w1, &r)
            &&& spread_in_rounds(cfg, &w1, &r)
            &&& cascade_run(cfg, &w1, &r)
        },
        // with the weak ties removed, or with no bridge generated, diffusion
        // stays in the seeds' clusters
        ((cfg.remove == RemovePolicy::Weak || cfg.p_bridge.is_never()) && spreads_along_ties(cfg.diffusion, cfg.theta))
            ==> forall|v: int|
            0 <= v < r.world.net.size() && #[trigger] r.world.informed@[v] ==> exists|i: int|
                0 <= i < seed_count(cfg) && v / (cfg.cluster_size as int) == #[trigger] (i / (cfg.cluster_size as int)),
        // ... so that, with no more seeds than one cluster holds, at most one
        // cluster is reached
        ((cfg.remove == RemovePolicy::Weak || cfg.p_bridge.is_never()) && spreads_along_ties(cfg.diffusion, cfg.theta)
            && seed_count(cfg) <= cfg.cluster_size) ==> r.world.informed_count() <= cfg.cluster_size,
        // every seed ends informed
        r.world.informed_count() >= seed_count(cfg),
        r.world.informed_count() <= r.world.net.size(),
        // the trial is fixed by the settings and the root seed
        exists|w0: WeakTieWorld, w1: WeakTieWorld| #[trigger] trial_worlds(cfg, root, &w0, &w1, &r),
{
    let mut world = init_world(cfg, root);
    let ghost w0 = world;
    match cfg.remove {
        RemovePolicy::Baseline => {},
        _ => {
            apply_ablation(&mut world, cfg, root);
        },
    }
    let ghost w1 = world;
    let r = run_diffusion(world, cfg, root);
    proof {
        if cfg.remove == RemovePolicy::Baseline {
            assert(ablated(&w0.net, &w1.net, cfg.remove));
        }
        assert(initialized(cfg, &w0) && diffused(cfg, &w1, &r) && spread_in_rounds(cfg, &w1, &r) && cascade_run(
            cfg,
            &w1,
            &r,
        ));
        assert(trial_worlds(cfg, root, &w0, &w1, &r));
        assert forall|v: int| 0 <= v < seed_count(cfg) implies #[trigger] r.world.informed@[v] by {
            assert(w1.informed@[v]);
        }
        crate::graph::lemma_count_true_prefix(r.world.informed@, seed_count(cfg));
        crate::graph::lemma_count_true_bound(r.world.informed@);
        if (cfg.remove == RemovePolicy::Weak || cfg.p_bridge.is_never()) && spreads_along_ties(cfg.diffusion, cfg.theta) {
            let sz = cfg.cluster_size as int;
            assert forall|v: int| 0 <= v < r.world.net.size() && #[trigger] r.world.informed@[v] implies exists|i: int|
                0 <= i < seed_count(cfg) && v / sz == #[trigger] (i / sz) by {
                if cfg.remove == RemovePolicy::Weak {
                    crate::laws::law_weak_removal_confines_diffusion(cfg, &w0, &w1, &r, v);
                } else {
                    crate::laws::law_no_bridges_confines_diffusion(cfg, &w0, &w1, &r, v);
                }
            }
            if seed_count(cfg) <= cfg.cluster_size {
                assert forall|v: int| 0 <= v < r.world.informed@.len() && #[trigger] r.world.informed@[v] implies v < sz by {
                    assert(exists|i: int| 0 <= i < seed_count(cfg) && v / sz == #[trigger] (i / sz));
                    let i = choose|i: int| 0 <= i < seed_count(cfg) && v / sz == #[trigger] (i / sz);
                    crate::network::lemma_block(i, 0, sz);
                    crate::network::lemma_block(v, 0, sz);
                }
                crate::graph::lemma_count_true_below(r.world.informed@, sz);
            }
        }
    }
    r
}

} // verus!
