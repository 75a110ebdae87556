//! Properties that hold across the functions of the library.
use vstd::prelude::*;
use crate::cascade::{
    at_most, cascade, threshold_round, lemma_cascade_grows, lemma_cascade_mono, lemma_count_within, lemma_settled_stays, settled, within,
};
use crate::config::{ascii_key, remove_policy_of_key, Config, DiffusionModel, Probability, Ratio, RemovePolicy};
use crate::graph::{count_true, lemma_pair_list, lemma_pair_list_same, listed, pair_before, pairs_where, TieNetwork};
use crate::mechanisms::{count_where, round_outcome, si_scan, spreads_along_ties, threshold_activates};
use crate::metrics::{reach_count, reached_beyond_seeds, wedge_total};
use crate::network::{bridge_choice, generated, generated_from, pair_choice, GeneratedNetwork};
use crate::rng::{below_draw, derived_seed, draw_succeeds_spec, shuffle_draw, stream_word};
use crate::simulation::{
    ablated, cascade_run, diffused, initialized, random_removal_order, reached_from_informed, rounds_from, run_round,
    removes_first, edge_order, seed_count, spread_in_rounds, trial_worlds, SimulationResult, RNG_ABLATION, RNG_ENGINE,
};
use crate::text::{all_ascii, lemma_trimmed_plain, trimmed};
use crate::world::{TieStrength, WeakTieWorld};

verus! {

/// Every label of a diffusion model is read back as that model: the label
/// is ASCII and is its own key, which `parse_diffusion` matches.
pub proof fn law_diffusion_labels_parse_back(m: DiffusionModel)
    ensures
        all_ascii(trimmed(m.label_text())),
        m == DiffusionModel::Si ==> ascii_key(m.label_text()) == "si"@,
        m == DiffusionModel::Threshold ==> ascii_key(m.label_text()) == "threshold"@,
{
    reveal_strlit("si");
    reveal_strlit("threshold");
    lemma_trimmed_plain(m.label_text());
    assert(ascii_key(m.label_text()) =~= m.label_text());
}

/// Every label of an ablation policy is read back as that policy by
/// `parse_remove`.
pub proof fn law_remove_labels_parse_back(p: RemovePolicy)
    ensures
        all_ascii(trimmed(p.label_text())),
        remove_policy_of_key(ascii_key(p.label_text())) == Some(p),
{
    reveal_strlit("none");
    reveal_strlit("weak");
    reveal_strlit("strong");
    reveal_strlit("random");
    lemma_trimmed_plain(p.label_text());
    assert(ascii_key(p.label_text()) =~= p.label_text());
}


proof fn lemma_walk_prefix(net: &TieNetwork, s: int, p: Seq<int>, only: Option<TieStrength>, k: int)
    requires
        s > 0,
        forall|x: int, y: int|
            0 <= x < net.size() && 0 <= y < net.size() && #[trigger] net.step_ok(x, y, only) ==> x / s == y / s,
        net.is_walk(p, only),
        0 <= k < p.len(),
    ensures
        p[k] / s == p[0] / s,
    decreases k,
{
    if k > 0 {
        lemma_walk_prefix(net, s, p, only, k - 1);
        assert(net.step_ok(p[k - 1], p[k], only));
    }
}

/// When every step allowed by `only` joins two nodes of the same cluster
/// (clusters of `s` consecutive nodes), a walk never leaves its cluster.
pub proof fn lemma_walk_within_clusters(net: &TieNetwork, s: int, a: int, b: int, only: Option<TieStrength>)
    requires
        s > 0,
        forall|x: int, y: int|
            0 <= x < net.size() && 0 <= y < net.size() && #[trigger] net.step_ok(x, y, only) ==> x / s == y / s,
        net.reaches(a, b, only),
    ensures
        a / s == b / s,
{
    let p = choose|p: Seq<int>| #[trigger] net.is_walk(p, only) && p[0] == a && p.last() == b;
    lemma_walk_prefix(net, s, p, only, p.len() - 1);
}

proof fn lemma_positive_size(cfg: &Config, v: int)
    requires
        0 <= v < cfg.clusters * cfg.cluster_size,
    ensures
        cfg.cluster_size > 0,
{
    if cfg.cluster_size == 0 {
        assert(cfg.clusters * cfg.cluster_size == 0) by (nonlinear_arith)
            requires
                cfg.cluster_size == 0,
        ;
    }
}

/// All bridges are weak ties: in a generated network whose clusters have
/// three members or more, every local bridge is a weak tie, so the local
/// bridges and the weak local bridges are the same list.
pub proof fn law_generated_local_bridges_are_weak(cfg: &Config, net: &TieNetwork, cluster_of: Seq<usize>)
    requires
        generated(cfg, net, cluster_of),
        cfg.cluster_size >= 3,
    ensures
        forall|x: int, y: int|
            0 <= x < net.size() && 0 <= y < net.size() && #[trigger] net.is_local_bridge_spec(x, y)
                ==> net.weight(x, y) == Some(TieStrength::Weak),
        net.bridge_pairs() == net.weak_bridge_pairs(),
{
    assert forall|x: int, y: int|
        0 <= x < net.size() && 0 <= y < net.size() && #[trigger] net.is_local_bridge_spec(x, y)
            implies net.weight(x, y) == Some(TieStrength::Weak) by {
        if net.weight(x, y) == Some(TieStrength::Strong) {
            assert(net.share_neighbor(x, y));
        }
    }
    assert forall|x: int, y: int| 0 <= x < y < net.size() implies #[trigger] (net.weak_bridge_pred())(x, y) == (net.bridge_pred())(x, y) by {
        if net.is_local_bridge_spec(x, y) {
            assert(net.weight(x, y) == Some(TieStrength::Weak));
        }
    }
    lemma_pair_list_same(net.size() as int, 0, 1, net.bridge_pred(), net.weak_bridge_pred());
}

/// Strong ties stay inside clusters: in a generated network, whatever a
/// node reaches along strong ties alone is in its own cluster.
pub proof fn law_strong_reach_stays_in_cluster(cfg: &Config, net: &TieNetwork, cluster_of: Seq<usize>, a: int, b: int)
    requires
        generated(cfg, net, cluster_of),
        0 <= a < net.size(),
        net.reaches(a, b, Some(TieStrength::Strong)),
    ensures
        a / (cfg.cluster_size as int) == b / (cfg.cluster_size as int),
{
    lemma_positive_size(cfg, a);
    let s = cfg.cluster_size as int;
    assert forall|x: int, y: int|
        0 <= x < net.size() && 0 <= y < net.size() && #[trigger] net.step_ok(x, y, Some(TieStrength::Strong))
            implies x / s == y / s by {
        if x / s != y / s {
            assert(net.adjacent(x, y));
        }
    }
    lemma_walk_within_clusters(net, s, a, b, Some(TieStrength::Strong));
}

/// A diffusion that spreads along ties, on a network none of whose ties
/// leaves a cluster, informs only agents in the cluster of a seed.
proof fn lemma_confined_to_seed_clusters(
    cfg: &Config,
    w0: &WeakTieWorld,
    w1: &WeakTieWorld,
    r: &SimulationResult,
    v: int,
)
    requires
        initialized(cfg, w0),
        w1.net.size() == w0.net.size(),
        w1.informed == w0.informed,
        diffused(cfg, w1, r),
        spreads_along_ties(cfg.diffusion, cfg.theta),
        0 <= v < w0.net.size(),
        r.world.informed@[v],
        forall|x: int, y: int|
            0 <= x < w1.net.size() && 0 <= y < w1.net.size() && #[trigger] w1.net.adjacent(x, y) ==> x
                / (cfg.cluster_size as int) == y / (cfg.cluster_size as int),
    ensures
        exists|i: int| 0 <= i < seed_count(cfg) && v / (cfg.cluster_size as int) == #[trigger] (i / (cfg.cluster_size as int)),
{
    lemma_positive_size(cfg, v);
    let s = cfg.cluster_size as int;
    let net = w1.net;
    assert(reached_from_informed(&net, w1.informed@, v));
    let s0 = choose|x: int| 0 <= x < net.size() && #[trigger] w1.informed@[x] && net.reaches(x, v, None);
    assert forall|x: int, y: int|
        0 <= x < net.size() && 0 <= y < net.size() && #[trigger] net.step_ok(x, y, None) implies x / s == y / s by {
        assert(net.adjacent(x, y));
    }
    lemma_walk_within_clusters(&net, s, s0, v, None);
    assert(w0.informed@[s0]);
    assert(0 <= s0 < seed_count(cfg) && v / s == s0 / s);
}

/// Weak ties dominate reach: when the weak ties of a generated network are
/// removed before a diffusion that spreads along ties, every agent the
/// diffusion informs is in the cluster of a seed.
pub proof fn law_weak_removal_confines_diffusion(
    cfg: &Config,
    w0: &WeakTieWorld,
    w1: &WeakTieWorld,
    r: &SimulationResult,
    v: int,
)
    requires
        initialized(cfg, w0),
        ablated(&w0.net, &w1.net, RemovePolicy::Weak),
        w1.informed == w0.informed,
        diffused(cfg, w1, r),
        spreads_along_ties(cfg.diffusion, cfg.theta),
        0 <= v < w0.net.size(),
        r.world.informed@[v],
    ensures
        exists|i: int| 0 <= i < seed_count(cfg) && v / (cfg.cluster_size as int) == #[trigger] (i / (cfg.cluster_size as int)),
{
    let s = cfg.cluster_size as int;
    assert forall|x: int, y: int|
        0 <= x < w1.net.size() && 0 <= y < w1.net.size() && #[trigger] w1.net.adjacent(x, y) implies x / s == y / s by {
        assert(w0.net.weight(x, y) == Some(TieStrength::Strong));
        if x / s != y / s {
            assert(w0.net.adjacent(x, y));
        }
    }
    lemma_confined_to_seed_clusters(cfg, w0, w1, r, v);
}

/// Without bridges, reach stays local: in a network generated with no
/// bridge between clusters, whatever the ablation, every agent a diffusion
/// that spreads along ties informs is in the cluster of a seed.
pub proof fn law_no_bridges_confines_diffusion(
    cfg: &Config,
    w0: &WeakTieWorld,
    w1: &WeakTieWorld,
    r: &SimulationResult,
    v: int,
)
    requires
        initialized(cfg, w0),
        cfg.p_bridge.is_never(),
        ablated(&w0.net, &w1.net, cfg.remove),
        w1.informed == w0.informed,
        diffused(cfg, w1, r),
        spreads_along_ties(cfg.diffusion, cfg.theta),
        0 <= v < w0.net.size(),
        r.world.informed@[v],
    ensures
        exists|i: int| 0 <= i < seed_count(cfg) && v / (cfg.cluster_size as int) == #[trigger] (i / (cfg.cluster_size as int)),
{
    let s = cfg.cluster_size as int;
    assert forall|x: int, y: int|
        0 <= x < w1.net.size() && 0 <= y < w1.net.size() && #[trigger] w1.net.adjacent(x, y) implies x / s == y / s by {
        assert(w0.net.adjacent(x, y));
    }
    lemma_confined_to_seed_clusters(cfg, w0, w1, r, v);
}

/// A threshold run is determined by the world it starts from: two threshold
/// runs from the same world, with the same threshold, inform the same
/// agents, take as many rounds and record the same history.
pub proof fn law_threshold_run_is_determined(cfg: &Config, start: &WeakTieWorld, r1: &SimulationResult, r2: &SimulationResult)
    requires
        cfg.diffusion == DiffusionModel::Threshold,
        diffused(cfg, start, r1),
        cascade_run(cfg, start, r1),
        diffused(cfg, start, r2),
        cascade_run(cfg, start, r2),
    ensures
        r1.cascade_rounds == r2.cascade_rounds,
        r1.world.informed@ == r2.world.informed@,
        r1.history@ == r2.history@,
{
    let net = start.net;
    let init = start.informed@;
    let t1 = r1.cascade_rounds as int;
    let t2 = r2.cascade_rounds as int;
    if t1 < t2 {
        assert(!settled(&net, cfg.theta, init, t1 as nat));
    } else if t2 < t1 {
        assert(!settled(&net, cfg.theta, init, t2 as nat));
    }
    assert(r1.history@ =~= r2.history@) by {
        assert forall|i: int| 0 <= i < r1.history@.len() implies r1.history@[i] == r2.history@[i] by {
            assert(r1.history@[i] == count_true(cascade(&net, cfg.theta, init, i as nat)));
            assert(r2.history@[i] == count_true(cascade(&net, cfg.theta, init, i as nat)));
        }
    }
}

/// The generator is deterministic: two networks generated for the same
/// settings from streams with the same seed, at the same position, have the
/// same ties and the same clusters.
pub proof fn law_same_stream_same_network(
    cfg: &Config,
    seed: u64,
    pos: nat,
    g1: &GeneratedNetwork,
    g2: &GeneratedNetwork,
)
    requires
        generated(cfg, &g1.net, g1.cluster_of@),
        g1.net@ == generated_from(cfg, seed, pos).0,
        generated(cfg, &g2.net, g2.cluster_of@),
        g2.net@ == generated_from(cfg, seed, pos).0,
    ensures
        g1.net@ == g2.net@,
        g1.cluster_of@ == g2.cluster_of@,
{
    assert(g1.cluster_of@ =~= g2.cluster_of@);
}

/// One round of a run depends on the network only through its ties.
proof fn lemma_round_same_ties(cfg: &Config, a: &TieNetwork, b: &TieNetwork, state: Seq<bool>, seed: u64, pos: nat)
    requires
        a@ == b@,
    ensures
        run_round(cfg, a, state, seed, pos) == run_round(cfg, b, state, seed, pos),
{
    if cfg.diffusion != DiffusionModel::Si {
        assert forall|v: int| 0 <= v < state.len() implies #[trigger] threshold_activates(a, state, v, cfg.theta)
            == threshold_activates(b, state, v, cfg.theta) by {
            assert((|u: int| a.adjacent(v, u)) =~= (|u: int| b.adjacent(v, u)));
            assert((|u: int| a.adjacent(v, u) && state[u]) =~= (|u: int| b.adjacent(v, u) && state[u]));
        }
        assert(threshold_round(a, cfg.theta, state) =~= threshold_round(b, cfg.theta, state));
    }
}

/// The rounds of a run depend on the network only through its ties.
proof fn lemma_rounds_same_ties(
    cfg: &Config,
    a: &TieNetwork,
    b: &TieNetwork,
    state: Seq<bool>,
    hist: Seq<usize>,
    seed: u64,
    pos: nat,
    t: nat,
    max: nat,
    stop: bool,
)
    requires
        a@ == b@,
    ensures
        rounds_from(cfg, a, state, hist, seed, pos, t, max, stop) == rounds_from(cfg, b, state, hist, seed, pos, t, max, stop),
    decreases max - t,
{
    if !(t >= max || stop) {
        lemma_round_same_ties(cfg, a, b, state, seed, pos);
        let next = run_round(cfg, a, state, seed, pos);
        let saturated = count_true(next.0) == count_true(state) || count_true(next.0) >= next.0.len();
        lemma_rounds_same_ties(cfg, a, b, next.0, hist.push(count_true(next.0) as usize), seed, next.1, t + 1, max, saturated);
    }
}

/// Two networks with the same size and the same tie between every two
/// nodes are the same network.
proof fn lemma_same_weights(a: &TieNetwork, b: &TieNetwork)
    requires
        a.valid(),
        b.valid(),
        a.size() == b.size(),
        forall|x: int, y: int| 0 <= x < a.size() && 0 <= y < a.size() ==> #[trigger] a.weight(x, y) == b.weight(x, y),
    ensures
        a@ == b@,
{
    assert forall|i: int| 0 <= i < a.size() implies #[trigger] a@[i] =~= b@[i] by {
        assert forall|j: int| 0 <= j < a.size() implies a@[i][j] == b@[i][j] by {
            assert(a.weight(i, j) == b.weight(i, j));
        }
    }
    assert(a@ =~= b@);
}

/// A trial is reproducible: two trials with the same settings and the same
/// root seed inform the same agents, take as many rounds and record the
/// same history.
pub proof fn law_same_seed_same_run(cfg: &Config, root: u64, r1: &SimulationResult, r2: &SimulationResult)
    requires
        exists|w0: WeakTieWorld, w1: WeakTieWorld| #[trigger] trial_worlds(cfg, root, &w0, &w1, r1),
        exists|w0: WeakTieWorld, w1: WeakTieWorld| #[trigger] trial_worlds(cfg, root, &w0, &w1, r2),
    ensures
        r1.world.informed@ == r2.world.informed@,
        r1.history@ == r2.history@,
        r1.cascade_rounds == r2.cascade_rounds,
{
    let (a0, a1) = choose|w0: WeakTieWorld, w1: WeakTieWorld| #[trigger] trial_worlds(cfg, root, &w0, &w1, r1);
    let (b0, b1) = choose|w0: WeakTieWorld, w1: WeakTieWorld| #[trigger] trial_worlds(cfg, root, &w0, &w1, r2);
    let n = a0.net.size();
    assert(a0.net@ == b0.net@);
    assert(a0.informed@ =~= b0.informed@) by {
        assert forall|v: int| 0 <= v < n implies a0.informed@[v] == b0.informed@[v] by {
            assert(a0.informed@[v] <==> v < a0.seeds@.len());
            assert(b0.informed@[v] <==> v < b0.seeds@.len());
        }
    }
    assert forall|x: int, y: int| 0 <= x < n && 0 <= y < n implies #[trigger] a1.net.weight(x, y) == b1.net.weight(x, y) by {
        assert(a0.net.weight(x, y) == b0.net.weight(x, y));
        if cfg.remove == RemovePolicy::Baseline {
            assert(a1.net@ == a0.net@ && b1.net@ == b0.net@);
        }
        if cfg.remove == RemovePolicy::Random {
            assert(a0.net.edge_pred() =~= b0.net.edge_pred());
            assert(a0.net.strength_pred(TieStrength::Weak) =~= b0.net.strength_pred(TieStrength::Weak));
            assert(random_removal_order(&a0.net, root) == random_removal_order(&b0.net, root));
        }
    }
    lemma_same_weights(&a1.net, &b1.net);
    lemma_rounds_same_ties(
        cfg,
        &a1.net,
        &b1.net,
        a1.informed@,
        seq![a1.informed_count() as usize],
        derived_seed(root, seq![RNG_ENGINE]),
        0,
        0,
        a1.max_iterations as nat,
        false,
    );
}

/// A higher threshold informs no more: from the same world, whatever a
/// threshold run with the higher threshold informs, a threshold run with
/// the lower one informs too.
pub proof fn law_higher_threshold_informs_no_more(
    cfg_low: &Config,
    cfg_high: &Config,
    start: &WeakTieWorld,
    r_low: &SimulationResult,
    r_high: &SimulationResult,
)
    requires
        start.wf(),
        cfg_low.diffusion == DiffusionModel::Threshold,
        cfg_high.diffusion == DiffusionModel::Threshold,
        at_most(cfg_low.theta, cfg_high.theta),
        diffused(cfg_low, start, r_low),
        cascade_run(cfg_low, start, r_low),
        diffused(cfg_high, start, r_high),
        cascade_run(cfg_high, start, r_high),
    ensures
        forall|v: int| 0 <= v < start.net.size() && #[trigger] r_high.world.informed@[v] ==> r_low.world.informed@[v],
        r_high.world.informed_count() <= r_low.world.informed_count(),
{
    let net = start.net;
    let init = start.informed@;
    let (a, b) = (cfg_low.theta, cfg_high.theta);
    let ta = r_low.cascade_rounds as nat;
    let tb = r_high.cascade_rounds as nat;
    lemma_cascade_mono(&net, a, b, init, init, tb);
    let mid = cascade(&net, a, init, tb);
    if tb <= ta {
        lemma_cascade_grows(&net, a, init, tb, ta);
    } else {
        lemma_settled_stays(&net, a, init, ta, tb);
    }
    assert(within(r_high.world.informed@, r_low.world.informed@)) by {
        assert forall|v: int| 0 <= v < r_high.world.informed@.len() && #[trigger] r_high.world.informed@[v] implies r_low.world.informed@[v] by {
            assert(mid[v]);
        }
    }
    lemma_count_within(r_high.world.informed@, r_low.world.informed@);
}

/// No pair satisfies `p` in `[0, n)`: the list of such pairs is empty.
proof fn lemma_no_pairs(n: int, p: spec_fn(int, int) -> bool)
    requires
        forall|x: int, y: int| 0 <= x < y < n ==> !#[trigger] p(x, y),
    ensures
        pairs_where(n, p).len() == 0,
{
    lemma_pair_list(n, 0, 1, p);
    if pairs_where(n, p).len() > 0 {
        let q = pairs_where(n, p)[0];
        assert(p(q.0, q.1));
    }
}

/// Cliques leave no forbidden triad: in a network generated with certain
/// strong ties, every two agents strongly tied to a third are tied to each
/// other, so there is no forbidden triad.
pub proof fn law_cliques_have_no_forbidden_triads(cfg: &Config, net: &TieNetwork, cluster_of: Seq<usize>)
    requires
        generated(cfg, net, cluster_of),
        cfg.p_strong.is_certain(),
    ensures
        wedge_total(net, net.size() as int, true) == 0,
{
    lemma_no_open_wedges_below(cfg, net, cluster_of, net.size() as int);
}

proof fn lemma_no_open_wedges_below(cfg: &Config, net: &TieNetwork, cluster_of: Seq<usize>, k: int)
    requires
        generated(cfg, net, cluster_of),
        cfg.p_strong.is_certain(),
        k <= net.size(),
    ensures
        wedge_total(net, k, true) == 0,
    decreases k,
{
    if k > 0 {
        lemma_no_open_wedges_below(cfg, net, cluster_of, k - 1);
        let c = k - 1;
        let n = net.size() as int;
        lemma_positive_size(cfg, c);
        let s = cfg.cluster_size as int;
        assert forall|x: int, y: int| 0 <= x < y < n implies !#[trigger] (net.wedge_pred(c, true))(x, y) by {
            if net.weight(c, x) == Some(TieStrength::Strong) && net.weight(c, y) == Some(TieStrength::Strong) {
                assert(net.adjacent(c, x) && net.adjacent(c, y));
                assert(c / s == x / s);
                assert(c / s == y / s);
                assert(net.weight(x, y) == Some(TieStrength::Strong) || net.weight(x, y) == Some(TieStrength::Weak));
            }
        }
        lemma_no_pairs(n, net.wedge_pred(c, true));
    }
}

/// Counting the members of `[lo, hi)` other than `e` among the first `n`
/// integers gives at most the size of the block, less one when `e` is in it.
proof fn lemma_count_block(n: int, lo: int, hi: int, e: int)
    requires
        0 <= lo <= hi,
    ensures
        count_where(n, |v: int| lo <= v < hi && v != e) + (if lo <= e < hi && e < n { 1int } else { 0int }) <= (if n
            <= lo {
            0
        } else if n <= hi {
            n - lo
        } else {
            hi - lo
        }),
    decreases n,
{
    if n > 0 {
        lemma_count_block(n - 1, lo, hi, e);
    }
}

/// Strong ties reach fewer agents than a cluster holds: in a generated
/// network, the agents that one seed reaches along strong ties alone, the
/// seed left out, are fewer than the members of a cluster.
pub proof fn law_strong_reach_count_below_cluster(cfg: &Config, net: &TieNetwork, cluster_of: Seq<usize>, seed: usize)
    requires
        generated(cfg, net, cluster_of),
        seed < net.size(),
    ensures
        reach_count(net, seq![seed], TieStrength::Strong) < cfg.cluster_size,
{
    lemma_positive_size(cfg, seed as int);
    let s = cfg.cluster_size as int;
    let c = seed as int / s;
    let n = net.size() as int;
    let seeds = seq![seed];
    let p = |v: int| reached_beyond_seeds(net, seeds, TieStrength::Strong, v);
    let q = |v: int| c * s <= v < c * s + s && v != seed as int;
    crate::network::lemma_block(seed as int, c, s);
    assert(0 <= c) by (nonlinear_arith)
        requires
            seed >= 0,
            s > 0,
            c == seed as int / s,
    ;
    assert(c * s <= seed < c * s + s) by {
        vstd::arithmetic::div_mod::lemma_fundamental_div_mod(seed as int, s);
        vstd::arithmetic::div_mod::lemma_mod_pos_bound(seed as int, s);
        assert(c * s == s * c) by (nonlinear_arith);
    }
    assert forall|v: int| 0 <= v < n && #[trigger] p(v) implies q(v) by {
        let i = choose|i: int| 0 <= i < seeds.len() && #[trigger] net.reaches(seeds[i] as int, v, Some(TieStrength::Strong));
        assert(seeds[i] == seed);
        law_strong_reach_stays_in_cluster(cfg, net, cluster_of, seed as int, v);
        assert(0 <= v);
        crate::network::lemma_block(v, c, s);
        if v == seed as int {
            assert(seeds.contains(v as usize));
        }
    }
    crate::cascade::lemma_count_where_mono(n, p, q);
    lemma_count_block(n, c * s, c * s + s, seed as int);
}

/// The order in which a round visits the agents does not change its
/// outcome: two rounds of the threshold cascade, or of SI with certain or
/// impossible infection, from the same informed agents inform the same
/// agents.
pub proof fn law_round_ignores_order(
    net: &TieNetwork,
    model: DiffusionModel,
    beta: Probability,
    theta: Ratio,
    before: Seq<bool>,
    after1: Seq<bool>,
    after2: Seq<bool>,
)
    requires
        round_outcome(net, model, beta, theta, before, after1),
        round_outcome(net, model, beta, theta, before, after2),
        model == DiffusionModel::Threshold || beta.is_certain() || beta.is_never(),
    ensures
        after1 == after2,
{
    assert(after1 =~= after2);
}

/// A walk of a network whose ties are all ties of another is a walk of the
/// other.
proof fn lemma_walk_in_larger(small: &TieNetwork, large: &TieNetwork, p: Seq<int>)
    requires
        small.size() == large.size(),
        forall|x: int, y: int|
            0 <= x < small.size() && 0 <= y < small.size() && #[trigger] small.adjacent(x, y) ==> large.adjacent(x, y),
        small.is_walk(p, None),
    ensures
        large.is_walk(p, None),
{
    assert forall|i: int| 0 <= i < p.len() - 1 implies large.step_ok(#[trigger] p[i], p[i + 1], None) by {
        assert(small.step_ok(p[i], p[i + 1], None));
    }
}

/// An ablation only removes ties.
proof fn lemma_ablated_within(before: &TieNetwork, after: &TieNetwork, policy: RemovePolicy)
    requires
        ablated(before, after, policy),
    ensures
        after.size() == before.size(),
        forall|x: int, y: int|
            0 <= x < after.size() && 0 <= y < after.size() && #[trigger] after.adjacent(x, y) ==> before.adjacent(x, y),
{
}

proof fn lemma_informed_reached(cfg: &Config, start: &WeakTieWorld, r: &SimulationResult)
    requires
        diffused(cfg, start, r),
        spreads_along_ties(cfg.diffusion, cfg.theta),
    ensures
        forall|v: int|
            0 <= v < start.net.size() && #[trigger] r.world.informed@[v] ==> reached_from_informed(&start.net, start.informed@, v),
{
}

proof fn lemma_certain_reaches_all(cfg: &Config, start: &WeakTieWorld, r: &SimulationResult)
    requires
        spread_in_rounds(cfg, start, r),
        cfg.diffusion == DiffusionModel::Si,
        cfg.beta.is_certain(),
        r.cascade_rounds < start.max_iterations,
    ensures
        forall|v: int|
            0 <= v < start.net.size() && reached_from_informed(&start.net, start.informed@, v) ==> #[trigger] r.world.informed@[v],
{
}

/// Removing ties never widens a certain spread: when SI infects with
/// certainty, a run on a network with ties removed informs no agent that a
/// run on the whole network, stopped before its budget, leaves uninformed.
pub proof fn law_removal_never_widens_certain_spread(
    cfg: &Config,
    w0: &WeakTieWorld,
    w1: &WeakTieWorld,
    r0: &SimulationResult,
    r1: &SimulationResult,
)
    requires
        w0.wf(),
        cfg.diffusion == DiffusionModel::Si,
        cfg.beta.is_certain(),
        ablated(&w0.net, &w1.net, cfg.remove),
        w1.informed == w0.informed,
        diffused(cfg, w0, r0),
        spread_in_rounds(cfg, w0, r0),
        r0.cascade_rounds < w0.max_iterations,
        diffused(cfg, w1, r1),
    ensures
        forall|v: int| 0 <= v < w0.net.size() && #[trigger] r1.world.informed@[v] ==> r0.world.informed@[v],
        r1.world.informed_count() <= r0.world.informed_count(),
{
    let n = w0.net.size();
    lemma_ablated_within(&w0.net, &w1.net, cfg.remove);
    lemma_informed_reached(cfg, w1, r1);
    lemma_certain_reaches_all(cfg, w0, r0);
    assert forall|v: int| 0 <= v < n && #[trigger] r1.world.informed@[v] implies r0.world.informed@[v] by {
        assert(reached_from_informed(&w1.net, w1.informed@, v));
        let s0 = choose|s: int| 0 <= s < w1.net.size() && #[trigger] w1.informed@[s] && w1.net.reaches(s, v, None);
        let p = choose|p: Seq<int>| #[trigger] w1.net.is_walk(p, None) && p[0] == s0 && p.last() == v;
        lemma_walk_in_larger(&w1.net, &w0.net, p);
        assert(w0.net.reaches(s0, v, None));
        assert(w0.informed@[s0]);
        assert(reached_from_informed(&w0.net, w0.informed@, v));
    }
    assert(r1.world.informed@.len() == n && r0.world.informed@.len() == n) by {
        assert(r1.world.wf() && r0.world.wf());
    }
    assert(within(r1.world.informed@, r0.world.informed@));
    lemma_count_within(r1.world.informed@, r0.world.informed@);
}

/// The informed neighbours of `v` in the tie matrix `m`, with the informed
/// flags `state`.
pub open spec fn informed_neighbor(m: Seq<Seq<Option<TieStrength>>>, state: Seq<bool>, v: int) -> spec_fn(int) -> bool {
    |x: int| m[v][x] is Some && state[x]
}

proof fn lemma_count_where_grows(a: int, b: int, p: spec_fn(int) -> bool)
    requires
        a <= b,
    ensures
        count_where(a, p) <= count_where(b, p),
    decreases b - a,
{
    if a < b {
        lemma_count_where_grows(a, b - 1, p);
    }
}

proof fn lemma_si_scan_from(
    m: Seq<Seq<Option<TieStrength>>>,
    state: Seq<bool>,
    v: int,
    beta: Probability,
    seed: u64,
    pos: nat,
    u: int,
)
    requires
        0 <= u <= m.len(),
    ensures
        si_scan(m, state, v, beta, seed, pos, u).0 <==> exists|j: int|
            0 <= j < count_where(m.len() as int, informed_neighbor(m, state, v)) - count_where(u, informed_neighbor(m, state, v))
                && #[trigger] draw_succeeds_spec(stream_word(seed, (pos + 2 * j) as nat), beta),
        !si_scan(m, state, v, beta, seed, pos, u).0 ==> si_scan(m, state, v, beta, seed, pos, u).1 == pos + 2 * (count_where(
            m.len() as int,
            informed_neighbor(m, state, v),
        ) - count_where(u, informed_neighbor(m, state, v))),
        si_scan(m, state, v, beta, seed, pos, u).0 ==> exists|j: int|
            0 <= j && #[trigger] draw_succeeds_spec(stream_word(seed, (pos + 2 * j) as nat), beta) && (forall|i: int|
                0 <= i < j ==> !#[trigger] draw_succeeds_spec(stream_word(seed, (pos + 2 * i) as nat), beta)) && si_scan(
                m,
                state,
                v,
                beta,
                seed,
                pos,
                u,
            ).1 == pos + 2 * (j + 1),
    decreases m.len() - u,
{
    let p = informed_neighbor(m, state, v);
    let n = m.len() as int;
    if u < n {
        lemma_count_where_grows(u + 1, n, p);
        assert(count_where(u + 1, p) == count_where(u, p) + if p(u) { 1nat } else { 0nat });
        let k = count_where(n, p) - count_where(u, p);
        if m[v][u] is Some && state[u] {
            lemma_si_scan_from(m, state, v, beta, seed, pos + 2, u + 1);
            if draw_succeeds_spec(stream_word(seed, pos), beta) {
                assert((pos + 2 * 0) as nat == pos);
                assert(draw_succeeds_spec(stream_word(seed, (pos + 2 * 0) as nat), beta));
            } else {
                let r = si_scan(m, state, v, beta, seed, pos + 2, u + 1);
                if r.0 {
                    let j = choose|j: int|
                        0 <= j && #[trigger] draw_succeeds_spec(stream_word(seed, ((pos + 2) + 2 * j) as nat), beta) && (forall|i: int|
                            0 <= i < j ==> !#[trigger] draw_succeeds_spec(stream_word(seed, ((pos + 2) + 2 * i) as nat), beta)) && r.1 == (pos + 2) + 2 * (j + 1);
                    assert(((pos + 2) + 2 * j) as nat == (pos + 2 * (j + 1)) as nat);
                    assert forall|i: int| 0 <= i < j + 1 implies !#[trigger] draw_succeeds_spec(stream_word(seed, (pos + 2 * i) as nat), beta) by {
                        if i == 0 {
                            assert((pos + 2 * i) as nat == pos);
                        } else {
                            assert(((pos + 2) + 2 * (i - 1)) as nat == (pos + 2 * i) as nat);
                            assert(!draw_succeeds_spec(stream_word(seed, ((pos + 2) + 2 * (i - 1)) as nat), beta));
                        }
                    }
                    assert(draw_succeeds_spec(stream_word(seed, (pos + 2 * (j + 1)) as nat), beta));
                }
                if exists|j: int| 0 <= j < k - 1 && #[trigger] draw_succeeds_spec(stream_word(seed, ((pos + 2) + 2 * j) as nat), beta) {
                    let j = choose|j: int| 0 <= j < k - 1 && #[trigger] draw_succeeds_spec(stream_word(seed, ((pos + 2) + 2 * j) as nat), beta);
                    assert(((pos + 2) + 2 * j) as nat == (pos + 2 * (j + 1)) as nat);
                    assert(draw_succeeds_spec(stream_word(seed, (pos + 2 * (j + 1)) as nat), beta));
                }
                if exists|j: int| 0 <= j < k && #[trigger] draw_succeeds_spec(stream_word(seed, (pos + 2 * j) as nat), beta) {
                    let j = choose|j: int| 0 <= j < k && #[trigger] draw_succeeds_spec(stream_word(seed, (pos + 2 * j) as nat), beta);
                    if j == 0 {
                        assert((pos + 2 * j) as nat == pos);
                    }
                    assert(j != 0);
                    assert(((pos + 2) + 2 * (j - 1)) as nat == (pos + 2 * j) as nat);
                    assert(draw_succeeds_spec(stream_word(seed, ((pos + 2) + 2 * (j - 1)) as nat), beta));
                }
            }
        } else {
            lemma_si_scan_from(m, state, v, beta, seed, pos, u + 1);
        }
    }
}

/// In an SI round, an uninformed agent with `k` informed neighbours gets
/// one draw of `beta` for each of them, on consecutive words of the stream,
/// and joins as soon as one succeeds: it joins exactly when one of the `k`
/// words from the stream's position on gives a successful draw (so a
/// failed draw for the first informed neighbour does not keep it out).
pub proof fn law_si_agent_gets_a_draw_per_informed_neighbour(
    m: Seq<Seq<Option<TieStrength>>>,
    state: Seq<bool>,
    v: int,
    beta: Probability,
    seed: u64,
    pos: nat,
)
    ensures
        si_scan(m, state, v, beta, seed, pos, 0).0 <==> exists|j: int|
            0 <= j < count_where(m.len() as int, informed_neighbor(m, state, v))
                && #[trigger] draw_succeeds_spec(stream_word(seed, (pos + 2 * j) as nat), beta),
        // an agent that stays out has taken one word pair per informed neighbour
        !si_scan(m, state, v, beta, seed, pos, 0).0 ==> si_scan(m, state, v, beta, seed, pos, 0).1 == pos + 2 * count_where(
            m.len() as int,
            informed_neighbor(m, state, v),
        ),
        // an agent that joins stops drawing at the first success
        si_scan(m, state, v, beta, seed, pos, 0).0 ==> exists|j: int|
            0 <= j && #[trigger] draw_succeeds_spec(stream_word(seed, (pos + 2 * j) as nat), beta) && (forall|i: int|
                0 <= i < j ==> !#[trigger] draw_succeeds_spec(stream_word(seed, (pos + 2 * i) as nat), beta)) && si_scan(
                m,
                state,
                v,
                beta,
                seed,
                pos,
                0,
            ).1 == pos + 2 * (j + 1),
{
    lemma_si_scan_from(m, state, v, beta, seed, pos, 0);
}

/// The random ablation takes the ties in the order the stream labelled
/// `RNG_ABLATION` under `root` shuffles them to: the `i`-th tie removed is
/// the tie that the shuffle of the ties (listed by first end, then second)
/// puts in place `i`.
pub proof fn law_random_ablation_follows_the_shuffle(net: &TieNetwork, root: u64)
    ensures
        random_removal_order(net, root).len() == pairs_where(net.size() as int, net.edge_pred()).len(),
        forall|i: int|
            0 <= i < pairs_where(net.size() as int, net.edge_pred()).len() ==> #[trigger] random_removal_order(net, root)[i]
                == ({
                let tie = pairs_where(net.size() as int, net.edge_pred())[shuffle_draw(
                    derived_seed(root, seq![RNG_ABLATION]),
                    0,
                    pairs_where(net.size() as int, net.edge_pred()).len(),
                ).0[i]];
                (tie.0 as usize, tie.1 as usize)
            }),
{
}

/// Two roots whose ablation streams shuffle the ties to different places
/// remove different ties there: the tie removed in place `i` tells which
/// tie the shuffle put there, so the random ablation changes with the
/// shuffle and is no fixed choice.
pub proof fn law_random_ablation_depends_on_the_shuffle(net: &TieNetwork, r1: u64, r2: u64, i: int)
    requires
        net.valid(),
        0 <= i < pairs_where(net.size() as int, net.edge_pred()).len(),
        0 <= shuffle_draw(derived_seed(r1, seq![RNG_ABLATION]), 0, pairs_where(net.size() as int, net.edge_pred()).len()).0[i]
            < pairs_where(net.size() as int, net.edge_pred()).len(),
        0 <= shuffle_draw(derived_seed(r2, seq![RNG_ABLATION]), 0, pairs_where(net.size() as int, net.edge_pred()).len()).0[i]
            < pairs_where(net.size() as int, net.edge_pred()).len(),
        shuffle_draw(derived_seed(r1, seq![RNG_ABLATION]), 0, pairs_where(net.size() as int, net.edge_pred()).len()).0[i]
            != shuffle_draw(derived_seed(r2, seq![RNG_ABLATION]), 0, pairs_where(net.size() as int, net.edge_pred()).len()).0[i],
    ensures
        random_removal_order(net, r1)[i] != random_removal_order(net, r2)[i],
{
    let edges = pairs_where(net.size() as int, net.edge_pred());
    let len = edges.len();
    let a = shuffle_draw(derived_seed(r1, seq![RNG_ABLATION]), 0, len).0[i];
    let b = shuffle_draw(derived_seed(r2, seq![RNG_ABLATION]), 0, len).0[i];
    lemma_pair_list(net.size() as int, 0, 1, net.edge_pred());
    let ea = edges[a];
    let eb = edges[b];
    assert(0 <= ea.0 < ea.1 < net.size() && 0 <= eb.0 < eb.1 < net.size());
    if a < b {
        assert(pair_before(edges[a], edges[b]));
    } else {
        assert(pair_before(edges[b], edges[a]));
    }
}

/// A bridge between two clusters is decided by one draw of `p_bridge`; when
/// it succeeds, its two ends are two separate uniform index draws below the
/// cluster size, the first from the word after the decision and the second
/// from where the first left the stream: the first draw gives the end in
/// the first cluster, the second draw the end in the second.
pub proof fn law_bridge_ends_are_two_separate_draws(seed: u64, pos: nat, p_bridge: Probability, size: usize)
    ensures
        draw_succeeds_spec(stream_word(seed, pos), p_bridge) ==> {
            let first = below_draw(seed, pos + 2, size);
            let second = below_draw(seed, first.1, size);
            &&& bridge_choice(seed, pos, p_bridge, size).0 == Some((first.0, second.0))
            &&& bridge_choice(seed, pos, p_bridge, size).1 == second.1
        },
        !draw_succeeds_spec(stream_word(seed, pos), p_bridge) ==> bridge_choice(seed, pos, p_bridge, size) == (None::<(usize, usize)>, pos + 2),
{
}

/// The random ablation removes the front of its order: every tie among the
/// first `count` of an order of all the ties is gone, and every later one
/// is kept with its strength.
pub proof fn law_removal_takes_the_front_of_the_order(
    before: &TieNetwork,
    after: &TieNetwork,
    order: Seq<(usize, usize)>,
    count: int,
)
    requires
        before.valid(),
        edge_order(before, order),
        removes_first(before, after, order, count),
        0 <= count <= order.len(),
    ensures
        forall|i: int| 0 <= i < count ==> #[trigger] after.weight(order[i].0 as int, order[i].1 as int) is None,
        forall|i: int|
            count <= i < order.len() ==> #[trigger] after.weight(order[i].0 as int, order[i].1 as int) == before.weight(
                order[i].0 as int,
                order[i].1 as int,
            ) && before.weight(order[i].0 as int, order[i].1 as int) is Some,
{
    let n = before.size();
    assert forall|i: int| 0 <= i < count implies #[trigger] after.weight(order[i].0 as int, order[i].1 as int) is None by {
        assert(order.take(count)[i] == order[i]);
        assert(listed(order.take(count), order[i].0 as int, order[i].1 as int));
    }
    assert forall|i: int| count <= i < order.len() implies #[trigger] after.weight(order[i].0 as int, order[i].1 as int)
        == before.weight(order[i].0 as int, order[i].1 as int) && before.weight(order[i].0 as int, order[i].1 as int) is Some by {
        let x = order[i].0 as int;
        let y = order[i].1 as int;
        assert(order[i].0 < order[i].1 < n && before.adjacent(x, y));
        if listed(order.take(count), x, y) {
            let k = choose|k: int|
                0 <= k < order.take(count).len() && ((#[trigger] order.take(count)[k].0 == x && order.take(count)[k].1 == y) || (
                order.take(count)[k].0 == y && order.take(count)[k].1 == x));
            assert(order.take(count)[k] == order[k]);
            assert(order[k].0 < order[k].1 < n);
            assert(order[k] == order[i]);
        }
    }
}

/// An untied pair of a cluster gets a strong tie exactly when the draw of
/// `p_strong` on the next word succeeds; failing that, a weak tie exactly
/// when weak ties inside clusters are possible and the draw of
/// `p_weak_intra` on the following word succeeds; else no tie. One word
/// pair is taken per draw made.
pub proof fn law_pair_tie_is_strong_first_then_weak(seed: u64, pos: nat, p_strong: Probability, p_weak_intra: Probability)
    ensures
        (pair_choice(seed, pos, p_strong, p_weak_intra).0 == Some(TieStrength::Strong)) <==> draw_succeeds_spec(
            stream_word(seed, pos),
            p_strong,
        ),
        (pair_choice(seed, pos, p_strong, p_weak_intra).0 == Some(TieStrength::Weak)) <==> (!draw_succeeds_spec(
            stream_word(seed, pos),
            p_strong,
        ) && !p_weak_intra.is_never() && draw_succeeds_spec(stream_word(seed, pos + 2), p_weak_intra)),
        pair_choice(seed, pos, p_strong, p_weak_intra).1 == if draw_succeeds_spec(stream_word(seed, pos), p_strong)
            || p_weak_intra.is_never() {
            pos + 2
        } else {
            pos + 4
        },
{
}

} // verus!
