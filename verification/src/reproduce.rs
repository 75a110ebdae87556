//! The batch reproduction of the paper's two headline claims: the trial
//! plan, and the trials themselves, tallied in exact counts.
//!
//! Claim A (weak-tie bridges): removing the weak ties collapses reach to the
//! seed's cluster, while removing as many random ties does not, and every
//! local bridge is weak. Claim B (threshold tipping): a small rise of the
//! threshold moves the final cascade from global to local.
use vstd::prelude::*;
use crate::config::{Config, DiffusionModel, Ratio, RemovePolicy};
use crate::mechanisms::spreads_along_ties;
use crate::metrics::weak_bridge_counts;
use crate::rng::{derive_seed, derived_seed};
use crate::network::generated_from;
use crate::simulation::{
    ablated, apply_ablation, cascade_run, diffused, init_world, initialized, random_removal_order, removes_first,
    run_diffusion, run_outcome, runnable, seed_count, SimulationResult, RNG_WORLD_INIT,
};
use crate::world::{TieStrength, WeakTieWorld};

verus! {

/// The settings of a reproduction.
pub struct ReproduceOptions {
    /// Where results are written.
    pub output_dir: String,
    /// The root seed.
    pub seed: u64,
    /// A reduced scale, for a quick check.
    pub quick: bool,
}

/// The network scale and trial counts of a reproduction.
pub struct ReproducePlan {
    pub clusters: usize,
    pub cluster_size: usize,
    /// Trials per ablation condition (Claim A).
    pub runs_a: usize,
    /// Trials per threshold (Claim B).
    pub runs_b: usize,
    pub max_iterations: usize,
    /// Seeds of the threshold cascade: about one per cluster.
    pub n_seeds_b: usize,
}

/// Ten clusters; twenty members each (twelve when quick); twenty trials per
/// ablation condition and ten per threshold (five each when quick); 200
/// rounds; a tenth of the agents as seeds of the threshold cascade.
pub fn reproduce_plan(opts: &ReproduceOptions) -> (r: ReproducePlan)
    ensures
        r.clusters == 10,
        r.cluster_size == if opts.quick { 12usize } else { 20usize },
        r.runs_a == if opts.quick { 5usize } else { 20usize },
        r.runs_b == if opts.quick { 5usize } else { 10usize },
        r.max_iterations == 200,
        r.n_seeds_b == r.cluster_size * r.clusters / 10,
{
    let clusters: usize = 10;
    let cluster_size: usize = if opts.quick { 12 } else { 20 };
    ReproducePlan {
        clusters,
        cluster_size,
        runs_a: if opts.quick { 5 } else { 20 },
        runs_b: if opts.quick { 5 } else { 10 },
        max_iterations: 200,
        n_seeds_b: cluster_size * clusters / 10,
    }
}

/// The root seed of trial `run_idx` under `root`.
pub fn run_seed(root: u64, run_idx: usize) -> (r: u64)
    ensures
        r == derived_seed(root, seq![run_idx as u64]),
{
    let path = [run_idx as u64];
    assert(path@ =~= seq![run_idx as u64]);
    derive_seed(root, &path)
}

/// `cfg` with another ablation policy, diffusion model and threshold.
pub fn config_variant(cfg: &Config, remove: RemovePolicy, diffusion: DiffusionModel, theta: Ratio) -> (r: Config)
    ensures
        r.clusters == cfg.clusters,
        r.cluster_size == cfg.cluster_size,
        r.p_strong == cfg.p_strong,
        r.p_bridge == cfg.p_bridge,
        r.p_weak_intra == cfg.p_weak_intra,
        r.diffusion == diffusion,
        r.beta == cfg.beta,
        r.theta == theta,
        r.remove == remove,
        r.n_seeds == cfg.n_seeds,
        r.max_iterations == cfg.max_iterations,
        r.seed == cfg.seed,
        r.output_dir@ == cfg.output_dir@,
        is_variant(r, *cfg, remove, diffusion, theta),
{
    Config {
        clusters: cfg.clusters,
        cluster_size: cfg.cluster_size,
        p_strong: cfg.p_strong,
        p_bridge: cfg.p_bridge,
        p_weak_intra: cfg.p_weak_intra,
        diffusion,
        beta: cfg.beta,
        theta,
        remove,
        n_seeds: cfg.n_seeds,
        max_iterations: cfg.max_iterations,
        seed: cfg.seed,
        output_dir: String::from_str(cfg.output_dir.as_str()),
    }
}

/// `c` is `base` with the ablation `remove`, the diffusion model
/// `diffusion` and the threshold `theta`.
pub open spec fn is_variant(c: Config, base: Config, remove: RemovePolicy, diffusion: DiffusionModel, theta: Ratio) -> bool {
    &&& c.clusters == base.clusters
    &&& c.cluster_size == base.cluster_size
    &&& c.p_strong == base.p_strong
    &&& c.p_bridge == base.p_bridge
    &&& c.p_weak_intra == base.p_weak_intra
    &&& c.beta == base.beta
    &&& c.n_seeds == base.n_seeds
    &&& c.max_iterations == base.max_iterations
    &&& c.seed == base.seed
    &&& c.diffusion == diffusion
    &&& c.theta == theta
    &&& c.remove == remove
}

/// One trial of an ablation condition: the baseline and the ablated run on
/// the same seed.
pub struct RemovalTrial {
    pub n_agents: usize,
    /// Agents informed without removal.
    pub baseline_informed: usize,
    /// Agents informed after the removal.
    pub removed_informed: usize,
    /// Weak local bridges of the baseline network.
    pub weak_bridges: usize,
    /// Local bridges of the baseline network.
    pub bridges: usize,
}

/// `built` is the world `init_world` builds for `c` under the root seed
/// `seed`, and `r` is the run `run_diffusion` makes from `start` under the
/// same seed.
pub open spec fn built_and_run(c: &Config, seed: u64, built: &WeakTieWorld, start: &WeakTieWorld, r: &SimulationResult) -> bool {
    &&& initialized(c, built)
    &&& built.net@ == generated_from(c, derived_seed(seed, seq![RNG_WORLD_INIT]), 0).0
    &&& diffused(c, start, r)
    &&& (r.world.informed@, r.history@, r.cascade_rounds as nat) == run_outcome(c, start, seed)
}

/// `t` reports, as its baseline, the run `r` of the world `w` initialized
/// for the variant `c` of `base` with no removal, under the root seed
/// `seed`: the agents `r` informs, and the local bridges of `w`.
pub open spec fn reports_baseline(base: &Config, seed: u64, t: RemovalTrial, c: Config, w: WeakTieWorld, r: SimulationResult) -> bool {
    &&& is_variant(c, *base, RemovePolicy::Baseline, base.diffusion, base.theta)
    &&& built_and_run(&c, seed, &w, &w, &r)
    &&& t.n_agents == w.net.size()
    &&& t.baseline_informed == r.world.informed_count()
    &&& t.weak_bridges == w.net.weak_bridge_pairs().len()
    &&& t.bridges == w.net.bridge_pairs().len()
}

/// `t` reports, as its ablated run, the run `r` of the world `w1` that the
/// ablation `remove` made of the world `w0` initialized for the variant `c`
/// of `base` with that ablation, under the root seed `seed`.
pub open spec fn reports_removal(
    base: &Config,
    remove: RemovePolicy,
    seed: u64,
    t: RemovalTrial,
    c: Config,
    w0: WeakTieWorld,
    w1: WeakTieWorld,
    r: SimulationResult,
) -> bool {
    &&& is_variant(c, *base, remove, base.diffusion, base.theta)
    &&& built_and_run(&c, seed, &w0, &w1, &r)
    &&& ablated(&w0.net, &w1.net, remove)
    &&& remove == RemovePolicy::Random ==> removes_first(
        &w0.net,
        &w1.net,
        random_removal_order(&w0.net, seed),
        w0.net.strength_pairs(TieStrength::Weak).len() as int,
    )
    &&& w1.wf()
    &&& w1.informed == w0.informed
    &&& w1.max_iterations == w0.max_iterations
    &&& t.removed_informed == r.world.informed_count()
}

/// A trial reports a baseline run and an ablated run of `base` under
/// `remove`, both under the root seed `seed` (see `reports_baseline` and
/// `reports_removal`).
#[verifier::opaque]
pub open spec fn removal_reported(base: &Config, remove: RemovePolicy, seed: u64, t: RemovalTrial) -> bool {
    &&& exists|c: Config, w: WeakTieWorld, rb: SimulationResult| #[trigger] reports_baseline(base, seed, t, c, w, rb)
    &&& exists|c: Config, w0: WeakTieWorld, w1: WeakTieWorld, rr: SimulationResult| #[trigger] reports_removal(
        base,
        remove,
        seed,
        t,
        c,
        w0,
        w1,
        rr,
    )
}

/// What holds of every trial of the ablation `remove` of `base`.
pub open spec fn removal_trial_bounds(base: &Config, remove: RemovePolicy, t: RemovalTrial) -> bool {
    &&& t.n_agents == base.clusters * base.cluster_size
    &&& seed_count(base) <= t.baseline_informed <= t.n_agents
    &&& seed_count(base) <= t.removed_informed <= t.n_agents
    &&& t.weak_bridges <= t.bridges
    // all local bridges are weak
    &&& base.cluster_size >= 3 ==> t.weak_bridges == t.bridges
    // without the weak ties the diffusion stays in the seed's cluster
    &&& (remove == RemovePolicy::Weak && spreads_along_ties(base.diffusion, base.theta) && seed_count(base)
        <= base.cluster_size) ==> t.removed_informed <= base.cluster_size
}

/// One trial of the ablation `remove` on the seed `seed`: the diffusion
/// once without removal and once after it, and the local bridges of the
/// baseline network.
#[verifier::spinoff_prover]
fn removal_trial(base_cfg: &Config, remove: RemovePolicy, seed: u64) -> (t: RemovalTrial)
    requires
        runnable(base_cfg),
    ensures
        removal_trial_bounds(base_cfg, remove, t),
        removal_reported(base_cfg, remove, seed, t),
{
    let cfg = config_variant(base_cfg, RemovePolicy::Baseline, base_cfg.diffusion, base_cfg.theta);
    let baseline_world = init_world(&cfg, seed);
    let (weak_bridges, bridges) = weak_bridge_counts(&baseline_world.net);
    proof {
        crate::graph::lemma_pair_list_len_mono(
            baseline_world.net.size() as int,
            0,
            1,
            baseline_world.net.bridge_pred(),
            baseline_world.net.weak_bridge_pred(),
        );
        if cfg.cluster_size >= 3 {
            crate::laws::law_generated_local_bridges_are_weak(&cfg, &baseline_world.net, baseline_world.cluster_of@);
        }
    }
    let n_agents = baseline_world.n();
    let ghost w0 = baseline_world;
    let baseline = run_diffusion(baseline_world, &cfg, seed);
    let baseline_informed = baseline.world.n_informed();
    proof {
        assert forall|v: int| 0 <= v < seed_count(base_cfg) implies #[trigger] baseline.world.informed@[v] by {
            assert(w0.informed@[v]);
        }
        crate::graph::lemma_count_true_prefix(baseline.world.informed@, seed_count(base_cfg));
        crate::graph::lemma_count_true_bound(baseline.world.informed@);
    }
    let cfg_rm = config_variant(base_cfg, remove, base_cfg.diffusion, base_cfg.theta);
    let mut world = init_world(&cfg_rm, seed);
    let ghost v0 = world;
    apply_ablation(&mut world, &cfg_rm, seed);
    let ghost v1 = world;
    let removed = run_diffusion(world, &cfg_rm, seed);
    let removed_informed = removed.world.n_informed();
    proof {
        assert forall|v: int| 0 <= v < seed_count(base_cfg) implies #[trigger] removed.world.informed@[v] by {
            assert(v1.informed@[v]);
        }
        crate::graph::lemma_count_true_prefix(removed.world.informed@, seed_count(base_cfg));
        crate::graph::lemma_count_true_bound(removed.world.informed@);
        if remove == RemovePolicy::Weak && spreads_along_ties(base_cfg.diffusion, base_cfg.theta)
            && seed_count(base_cfg) <= base_cfg.cluster_size {
            let sz = base_cfg.cluster_size as int;
            assert forall|v: int| 0 <= v < removed.world.informed@.len() && #[trigger] removed.world.informed@[v] implies v < sz by {
                crate::laws::law_weak_removal_confines_diffusion(&cfg_rm, &v0, &v1, &removed, v);
                let j = choose|j: int| 0 <= j < seed_count(&cfg_rm) && v / sz == #[trigger] (j / sz);
                crate::network::lemma_block(j, 0, sz);
                crate::network::lemma_block(v, 0, sz);
            }
            crate::graph::lemma_count_true_below(removed.world.informed@, sz);
        }
    }
    let trial = RemovalTrial { n_agents, baseline_informed, removed_informed, weak_bridges, bridges };
    proof {
        reveal(removal_reported);
        assert(reports_baseline(base_cfg, seed, trial, cfg, w0, baseline));
        assert(reports_removal(base_cfg, remove, seed, trial, cfg_rm, v0, v1, removed));
    }
    trial
}

/// `runs` trials of the ablation `remove`, trial `i` on the seed
/// `run_seed(root, i)`: each runs the diffusion once without removal and
/// once after it, and counts the local bridges of the baseline network.
pub fn removal_trials(base_cfg: &Config, remove: RemovePolicy, runs: usize, root: u64) -> (r: Vec<RemovalTrial>)
    requires
        runnable(base_cfg),
    ensures
        r@.len() == runs,
        forall|i: int| 0 <= i < runs ==> #[trigger] removal_trial_bounds(base_cfg, remove, r@[i]),
        // each trial reports a baseline run and an ablated run
        forall|i: int| 0 <= i < runs ==> #[trigger] removal_reported(base_cfg, remove, derived_seed(root, seq![i as u64]), r@[i]),
{
    let mut out: Vec<RemovalTrial> = Vec::new();
    let mut i: usize = 0;
    while i < runs
        invariant
            runnable(base_cfg),
            i <= runs,
            out@.len() == i,
            forall|k: int| 0 <= k < i ==> #[trigger] removal_trial_bounds(base_cfg, remove, out@[k]),
            forall|k: int| 0 <= k < i ==> #[trigger] removal_reported(base_cfg, remove, derived_seed(root, seq![k as u64]), out@[k]),
        decreases runs - i,
    {
        let seed = run_seed(root, i);
        let trial = removal_trial(base_cfg, remove, seed);
        let ghost before = out@;
        out.push(trial);
        proof {
            assert forall|k: int| 0 <= k < i + 1 implies #[trigger] removal_trial_bounds(base_cfg, remove, out@[k]) by {
                if k < i {
                    assert(out@[k] == before[k]);
                }
            }
            assert forall|k: int| 0 <= k < i + 1 implies #[trigger] removal_reported(base_cfg, remove, derived_seed(root, seq![k as u64]), out@[k]) by {
                if k < i {
                    assert(out@[k] == before[k]);
                }
            }
        }
        i = i + 1;
    }
    out
}

/// One trial of the threshold cascade.
pub struct ThresholdTrial {
    pub n_agents: usize,
    pub informed: usize,
    pub cascade_rounds: usize,
}

/// `t` reports the threshold run `r` of the world `w` initialized for the
/// variant `c` of `base` with the threshold cascade at `theta` and no
/// removal: the agents it informs and the rounds it takes (which the world
/// determines, see `cascade_run`).
pub open spec fn reports_threshold_run(
    base: &Config,
    theta: Ratio,
    seed: u64,
    t: ThresholdTrial,
    c: Config,
    w: WeakTieWorld,
    r: SimulationResult,
) -> bool {
    &&& is_variant(c, *base, RemovePolicy::Baseline, DiffusionModel::Threshold, theta)
    &&& built_and_run(&c, seed, &w, &w, &r)
    &&& cascade_run(&c, &w, &r)
    &&& t.n_agents == w.net.size()
    &&& t.informed == r.world.informed_count()
    &&& t.cascade_rounds == r.cascade_rounds
}

/// A trial reports a threshold run of `base` at `theta` under the root
/// seed `seed`.
#[verifier::opaque]
pub open spec fn threshold_reported(base: &Config, theta: Ratio, seed: u64, t: ThresholdTrial) -> bool {
    exists|c: Config, w: WeakTieWorld, r: SimulationResult| #[trigger] reports_threshold_run(base, theta, seed, t, c, w, r)
}

/// What holds of every threshold trial of `base`.
pub open spec fn threshold_trial_bounds(base: &Config, t: ThresholdTrial) -> bool {
    &&& t.n_agents == base.clusters * base.cluster_size
    &&& seed_count(base) <= t.informed <= t.n_agents
    &&& t.cascade_rounds <= base.max_iterations
}

/// One trial of the threshold cascade at `theta` on the seed `seed`.
fn threshold_trial(base_cfg: &Config, theta: Ratio, seed: u64) -> (t: ThresholdTrial)
    requires
        runnable(base_cfg),
    ensures
        threshold_trial_bounds(base_cfg, t),
        threshold_reported(base_cfg, theta, seed, t),
{
    let cfg = config_variant(base_cfg, RemovePolicy::Baseline, DiffusionModel::Threshold, theta);
    let world = init_world(&cfg, seed);
    let ghost w0 = world;
    let n_agents = world.n();
    let result = run_diffusion(world, &cfg, seed);
    let informed = result.world.n_informed();
    proof {
        assert forall|v: int| 0 <= v < seed_count(base_cfg) implies #[trigger] result.world.informed@[v] by {
            assert(w0.informed@[v]);
        }
        crate::graph::lemma_count_true_prefix(result.world.informed@, seed_count(base_cfg));
        crate::graph::lemma_count_true_bound(result.world.informed@);
    }
    let trial = ThresholdTrial { n_agents, informed, cascade_rounds: result.cascade_rounds };
    proof {
        reveal(threshold_reported);
        assert(reports_threshold_run(base_cfg, theta, seed, trial, cfg, w0, result));
    }
    trial
}

/// `runs` trials of the threshold cascade at threshold `theta` with no
/// removal, trial `i` on the seed `run_seed(root, i)`.
pub fn threshold_trials(base_cfg: &Config, theta: Ratio, runs: usize, root: u64) -> (r: Vec<ThresholdTrial>)
    requires
        runnable(base_cfg),
    ensures
        r@.len() == runs,
        forall|i: int| 0 <= i < runs ==> #[trigger] threshold_trial_bounds(base_cfg, r@[i]),
        // each trial reports a threshold run at `theta`
        forall|i: int| 0 <= i < runs ==> #[trigger] threshold_reported(base_cfg, theta, derived_seed(root, seq![i as u64]), r@[i]),
{
    let mut out: Vec<ThresholdTrial> = Vec::new();
    let mut i: usize = 0;
    while i < runs
        invariant
            runnable(base_cfg),
            i <= runs,
            out@.len() == i,
            forall|k: int| 0 <= k < i ==> #[trigger] threshold_trial_bounds(base_cfg, out@[k]),
            forall|k: int| 0 <= k < i ==> #[trigger] threshold_reported(base_cfg, theta, derived_seed(root, seq![k as u64]), out@[k]),
        decreases runs - i,
    {
        let seed = run_seed(root, i);
        let trial = threshold_trial(base_cfg, theta, seed);
        let ghost before = out@;
        out.push(trial);
        proof {
            assert forall|k: int| 0 <= k < i + 1 implies #[trigger] threshold_trial_bounds(base_cfg, out@[k]) by {
                if k < i {
                    assert(out@[k] == before[k]);
                }
            }
            assert forall|k: int| 0 <= k < i + 1 implies #[trigger] threshold_reported(base_cfg, theta, derived_seed(root, seq![k as u64]), out@[k]) by {
                if k < i {
                    assert(out@[k] == before[k]);
                }
            }
        }
        i = i + 1;
    }
    out
}

/// `a <= b` as fractions (with positive denominators).
pub open spec fn ratio_le(a: Ratio, b: Ratio) -> bool {
    a.num * b.den <= b.num * a.den
}

/// The thresholds rise strictly from one to the next.
pub open spec fn strictly_rising(thetas: Seq<Ratio>) -> bool {
    forall|i: int, j: int| 0 <= i < j < thetas.len() ==> #[trigger] thetas[i].num * #[trigger] thetas[j].den < thetas[j].num * thetas[i].den
}

/// Where the scan for the highest threshold that still cascades globally
/// stands after the first `k` thresholds: it starts at the first and moves
/// to each one that cascades globally and is no lower than the one held.
pub open spec fn low_scan(thetas: Seq<Ratio>, global: Seq<bool>, k: int) -> int
    decreases k,
{
    if k <= 0 {
        0
    } else {
        let j = low_scan(thetas, global, k - 1);
        if global[k - 1] && ratio_le(thetas[j], thetas[k - 1]) {
            k - 1
        } else {
            j
        }
    }
}

/// Where the scan for the lowest threshold that stays local stands after
/// the thresholds from `k` on, taken from the last down: it starts at the
/// last and moves to each one that stays local and is no higher than the
/// one held.
pub open spec fn high_scan(thetas: Seq<Ratio>, local: Seq<bool>, k: int) -> int
    decreases thetas.len() - k,
{
    if k >= thetas.len() {
        thetas.len() - 1
    } else {
        let j = high_scan(thetas, local, k + 1);
        if local[k] && ratio_le(thetas[k], thetas[j]) {
            k
        } else {
            j
        }
    }
}

/// With strictly rising thresholds, the scan up to `k` holds the last
/// index below `k` that cascades globally, or the first when none does.
pub proof fn lemma_low_scan_rising(thetas: Seq<Ratio>, global: Seq<bool>, k: int)
    requires
        strictly_rising(thetas),
        0 <= k <= thetas.len(),
        global.len() == thetas.len(),
    ensures
        (exists|i: int| 0 <= i < k && #[trigger] global[i]) ==> {
            let l = low_scan(thetas, global, k);
            &&& 0 <= l < k
            &&& global[l]
            &&& forall|j: int| l < j < k ==> !#[trigger] global[j]
        },
        !(exists|i: int| 0 <= i < k && #[trigger] global[i]) ==> low_scan(thetas, global, k) == 0,
    decreases k,
{
    if k > 0 {
        lemma_low_scan_rising(thetas, global, k - 1);
        let j = low_scan(thetas, global, k - 1);
        if global[k - 1] {
            if j < k - 1 {
                assert(thetas[j].num * thetas[k - 1].den < thetas[k - 1].num * thetas[j].den);
            }
            assert(ratio_le(thetas[j], thetas[k - 1]));
        } else if exists|i: int| 0 <= i < k && #[trigger] global[i] {
            let i = choose|i: int| 0 <= i < k && #[trigger] global[i];
            assert(0 <= i < k - 1 && global[i]);
        }
    }
}

/// With strictly rising thresholds, the scan from `k` holds the first
/// index from `k` on that stays local, or the last when none does.
pub proof fn lemma_high_scan_rising(thetas: Seq<Ratio>, local: Seq<bool>, k: int)
    requires
        strictly_rising(thetas),
        0 <= k <= thetas.len(),
        thetas.len() > 0,
        local.len() == thetas.len(),
    ensures
        (exists|i: int| k <= i < thetas.len() && #[trigger] local[i]) ==> {
            let h = high_scan(thetas, local, k);
            &&& k <= h < thetas.len()
            &&& local[h]
            &&& forall|j: int| k <= j < h ==> !#[trigger] local[j]
        },
        !(exists|i: int| k <= i < thetas.len() && #[trigger] local[i]) ==> high_scan(thetas, local, k) == thetas.len() - 1,
    decreases thetas.len() - k,
{
    if k < thetas.len() {
        lemma_high_scan_rising(thetas, local, k + 1);
        let j = high_scan(thetas, local, k + 1);
        if local[k] {
            if k < j {
                assert(thetas[k].num * thetas[j].den < thetas[j].num * thetas[k].den);
            }
            assert(ratio_le(thetas[k], thetas[j]));
        } else if exists|i: int| k <= i < thetas.len() && #[trigger] local[i] {
            let i = choose|i: int| k <= i < thetas.len() && #[trigger] local[i];
            assert(k + 1 <= i < thetas.len() && local[i]);
        }
    }
}

fn ratio_at_most(a: Ratio, b: Ratio) -> (r: bool)
    ensures
        r == ratio_le(a, b),
{
    let (an, ad, bn, bd) = (a.num as u128, a.den as u128, b.num as u128, b.den as u128);
    assert(an * bd <= u128::MAX && bn * ad <= u128::MAX) by (nonlinear_arith)
        requires
            an <= u64::MAX,
            ad <= u64::MAX,
            bn <= u64::MAX,
            bd <= u64::MAX,
    ;
    an * bd <= bn * ad
}

/// The tipping points of a scan over the thresholds `thetas`, given which
/// of them cascade globally and which stay local: the index of the
/// highest threshold that cascades globally (the first when none does) and
/// of the lowest that stays local (the last when none does), each scan
/// keeping only a threshold no lower (no higher) than the one it holds.
pub fn tipping_points(thetas: &Vec<Ratio>, global: &Vec<bool>, local: &Vec<bool>) -> (r: (usize, usize))
    requires
        thetas@.len() > 0,
        global@.len() == thetas@.len(),
        local@.len() == thetas@.len(),
    ensures
        r.0 == low_scan(thetas@, global@, thetas@.len() as int),
        r.1 == high_scan(thetas@, local@, 0),
        r.0 < thetas@.len(),
        r.1 < thetas@.len(),
        strictly_rising(thetas@) ==> ((exists|i: int| 0 <= i < thetas@.len() && #[trigger] global@[i]) ==> global@[r.0 as int]
            && forall|j: int| r.0 < j < thetas@.len() ==> !#[trigger] global@[j]),
        strictly_rising(thetas@) ==> (!(exists|i: int| 0 <= i < thetas@.len() && #[trigger] global@[i]) ==> r.0 == 0),
        strictly_rising(thetas@) ==> ((exists|i: int| 0 <= i < thetas@.len() && #[trigger] local@[i]) ==> local@[r.1 as int]
            && forall|j: int| 0 <= j < r.1 ==> !#[trigger] local@[j]),
        strictly_rising(thetas@) ==> (!(exists|i: int| 0 <= i < thetas@.len() && #[trigger] local@[i]) ==> r.1
            == thetas@.len() - 1),
{
    let n = thetas.len();
    let mut low: usize = 0;
    let mut i: usize = 0;
    while i < n
        invariant
            n == thetas@.len(),
            global@.len() == n,
            i <= n,
            low < n,
            low == low_scan(thetas@, global@, i as int),
        decreases n - i,
    {
        if global[i] && ratio_at_most(thetas[low], thetas[i]) {
            low = i;
        }
        i = i + 1;
    }
    let mut high: usize = n - 1;
    let mut k: usize = n;
    while k > 0
        invariant
            n == thetas@.len(),
            n > 0,
            local@.len() == n,
            k <= n,
            high < n,
            high == high_scan(thetas@, local@, k as int),
        decreases k,
    {
        k = k - 1;
        if local[k] && ratio_at_most(thetas[k], thetas[high]) {
            high = k;
        }
    }
    proof {
        if strictly_rising(thetas@) {
            lemma_low_scan_rising(thetas@, global@, n as int);
            lemma_high_scan_rising(thetas@, local@, 0);
        }
    }
    (low, high)
}

} // verus!
