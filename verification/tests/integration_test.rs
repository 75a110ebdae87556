//! Weak-tie bridging network and diffusion, through the public API:
//! every local bridge of the default generator is weak, removing the weak
//! ties confines diffusion to the seed's cluster, runs are reproducible
//! for a seed, and the generated network is well formed.

use granovetter_ties::config::{draw_threshold, share_threshold, Config, DiffusionModel, Probability, Ratio, RemovePolicy};
use granovetter_ties::metrics::{reach_by_strength, weak_bridge_counts};
use granovetter_ties::simulation::{apply_ablation, init_world, run, run_diffusion};
use granovetter_ties::world::WeakTieWorld;

fn probability(p: f64) -> Probability {
    draw_threshold(p.to_bits())
}

fn ratio(theta: f64) -> Ratio {
    share_threshold(theta.to_bits())
}

fn reach_fraction(world: &WeakTieWorld) -> f64 {
    let n = world.n();
    if n == 0 {
        return 0.0;
    }
    world.n_informed() as f64 / n as f64
}

fn frac_weak_bridges(world: &WeakTieWorld) -> f64 {
    let (weak, all) = weak_bridge_counts(&world.net);
    if all == 0 {
        1.0
    } else {
        weak as f64 / all as f64
    }
}

fn base_config(remove: RemovePolicy) -> Config {
    Config {
        clusters: 8,
        cluster_size: 12,
        p_strong: probability(0.6),
        p_bridge: probability(0.5),
        p_weak_intra: probability(0.0),
        diffusion: DiffusionModel::Si,
        beta: probability(0.9),
        theta: ratio(0.2),
        remove,
        n_seeds: 1,
        max_iterations: 200,
        seed: Some(42),
        output_dir: "results".to_string(),
    }
}

#[test]
fn all_local_bridges_are_weak() {
    let cfg = base_config(RemovePolicy::Baseline);
    let world = init_world(&cfg, 42);
    let frac = frac_weak_bridges(&world);
    assert_eq!(frac, 1.0, "every local bridge of the default generator is weak (got {})", frac);
}

#[test]
fn removing_weak_collapses_reach_to_seed_cluster() {
    let seed = 42;

    let baseline = run(&base_config(RemovePolicy::Baseline), seed);
    let reach_baseline = reach_fraction(&baseline.world);

    let cfg_weak = base_config(RemovePolicy::Weak);
    let mut w_weak = init_world(&cfg_weak, seed);
    apply_ablation(&mut w_weak, &cfg_weak, seed);
    let reach_weak = reach_fraction(&run_diffusion(w_weak, &cfg_weak, seed).world);

    assert!(reach_baseline >= 0.8, "with weak ties the diffusion reaches far (got {})", reach_baseline);
    assert!(reach_weak <= 0.30, "without weak ties it stays in the seed's cluster (got {})", reach_weak);
    assert!(
        reach_baseline - reach_weak >= 0.5,
        "removing weak ties shrinks reach a lot (baseline={}, weak={})",
        reach_baseline,
        reach_weak
    );
}

#[test]
fn strong_only_reach_stays_within_seed_cluster() {
    let cfg = base_config(RemovePolicy::Baseline);
    let world = init_world(&cfg, 42);
    let (strong_only, _weak_only) = reach_by_strength(&world.net, &world.seeds);
    assert!(strong_only < cfg.cluster_size, "strong-only reach stays in the seed's cluster (got {})", strong_only);
    assert!(strong_only >= 1, "strong ties reach into the cluster");
}

#[test]
fn diffusion_is_deterministic_for_fixed_seed() {
    let a = run(&base_config(RemovePolicy::Baseline), 42);
    let b = run(&base_config(RemovePolicy::Baseline), 42);
    assert_eq!(a.world.n_informed(), b.world.n_informed());
    assert_eq!(a.cascade_rounds, b.cascade_rounds);
    assert_eq!(a.history, b.history);
}

#[test]
fn generated_network_is_well_formed() {
    let cfg = base_config(RemovePolicy::Baseline);
    let world = init_world(&cfg, 42);
    assert_eq!(world.net.node_count(), cfg.n_agents());
    assert!(world.net.edge_count() > 0, "there are edges");
    assert_eq!(world.net.connected_components(), 1, "the default settings give one component");
}

#[test]
fn threshold_diffusion_runs() {
    let mut cfg = base_config(RemovePolicy::Baseline);
    cfg.diffusion = DiffusionModel::Threshold;
    cfg.theta = ratio(0.1);
    cfg.n_seeds = 5;
    let result = run(&cfg, 42);
    assert!(result.world.n_informed() >= cfg.n_seeds);
}
