//! The generator, the metrics, the trial record and the run driver on
//! small, fixed inputs.

use granovetter_ties::config::{draw_threshold, share_threshold, Config, DiffusionModel, Probability, Ratio, RemovePolicy};
use granovetter_ties::graph::TieNetwork;
use granovetter_ties::metrics::{
    cluster_map, edge_rows, forbidden_triad_counts, n_local_bridges, reach_by_strength, weak_bridge_counts,
};
use granovetter_ties::network::generate;
use granovetter_ties::record::outcome_of;
use granovetter_ties::rng::{derive_seed, RandomStream};
use granovetter_ties::simulation::{apply_ablation, init_world, run, run_diffusion};
use granovetter_ties::world::{TieStrength, WeakTieWorld};

fn probability(p: f64) -> Probability {
    draw_threshold(p.to_bits())
}

fn ratio(theta: f64) -> Ratio {
    share_threshold(theta.to_bits())
}

/// Two strong triangles joined by one weak bridge.
fn two_triangles() -> TieNetwork {
    let mut net = TieNetwork::with_nodes(6);
    for (a, b) in [(0, 1), (1, 2), (0, 2), (3, 4), (4, 5), (3, 5)] {
        net.add_edge_weighted(a, b, TieStrength::Strong);
    }
    net.add_edge_weighted(2, 3, TieStrength::Weak);
    net
}

fn frac(part: u128, whole: u128, empty: f64) -> f64 {
    if whole == 0 {
        empty
    } else {
        part as f64 / whole as f64
    }
}

#[test]
fn all_bridges_are_weak() {
    let net = two_triangles();
    assert_eq!(n_local_bridges(&net), 1);
    let (weak, all) = weak_bridge_counts(&net);
    assert_eq!(frac(weak as u128, all as u128, 1.0), 1.0);
}

#[test]
fn forbidden_triad_low_in_cliquey_clusters() {
    let net = two_triangles();
    let (forbidden, total) = forbidden_triad_counts(&net);
    assert_eq!(frac(forbidden, total, 0.0), 0.0);
}

#[test]
fn reach_by_strength_weak_bridges_dominate() {
    let net = two_triangles();
    let (s, w) = reach_by_strength(&net, &vec![0]);
    assert_eq!(s, 2);
    assert_eq!(w, 0);
    let (_, w2) = reach_by_strength(&net, &vec![2]);
    assert_eq!(w2, 1);
}

fn cfg() -> Config {
    Config {
        clusters: 5,
        cluster_size: 8,
        p_strong: probability(0.7),
        p_bridge: probability(0.5),
        p_weak_intra: probability(0.0),
        ..Config::default()
    }
}

#[test]
fn node_count_matches() {
    let mut rng = RandomStream::new(derive_seed(1, &[0]));
    let g = generate(&cfg(), &mut rng);
    assert_eq!(g.net.node_count(), 5 * 8);
    assert_eq!(g.cluster_of.len(), 5 * 8);
}

#[test]
fn intra_edges_are_strong_inter_edges_are_weak() {
    let mut rng = RandomStream::new(derive_seed(2, &[0]));
    let g = generate(&cfg(), &mut rng);
    for (a, b, w) in g.net.weighted_edges() {
        let ca = g.cluster_of[a];
        let cb = g.cluster_of[b];
        if ca == cb {
            assert_eq!(w, TieStrength::Strong);
        } else {
            assert_eq!(w, TieStrength::Weak);
        }
    }
}

#[test]
fn deterministic_for_same_seed() {
    let mut r1 = RandomStream::new(derive_seed(7, &[0]));
    let mut r2 = RandomStream::new(derive_seed(7, &[0]));
    let g1 = generate(&cfg(), &mut r1);
    let g2 = generate(&cfg(), &mut r2);
    let e1: Vec<_> = g1.net.weighted_edges();
    let e2: Vec<_> = g2.net.weighted_edges();
    assert_eq!(e1, e2);
}

#[test]
fn full_reach_is_not_censored() {
    let (outcome, censored) = outcome_of(100, 100, 8, 200);
    assert_eq!(outcome, "all_informed");
    assert!(!censored);
}

#[test]
fn saturation_below_the_budget_is_not_censored() {
    let (outcome, censored) = outcome_of(20, 100, 3, 200);
    assert_eq!(outcome, "saturated");
    assert!(!censored);
}

#[test]
fn hitting_the_budget_is_censored_at_the_budget() {
    let cascade_rounds = 200;
    let (outcome, censored) = outcome_of(50, 100, cascade_rounds, 200);
    assert_eq!(outcome, "budget_exhausted");
    assert!(censored);
    assert_eq!(cascade_rounds, 200);
}

fn reach_fraction(world: &WeakTieWorld) -> f64 {
    let n = world.n();
    if n == 0 {
        0.0
    } else {
        world.n_informed() as f64 / n as f64
    }
}

#[test]
fn mean_reach_with_removal_weak_collapses() {
    let cfg = Config {
        clusters: 6,
        cluster_size: 12,
        p_strong: probability(0.6),
        p_bridge: probability(0.5),
        p_weak_intra: probability(0.0),
        diffusion: DiffusionModel::Si,
        beta: probability(0.9),
        theta: ratio(0.2),
        remove: RemovePolicy::Baseline,
        n_seeds: 1,
        max_iterations: 200,
        seed: Some(42),
        output_dir: "results".to_string(),
    };
    let runs = 5;
    let (mut base, mut weak, mut frac_weak) = (0.0, 0.0, 0.0);
    for run_idx in 0..runs {
        let seed = derive_seed(42, &[run_idx as u64]);
        let baseline_world = init_world(&cfg, seed);
        let (w, all) = weak_bridge_counts(&baseline_world.net);
        frac_weak += frac(w as u128, all as u128, 1.0);
        base += reach_fraction(&run_diffusion(baseline_world, &cfg, seed).world);
        let cfg_rm = Config { remove: RemovePolicy::Weak, output_dir: cfg.output_dir.clone(), ..cfg };
        let mut world = init_world(&cfg_rm, seed);
        apply_ablation(&mut world, &cfg_rm, seed);
        weak += reach_fraction(&run_diffusion(world, &cfg_rm, seed).world);
    }
    let n = runs as f64;
    let (base, weak, frac) = (base / n, weak / n, frac_weak / n);
    assert!(base >= 0.9, "baseline reach should be high: {base}");
    assert!(weak < base, "weak removal should reduce reach: {weak} < {base}");
    assert!((frac - 1.0).abs() < 1e-9, "all bridges should be weak: {frac}");
}

fn test_config() -> Config {
    Config {
        clusters: 5,
        cluster_size: 10,
        p_strong: probability(0.6),
        p_bridge: probability(0.5),
        p_weak_intra: probability(0.0),
        diffusion: DiffusionModel::Si,
        beta: probability(0.9),
        theta: ratio(0.2),
        remove: RemovePolicy::Baseline,
        n_seeds: 1,
        max_iterations: 200,
        seed: Some(42),
        output_dir: "results".to_string(),
    }
}

#[test]
fn same_seed_is_deterministic() {
    let a = run(&test_config(), 42);
    let b = run(&test_config(), 42);
    assert_eq!(a.world.n_informed(), b.world.n_informed());
    assert_eq!(a.cascade_rounds, b.cascade_rounds);
    assert_eq!(a.history, b.history);
}

#[test]
fn history_starts_with_seed_count() {
    let r = run(&test_config(), 42);
    assert_eq!(r.history[0], 1);
}
