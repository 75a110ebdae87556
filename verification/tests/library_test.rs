//! The library on small, hand-made inputs: parsing, seed derivation, the
//! network operations and measures, one diffusion round, whole runs, the
//! ablations, the trial record and the tipping search.

use granovetter_ties::config::{
    draw_threshold, parse_diffusion, parse_remove, share_threshold, Config, DiffusionModel, Probability, Ratio, RemovePolicy,
    PROBABILITY_ONE,
};
use granovetter_ties::graph::{count_marked, PairKind, TieNetwork};
use granovetter_ties::mechanisms::DiffusionMechanism;
use granovetter_ties::metrics::{cluster_map, edge_rows, forbidden_triad_counts, reach_by_strength, weak_bridge_counts};
use granovetter_ties::network::{close_triangles, draw_bridge, draw_pair_tie, generate};
use granovetter_ties::record::outcome_of;
use granovetter_ties::reproduce::{
    config_variant, removal_trials, reproduce_plan, run_seed, threshold_trials, tipping_points, ReproduceOptions,
};
use granovetter_ties::rng::{bernoulli, derive_seed, draw_succeeds, mix64_exec, RandomStream};
use granovetter_ties::simulation::{apply_ablation, init_world, run, run_diffusion};
use granovetter_ties::world::{TieStrength, WeakTieWorld};

const NEVER: Probability = Probability { threshold: 0 };
const CERTAIN: Probability = Probability { threshold: PROBABILITY_ONE };

fn config(clusters: usize, cluster_size: usize) -> Config {
    Config {
        clusters,
        cluster_size,
        p_strong: Probability { threshold: PROBABILITY_ONE / 2 },
        p_bridge: Probability { threshold: PROBABILITY_ONE / 2 },
        p_weak_intra: NEVER,
        diffusion: DiffusionModel::Si,
        beta: CERTAIN,
        theta: Ratio { num: 1, den: 5 },
        remove: RemovePolicy::Baseline,
        n_seeds: 1,
        max_iterations: 200,
        seed: Some(42),
        output_dir: "results".to_string(),
    }
}

/// A path `0 - 1 - ... - (n - 1)` of ties of strength `w`.
fn path(n: usize, w: TieStrength) -> TieNetwork {
    let mut net = TieNetwork::with_nodes(n);
    for v in 1..n {
        net.add_edge_weighted(v - 1, v, w);
    }
    net
}

/// Two strong triangles `0 1 2` and `3 4 5`, joined by the tie `2 - 3`.
fn two_triangles(bridge: TieStrength) -> TieNetwork {
    let mut net = TieNetwork::with_nodes(6);
    for (a, b) in [(0, 1), (1, 2), (0, 2), (3, 4), (4, 5), (3, 5)] {
        net.add_edge_weighted(a, b, TieStrength::Strong);
    }
    net.add_edge_weighted(2, 3, bridge);
    net
}

fn world_of(net: TieNetwork, seeds: Vec<usize>, max_iterations: usize) -> WeakTieWorld {
    let n = net.node_count();
    WeakTieWorld::new(net, vec![0; n], seeds, max_iterations)
}

fn informed_flags(world: &WeakTieWorld) -> Vec<bool> {
    (0..world.n()).map(|v| world.is_informed(v)).collect()
}

// ---------------------------------------------------------------------------
// Parsing and labels
// ---------------------------------------------------------------------------

#[test]
fn diffusion_names_are_read_in_any_case_with_white_space() {
    assert_eq!(parse_diffusion("si"), Ok(DiffusionModel::Si));
    assert_eq!(parse_diffusion(" SI "), Ok(DiffusionModel::Si));
    assert_eq!(parse_diffusion("Threshold"), Ok(DiffusionModel::Threshold));
    assert_eq!(parse_diffusion("\tTHR\n"), Ok(DiffusionModel::Threshold));
}

#[test]
fn an_unknown_diffusion_name_is_refused_with_the_text_quoted() {
    assert_eq!(
        parse_diffusion("sir"),
        Err("不正な拡散モデル: \"sir\" (si / threshold のみ対応)".to_string())
    );
    assert_eq!(
        parse_diffusion(" s i "),
        Err("不正な拡散モデル: \" s i \" (si / threshold のみ対応)".to_string())
    );
    assert!(parse_diffusion("").is_err());
}

#[test]
fn ablation_names_are_read_in_any_case_with_white_space() {
    assert_eq!(parse_remove("none"), Ok(RemovePolicy::Baseline));
    assert_eq!(parse_remove(" Weak"), Ok(RemovePolicy::Weak));
    assert_eq!(parse_remove("STRONG "), Ok(RemovePolicy::Strong));
    assert_eq!(parse_remove("random"), Ok(RemovePolicy::Random));
}

#[test]
fn an_unknown_ablation_name_is_refused_with_the_text_quoted() {
    assert_eq!(
        parse_remove("all"),
        Err("不正な除去対象: \"all\" (none / weak / strong / random のみ対応)".to_string())
    );
}

#[test]
fn every_label_is_read_back() {
    for m in [DiffusionModel::Si, DiffusionModel::Threshold] {
        assert_eq!(parse_diffusion(m.label()), Ok(m));
    }
    for p in [RemovePolicy::Baseline, RemovePolicy::Weak, RemovePolicy::Strong, RemovePolicy::Random] {
        assert_eq!(parse_remove(p.label()), Ok(p));
    }
    assert_eq!(RemovePolicy::Baseline.label(), "none");
    assert_eq!(TieStrength::Strong.label(), "strong");
    assert_eq!(TieStrength::Weak.label(), "weak");
}

#[test]
fn default_settings() {
    let c = Config::default();
    assert_eq!((c.clusters, c.cluster_size, c.n_seeds, c.max_iterations), (10, 20, 1, 200));
    assert_eq!(c.p_strong.threshold, 0x13_3333_3333_3333);
    assert_eq!(c.p_bridge.threshold, 0x9_9999_9999_999a);
    assert_eq!(c.beta.threshold, PROBABILITY_ONE / 2);
    assert_eq!(c.theta, share_threshold(0.2f64.to_bits()));
    assert_eq!(c.theta, Ratio { num: 0x33_3333_3333_3333, den: 1 << 56 });
    assert_eq!(c.diffusion, DiffusionModel::Si);
    assert_eq!(c.remove, RemovePolicy::Baseline);
    assert_eq!(c.seed, Some(42));
    assert_eq!(c.output_dir, "results");
    assert_eq!(c.n_agents(), 200);
}

// ---------------------------------------------------------------------------
// Streams
// ---------------------------------------------------------------------------

#[test]
fn seeds_are_derived_with_the_splitmix_finaliser() {
    assert_eq!(mix64_exec(0x9e37_79b9_7f4a_7c15), 0xe220_a839_7b1d_cdaf);
    assert_eq!(derive_seed(0, &[]), 0);
    assert_eq!(derive_seed(0, &[0]), 258863698125685209);
    assert_eq!(derive_seed(42, &[0]), 14767129793594374975);
    assert_eq!(derive_seed(42, &[1]), 3307004992099227988);
    assert_eq!(derive_seed(7, &[3, 5]), 6107233130260337786);
    assert_eq!(run_seed(42, 1), derive_seed(42, &[1]));
}

#[test]
fn draws_of_certain_and_impossible_events() {
    let mut rng = RandomStream::new(3);
    for _ in 0..200 {
        assert!(!bernoulli(&mut rng, NEVER));
        assert!(bernoulli(&mut rng, CERTAIN));
    }
    let half = Probability { threshold: PROBABILITY_ONE / 2 };
    let hits = (0..2000).filter(|_| bernoulli(&mut rng, half)).count();
    assert!(hits > 800 && hits < 1200, "{hits}");
}

// ---------------------------------------------------------------------------
// The network
// ---------------------------------------------------------------------------

#[test]
fn ties_are_symmetric_and_can_be_removed() {
    let mut net = TieNetwork::with_nodes(4);
    assert_eq!(net.node_count(), 4);
    assert_eq!(net.edge_count(), 0);
    net.add_edge_weighted(0, 2, TieStrength::Weak);
    net.add_edge_weighted(3, 0, TieStrength::Strong);
    assert_eq!(net.edge_weight(2, 0), Some(TieStrength::Weak));
    assert_eq!(net.edge_weight(0, 3), Some(TieStrength::Strong));
    assert_eq!(net.edge_weight(1, 2), None);
    assert_eq!(net.edge_count(), 2);
    assert_eq!(net.neighbors(0), vec![2, 3]);
    net.add_edge_weighted(2, 0, TieStrength::Strong);
    assert_eq!(net.edge_weight(0, 2), Some(TieStrength::Strong));
    assert_eq!(net.edge_count(), 2);
    assert_eq!(net.remove_edge(2, 0), Some(TieStrength::Strong));
    assert_eq!(net.remove_edge(2, 0), None);
    assert_eq!(net.edge_count(), 1);
    assert_eq!(net.weighted_edges(), vec![(0, 3, TieStrength::Strong)]);
    assert_eq!(TieNetwork::empty().node_count(), 0);
}

#[test]
fn local_bridges_are_the_ties_without_a_common_neighbour() {
    let net = two_triangles(TieStrength::Weak);
    assert_eq!(net.local_bridges(), vec![(2, 3)]);
    assert!(net.is_local_bridge(3, 2));
    assert!(!net.is_local_bridge(0, 1));
    assert!(!net.is_local_bridge(0, 4));
    assert!(net.has_common_neighbor(0, 1));
    let p = path(3, TieStrength::Strong);
    assert_eq!(p.local_bridges(), vec![(0, 1), (1, 2)]);
}

#[test]
fn pairs_of_each_kind() {
    let net = two_triangles(TieStrength::Weak);
    assert_eq!(net.pairs_of_kind(PairKind::WeakTie), vec![(2, 3)]);
    assert_eq!(net.pairs_of_kind(PairKind::StrongTie).len(), 6);
    assert_eq!(net.pairs_of_kind(PairKind::Edge).len(), 7);
    assert_eq!(net.pairs_of_kind(PairKind::WeakBridge), vec![(2, 3)]);
    assert_eq!(net.pairs_of_kind(PairKind::StrongWedge(2)), vec![(0, 1)]);
    assert_eq!(net.pairs_of_kind(PairKind::OpenStrongWedge(2)), vec![]);
}

#[test]
fn a_strong_bridge_is_counted_among_the_bridges_but_not_the_weak_ones() {
    assert_eq!(weak_bridge_counts(&two_triangles(TieStrength::Weak)), (1, 1));
    assert_eq!(weak_bridge_counts(&two_triangles(TieStrength::Strong)), (0, 1));
    assert_eq!(weak_bridge_counts(&TieNetwork::with_nodes(3)), (0, 0));
}

#[test]
fn forbidden_triads_of_a_strong_star() {
    let mut net = TieNetwork::with_nodes(4);
    for leaf in 1..4 {
        net.add_edge_weighted(0, leaf, TieStrength::Strong);
    }
    assert_eq!(forbidden_triad_counts(&net), (3, 3));
    // a weak tie closes one of the three strong two-paths
    net.add_edge_weighted(1, 2, TieStrength::Weak);
    assert_eq!(forbidden_triad_counts(&net), (2, 3));
    // a strong one also opens two more two-paths, both closed
    net.add_edge_weighted(1, 2, TieStrength::Strong);
    assert_eq!(forbidden_triad_counts(&net), (2, 5));
}

#[test]
fn reach_along_one_strength_leaves_the_seeds_out() {
    let net = two_triangles(TieStrength::Weak);
    assert_eq!(reach_by_strength(&net, &vec![2]), (2, 1));
    assert_eq!(reach_by_strength(&net, &vec![0, 3]), (4, 1));
    let reach = net.reachable_from(&vec![0], Some(TieStrength::Strong));
    assert_eq!(reach, vec![true, true, true, false, false, false]);
    let all = net.reachable_from(&vec![0], None);
    assert_eq!(count_marked(&all), 6);
}

#[test]
fn components_of_a_path_and_an_isolated_node() {
    let mut net = TieNetwork::with_nodes(4);
    net.add_edge_weighted(0, 1, TieStrength::Strong);
    net.add_edge_weighted(1, 2, TieStrength::Weak);
    assert_eq!(net.connected_components(), 2);
    assert_eq!(net.largest_component_size(), 3);
    assert_eq!(net.component_size_of(3), 1);
    assert_eq!(net.component_size_of(0), 3);
    assert_eq!(TieNetwork::empty().connected_components(), 0);
    assert_eq!(TieNetwork::empty().largest_component_size(), 0);
}

#[test]
fn shortest_path_lengths() {
    let mut net = path(3, TieStrength::Strong);
    let mut bigger = TieNetwork::with_nodes(4);
    for (a, b, w) in net.weighted_edges() {
        bigger.add_edge_weighted(a, b, w);
    }
    assert_eq!(bigger.distances_from(0), vec![Some(0), Some(1), Some(2), None]);
    assert_eq!(bigger.distances_from(3), vec![None, None, None, Some(0)]);
    // ordered pairs: 0-1, 1-0, 1-2, 2-1 at one step, 0-2, 2-0 at two
    assert_eq!(bigger.path_length_totals(), (8, 6));
    net.add_edge_weighted(0, 2, TieStrength::Weak);
    assert_eq!(net.path_length_totals(), (6, 6));
    assert_eq!(TieNetwork::with_nodes(2).path_length_totals(), (0, 0));
}

#[test]
fn removing_a_list_of_ties() {
    let mut net = two_triangles(TieStrength::Weak);
    net.remove_listed(&vec![(3, 2), (0, 1), (0, 1)]);
    assert_eq!(net.edge_count(), 5);
    assert_eq!(net.edge_weight(2, 3), None);
    assert_eq!(net.edge_weight(1, 0), None);
    assert_eq!(net.connected_components(), 2);
}

// ---------------------------------------------------------------------------
// The generator
// ---------------------------------------------------------------------------

#[test]
fn certain_strong_ties_make_cliques_and_no_bridge_leaves_clusters_apart() {
    let mut cfg = config(3, 4);
    cfg.p_strong = CERTAIN;
    cfg.p_bridge = NEVER;
    let g = generate(&cfg, &mut RandomStream::new(5));
    assert_eq!(g.net.node_count(), 12);
    assert_eq!(g.net.edge_count(), 3 * 6);
    assert_eq!(g.net.connected_components(), 3);
    assert_eq!(g.cluster_of, vec![0, 0, 0, 0, 1, 1, 1, 1, 2, 2, 2, 2]);
    for (_, _, w) in g.net.weighted_edges() {
        assert_eq!(w, TieStrength::Strong);
    }
}

#[test]
fn certain_bridges_join_every_pair_of_clusters() {
    let mut cfg = config(4, 5);
    cfg.p_bridge = CERTAIN;
    let g = generate(&cfg, &mut RandomStream::new(9));
    let weak: Vec<_> = g.net.pairs_of_kind(PairKind::WeakTie);
    let mut joined = std::collections::BTreeSet::new();
    for (a, b) in weak {
        assert_ne!(a / 5, b / 5);
        joined.insert((a / 5, b / 5));
    }
    assert_eq!(joined.len(), 6);
    assert_eq!(g.net.connected_components(), 1);
}

#[test]
fn every_strong_tie_lies_in_a_triangle_and_rings_hold_clusters_together() {
    let mut cfg = config(4, 6);
    cfg.p_strong = NEVER;
    for seed in 0..5u64 {
        let g = generate(&cfg, &mut RandomStream::new(seed));
        for (a, b, w) in g.net.weighted_edges() {
            if w == TieStrength::Strong {
                assert!(g.net.has_common_neighbor(a, b), "{a}-{b}");
            }
        }
        for v in 0..23 {
            if v / 6 == (v + 1) / 6 {
                assert_eq!(g.net.edge_weight(v, v + 1), Some(TieStrength::Strong));
            }
        }
        for c in 0..4 {
            assert_eq!(g.net.edge_weight(c * 6 + 5, c * 6), Some(TieStrength::Strong));
        }
        let (weak, all) = weak_bridge_counts(&g.net);
        assert_eq!(weak, all);
    }
}

// ---------------------------------------------------------------------------
// One round of diffusion
// ---------------------------------------------------------------------------

#[test]
fn a_round_is_synchronous() {
    // the order visits 1 before 2: 1 joins, yet 2 waits for the next round
    let mut world = world_of(path(3, TieStrength::Strong), vec![0], 10);
    let si = DiffusionMechanism::new(DiffusionModel::Si, CERTAIN, Ratio { num: 0, den: 1 });
    assert_eq!(si.name(), "diffusion");
    let mut rng = RandomStream::new(1);
    assert_eq!(si.apply(&mut world, &vec![0, 1, 2], &mut rng), (1, false));
    assert_eq!(informed_flags(&world), vec![true, true, false]);
    assert_eq!(si.apply(&mut world, &vec![2, 1, 0], &mut rng), (1, true));
    assert_eq!(world.n_informed(), 3);
    assert_eq!(world.n_informed_history, vec![1, 2, 3]);
}

#[test]
fn si_that_never_infects_changes_nothing() {
    let mut world = world_of(path(3, TieStrength::Strong), vec![1], 10);
    let si = DiffusionMechanism::new(DiffusionModel::Si, NEVER, Ratio { num: 0, den: 1 });
    let mut rng = RandomStream::new(1);
    assert_eq!(si.apply(&mut world, &vec![0, 1, 2], &mut rng), (0, true));
    assert_eq!(informed_flags(&world), vec![false, true, false]);
}

#[test]
fn the_threshold_compares_the_informed_share_of_the_neighbours() {
    // 0 - 1, 0 - 2, 1 - 2, 2 - 3, 3 - 4; seed 0
    let mut net = TieNetwork::with_nodes(5);
    for (a, b) in [(0, 1), (0, 2), (1, 2), (2, 3), (3, 4)] {
        net.add_edge_weighted(a, b, TieStrength::Strong);
    }
    // 1 has half its neighbours informed, 2 a third
    let half = DiffusionMechanism::new(DiffusionModel::Threshold, NEVER, Ratio { num: 1, den: 2 });
    let mut world = world_of(net.clone(), vec![0], 10);
    let mut rng = RandomStream::new(1);
    assert_eq!(half.apply(&mut world, &vec![0, 1, 2, 3, 4], &mut rng), (1, false));
    assert_eq!(informed_flags(&world), vec![true, true, false, false, false]);
    let third = DiffusionMechanism::new(DiffusionModel::Threshold, NEVER, Ratio { num: 1, den: 3 });
    let mut world = world_of(net.clone(), vec![0], 10);
    assert_eq!(third.apply(&mut world, &vec![4, 3, 2, 1, 0], &mut rng), (2, false));
    assert_eq!(informed_flags(&world), vec![true, true, true, false, false]);
    // a zero threshold activates every agent with a tie, informed neighbour or not
    let zero = DiffusionMechanism::new(DiffusionModel::Threshold, NEVER, Ratio { num: 0, den: 1 });
    let mut world = world_of(net, vec![0], 10);
    assert_eq!(zero.apply(&mut world, &vec![0, 1, 2, 3, 4], &mut rng), (4, true));
}

// ---------------------------------------------------------------------------
// Whole runs
// ---------------------------------------------------------------------------

#[test]
fn certain_si_informs_one_tie_further_each_round() {
    let cfg = config(1, 4);
    let r = run_diffusion(world_of(path(4, TieStrength::Strong), vec![0], 200), &cfg, 7);
    assert_eq!(r.cascade_rounds, 3);
    assert_eq!(r.history, vec![1, 2, 3, 4]);
    assert_eq!(r.world.n_informed_history, r.history);
    assert_eq!(r.seed, 7);
}

#[test]
fn a_run_stops_when_a_round_informs_nobody() {
    let cfg = config(1, 3);
    let r = run_diffusion(world_of(path(2, TieStrength::Strong), vec![0], 200), &cfg, 7);
    assert_eq!(r.cascade_rounds, 1);
    let mut net = TieNetwork::with_nodes(3);
    net.add_edge_weighted(0, 1, TieStrength::Weak);
    let r = run_diffusion(world_of(net, vec![0], 200), &cfg, 7);
    assert_eq!(r.cascade_rounds, 2);
    assert_eq!(r.history, vec![1, 2, 2]);
    assert_eq!(informed_flags(&r.world), vec![true, true, false]);
}

#[test]
fn a_run_stops_at_its_budget() {
    let cfg = config(1, 5);
    let r = run_diffusion(world_of(path(5, TieStrength::Strong), vec![0], 2), &cfg, 7);
    assert_eq!(r.cascade_rounds, 2);
    assert_eq!(r.history, vec![1, 2, 3]);
    let r = run_diffusion(world_of(path(5, TieStrength::Strong), vec![0], 0), &cfg, 7);
    assert_eq!(r.cascade_rounds, 0);
    assert_eq!(r.history, vec![1]);
}

#[test]
fn the_first_agents_are_the_seeds() {
    let mut cfg = config(3, 4);
    cfg.n_seeds = 5;
    let w = init_world(&cfg, 1);
    assert_eq!(w.seeds, vec![0, 1, 2, 3, 4]);
    assert_eq!(w.n_informed(), 5);
    assert_eq!(w.n_informed_history, vec![5]);
    cfg.n_seeds = 0;
    assert_eq!(init_world(&cfg, 1).seeds, vec![0]);
    cfg.n_seeds = 100;
    assert_eq!(init_world(&cfg, 1).seeds.len(), 12);
    let empty = config(0, 4);
    assert_eq!(init_world(&empty, 1).n(), 0);
    assert!(init_world(&empty, 1).seeds.is_empty());
}

#[test]
fn without_bridges_reach_stays_in_the_seed_cluster() {
    let mut cfg = config(5, 6);
    cfg.p_bridge = NEVER;
    for seed in 0..4u64 {
        let r = run(&cfg, seed);
        assert_eq!(r.world.n_informed(), 6);
        for v in 6..30 {
            assert!(!r.world.is_informed(v));
        }
    }
}

#[test]
fn with_certain_bridges_certain_si_reaches_everybody() {
    let mut cfg = config(4, 5);
    cfg.p_bridge = CERTAIN;
    let r = run(&cfg, 11);
    assert_eq!(r.world.n_informed(), 20);
    assert!(r.cascade_rounds < 200);
}

#[test]
fn the_ablations_remove_what_they_say() {
    let cfg = config(4, 6);
    let base = init_world(&cfg, 3);
    let edges = base.net.edge_count();
    let weak = base.net.pairs_of_kind(PairKind::WeakTie).len();
    let strong = base.net.pairs_of_kind(PairKind::StrongTie).len();
    assert_eq!(weak + strong, edges);

    let mut c = cfg.clone();
    c.remove = RemovePolicy::Baseline;
    let mut w = base.clone();
    apply_ablation(&mut w, &c, 3);
    assert_eq!(w.net.weighted_edges(), base.net.weighted_edges());

    c.remove = RemovePolicy::Weak;
    let mut w = base.clone();
    apply_ablation(&mut w, &c, 3);
    assert_eq!(w.net.edge_count(), strong);
    assert!(w.net.pairs_of_kind(PairKind::WeakTie).is_empty());

    c.remove = RemovePolicy::Strong;
    let mut w = base.clone();
    apply_ablation(&mut w, &c, 3);
    assert_eq!(w.net.edge_count(), weak);
    assert!(w.net.pairs_of_kind(PairKind::StrongTie).is_empty());

    c.remove = RemovePolicy::Random;
    let mut w = base.clone();
    apply_ablation(&mut w, &c, 3);
    assert_eq!(w.net.edge_count(), edges - weak);
    for (a, b, s) in w.net.weighted_edges() {
        assert_eq!(base.net.edge_weight(a, b), Some(s));
    }
    assert_eq!(informed_flags(&w), informed_flags(&base));
}

// ---------------------------------------------------------------------------
// Records and rows
// ---------------------------------------------------------------------------

#[test]
fn outcome_of_an_empty_world_is_saturation() {
    assert_eq!(outcome_of(0, 0, 0, 200), ("saturated", false));
    assert_eq!(outcome_of(0, 0, 200, 200), ("budget_exhausted", true));
    assert_eq!(outcome_of(10, 10, 200, 200), ("all_informed", false));
}

#[test]
fn rows_of_edges_and_clusters() {
    let net = two_triangles(TieStrength::Weak);
    let rows = edge_rows(&net);
    let got: Vec<(u64, u64, &str)> = rows.iter().map(|r| (r.a, r.b, r.strength)).collect();
    assert_eq!(
        got,
        vec![
            (0, 1, "strong"),
            (0, 2, "strong"),
            (1, 2, "strong"),
            (2, 3, "weak"),
            (3, 4, "strong"),
            (3, 5, "strong"),
            (4, 5, "strong"),
        ]
    );
    let world = WeakTieWorld::new(net, vec![0, 0, 0, 1, 1, 1], vec![0], 10);
    assert_eq!(cluster_map(&world), vec![(0, 0), (1, 0), (2, 0), (3, 1), (4, 1), (5, 1)]);
    assert_eq!(world.agent_ids(), vec![0, 1, 2, 3, 4, 5]);
    assert_eq!(world.neighbors_of(2), vec![0, 1, 3]);
}

#[test]
fn an_agent_can_be_informed_by_hand() {
    let mut world = world_of(path(3, TieStrength::Strong), vec![], 10);
    assert_eq!(world.n_informed(), 0);
    world.set_active(2, true);
    assert!(world.is_active(2) && world.is_informed(2));
    assert_eq!(world.n_informed(), 1);
    world.set_active(2, false);
    assert_eq!(world.n_informed(), 0);
}

// ---------------------------------------------------------------------------
// The reproduction
// ---------------------------------------------------------------------------

#[test]
fn the_reproduction_plan() {
    let quick = reproduce_plan(&ReproduceOptions { output_dir: "x".to_string(), seed: 1, quick: true });
    assert_eq!(
        (quick.clusters, quick.cluster_size, quick.runs_a, quick.runs_b, quick.max_iterations, quick.n_seeds_b),
        (10, 12, 5, 5, 200, 12)
    );
    let full = reproduce_plan(&ReproduceOptions { output_dir: "x".to_string(), seed: 1, quick: false });
    assert_eq!(
        (full.clusters, full.cluster_size, full.runs_a, full.runs_b, full.max_iterations, full.n_seeds_b),
        (10, 20, 20, 10, 200, 20)
    );
}

#[test]
fn a_variant_changes_only_what_it_names() {
    let cfg = config(3, 4);
    let v = config_variant(&cfg, RemovePolicy::Strong, DiffusionModel::Threshold, Ratio { num: 3, den: 7 });
    assert_eq!(v.remove, RemovePolicy::Strong);
    assert_eq!(v.diffusion, DiffusionModel::Threshold);
    assert_eq!(v.theta, Ratio { num: 3, den: 7 });
    assert_eq!((v.clusters, v.cluster_size, v.n_seeds, v.max_iterations), (3, 4, 1, 200));
    assert_eq!(v.p_bridge, cfg.p_bridge);
    assert_eq!(v.output_dir, cfg.output_dir);
}

#[test]
fn removal_trials_confine_the_weak_ablation() {
    let cfg = config(6, 8);
    let trials = removal_trials(&cfg, RemovePolicy::Weak, 4, 42);
    assert_eq!(trials.len(), 4);
    for t in &trials {
        assert_eq!(t.n_agents, 48);
        assert_eq!(t.weak_bridges, t.bridges);
        assert!(t.removed_informed <= 8);
        assert!(t.baseline_informed >= 1);
    }
    let again = removal_trials(&cfg, RemovePolicy::Weak, 4, 42);
    let counts = |ts: &Vec<granovetter_ties::reproduce::RemovalTrial>| -> Vec<(usize, usize)> {
        ts.iter().map(|t| (t.baseline_informed, t.removed_informed)).collect()
    };
    assert_eq!(counts(&trials), counts(&again));
}

#[test]
fn threshold_trials_keep_their_seeds() {
    let mut cfg = config(4, 6);
    cfg.n_seeds = 3;
    let trials = threshold_trials(&cfg, Ratio { num: 1, den: 10 }, 3, 5);
    assert_eq!(trials.len(), 3);
    for t in &trials {
        assert_eq!(t.n_agents, 24);
        assert!(t.informed >= 3 && t.informed <= 24);
        assert!(t.cascade_rounds <= 200);
    }
    // a threshold above one activates nobody
    let none = threshold_trials(&cfg, Ratio { num: 2, den: 1 }, 2, 5);
    for t in &none {
        assert_eq!(t.informed, 3);
        assert_eq!(t.cascade_rounds, 1);
    }
}

#[test]
fn tipping_points_of_a_threshold_scan() {
    let thetas: Vec<Ratio> = [4u64, 10, 12, 14, 16, 20].iter().map(|&h| Ratio { num: h, den: 100 }).collect();
    let global = vec![true, true, false, false, false, false];
    let local = vec![false, false, false, true, true, true];
    assert_eq!(tipping_points(&thetas, &global, &local), (1, 3));
    // nobody cascades globally, nobody stays local
    let no = vec![false; 6];
    assert_eq!(tipping_points(&thetas, &no, &no), (0, 5));
    // a global cascade after a local one still moves the low point up
    let global = vec![true, false, false, true, false, false];
    let local = vec![false, true, false, false, true, false];
    assert_eq!(tipping_points(&thetas, &global, &local), (3, 1));
    // a threshold lower than the one held does not move the scan
    let unsorted: Vec<Ratio> = [4u64, 20, 10].iter().map(|&h| Ratio { num: h, den: 100 }).collect();
    let all = vec![true; 3];
    assert_eq!(tipping_points(&unsorted, &all, &all), (1, 0));
}

fn mean_reach_with_removal(cfg: &Config, remove: RemovePolicy, runs: usize, root: u64) -> (f64, f64, f64) {
    let trials = removal_trials(cfg, remove, runs, root);
    let n = runs as f64;
    let mut sums = (0.0, 0.0, 0.0);
    for t in &trials {
        let agents = t.n_agents as f64;
        sums.0 += t.baseline_informed as f64 / agents;
        sums.1 += t.removed_informed as f64 / agents;
        sums.2 += if t.bridges == 0 { 1.0 } else { t.weak_bridges as f64 / t.bridges as f64 };
    }
    (sums.0 / n, sums.1 / n, sums.2 / n)
}

/// The quick reproduction supports both headline claims: removing the weak
/// ties collapses reach while removing as many random ties does not, and a
/// small rise of the threshold tips the cascade from global to local.
#[test]
fn quick_reproduction_supports_both_claims() {
    let plan = reproduce_plan(&ReproduceOptions { output_dir: "x".to_string(), seed: 42, quick: true });
    let p = |x: f64| draw_threshold(x.to_bits());
    let mut cfg_a = config(plan.clusters, plan.cluster_size);
    cfg_a.p_strong = p(0.6);
    cfg_a.p_bridge = p(0.5);
    cfg_a.beta = p(0.9);
    cfg_a.max_iterations = plan.max_iterations;
    let (base, weak, frac) = mean_reach_with_removal(&cfg_a, RemovePolicy::Weak, plan.runs_a, 42);
    let (_, random, _) = mean_reach_with_removal(&cfg_a, RemovePolicy::Random, plan.runs_a, 42);
    assert!(base >= 0.9 && weak <= 1.0 / plan.clusters as f64 + 0.1 && random >= 0.9 && frac >= 0.999);

    let mut cfg_b = cfg_a.clone();
    cfg_b.diffusion = DiffusionModel::Threshold;
    cfg_b.n_seeds = plan.n_seeds_b;
    let hundredths = [4u64, 10, 12, 14, 16, 20];
    let mut reach = Vec::new();
    for &h in &hundredths {
        let trials = threshold_trials(&cfg_b, share_threshold((h as f64 / 100.0).to_bits()), plan.runs_b, 42);
        let r = trials.iter().map(|t| t.informed as f64 / t.n_agents as f64).sum::<f64>() / plan.runs_b as f64;
        reach.push(r);
    }
    let thetas: Vec<Ratio> = hundredths.iter().map(|&h| share_threshold((h as f64 / 100.0).to_bits())).collect();
    let global: Vec<bool> = reach.iter().map(|&r| r >= 0.9).collect();
    let local: Vec<bool> = reach.iter().map(|&r| r <= 0.2).collect();
    let (lo, hi) = tipping_points(&thetas, &global, &local);
    let width = (hundredths[hi] as f64 - hundredths[lo] as f64).abs() / 100.0;
    assert!(reach[lo] >= 0.9 && reach[hi] <= 0.2 && width > 0.0 && width <= 0.07 + 1e-12, "{lo} {hi}");
}

#[test]
fn cliques_leave_no_forbidden_triad() {
    let mut cfg = config(4, 5);
    cfg.p_strong = CERTAIN;
    cfg.p_bridge = CERTAIN;
    let g = generate(&cfg, &mut RandomStream::new(2));
    let (forbidden, total) = forbidden_triad_counts(&g.net);
    assert_eq!(forbidden, 0);
    assert!(total >= 4 * 5 * 6);
}

#[test]
fn strong_reach_of_one_seed_stays_below_a_cluster() {
    let cfg = config(5, 7);
    for seed in 0..5u64 {
        let w = init_world(&cfg, seed);
        for v in [0usize, 8, 20, 34] {
            let (strong, _) = reach_by_strength(&w.net, &vec![v]);
            assert_eq!(strong, 6);
        }
    }
}

#[test]
fn a_higher_threshold_informs_no_more() {
    let mut cfg = config(6, 8);
    cfg.diffusion = DiffusionModel::Threshold;
    cfg.n_seeds = 6;
    for seed in 0..4u64 {
        let start = init_world(&cfg, seed);
        let mut last: Option<Vec<bool>> = None;
        for h in [5u64, 10, 15, 20, 30, 50] {
            let mut c = cfg.clone();
            c.theta = Ratio { num: h, den: 100 };
            let r = run_diffusion(start.clone(), &c, seed);
            let now = informed_flags(&r.world);
            if let Some(prev) = &last {
                for v in 0..now.len() {
                    assert!(!now[v] || prev[v]);
                }
            }
            // the same world and threshold give the same run
            let again = run_diffusion(start.clone(), &c, seed + 100);
            assert_eq!(informed_flags(&again.world), now);
            assert_eq!(again.history, r.history);
            last = Some(now);
        }
    }
}

#[test]
fn removing_ties_never_widens_a_certain_spread() {
    for remove in [RemovePolicy::Weak, RemovePolicy::Strong, RemovePolicy::Random] {
        let mut cfg = config(5, 6);
        cfg.remove = remove;
        for seed in 0..3u64 {
            let start = init_world(&cfg, seed);
            let whole = run_diffusion(start.clone(), &cfg, seed);
            let mut cut = start.clone();
            apply_ablation(&mut cut, &cfg, seed);
            let part = run_diffusion(cut, &cfg, seed);
            let (a, b) = (informed_flags(&whole.world), informed_flags(&part.world));
            for v in 0..a.len() {
                assert!(!b[v] || a[v]);
            }
        }
    }
}

#[test]
fn share_thresholds_of_doubles() {
    assert_eq!(share_threshold(0.0f64.to_bits()), Ratio { num: 0, den: 1 });
    assert_eq!(share_threshold((-0.0f64).to_bits()), Ratio { num: 0, den: 1 });
    assert_eq!(share_threshold((-0.3f64).to_bits()), Ratio { num: 0, den: 1 });
    assert_eq!(share_threshold(f64::NEG_INFINITY.to_bits()), Ratio { num: 0, den: 1 });
    assert_eq!(share_threshold(f64::NAN.to_bits()), Ratio { num: 2, den: 1 });
    assert_eq!(share_threshold(f64::INFINITY.to_bits()), Ratio { num: 2, den: 1 });
    assert_eq!(share_threshold(2.5f64.to_bits()), Ratio { num: 2, den: 1 });
    // halfway below 1 and below 1/2 (powers of two: the double below is closer)
    assert_eq!(share_threshold(1.0f64.to_bits()), Ratio { num: (1 << 54) - 1, den: 1 << 54 });
    assert_eq!(share_threshold(0.5f64.to_bits()), Ratio { num: (1 << 54) - 1, den: 1 << 55 });
    // the least subnormal: any positive share
    assert_eq!(share_threshold(1).num, 1);
    assert_eq!(share_threshold(1).den, 1 << 63);
}

#[test]
fn share_thresholds_decide_as_the_double_comparison_does() {
    for theta in [0.04, 0.1, 0.12, 0.2, 0.25, 1.0 / 3.0, 0.3, 0.5, 2.0 / 3.0, 0.7, 0.9, 1.0, 1e-12, 1.5] {
        let r = share_threshold(f64::to_bits(theta));
        for d in 1u64..=120 {
            for k in 0..=d {
                let by_double = (k as f64) / (d as f64) >= theta;
                let exact = (k as u128) * (r.den as u128) >= (r.num as u128) * (d as u128);
                assert_eq!(by_double, exact, "theta {theta}, {k}/{d}");
            }
        }
    }
}

#[test]
fn draw_thresholds_of_doubles() {
    assert_eq!(draw_threshold(0.6f64.to_bits()).threshold, 0x13_3333_3333_3333);
    assert_eq!(draw_threshold(0.3f64.to_bits()).threshold, 0x9_9999_9999_999a);
    assert_eq!(draw_threshold(0.5f64.to_bits()).threshold, PROBABILITY_ONE / 2);
    assert_eq!(draw_threshold(1.0f64.to_bits()).threshold, PROBABILITY_ONE);
    assert_eq!(draw_threshold(7.0f64.to_bits()).threshold, PROBABILITY_ONE);
    assert_eq!(draw_threshold(0.0f64.to_bits()).threshold, 0);
    assert_eq!(draw_threshold((-0.5f64).to_bits()).threshold, 0);
    assert_eq!(draw_threshold(f64::NAN.to_bits()).threshold, 0);
    assert_eq!(draw_threshold(1e-300f64.to_bits()).threshold, 1);
    let d = Config::default();
    assert_eq!(d.p_strong, draw_threshold(0.6f64.to_bits()));
    assert_eq!(d.p_bridge, draw_threshold(0.3f64.to_bits()));
    assert_eq!(d.beta, draw_threshold(0.5f64.to_bits()));
}

#[test]
fn draw_thresholds_decide_as_the_double_comparison_does() {
    // a uniform double made of the 53 high bits `u` is `u * 2^-53`
    for p in [0.0, 1e-17, 0.1, 0.3, 1.0 / 3.0, 0.5, 0.6, 0.9, 0.999999, 1.0] {
        let t = draw_threshold(f64::to_bits(p)).threshold;
        for u in [0u64, 1, 2, t.saturating_sub(1), t, t + 1, (1 << 52) - 1, 1 << 52, (1 << 53) - 1] {
            if u < (1 << 53) {
                let by_double = (u as f64) * (1.0 / (1u64 << 53) as f64) < p;
                assert_eq!(by_double, u < t, "p {p}, u {u}");
            }
        }
    }
}

#[test]
fn the_order_of_a_round_does_not_matter() {
    let cfg = config(4, 6);
    let start = init_world(&cfg, 9);
    let n = start.n();
    let forward: Vec<usize> = (0..n).collect();
    let backward: Vec<usize> = (0..n).rev().collect();
    for m in [
        DiffusionMechanism::new(DiffusionModel::Threshold, NEVER, Ratio { num: 1, den: 4 }),
        DiffusionMechanism::new(DiffusionModel::Si, CERTAIN, Ratio { num: 1, den: 4 }),
    ] {
        let mut a = start.clone();
        let mut b = start.clone();
        let mut rng = RandomStream::new(1);
        for _ in 0..3 {
            let ra = m.apply(&mut a, &forward, &mut rng);
            let rb = m.apply(&mut b, &backward, &mut rng);
            assert_eq!(ra, rb);
            assert_eq!(informed_flags(&a), informed_flags(&b));
        }
    }
}

#[test]
fn triangle_closure_ties_open_ties_to_the_first_other_member() {
    // 0 - 1 - 2 - 3: 0-1 is closed through 2, then 2-3 through 0
    let mut net = path(4, TieStrength::Strong);
    close_triangles(&mut net, 0, 4);
    let s = TieStrength::Strong;
    assert_eq!(net.weighted_edges(), vec![(0, 1, s), (0, 2, s), (0, 3, s), (1, 2, s), (2, 3, s)]);
    // a block already closed is left as it is
    let mut tri = two_triangles(TieStrength::Weak);
    close_triangles(&mut tri, 0, 3);
    assert_eq!(tri.weighted_edges(), two_triangles(TieStrength::Weak).weighted_edges());
    // only strong ties of the block are closed: the weak tie 2-3 stays open
    let mut p = path(5, TieStrength::Weak);
    p.add_edge_weighted(0, 1, TieStrength::Strong);
    close_triangles(&mut p, 0, 3);
    assert_eq!(p.edge_weight(0, 2), Some(TieStrength::Strong));
    assert_eq!(p.edge_weight(1, 2), Some(TieStrength::Strong));
    assert_eq!(p.edge_weight(2, 3), Some(TieStrength::Weak));
    assert_eq!(p.edge_count(), 5);
}

// ---------------------------------------------------------------------------
// Draws from a stream, and what the same stream gives twice
// ---------------------------------------------------------------------------

#[test]
fn a_draw_compares_the_high_bits_of_the_word() {
    let one_in_53 = Probability { threshold: 1 };
    assert!(draw_succeeds(0, one_in_53));
    assert!(draw_succeeds(2047, one_in_53));
    assert!(!draw_succeeds(2048, one_in_53));
    assert!(draw_succeeds(u64::MAX, CERTAIN));
    assert!(!draw_succeeds(u64::MAX, Probability { threshold: PROBABILITY_ONE - 1 }));
    assert!(!draw_succeeds(0, NEVER));
    let half = Probability { threshold: PROBABILITY_ONE / 2 };
    assert!(draw_succeeds((1u64 << 63) - 1, half));
    assert!(!draw_succeeds(1u64 << 63, half));
}

#[test]
fn the_same_seed_gives_the_same_draws() {
    let half = Probability { threshold: PROBABILITY_ONE / 2 };
    let mut a = RandomStream::new(11);
    let mut b = RandomStream::new(11);
    let da: Vec<bool> = (0..64).map(|_| bernoulli(&mut a, half)).collect();
    let db: Vec<bool> = (0..64).map(|_| bernoulli(&mut b, half)).collect();
    assert_eq!(da, db);
    assert!(da.iter().any(|&x| x) && da.iter().any(|&x| !x));
}

#[test]
fn a_pair_tie_is_drawn_from_its_probabilities() {
    let mut rng = RandomStream::new(2);
    assert_eq!(draw_pair_tie(&mut rng, CERTAIN, NEVER), Some(TieStrength::Strong));
    assert_eq!(draw_pair_tie(&mut rng, CERTAIN, CERTAIN), Some(TieStrength::Strong));
    assert_eq!(draw_pair_tie(&mut rng, NEVER, NEVER), None);
    assert_eq!(draw_pair_tie(&mut rng, NEVER, CERTAIN), Some(TieStrength::Weak));
}

#[test]
fn a_bridge_joins_members_drawn_below_the_cluster_size() {
    let mut rng = RandomStream::new(8);
    assert_eq!(draw_bridge(&mut rng, NEVER, 5), None);
    assert_eq!(draw_bridge(&mut rng, NEVER, 0), None);
    let mut seen = std::collections::BTreeSet::new();
    for _ in 0..50 {
        let (a, b) = draw_bridge(&mut rng, CERTAIN, 5).unwrap();
        assert!(a < 5 && b < 5);
        seen.insert(a);
    }
    assert!(seen.len() > 1);
}

#[test]
fn at_most_one_tie_joins_two_clusters() {
    for (p, seed) in [(PROBABILITY_ONE / 2, 1u64), (PROBABILITY_ONE / 2, 2), (PROBABILITY_ONE, 3)] {
        let mut cfg = config(5, 4);
        cfg.p_bridge = Probability { threshold: p };
        let g = generate(&cfg, &mut RandomStream::new(seed));
        let mut between = std::collections::BTreeMap::new();
        for (a, b, _) in g.net.weighted_edges() {
            if a / 4 != b / 4 {
                *between.entry((a / 4, b / 4)).or_insert(0) += 1;
            }
        }
        assert!(between.values().all(|&k| k == 1));
        if p == PROBABILITY_ONE {
            assert_eq!(between.len(), 10);
        }
    }
}

#[test]
fn the_same_seed_gives_the_same_network() {
    let mut cfg = config(4, 6);
    cfg.p_weak_intra = Probability { threshold: PROBABILITY_ONE / 4 };
    let g1 = generate(&cfg, &mut RandomStream::new(21));
    let g2 = generate(&cfg, &mut RandomStream::new(21));
    assert_eq!(g1.net.weighted_edges(), g2.net.weighted_edges());
    assert_eq!(g1.cluster_of, g2.cluster_of);
    assert_eq!(init_world(&cfg, 5).net.weighted_edges(), init_world(&cfg, 5).net.weighted_edges());
}

#[test]
fn the_same_seed_gives_the_same_trial() {
    for remove in [RemovePolicy::Baseline, RemovePolicy::Random] {
        let mut cfg = config(4, 6);
        cfg.beta = Probability { threshold: PROBABILITY_ONE / 3 };
        cfg.remove = remove;
        let a = run(&cfg, 17);
        let b = run(&cfg, 17);
        assert_eq!(informed_flags(&a.world), informed_flags(&b.world));
        assert_eq!(a.history, b.history);
        assert_eq!(a.cascade_rounds, b.cascade_rounds);
        assert_eq!(a.world.net.weighted_edges(), b.world.net.weighted_edges());
    }
}

#[test]
fn the_random_ablation_is_fixed_by_the_root_seed() {
    let mut cfg = config(4, 6);
    cfg.remove = RemovePolicy::Random;
    let base = init_world(&cfg, 3);
    let mut w1 = base.clone();
    let mut w2 = base.clone();
    apply_ablation(&mut w1, &cfg, 9);
    apply_ablation(&mut w2, &cfg, 9);
    assert_eq!(w1.net.weighted_edges(), w2.net.weighted_edges());
}

#[test]
fn removing_the_front_of_an_order() {
    let mut net = path(4, TieStrength::Strong);
    net.remove_first(&vec![(1, 2), (0, 1), (2, 3)], 2);
    assert_eq!(net.weighted_edges(), vec![(2, 3, TieStrength::Strong)]);
    let mut net = path(4, TieStrength::Weak);
    net.remove_first(&vec![(1, 2), (0, 1), (2, 3)], 0);
    assert_eq!(net.edge_count(), 3);
}

#[test]
fn a_threshold_round_draws_nothing_from_the_stream() {
    let half = Probability { threshold: PROBABILITY_ONE / 2 };
    let mech = DiffusionMechanism::new(DiffusionModel::Threshold, half, Ratio { num: 1, den: 2 });
    let mut world = world_of(path(5, TieStrength::Strong), vec![0], 10);
    let mut used = RandomStream::new(6);
    mech.apply(&mut world, &vec![0, 1, 2, 3, 4], &mut used);
    let mut fresh = RandomStream::new(6);
    let a: Vec<bool> = (0..32).map(|_| bernoulli(&mut used, half)).collect();
    let b: Vec<bool> = (0..32).map(|_| bernoulli(&mut fresh, half)).collect();
    assert_eq!(a, b);
}

#[test]
fn an_si_round_is_fixed_by_the_stream() {
    let half = Probability { threshold: PROBABILITY_ONE / 2 };
    let mech = DiffusionMechanism::new(DiffusionModel::Si, half, Ratio { num: 0, den: 1 });
    let mut flags = Vec::new();
    for _ in 0..2 {
        let mut world = world_of(two_triangles(TieStrength::Weak), vec![2, 3], 10);
        let mut rng = RandomStream::new(12);
        for _ in 0..3 {
            mech.apply(&mut world, &vec![5, 4, 3, 2, 1, 0], &mut rng);
        }
        flags.push(informed_flags(&world));
    }
    assert_eq!(flags[0], flags[1]);
}
