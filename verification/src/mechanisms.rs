//! The diffusion mechanism: one synchronous round of the SI process or of
//! the threshold cascade.
//!
//! A round takes the informed set as it stands when the round starts,
//! decides from that snapshot which uninformed agents become informed, and
//! then informs them all at once: an agent informed during a round informs
//! nobody before the next one.
use vstd::prelude::*;
use crate::config::{DiffusionModel, Probability, Ratio};
use crate::graph::{count_true, lemma_count_true_bound, lemma_count_true_update, TieNetwork};
use crate::rng::{bernoulli, draw_succeeds_spec, stream_word, RandomStream};
use crate::world::{TieStrength, WeakTieWorld};

verus! {

/// Number of `u < n` that satisfy `p`.
pub open spec fn count_where(n: int, p: spec_fn(int) -> bool) -> nat
    decreases n,
{
    if n <= 0 {
        0
    } else {
        count_where(n - 1, p) + if p(n - 1) {
            1nat
        } else {
            0nat
        }
    }
}

/// Number of ties at `v`.
pub open spec fn tie_count(net: &TieNetwork, v: int) -> nat {
    count_where(net.size() as int, |u: int| net.adjacent(v, u))
}

/// Number of ties from `v` to an agent informed in `state`.
pub open spec fn informed_tie_count(net: &TieNetwork, state: Seq<bool>, v: int) -> nat {
    count_where(net.size() as int, |u: int| net.adjacent(v, u) && state[u])
}

/// `v` has a neighbour informed in `state`.
pub open spec fn has_informed_neighbor(net: &TieNetwork, state: Seq<bool>, v: int) -> bool {
    exists|u: int| 0 <= u < net.size() && net.adjacent(v, u) && state[u]
}

/// The threshold rule: `v` is uninformed, has ties, and the informed share
/// of its neighbours is at least `theta`.
pub open spec fn threshold_activates(net: &TieNetwork, state: Seq<bool>, v: int, theta: Ratio) -> bool {
    &&& !state[v]
    &&& tie_count(net, v) > 0
    &&& theta.reached_by(informed_tie_count(net, state, v) as int, tie_count(net, v) as int)
}

/// The newly informed agents of a round each have a tie to an agent that
/// was informed when the round started (always true of SI; true of the
/// threshold cascade unless `theta` is zero).
pub open spec fn spreads_along_ties(model: DiffusionModel, theta: Ratio) -> bool {
    model == DiffusionModel::Si || theta.num > 0
}

/// What one round does to the informed flags `before`, giving `after`.
pub open spec fn round_outcome(
    net: &TieNetwork,
    model: DiffusionModel,
    beta: Probability,
    theta: Ratio,
    before: Seq<bool>,
    after: Seq<bool>,
) -> bool {
    &&& after.len() == before.len()
    // nobody is forgotten
    &&& forall|v: int| 0 <= v < before.len() && before[v] ==> #[trigger] after[v]
    // SI: a newly informed agent has an informed neighbour
    &&& model == DiffusionModel::Si ==> forall|v: int|
        0 <= v < before.len() && #[trigger] after[v] && !before[v] ==> has_informed_neighbor(net, before, v)
    // SI with certain infection: exactly the agents with an informed neighbour join
    &&& (model == DiffusionModel::Si && beta.is_certain()) ==> forall|v: int|
        0 <= v < before.len() ==> (#[trigger] after[v] <==> (before[v] || has_informed_neighbor(net, before, v)))
    // SI that never infects changes nothing
    &&& (model == DiffusionModel::Si && beta.is_never()) ==> after == before
    // threshold: exactly the agents the rule activates join
    &&& model == DiffusionModel::Threshold ==> forall|v: int|
        0 <= v < before.len() ==> (#[trigger] after[v] <==> (before[v] || threshold_activates(net, before, v, theta)))
}

/// SI, for the uninformed agent `v`: its ties are taken in order of the
/// neighbour's index from `u` on, and each tie to an agent informed in
/// `state` costs one draw of `beta` from the stream seeded `seed` at
/// `pos`; the first draw that succeeds informs `v`. Whether `v` joins, and
/// the stream position afterwards.
pub open spec fn si_scan(m: Seq<Seq<Option<TieStrength>>>, state: Seq<bool>, v: int, beta: Probability, seed: u64, pos: nat, u: int) -> (bool, nat)
    decreases m.len() - u,
{
    if u >= m.len() {
        (false, pos)
    } else if m[v][u] is Some && state[u] {
        if draw_succeeds_spec(stream_word(seed, pos), beta) {
            (true, pos + 2)
        } else {
            si_scan(m, state, v, beta, seed, pos + 2, u + 1)
        }
    } else {
        si_scan(m, state, v, beta, seed, pos, u + 1)
    }
}

/// The SI choices of a round, from the `k`-th agent of `order` on: an
/// agent is judged (by `si_scan`) when its turn comes, unless it is
/// informed or already marked to join. The agents marked to join, and the
/// stream position afterwards.
pub open spec fn si_marks(
    m: Seq<Seq<Option<TieStrength>>>,
    state: Seq<bool>,
    order: Seq<usize>,
    beta: Probability,
    seed: u64,
    pos: nat,
    k: int,
    mark: Seq<bool>,
) -> (Seq<bool>, nat)
    decreases order.len() - k,
{
    if k < 0 || k >= order.len() {
        (mark, pos)
    } else {
        let v = order[k] as int;
        if !state[v] && !mark[v] {
            let judged = si_scan(m, state, v, beta, seed, pos, 0);
            si_marks(m, state, order, beta, seed, judged.1, k + 1, if judged.0 { mark.update(v, true) } else { mark })
        } else {
            si_marks(m, state, order, beta, seed, pos, k + 1, mark)
        }
    }
}

/// One SI round over `order`, from the informed flags `before`, with the
/// stream seeded `seed` at `pos`: the informed flags afterwards, and the
/// stream position afterwards.
pub open spec fn si_round(m: Seq<Seq<Option<TieStrength>>>, before: Seq<bool>, order: Seq<usize>, beta: Probability, seed: u64, pos: nat) -> (Seq<bool>, nat) {
    let r = si_marks(m, before, order, beta, seed, pos, 0, Seq::new(before.len(), |i: int| false));
    (Seq::new(before.len(), |x: int| before[x] || r.0[x]), r.1)
}

pub proof fn lemma_count_where_positive(n: int, p: spec_fn(int) -> bool)
    requires
        count_where(n, p) > 0,
    ensures
        exists|u: int| 0 <= u < n && #[trigger] p(u),
    decreases n,
{
    if n > 0 && !p(n - 1) {
        lemma_count_where_positive(n - 1, p);
    }
}

/// The number of ties at `v`, and of those to agents informed in `state`.
pub fn neighbor_tally(net: &TieNetwork, state: &Vec<bool>, v: usize) -> (r: (usize, usize))
    requires
        net.valid(),
        v < net.size(),
        state@.len() == net.size(),
    ensures
        r.0 == tie_count(net, v as int),
        r.1 == informed_tie_count(net, state@, v as int),
        r.1 <= r.0,
{
    let n = net.node_count();
    let ghost pd = |u: int| net.adjacent(v as int, u);
    let ghost pi = |u: int| net.adjacent(v as int, u) && state@[u];
    let mut deg: usize = 0;
    let mut inf: usize = 0;
    let mut u: usize = 0;
    while u < n
        invariant
            net.valid(),
            n == net.size(),
            v < n,
            state@.len() == n,
            pd == (|u: int| net.adjacent(v as int, u)),
            pi == (|u: int| net.adjacent(v as int, u) && state@[u]),
            u <= n,
            deg == count_where(u as int, pd),
            inf == count_where(u as int, pi),
            inf <= deg <= u,
        decreases n - u,
    {
        if net.edge_weight(v, u).is_some() {
            deg = deg + 1;
            if state[u] {
                inf = inf + 1;
            }
        }
        u = u + 1;
    }
    (deg, inf)
}

/// Informs agents along ties, in synchronous rounds.
pub struct DiffusionMechanism {
    /// The diffusion process.
    pub model: DiffusionModel,
    /// SI infection probability.
    pub beta: Probability,
    /// Threshold of the cascade.
    pub theta: Ratio,
}

impl DiffusionMechanism {
    pub fn new(model: DiffusionModel, beta: Probability, theta: Ratio) -> (r: DiffusionMechanism)
        ensures
            r.model == model,
            r.beta == beta,
            r.theta == theta,
    {
        DiffusionMechanism { model, beta, theta }
    }

    pub fn name(&self) -> (r: &'static str)
        ensures
            r@ == "diffusion"@,
    {
        "diffusion"
    }

    /// Whether `v` joins in this round, judged from the snapshot `prev`.
    fn joins(&self, net: &TieNetwork, prev: &Vec<bool>, v: usize, rng: &mut RandomStream) -> (r: bool)
        requires
            net.valid(),
            v < net.size(),
            prev@.len() == net.size(),
            !prev@[v as int],
        ensures
            self.model == DiffusionModel::Si ==> (r ==> has_informed_neighbor(net, prev@, v as int)),
            (self.model == DiffusionModel::Si && self.beta.is_certain()) ==> (r <==> has_informed_neighbor(net, prev@, v as int)),
            (self.model == DiffusionModel::Si && self.beta.is_never()) ==> !r,
            self.model == DiffusionModel::Threshold ==> (r <==> threshold_activates(net, prev@, v as int, self.theta)),
            self.model == DiffusionModel::Si ==> (r, final(rng).position()) == si_scan(net@, prev@, v as int, self.beta, old(rng).seed(), old(rng).position(), 0),
            final(rng).seed() == old(rng).seed(),
            self.model == DiffusionModel::Threshold ==> *final(rng) == *old(rng),
    {
        match self.model {
            DiffusionModel::Si => {
                let n = net.node_count();
                let mut u: usize = 0;
                while u < n
                    invariant
                        net.valid(),
                        n == net.size(),
                        v < n,
                        prev@.len() == n,
                        self.model == DiffusionModel::Si,
                        u <= n,
                        self.beta.is_certain() ==> forall|x: int| 0 <= x < u ==> !(net.adjacent(v as int, x) && prev@[x]),
                        rng.seed() == old(rng).seed(),
                        si_scan(net@, prev@, v as int, self.beta, old(rng).seed(), rng.position(), u as int)
                            == si_scan(net@, prev@, v as int, self.beta, old(rng).seed(), old(rng).position(), 0),
                    decreases n - u,
                {
                    if net.edge_weight(v, u).is_some() && prev[u] {
                        if bernoulli(rng, self.beta) {
                            assert(net.adjacent(v as int, u as int) && prev@[u as int]);
                            return true;
                        }
                    }
                    u = u + 1;
                }
                false
            },
            DiffusionModel::Threshold => {
                let (deg, inf) = neighbor_tally(net, prev, v);
                if deg == 0 {
                    return false;
                }
                let a = inf as u128;
                let b = self.theta.den as u128;
                let c = self.theta.num as u128;
                let d = deg as u128;
                assert(a * b <= u128::MAX && c * d <= u128::MAX) by (nonlinear_arith)
                    requires
                        a <= u64::MAX,
                        b <= u64::MAX,
                        c <= u64::MAX,
                        d <= u64::MAX,
                ;
                let lhs = a * b;
                let rhs = c * d;
                lhs >= rhs
            },
        }
    }

    /// One synchronous round over the agents in `order`: decides from the
    /// informed set at the start of the round who joins, informs them all,
    /// and records the new number of informed agents in the history.
    /// Returns the number of agents informed in this round, and whether the
    /// cascade is saturated (nobody joined, or everybody is informed).
    #[verifier::spinoff_prover]
    pub fn apply(&self, world: &mut WeakTieWorld, order: &Vec<usize>, rng: &mut RandomStream) -> (r: (usize, bool))
        requires
            old(world).wf(),
            forall|i: int| 0 <= i < order@.len() ==> #[trigger] order@[i] < old(world).net.size(),
            forall|v: usize| v < old(world).net.size() ==> #[trigger] order@.contains(v),
        ensures
            final(world).wf(),
            final(world).net == old(world).net,
            final(world).cluster_of == old(world).cluster_of,
            final(world).seeds == old(world).seeds,
            final(world).max_iterations == old(world).max_iterations,
            round_outcome(&old(world).net, self.model, self.beta, self.theta, old(world).informed@, final(world).informed@),
            r.0 + old(world).informed_count() == final(world).informed_count(),
            r.1 == (r.0 == 0 || final(world).informed_count() >= final(world).informed@.len()),
            r.0 == 0 ==> final(world).informed@ == old(world).informed@,
            final(world).n_informed_history@ == old(world).n_informed_history@.push(final(world).informed_count() as usize),
            final(rng).seed() == old(rng).seed(),
            // SI: the round is fixed by the world, the order and the stream
            self.model == DiffusionModel::Si ==> (final(world).informed@, final(rng).position()) == si_round(
                old(world).net@,
                old(world).informed@,
                order@,
                self.beta,
                old(rng).seed(),
                old(rng).position(),
            ),
            // the threshold rule draws nothing
            self.model == DiffusionModel::Threshold ==> *final(rng) == *old(rng),
    {
        let n = world.n();
        let mut prev: Vec<bool> = Vec::new();
        let mut mark: Vec<bool> = Vec::new();
        let mut i: usize = 0;
        while i < n
            invariant
                n == world.informed@.len(),
                i <= n,
                prev@.len() == i,
                mark@.len() == i,
                forall|k: int| 0 <= k < i ==> prev@[k] == world.informed@[k],
                forall|k: int| 0 <= k < i ==> !mark@[k],
            decreases n - i,
        {
            prev.push(world.informed[i]);
            mark.push(false);
            i = i + 1;
        }
        assert(prev@ =~= world.informed@);
        assert(mark@ =~= Seq::new(n as nat, |i: int| false));
        let ghost net = world.net;
        let ghost w0 = *world;
        let mut k: usize = 0;
        while k < order.len()
            invariant
                world.wf(),
                world.net == net,
                world.cluster_of == w0.cluster_of,
                world.seeds == w0.seeds,
                world.max_iterations == w0.max_iterations,
                world.n_informed_history == w0.n_informed_history,
                n == net.size(),
                prev@ == world.informed@,
                mark@.len() == n,
                forall|i: int| 0 <= i < order@.len() ==> #[trigger] order@[i] < n,
                k <= order@.len(),
                forall|v: int| 0 <= v < n && #[trigger] mark@[v] ==> !prev@[v],
                self.model == DiffusionModel::Si ==> forall|v: int| 0 <= v < n && #[trigger] mark@[v] ==> has_informed_neighbor(&net, prev@, v),
                (self.model == DiffusionModel::Si && self.beta.is_certain()) ==> forall|j: int|
                    0 <= j < k && has_informed_neighbor(&net, prev@, #[trigger] order@[j] as int) && !prev@[order@[j] as int] ==> mark@[order@[j] as int],
                (self.model == DiffusionModel::Si && self.beta.is_never()) ==> forall|v: int| 0 <= v < n ==> !#[trigger] mark@[v],
                self.model == DiffusionModel::Threshold ==> forall|v: int| 0 <= v < n && #[trigger] mark@[v] ==> threshold_activates(&net, prev@, v, self.theta),
                self.model == DiffusionModel::Threshold ==> forall|j: int|
                    0 <= j < k && threshold_activates(&net, prev@, #[trigger] order@[j] as int, self.theta) ==> mark@[order@[j] as int],
                rng.seed() == old(rng).seed(),
                self.model == DiffusionModel::Si ==> si_marks(net@, prev@, order@, self.beta, old(rng).seed(), rng.position(), k as int, mark@)
                    == si_marks(net@, prev@, order@, self.beta, old(rng).seed(), old(rng).position(), 0, Seq::new(n as nat, |i: int| false)),
                self.model == DiffusionModel::Threshold ==> *rng == *old(rng),
            decreases order@.len() - k,
        {
            let v = order[k];
            if !prev[v] && !mark[v] {
                if self.joins(&world.net, &prev, v, rng) {
                    mark.set(v, true);
                }
            }
            k = k + 1;
        }
        proof {
            lemma_count_true_bound(prev@);
        }
        let ghost start = world.informed@;
        let mut n_new: usize = 0;
        let mut v: usize = 0;
        while v < n
            invariant
                world.wf(),
                world.net == net,
                world.cluster_of == w0.cluster_of,
                world.seeds == w0.seeds,
                world.max_iterations == w0.max_iterations,
                world.n_informed_history == w0.n_informed_history,
                n == net.size(),
                prev@ == start,
                start.len() == n,
                mark@.len() == n,
                v <= n,
                forall|x: int| 0 <= x < n && #[trigger] mark@[x] ==> !prev@[x],
                forall|x: int| 0 <= x < n ==> #[trigger] world.informed@[x] == (prev@[x] || (x < v && mark@[x])),
                count_true(world.informed@) == count_true(start) + n_new,
                n_new == count_true(mark@.take(v as int)),
                n_new <= v,
            decreases n - v,
        {
            proof {
                assert(mark@.take(v + 1).drop_last() =~= mark@.take(v as int));
            }
            if mark[v] {
                proof {
                    lemma_count_true_update(world.informed@, v as int, true);
                }
                world.informed.set(v, true);
                n_new = n_new + 1;
            }
            v = v + 1;
        }
        proof {
            let after = world.informed@;
            assert forall|x: int| 0 <= x < n && #[trigger] after[x] && !start[x] implies mark@[x] by {}
            if self.model == DiffusionModel::Si && self.beta.is_certain() {
                assert forall|x: int| 0 <= x < n implies (#[trigger] after[x] <==> (start[x] || has_informed_neighbor(&net, start, x))) by {
                    if has_informed_neighbor(&net, start, x) && !start[x] {
                        assert(order@.contains(x as usize));
                        let j = choose|j: int| 0 <= j < order@.len() && order@[j] == x as usize;
                        assert(has_informed_neighbor(&net, prev@, order@[j] as int));
                    }
                }
            }
            if self.model == DiffusionModel::Threshold {
                assert forall|x: int| 0 <= x < n implies (#[trigger] after[x] <==> (start[x] || threshold_activates(&net, start, x, self.theta))) by {
                    if threshold_activates(&net, start, x, self.theta) {
                        assert(order@.contains(x as usize));
                        let j = choose|j: int| 0 <= j < order@.len() && order@[j] == x as usize;
                        assert(threshold_activates(&net, prev@, order@[j] as int, self.theta));
                    }
                }
            }
            if self.model == DiffusionModel::Si && self.beta.is_never() {
                assert(after =~= start);
            }
            if self.model == DiffusionModel::Si {
                assert(after =~= si_round(net@, start, order@, self.beta, old(rng).seed(), old(rng).position()).0);
            }
            if n_new == 0 {
                assert(mark@.take(n as int) =~= mark@);
                crate::graph::lemma_count_true_zero(mark@);
                assert(after =~= start);
            }
            lemma_count_true_bound(after);
        }
        let n_informed = world.n_informed();
        world.n_informed_history.push(n_informed);
        let saturated = n_new == 0 || n_informed >= world.n();
        (n_new, saturated)
    }
}


/// With a positive threshold, an agent the rule activates has an informed
/// neighbour.
pub proof fn lemma_threshold_has_informed_neighbor(net: &TieNetwork, state: Seq<bool>, v: int, theta: Ratio)
    requires
        threshold_activates(net, state, v, theta),
        theta.num > 0,
    ensures
        has_informed_neighbor(net, state, v),
{
    let k = informed_tie_count(net, state, v) as int;
    let d = tie_count(net, v) as int;
    assert(k * theta.den >= theta.num * d);
    assert(theta.num * d > 0) by (nonlinear_arith)
        requires
            theta.num > 0,
            d > 0,
    ;
    if k == 0 {
        assert(k * theta.den == 0) by (nonlinear_arith)
            requires
                k == 0,
        ;
    }
    let p = |u: int| net.adjacent(v, u) && state[u];
    lemma_count_where_positive(net.size() as int, p);
    let u = choose|u: int| 0 <= u < net.size() && #[trigger] p(u);
}

} // verus!
