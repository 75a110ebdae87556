//! Tie strength and the state of a diffusion run on a weak-tie network.
use vstd::prelude::*;
use crate::graph::{count_marked, count_true, TieNetwork};

verus! {

/// The strength of a tie (an absent tie is an absent edge).
#[derive(Debug, Clone, Copy, PartialEq, Eq, Structural)]
pub enum TieStrength {
    /// A strong tie, the dense cohesion inside a cluster.
    Strong,
    /// A weak tie, the sparse bridge between clusters.
    Weak,
}

impl TieStrength {
    pub open spec fn label_text(self) -> Seq<char> {
        match self {
            TieStrength::Strong => "strong"@,
            TieStrength::Weak => "weak"@,
        }
    }

    pub fn label(&self) -> (r: &'static str)
        ensures
            r@ == self.label_text(),
    {
        match self {
            TieStrength::Strong => "strong",
            TieStrength::Weak => "weak",
        }
    }
}


/// The state of a diffusion run on a weak-tie network.
#[derive(Debug, Clone)]
pub struct WeakTieWorld {
    /// Most cascade rounds a run may take.
    pub max_iterations: usize,
    /// The network; tie strengths are its edge weights.
    pub net: TieNetwork,
    /// The cluster of each agent.
    pub cluster_of: Vec<usize>,
    /// Whether each agent is informed (SI infected, or threshold active).
    pub informed: Vec<bool>,
    /// The agents the diffusion starts from.
    pub seeds: Vec<usize>,
    /// The number of informed agents after each round, starting with the
    /// seeds.
    pub n_informed_history: Vec<usize>,
}

impl WeakTieWorld {
    /// The parts agree: one informed flag and one cluster per node, seeds
    /// are nodes.
    pub open spec fn wf(&self) -> bool {
        &&& self.net.valid()
        &&& self.informed@.len() == self.net.size()
        &&& self.cluster_of@.len() == self.net.size()
        &&& forall|i: int| 0 <= i < self.seeds@.len() ==> #[trigger] self.seeds@[i] < self.net.size()
    }

    /// Number of informed agents.
    pub open spec fn informed_count(&self) -> nat {
        count_true(self.informed@)
    }

    /// Builds the state: every agent uninformed but the seeds, and a
    /// history holding the number of seeds informed.
    pub fn new(net: TieNetwork, cluster_of: Vec<usize>, seeds: Vec<usize>, max_iterations: usize) -> (w: WeakTieWorld)
        requires
            net.valid(),
            cluster_of@.len() == net.size(),
            forall|i: int| 0 <= i < seeds@.len() ==> #[trigger] seeds@[i] < net.size(),
        ensures
            w.wf(),
            w.net == net,
            w.cluster_of == cluster_of,
            w.seeds == seeds,
            w.max_iterations == max_iterations,
            forall|v: int| 0 <= v < net.size() ==> (#[trigger] w.informed@[v] <==> seeds@.contains(v as usize)),
            w.n_informed_history@ == seq![w.informed_count() as usize],
    {
        let n = cluster_of.len();
        let mut informed: Vec<bool> = Vec::new();
        let mut i: usize = 0;
        while i < n
            invariant
                i <= n,
                informed@.len() == i,
                forall|k: int| 0 <= k < i ==> !informed@[k],
            decreases n - i,
        {
            informed.push(false);
            i = i + 1;
        }
        let mut j: usize = 0;
        while j < seeds.len()
            invariant
                n == net.size(),
                informed@.len() == n,
                forall|i: int| 0 <= i < seeds@.len() ==> #[trigger] seeds@[i] < net.size(),
                j <= seeds@.len(),
                forall|v: int| 0 <= v < n ==> (#[trigger] informed@[v] <==> seeds@.take(j as int).contains(v as usize)),
            decreases seeds@.len() - j,
        {
            let s = seeds[j];
            informed.set(s, true);
            proof {
                assert(seeds@.take(j + 1) =~= seeds@.take(j as int).push(s));
                assert forall|v: int| 0 <= v < n implies (#[trigger] informed@[v] <==> seeds@.take(j + 1).contains(v as usize)) by {
                    if v == s as int {
                        assert(seeds@.take(j + 1)[j as int] == s);
                    } else {
                        let t1 = seeds@.take(j + 1);
                        let t0 = seeds@.take(j as int);
                        if t1.contains(v as usize) {
                            let k = choose|k: int| 0 <= k < t1.len() && #[trigger] t1[k] == v as usize;
                            assert(t0[k] == v as usize);
                        }
                        if t0.contains(v as usize) {
                            let k = choose|k: int| 0 <= k < t0.len() && #[trigger] t0[k] == v as usize;
                            assert(t1[k] == v as usize);
                        }
                    }
                }
            }
            j = j + 1;
        }
        proof {
            assert(seeds@.take(seeds@.len() as int) =~= seeds@);
        }
        let n0 = count_marked(&informed);
        WeakTieWorld { max_iterations, net, cluster_of, informed, seeds, n_informed_history: vec![n0] }
    }

    /// Number of agents.
    pub fn n(&self) -> (r: usize)
        ensures
            r == self.informed@.len(),
    {
        self.informed.len()
    }

    /// Number of informed agents.
    pub fn n_informed(&self) -> (r: usize)
        ensures
            r == self.informed_count(),
    {
        count_marked(&self.informed)
    }

    /// Whether agent `id` is informed (an unknown agent is not).
    pub fn is_informed(&self, id: usize) -> (r: bool)
        ensures
            r == (id < self.informed@.len() && self.informed@[id as int]),
    {
        if id < self.informed.len() {
            self.informed[id]
        } else {
            false
        }
    }

    /// Whether agent `id` is active, that is informed.
    pub fn is_active(&self, id: usize) -> (r: bool)
        ensures
            r == (id < self.informed@.len() && self.informed@[id as int]),
    {
        self.is_informed(id)
    }

    /// Sets whether agent `id` is informed.
    pub fn set_active(&mut self, id: usize, active: bool)
        requires
            id < old(self).informed@.len(),
        ensures
            final(self).informed@ == old(self).informed@.update(id as int, active),
            final(self).net == old(self).net,
            final(self).cluster_of == old(self).cluster_of,
            final(self).seeds == old(self).seeds,
            final(self).n_informed_history == old(self).n_informed_history,
            final(self).max_iterations == old(self).max_iterations,
    {
        self.informed.set(id, active);
    }

    /// The agents, in increasing order.
    pub fn agent_ids(&self) -> (r: Vec<usize>)
        ensures
            r@.len() == self.informed@.len(),
            forall|i: int| 0 <= i < r@.len() ==> #[trigger] r@[i] == i,
    {
        let n = self.informed.len();
        let mut r: Vec<usize> = Vec::new();
        let mut i: usize = 0;
        while i < n
            invariant
                i <= n,
                r@.len() == i,
                forall|k: int| 0 <= k < i ==> #[trigger] r@[k] == k,
            decreases n - i,
        {
            r.push(i);
            i = i + 1;
        }
        r
    }

    /// The agents that influence `id`: its neighbours, in increasing order.
    pub fn neighbors_of(&self, id: usize) -> (r: Vec<usize>)
        requires
            self.wf(),
            id < self.net.size(),
        ensures
            forall|i: int| 0 <= i < r@.len() ==> #[trigger] r@[i] < self.net.size() && self.net.adjacent(id as int, r@[i] as int),
            forall|i: int, j: int| 0 <= i < j < r@.len() ==> r@[i] < r@[j],
            forall|w: int| 0 <= w < self.net.size() && self.net.adjacent(id as int, w) ==> r@.contains(w as usize),
    {
        self.net.neighbors(id)
    }
}

} // verus!
