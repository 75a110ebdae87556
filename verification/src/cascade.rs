//! The threshold cascade as a function of the network, the threshold and
//! the informed set it starts from: one round, `t` rounds, and when it has
//! settled. The cascade draws nothing at random, so these pin down what a
//! threshold run does.
use vstd::prelude::*;
use crate::config::Ratio;
use crate::graph::{count_true, TieNetwork};
use crate::mechanisms::{count_where, informed_tie_count, threshold_activates};

verus! {

/// One round of the threshold cascade from the informed flags `state`.
pub open spec fn threshold_round(net: &TieNetwork, theta: Ratio, state: Seq<bool>) -> Seq<bool> {
    Seq::new(state.len(), |v: int| state[v] || threshold_activates(net, state, v, theta))
}

/// `t` rounds of the threshold cascade from `state`.
pub open spec fn cascade(net: &TieNetwork, theta: Ratio, state: Seq<bool>, t: nat) -> Seq<bool>
    decreases t,
{
    if t == 0 {
        state
    } else {
        threshold_round(net, theta, cascade(net, theta, state, (t - 1) as nat))
    }
}

/// Round `t` of the cascade informed nobody, or left everybody informed.
pub open spec fn settled(net: &TieNetwork, theta: Ratio, state: Seq<bool>, t: nat) -> bool {
    t >= 1 && (cascade(net, theta, state, t) == cascade(net, theta, state, (t - 1) as nat) || count_true(
        cascade(net, theta, state, t),
    ) >= state.len())
}

/// Every flag raised in `a` is raised in `b`.
pub open spec fn within(a: Seq<bool>, b: Seq<bool>) -> bool {
    a.len() == b.len() && forall|v: int| 0 <= v < a.len() && #[trigger] a[v] ==> b[v]
}

/// `a <= b` as fractions with positive denominators.
pub open spec fn at_most(a: Ratio, b: Ratio) -> bool {
    a.den > 0 && b.den > 0 && a.num * b.den <= b.num * a.den
}

pub proof fn lemma_cascade_len(net: &TieNetwork, theta: Ratio, state: Seq<bool>, t: nat)
    ensures
        cascade(net, theta, state, t).len() == state.len(),
    decreases t,
{
    if t > 0 {
        lemma_cascade_len(net, theta, state, (t - 1) as nat);
    }
}

/// Counting under a weaker predicate gives no fewer.
pub proof fn lemma_count_where_mono(n: int, p: spec_fn(int) -> bool, q: spec_fn(int) -> bool)
    requires
        forall|u: int| 0 <= u < n && #[trigger] p(u) ==> q(u),
    ensures
        count_where(n, p) <= count_where(n, q),
    decreases n,
{
    if n > 0 {
        lemma_count_where_mono(n - 1, p, q);
    }
}

/// A set within another has no more members.
pub proof fn lemma_count_within(a: Seq<bool>, b: Seq<bool>)
    requires
        within(a, b),
    ensures
        count_true(a) <= count_true(b),
    decreases a.len(),
{
    if a.len() > 0 {
        assert(within(a.drop_last(), b.drop_last()));
        lemma_count_within(a.drop_last(), b.drop_last());
    }
}

proof fn lemma_share_mono(k1: int, k2: int, d: int, a: Ratio, b: Ratio)
    requires
        0 <= k1 <= k2,
        d > 0,
        at_most(a, b),
        k1 * b.den >= b.num * d,
    ensures
        k2 * a.den >= a.num * d,
{
    let ad = a.den as int;
    let bd = b.den as int;
    let an = a.num as int;
    let bn = b.num as int;
    assert(k2 * ad * bd >= k1 * ad * bd) by (nonlinear_arith)
        requires
            k1 <= k2,
            ad > 0,
            bd > 0,
    ;
    assert(k1 * ad * bd == (k1 * bd) * ad) by (nonlinear_arith);
    assert((k1 * bd) * ad >= (bn * d) * ad) by (nonlinear_arith)
        requires
            k1 * bd >= bn * d,
            ad > 0,
    ;
    assert((bn * d) * ad == (bn * ad) * d) by (nonlinear_arith);
    assert((bn * ad) * d >= (an * bd) * d) by (nonlinear_arith)
        requires
            an * bd <= bn * ad,
            d > 0,
    ;
    assert((an * bd) * d == (an * d) * bd) by (nonlinear_arith);
    assert(k2 * ad * bd == (k2 * ad) * bd) by (nonlinear_arith);
    assert(k2 * ad >= an * d) by (nonlinear_arith)
        requires
            (k2 * ad) * bd >= (an * d) * bd,
            bd > 0,
    ;
}

/// A round of a higher threshold from fewer informed agents informs no
/// one that a round of a lower threshold from more would not.
pub proof fn lemma_round_mono(net: &TieNetwork, a: Ratio, b: Ratio, s1: Seq<bool>, s2: Seq<bool>)
    requires
        at_most(a, b),
        within(s1, s2),
        s1.len() == net.size(),
    ensures
        within(threshold_round(net, b, s1), threshold_round(net, a, s2)),
{
    let r1 = threshold_round(net, b, s1);
    let r2 = threshold_round(net, a, s2);
    assert forall|v: int| 0 <= v < r1.len() && #[trigger] r1[v] implies r2[v] by {
        if !s1[v] && !s2[v] {
            let n = net.size() as int;
            let p1 = |u: int| net.adjacent(v, u) && s1[u];
            let p2 = |u: int| net.adjacent(v, u) && s2[u];
            assert forall|u: int| 0 <= u < n && #[trigger] p1(u) implies p2(u) by {
                assert(s1[u]);
            }
            lemma_count_where_mono(n, p1, p2);
            assert(informed_tie_count(net, s1, v) == count_where(n, p1));
            assert(informed_tie_count(net, s2, v) == count_where(n, p2));
            lemma_share_mono(
                informed_tie_count(net, s1, v) as int,
                informed_tie_count(net, s2, v) as int,
                crate::mechanisms::tie_count(net, v) as int,
                a,
                b,
            );
        }
    }
}

/// `t` rounds of a higher threshold from fewer informed agents inform no
/// one that `t` rounds of a lower threshold from more would not.
pub proof fn lemma_cascade_mono(net: &TieNetwork, a: Ratio, b: Ratio, s1: Seq<bool>, s2: Seq<bool>, t: nat)
    requires
        at_most(a, b),
        within(s1, s2),
        s1.len() == net.size(),
    ensures
        within(cascade(net, b, s1, t), cascade(net, a, s2, t)),
    decreases t,
{
    if t > 0 {
        lemma_cascade_mono(net, a, b, s1, s2, (t - 1) as nat);
        lemma_cascade_len(net, b, s1, (t - 1) as nat);
        lemma_round_mono(net, a, b, cascade(net, b, s1, (t - 1) as nat), cascade(net, a, s2, (t - 1) as nat));
    }
}

/// The cascade never forgets: what `t` rounds inform, more rounds keep.
pub proof fn lemma_cascade_grows(net: &TieNetwork, theta: Ratio, s: Seq<bool>, t: nat, u: nat)
    requires
        t <= u,
    ensures
        within(cascade(net, theta, s, t), cascade(net, theta, s, u)),
    decreases u,
{
    lemma_cascade_len(net, theta, s, t);
    lemma_cascade_len(net, theta, s, u);
    if t < u {
        lemma_cascade_grows(net, theta, s, t, (u - 1) as nat);
        let c = cascade(net, theta, s, (u - 1) as nat);
        assert forall|v: int| 0 <= v < c.len() && #[trigger] c[v] implies cascade(net, theta, s, u)[v] by {}
    }
}

/// Once settled, the cascade stays where it is.
pub proof fn lemma_settled_stays(net: &TieNetwork, theta: Ratio, s: Seq<bool>, t: nat, u: nat)
    requires
        settled(net, theta, s, t),
        t <= u,
    ensures
        cascade(net, theta, s, u) == cascade(net, theta, s, t),
    decreases u,
{
    if t < u {
        lemma_settled_stays(net, theta, s, t, (u - 1) as nat);
        let c = cascade(net, theta, s, t);
        lemma_cascade_len(net, theta, s, t);
        if count_true(c) >= s.len() {
            crate::graph::lemma_count_true_full(c);
        }
        assert(threshold_round(net, theta, c) =~= c);
    }
}

} // verus!
