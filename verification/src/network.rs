//! The weak-tie bridging network generator: clusters of strong ties,
//! closed into triangles, and sparse weak ties bridging the clusters.
use vstd::prelude::*;
use crate::config::{Config, Probability};
use crate::graph::{set_pair, TieNetwork};
use crate::rng::{bernoulli, below_draw, draw_succeeds_spec, index_below, stream_word, RandomStream};
use crate::world::TieStrength;
use vstd::arithmetic::div_mod::{lemma_fundamental_div_mod, lemma_fundamental_div_mod_converse, lemma_mod_pos_bound};

verus! {

/// In the cluster block `[lo, hi)`, every strong tie lies in a triangle.
pub open spec fn strong_ties_closed(net: &TieNetwork, lo: int, hi: int) -> bool {
    forall|x: int, y: int|
        lo <= x < hi && lo <= y < hi && #[trigger] net.weight(x, y) == Some(TieStrength::Strong)
            ==> net.share_neighbor(x, y)
}

/// In the tie matrix `m`, `u - v` is a strong tie whose ends have no
/// neighbour in common.
pub open spec fn open_strong_tie(m: Seq<Seq<Option<TieStrength>>>, u: int, v: int) -> bool {
    &&& m[u][v] == Some(TieStrength::Strong)
    &&& !exists|w: int| 0 <= w < m.len() && m[u][w] is Some && m[v][w] is Some
}

/// The first open strong tie `(x, y)` with `x < y < hi` of the block, in
/// lexicographic order, from `(u, v)` on.
pub open spec fn first_open_from(m: Seq<Seq<Option<TieStrength>>>, hi: int, u: int, v: int) -> Option<(int, int)>
    decreases hi - u, hi - v,
{
    if u >= hi {
        None
    } else if v >= hi {
        first_open_from(m, hi, u + 1, u + 2)
    } else if open_strong_tie(m, u, v) {
        Some((u, v))
    } else {
        first_open_from(m, hi, u, v + 1)
    }
}

/// The first member of the block `[lo, ..)` other than `u` and `v`.
pub open spec fn third_member(lo: int, u: int, v: int) -> int {
    if lo != u && lo != v {
        lo
    } else if lo + 1 != u && lo + 1 != v {
        lo + 1
    } else {
        lo + 2
    }
}

/// One step of the triangle closure of the block `[lo, hi)`: the first open
/// strong tie `u - v`, if any, has both ends strongly tied to the first
/// other member of the block.
pub open spec fn close_once(m: Seq<Seq<Option<TieStrength>>>, lo: int, hi: int) -> Seq<Seq<Option<TieStrength>>> {
    match first_open_from(m, hi, lo, lo + 1) {
        None => m,
        Some((u, v)) => {
            let w = third_member(lo, u, v);
            set_pair(set_pair(m, u, w, Some(TieStrength::Strong)), v, w, Some(TieStrength::Strong))
        },
    }
}

/// `k` steps of the triangle closure of the block `[lo, hi)`.
pub open spec fn close_steps(m: Seq<Seq<Option<TieStrength>>>, lo: int, hi: int, k: nat) -> Seq<Seq<Option<TieStrength>>>
    decreases k,
{
    if k == 0 {
        m
    } else {
        close_once(close_steps(m, lo, hi, (k - 1) as nat), lo, hi)
    }
}

/// The triangle closure of the block `[lo, hi)`: the closure steps taken
/// until they come to rest.
pub open spec fn closure(m: Seq<Seq<Option<TieStrength>>>, lo: int, hi: int) -> Seq<Seq<Option<TieStrength>>> {
    close_steps(
        m,
        lo,
        hi,
        choose|k: nat| #[trigger] close_once(close_steps(m, lo, hi, k), lo, hi) == close_steps(m, lo, hi, k),
    )
}

/// Once the closure steps come to rest, further steps change nothing.
proof fn lemma_close_steps_rest(m: Seq<Seq<Option<TieStrength>>>, lo: int, hi: int, k: nat, d: nat)
    requires
        close_once(close_steps(m, lo, hi, k), lo, hi) == close_steps(m, lo, hi, k),
    ensures
        close_steps(m, lo, hi, k + d) == close_steps(m, lo, hi, k),
    decreases d,
{
    if d > 0 {
        lemma_close_steps_rest(m, lo, hi, k, (d - 1) as nat);
        assert(close_steps(m, lo, hi, k + d) == close_once(close_steps(m, lo, hi, (k + d - 1) as nat), lo, hi));
    }
}

/// Where the closure steps come to rest is the closure.
proof fn lemma_closure_reached(m: Seq<Seq<Option<TieStrength>>>, lo: int, hi: int, k: nat)
    requires
        close_once(close_steps(m, lo, hi, k), lo, hi) == close_steps(m, lo, hi, k),
    ensures
        closure(m, lo, hi) == close_steps(m, lo, hi, k),
{
    let k2 = choose|k: nat| #[trigger] close_once(close_steps(m, lo, hi, k), lo, hi) == close_steps(m, lo, hi, k);
    assert(close_once(close_steps(m, lo, hi, k2), lo, hi) == close_steps(m, lo, hi, k2));
    if k <= k2 {
        lemma_close_steps_rest(m, lo, hi, k, (k2 - k) as nat);
    } else {
        lemma_close_steps_rest(m, lo, hi, k2, (k - k2) as nat);
    }
}

/// A strong tie of the block `[lo, hi)` with no neighbour in common, if
/// there is one: the first in lexicographic order.
fn find_open_strong_tie(net: &TieNetwork, lo: usize, hi: usize) -> (r: Option<(usize, usize)>)
    requires
        net.valid(),
        lo <= hi <= net.size(),
    ensures
        r is None ==> strong_ties_closed(net, lo as int, hi as int),
        r matches Some(p) ==> lo <= p.0 < p.1 < hi && net.weight(p.0 as int, p.1 as int) == Some(
            TieStrength::Strong,
        ) && !net.share_neighbor(p.0 as int, p.1 as int),
        (match r {
            None => None::<(int, int)>,
            Some(p) => Some((p.0 as int, p.1 as int)),
        }) == first_open_from(net@, hi as int, lo as int, lo + 1),
{
    let mut u = lo;
    while u < hi
        invariant
            net.valid(),
            lo <= u <= hi <= net.size(),
            forall|x: int, y: int|
                lo <= x < u && x < y < hi && #[trigger] net.weight(x, y) == Some(TieStrength::Strong)
                    ==> net.share_neighbor(x, y),
            first_open_from(net@, hi as int, lo as int, lo + 1) == first_open_from(net@, hi as int, u as int, u + 1),
        decreases hi - u,
    {
        let mut v = u + 1;
        while v < hi
            invariant
                net.valid(),
                lo <= u < hi <= net.size(),
                u < v <= hi,
                forall|x: int, y: int|
                    lo <= x < u && x < y < hi && #[trigger] net.weight(x, y) == Some(TieStrength::Strong)
                        ==> net.share_neighbor(x, y),
                forall|y: int|
                    u < y < v && #[trigger] net.weight(u as int, y) == Some(TieStrength::Strong)
                        ==> net.share_neighbor(u as int, y),
                first_open_from(net@, hi as int, lo as int, lo + 1) == first_open_from(net@, hi as int, u as int, v as int),
            decreases hi - v,
        {
            let strong = match net.edge_weight(u, v) {
                Some(TieStrength::Strong) => true,
                _ => false,
            };
            if strong && !net.has_common_neighbor(u, v) {
                proof {
                    assert(net.weight(u as int, v as int) == Some(TieStrength::Strong));
                    assert forall|w: int| 0 <= w < net@.len() implies !(net@[u as int][w] is Some && net@[v as int][w] is Some) by {
                        if net@[u as int][w] is Some && net@[v as int][w] is Some {
                            assert(net.adjacent(u as int, w) && net.adjacent(v as int, w));
                        }
                    }
                    assert(open_strong_tie(net@, u as int, v as int));
                }
                return Some((u, v));
            }
            proof {
                if open_strong_tie(net@, u as int, v as int) {
                    let w = choose|w: int| 0 <= w < net@.len() && net@[u as int][w] is Some && net@[v as int][w] is Some;
                    assert(net.adjacent(u as int, w) && net.adjacent(v as int, w));
                }
            }
            v = v + 1;
        }
        u = u + 1;
    }
    proof {
        assert forall|x: int, y: int|
            lo <= x < hi && lo <= y < hi && #[trigger] net.weight(x, y) == Some(TieStrength::Strong)
                implies net.share_neighbor(x, y) by {
            if x < y {
            } else if y < x {
                assert(net.weight(y, x) == Some(TieStrength::Strong));
                let w = choose|w: int| 0 <= w < net.size() && net.adjacent(y, w) && net.adjacent(x, w);
                assert(net.adjacent(x, w) && net.adjacent(y, w));
            } else {
                assert(net.weight(x, x) is None);
            }
        }
    }
    None
}

/// Closes the strong ties of the cluster block `[lo, hi)` into triangles:
/// while a strong tie of the block has no neighbour in common, both its
/// ends are strongly tied to the first other member of the block. Ties
/// added this way may themselves be checked again, until none is left
/// open. Afterwards no strong tie of the block is a local bridge.
pub fn close_triangles(net: &mut TieNetwork, lo: usize, hi: usize)
    requires
        old(net).valid(),
        lo + 3 <= hi <= old(net).size(),
    ensures
        final(net).valid(),
        final(net).size() == old(net).size(),
        strong_ties_closed(final(net), lo as int, hi as int),
        forall|x: int, y: int|
            0 <= x < old(net).size() && 0 <= y < old(net).size() && #[trigger] old(net).adjacent(x, y)
                ==> final(net).adjacent(x, y),
        forall|x: int, y: int|
            0 <= x < old(net).size() && 0 <= y < old(net).size() ==> #[trigger] final(net).weight(x, y)
                == old(net).weight(x, y) || (lo <= x < hi && lo <= y < hi && final(net).weight(x, y)
                == Some(TieStrength::Strong)),
        // the result is where the closure steps first come to rest
        exists|k: nat| final(net)@ == #[trigger] close_steps(old(net)@, lo as int, hi as int, k),
        close_once(final(net)@, lo as int, hi as int) == final(net)@,
        final(net)@ == closure(old(net)@, lo as int, hi as int),
{
    let ghost n = net.size();
    let ghost start = *net;
    let ghost mut k: nat = 0;
    let mut done = false;
    while !done
        invariant
            net.valid(),
            net.size() == n,
            start.valid(),
            start.size() == n,
            lo + 3 <= hi <= n,
            done ==> strong_ties_closed(net, lo as int, hi as int),
            done ==> close_once(net@, lo as int, hi as int) == net@,
            net@ == close_steps(start@, lo as int, hi as int, k),
            forall|x: int, y: int|
                0 <= x < n && 0 <= y < n && #[trigger] start.adjacent(x, y) ==> net.adjacent(x, y),
            forall|x: int, y: int|
                0 <= x < n && 0 <= y < n ==> #[trigger] net.weight(x, y) == start.weight(x, y) || (lo
                    <= x < hi && lo <= y < hi && net.weight(x, y) == Some(TieStrength::Strong)),
        decreases net.absent_pairs() + if done {
            0int
        } else {
            1int
        },
    {
        match find_open_strong_tie(net, lo, hi) {
            None => {
                done = true;
            },
            Some((u, v)) => {
                let w = if lo != u && lo != v {
                    lo
                } else if lo + 1 != u && lo + 1 != v {
                    lo + 1
                } else {
                    lo + 2
                };
                let ghost before = *net;
                assert(!(before.adjacent(u as int, w as int) && before.adjacent(v as int, w as int)));
                net.add_edge_weighted(u, w, TieStrength::Strong);
                let ghost mid = *net;
                net.add_edge_weighted(v, w, TieStrength::Strong);
                proof {
                    assert(net@ == close_once(before@, lo as int, hi as int));
                    k = k + 1;
                    assert forall|x: int, y: int|
                        0 <= x < n && 0 <= y < n && #[trigger] start.adjacent(x, y) implies net.adjacent(x, y) by {
                        assert(before.adjacent(x, y));
                        assert(mid.adjacent(x, y));
                    }
                    assert forall|x: int, y: int| 0 <= x < n && 0 <= y < n implies #[trigger] net.weight(x, y)
                        == start.weight(x, y) || (lo <= x < hi && lo <= y < hi && net.weight(x, y) == Some(
                        TieStrength::Strong)) by {
                        assert(before.weight(x, y) == start.weight(x, y) || (lo <= x < hi && lo <= y < hi
                            && before.weight(x, y) == Some(TieStrength::Strong)));
                        assert(mid.weight(x, y) == before.weight(x, y) || (lo <= x < hi && lo <= y < hi
                            && mid.weight(x, y) == Some(TieStrength::Strong)));
                    }
                }
            },
        }
    }
    proof {
        lemma_closure_reached(start@, lo as int, hi as int, k);
    }
}


/// `after` differs from `before` only by ties inside the block `[lo, hi)`
/// that were absent or are now strong (or, when `weak_ok`, weak); no tie is
/// lost.
pub open spec fn grows_within(before: &TieNetwork, after: &TieNetwork, lo: int, hi: int, weak_ok: bool) -> bool {
    &&& after.size() == before.size()
    &&& forall|x: int, y: int|
        0 <= x < before.size() && 0 <= y < before.size() && #[trigger] before.adjacent(x, y)
            ==> after.adjacent(x, y)
    &&& forall|x: int, y: int|
        0 <= x < before.size() && 0 <= y < before.size() ==> #[trigger] after.weight(x, y)
            == before.weight(x, y) || (lo <= x < hi && lo <= y < hi && (after.weight(x, y) == Some(
            TieStrength::Strong) || (weak_ok && after.weight(x, y) == Some(TieStrength::Weak))))
}

pub proof fn lemma_grows_trans(a: &TieNetwork, b: &TieNetwork, c: &TieNetwork, lo: int, hi: int, w1: bool, w2: bool)
    requires
        grows_within(a, b, lo, hi, w1),
        grows_within(b, c, lo, hi, w2),
    ensures
        grows_within(a, c, lo, hi, w1 || w2),
{
    assert forall|x: int, y: int| 0 <= x < a.size() && 0 <= y < a.size() && #[trigger] a.adjacent(x, y) implies c.adjacent(x, y) by {
        assert(b.adjacent(x, y));
    }
    assert forall|x: int, y: int| 0 <= x < a.size() && 0 <= y < a.size() implies #[trigger] c.weight(x, y)
        == a.weight(x, y) || (lo <= x < hi && lo <= y < hi && (c.weight(x, y) == Some(
        TieStrength::Strong) || ((w1 || w2) && c.weight(x, y) == Some(TieStrength::Weak)))) by {
        assert(c.weight(x, y) == b.weight(x, y) || (lo <= x < hi && lo <= y < hi && (c.weight(x, y) == Some(
            TieStrength::Strong) || (w2 && c.weight(x, y) == Some(TieStrength::Weak)))));
        assert(b.weight(x, y) == a.weight(x, y) || (lo <= x < hi && lo <= y < hi && (b.weight(x, y) == Some(
            TieStrength::Strong) || (w1 && b.weight(x, y) == Some(TieStrength::Weak)))));
    }
}

/// The cluster of node `v` when clusters hold `size` consecutive nodes.
pub proof fn lemma_block(v: int, c: int, size: int)
    requires
        size > 0,
        c >= 0,
        v >= 0,
    ensures
        c * size <= v < c * size + size ==> v / size == c,
        v < c * size ==> v / size < c,
        v >= c * size + size ==> v / size > c,
{
    lemma_fundamental_div_mod(v, size);
    lemma_mod_pos_bound(v, size);
    let q = v / size;
    let r = v % size;
    if c * size <= v < c * size + size {
        lemma_fundamental_div_mod_converse(v, size, c, v - c * size);
    }
    if v < c * size {
        assert(q < c) by (nonlinear_arith)
            requires
                v == size * q + r,
                0 <= r,
                v < c * size,
                size > 0,
        ;
    }
    if v >= c * size + size {
        assert(q > c) by (nonlinear_arith)
            requires
                v == size * q + r,
                r < size,
                v >= c * size + size,
                size > 0,
        ;
    }
}

pub proof fn lemma_block_fits(c: int, k: int, size: int)
    requires
        0 <= c < k,
        size >= 0,
    ensures
        c * size + size <= k * size,
        (c + 1) * size == c * size + size,
{
    assert(c * size + size <= k * size) by (nonlinear_arith)
        requires
            0 <= c < k,
            size >= 0,
    ;
    assert((c + 1) * size == c * size + size) by (nonlinear_arith);
}

/// The tie matrix `m` after the ring of the block `base .. base + size` is
/// wired from its `i`-th member on (see `wire_ring`).
pub open spec fn ring_from(m: Seq<Seq<Option<TieStrength>>>, base: int, size: int, i: int) -> Seq<Seq<Option<TieStrength>>>
    decreases size - i,
{
    if size < 2 || i >= size {
        m
    } else {
        let j = if i + 1 == size {
            0
        } else {
            i + 1
        };
        let next = if !(size == 2 && j < i) {
            set_pair(m, base + i, base + j, Some(TieStrength::Strong))
        } else {
            m
        };
        ring_from(next, base, size, i + 1)
    }
}

/// A strong ring through the block `base .. base + size`: each member is
/// tied to the next one, and the last to the first when there are three
/// or more.
fn wire_ring(net: &mut TieNetwork, base: usize, size: usize)
    requires
        old(net).valid(),
        base + size <= old(net).size(),
    ensures
        final(net).valid(),
        grows_within(old(net), final(net), base as int, base + size, false),
        forall|i: int| 0 <= i && i + 1 < size ==> #[trigger] final(net).weight(base + i, base + i + 1) == Some(
            TieStrength::Strong),
        size >= 3 ==> final(net).weight(base + size - 1, base as int) == Some(TieStrength::Strong),
        final(net)@ == ring_from(old(net)@, base as int, size as int, 0),
{
    let ghost start = *net;
    if size < 2 {
        return;
    }
    let mut i: usize = 0;
    while i < size
        invariant
            net.valid(),
            start.valid(),
            2 <= size,
            base + size <= start.size(),
            i <= size,
            grows_within(&start, net, base as int, base + size, false),
            forall|x: int| 0 <= x && x + 1 < size && x < i ==> #[trigger] net.weight(base + x, base + x + 1)
                == Some(TieStrength::Strong),
            (size >= 3 && i == size) ==> net.weight(base + size - 1, base as int) == Some(TieStrength::Strong),
            ring_from(net@, base as int, size as int, i as int) == ring_from(start@, base as int, size as int, 0),
        decreases size - i,
    {
        let j = if i + 1 == size {
            0
        } else {
            i + 1
        };
        if !(size == 2 && j < i) {
            let ghost before = *net;
            net.add_edge_weighted(base + i, base + j, TieStrength::Strong);
            proof {
                assert(grows_within(&before, net, base as int, base + size, false));
                lemma_grows_trans(&start, &before, net, base as int, base + size, false, false);
                assert forall|x: int| 0 <= x && x + 1 < size && x < i + 1 implies #[trigger] net.weight(base + x, base + x + 1)
                    == Some(TieStrength::Strong) by {
                    if x < i {
                        assert(before.weight(base + x, base + x + 1) == Some(TieStrength::Strong));
                    }
                }
            }
        }
        i = i + 1;
    }
}

/// The tie matrix `m` and the stream position after the untied pairs of
/// the block `base .. base + size` are drawn (see `wire_pairs`), from the
/// pair of its `i`-th and `j`-th members on.
pub open spec fn pairs_from(
    m: Seq<Seq<Option<TieStrength>>>,
    base: int,
    size: int,
    i: int,
    j: int,
    p_strong: Probability,
    p_weak_intra: Probability,
    seed: u64,
    pos: nat,
) -> (Seq<Seq<Option<TieStrength>>>, nat)
    decreases size - i, size - j,
{
    if i >= size {
        (m, pos)
    } else if j >= size {
        pairs_from(m, base, size, i + 1, i + 2, p_strong, p_weak_intra, seed, pos)
    } else if m[base + i][base + j] is None {
        let drawn = pair_choice(seed, pos, p_strong, p_weak_intra);
        let next = match drawn.0 {
            Some(w) => set_pair(m, base + i, base + j, Some(w)),
            None => m,
        };
        pairs_from(next, base, size, i, j + 1, p_strong, p_weak_intra, seed, drawn.1)
    } else {
        pairs_from(m, base, size, i, j + 1, p_strong, p_weak_intra, seed, pos)
    }
}

/// The tie an untied pair of a cluster gets from the stream seeded `seed`
/// at `pos`: strong if a draw of `p_strong` succeeds; otherwise, when
/// `p_weak_intra` is not zero, weak if a second draw, of `p_weak_intra`,
/// succeeds. The tie, if any, and the stream position after the draws.
pub open spec fn pair_choice(seed: u64, pos: nat, p_strong: Probability, p_weak_intra: Probability) -> (Option<TieStrength>, nat) {
    if draw_succeeds_spec(stream_word(seed, pos), p_strong) {
        (Some(TieStrength::Strong), pos + 2)
    } else if p_weak_intra.threshold > 0 {
        (
            if draw_succeeds_spec(stream_word(seed, pos + 2), p_weak_intra) {
                Some(TieStrength::Weak)
            } else {
                None
            },
            pos + 4,
        )
    } else {
        (None, pos + 2)
    }
}

/// Draws the tie of an untied pair of a cluster (see `pair_choice`).
pub fn draw_pair_tie(rng: &mut RandomStream, p_strong: Probability, p_weak_intra: Probability) -> (r: Option<TieStrength>)
    ensures
        (r, final(rng).position()) == pair_choice(old(rng).seed(), old(rng).position(), p_strong, p_weak_intra),
        final(rng).seed() == old(rng).seed(),
        p_strong.is_certain() ==> r == Some(TieStrength::Strong),
        r == Some(TieStrength::Weak) ==> !p_weak_intra.is_never(),
{
    if bernoulli(rng, p_strong) {
        Some(TieStrength::Strong)
    } else if p_weak_intra.threshold > 0 && bernoulli(rng, p_weak_intra) {
        Some(TieStrength::Weak)
    } else {
        None
    }
}

/// The bridge between two clusters of `size` members drawn from the stream
/// seeded `seed` at `pos`: if a draw of `p_bridge` succeeds, a member of
/// each cluster, by its index in the cluster, each drawn uniformly below
/// `size`. The bridge, if any, and the stream position after the draws.
pub open spec fn bridge_choice(seed: u64, pos: nat, p_bridge: Probability, size: usize) -> (Option<(usize, usize)>, nat) {
    if draw_succeeds_spec(stream_word(seed, pos), p_bridge) {
        let first = below_draw(seed, pos + 2, size);
        let second = below_draw(seed, first.1, size);
        (Some((first.0, second.0)), second.1)
    } else {
        (None, pos + 2)
    }
}

/// Draws the bridge between two clusters of `size` members (see
/// `bridge_choice`).
pub fn draw_bridge(rng: &mut RandomStream, p_bridge: Probability, size: usize) -> (r: Option<(usize, usize)>)
    requires
        size > 0 || p_bridge.is_never(),
    ensures
        (r, final(rng).position()) == bridge_choice(old(rng).seed(), old(rng).position(), p_bridge, size),
        final(rng).seed() == old(rng).seed(),
        r matches Some((ia, ib)) ==> ia < size && ib < size,
        p_bridge.is_certain() ==> r is Some,
        p_bridge.is_never() ==> r is None,
{
    if bernoulli(rng, p_bridge) {
        let ia = index_below(rng, size);
        let ib = index_below(rng, size);
        Some((ia, ib))
    } else {
        None
    }
}

/// Random ties between the members of the block `base .. base + size` that
/// are not tied yet: strong with probability `p_strong`; otherwise, when
/// `p_weak_intra` is not zero, weak with probability `p_weak_intra`.
fn wire_pairs(net: &mut TieNetwork, base: usize, size: usize, p_strong: Probability, p_weak_intra: Probability, rng: &mut RandomStream)
    requires
        old(net).valid(),
        base + size <= old(net).size(),
    ensures
        final(net).valid(),
        grows_within(old(net), final(net), base as int, base + size, !p_weak_intra.is_never()),
        forall|x: int, y: int|
            0 <= x < old(net).size() && 0 <= y < old(net).size() && #[trigger] old(net).adjacent(x, y)
                ==> final(net).weight(x, y) == old(net).weight(x, y),
        p_strong.is_certain() ==> forall|x: int, y: int|
            base <= x < base + size && base <= y < base + size && x != y ==> #[trigger] final(net).adjacent(x, y),
        (final(net)@, final(rng).position()) == pairs_from(
            old(net)@,
            base as int,
            size as int,
            0,
            1,
            p_strong,
            p_weak_intra,
            old(rng).seed(),
            old(rng).position(),
        ),
        final(rng).seed() == old(rng).seed(),
{
    let ghost start = *net;
    let ghost weak_ok = !p_weak_intra.is_never();
    let mut i: usize = 0;
    while i < size
        invariant
            net.valid(),
            start.valid(),
            base + size <= start.size(),
            weak_ok == !p_weak_intra.is_never(),
            i <= size,
            grows_within(&start, net, base as int, base + size, weak_ok),
            forall|x: int, y: int|
                0 <= x < start.size() && 0 <= y < start.size() && #[trigger] start.adjacent(x, y)
                    ==> net.weight(x, y) == start.weight(x, y),
            p_strong.is_certain() ==> forall|x: int, y: int|
                base <= x < base + i && base <= y < base + size && x != y ==> #[trigger] net.adjacent(x, y),
            rng.seed() == old(rng).seed(),
            pairs_from(net@, base as int, size as int, i as int, i + 1, p_strong, p_weak_intra, old(rng).seed(), rng.position())
                == pairs_from(start@, base as int, size as int, 0, 1, p_strong, p_weak_intra, old(rng).seed(), old(rng).position()),
        decreases size - i,
    {
        let mut j: usize = i + 1;
        while j < size
            invariant
                net.valid(),
                start.valid(),
                base + size <= start.size(),
                weak_ok == !p_weak_intra.is_never(),
                i < size,
                i < j <= size,
                grows_within(&start, net, base as int, base + size, weak_ok),
                forall|x: int, y: int|
                    0 <= x < start.size() && 0 <= y < start.size() && #[trigger] start.adjacent(x, y)
                        ==> net.weight(x, y) == start.weight(x, y),
                p_strong.is_certain() ==> forall|x: int, y: int|
                    base <= x < base + i && base <= y < base + size && x != y ==> #[trigger] net.adjacent(x, y),
                p_strong.is_certain() ==> forall|y: int|
                    base + i < y < base + j ==> #[trigger] net.adjacent(base + i, y),
                rng.seed() == old(rng).seed(),
                pairs_from(net@, base as int, size as int, i as int, j as int, p_strong, p_weak_intra, old(rng).seed(), rng.position())
                    == pairs_from(start@, base as int, size as int, 0, 1, p_strong, p_weak_intra, old(rng).seed(), old(rng).position()),
            decreases size - j,
        {
            let a = base + i;
            let b = base + j;
            if net.edge_weight(a, b).is_none() {
                let ghost before = *net;
                match draw_pair_tie(rng, p_strong, p_weak_intra) {
                    Some(w) => net.add_edge_weighted(a, b, w),
                    None => {},
                }
                proof {
                    assert(grows_within(&before, net, base as int, base + size, weak_ok));
                    lemma_grows_trans(&start, &before, net, base as int, base + size, weak_ok, weak_ok);
                    assert forall|x: int, y: int|
                        0 <= x < start.size() && 0 <= y < start.size() && #[trigger] start.adjacent(x, y)
                            implies net.weight(x, y) == start.weight(x, y) by {
                        assert(before.weight(x, y) == start.weight(x, y));
                        assert(before.adjacent(x, y));
                    }
                    if p_strong.is_certain() {
                        assert forall|x: int, y: int|
                            base <= x < base + i && base <= y < base + size && x != y implies #[trigger] net.adjacent(x, y) by {
                            assert(before.adjacent(x, y));
                        }
                        assert forall|y: int| base + i < y < base + j + 1 implies #[trigger] net.adjacent(base + i, y) by {
                            if y < base + j {
                                assert(before.adjacent(base + i, y));
                            }
                        }
                    }
                }
            }
            j = j + 1;
        }
        proof {
            if p_strong.is_certain() {
                assert forall|x: int, y: int|
                    base <= x < base + i + 1 && base <= y < base + size && x != y implies #[trigger] net.adjacent(x, y) by {
                    if x == base + i {
                        if y > x {
                            assert(net.adjacent(base + i, y));
                        } else {
                            assert(net.adjacent(y, x));
                        }
                    }
                }
            }
        }
        i = i + 1;
    }
}


/// The tie matrix `m` and the stream position after the bridges between
/// `k` clusters of `size` members are drawn (see `wire_bridges`), from the
/// pair of clusters `a` and `b` on.
pub open spec fn bridges_from(
    m: Seq<Seq<Option<TieStrength>>>,
    k: int,
    size: usize,
    a: int,
    b: int,
    p_bridge: Probability,
    seed: u64,
    pos: nat,
) -> (Seq<Seq<Option<TieStrength>>>, nat)
    decreases k - a, k - b,
{
    if a >= k {
        (m, pos)
    } else if b >= k {
        bridges_from(m, k, size, a + 1, a + 2, p_bridge, seed, pos)
    } else {
        let drawn = bridge_choice(seed, pos, p_bridge, size);
        let next = match drawn.0 {
            Some((ia, ib)) => set_pair(m, a * size + ia, b * size + ib, Some(TieStrength::Weak)),
            None => m,
        };
        bridges_from(next, k, size, a, b + 1, p_bridge, seed, drawn.1)
    }
}

/// Some member of cluster `a` and some member of cluster `b` (clusters of
/// `s` consecutive nodes) are joined by a weak tie.
pub open spec fn clusters_bridged(net: &TieNetwork, s: int, a: int, b: int) -> bool {
    exists|x: int, y: int|
        0 <= x < net.size() && 0 <= y < net.size() && x / s == a && y / s == b && #[trigger] net.weight(x, y)
            == Some(TieStrength::Weak)
}

/// At most one tie joins a member of cluster `a` to a member of cluster `b`.
pub open spec fn single_tie_between(net: &TieNetwork, s: int, a: int, b: int) -> bool {
    forall|x1: int, y1: int, x2: int, y2: int|
        0 <= x1 < net.size() && 0 <= y1 < net.size() && 0 <= x2 < net.size() && 0 <= y2 < net.size() && x1 / s == a
            && y1 / s == b && x2 / s == a && y2 / s == b && #[trigger] net.adjacent(x1, y1) && #[trigger] net.adjacent(
            x2,
            y2,
        ) ==> x1 == x2 && y1 == y2
}

/// No tie joins a member of cluster `a` to a member of cluster `b`.
pub open spec fn no_tie_between(net: &TieNetwork, s: int, a: int, b: int) -> bool {
    forall|x: int, y: int|
        0 <= x < net.size() && 0 <= y < net.size() && x / s == a && y / s == b ==> !#[trigger] net.adjacent(x, y)
}

/// Tying `u` to `v` changes no tie between clusters other than theirs.
proof fn lemma_other_clusters_kept(before: &TieNetwork, after: &TieNetwork, s: int, u: int, v: int, a2: int, b2: int)
    requires
        after.size() == before.size(),
        forall|x: int, y: int|
            0 <= x < before.size() && 0 <= y < before.size() && !((x == u && y == v) || (x == v && y == u))
                ==> #[trigger] after.weight(x, y) == before.weight(x, y),
        u / s < v / s,
        a2 < b2,
        !(a2 == u / s && b2 == v / s),
    ensures
        forall|x: int, y: int|
            0 <= x < before.size() && 0 <= y < before.size() && x / s == a2 && y / s == b2 ==> #[trigger] after.weight(x, y)
                == before.weight(x, y),
        single_tie_between(before, s, a2, b2) ==> single_tie_between(after, s, a2, b2),
        no_tie_between(before, s, a2, b2) ==> no_tie_between(after, s, a2, b2),
{
    assert forall|x: int, y: int|
        0 <= x < before.size() && 0 <= y < before.size() && x / s == a2 && y / s == b2 implies #[trigger] after.weight(x, y)
            == before.weight(x, y) by {
        assert(!((x == u && y == v) || (x == v && y == u)));
    }
    if single_tie_between(before, s, a2, b2) {
        assert forall|x1: int, y1: int, x2: int, y2: int|
            0 <= x1 < after.size() && 0 <= y1 < after.size() && 0 <= x2 < after.size() && 0 <= y2 < after.size() && x1 / s
                == a2 && y1 / s == b2 && x2 / s == a2 && y2 / s == b2 && #[trigger] after.adjacent(x1, y1) && #[trigger] after.adjacent(
                x2,
                y2,
            ) implies x1 == x2 && y1 == y2 by {
            assert(before.adjacent(x1, y1) && before.adjacent(x2, y2));
        }
    }
    if no_tie_between(before, s, a2, b2) {
        assert forall|x: int, y: int|
            0 <= x < after.size() && 0 <= y < after.size() && x / s == a2 && y / s == b2 implies !#[trigger] after.adjacent(x, y) by {
            assert(!before.adjacent(x, y));
        }
    }
}

/// Tying `u` of cluster `a` to `v` of cluster `b` keeps the bridge between
/// any other two clusters `a2 < b2`.
proof fn lemma_bridge_kept(before: &TieNetwork, after: &TieNetwork, s: int, u: int, v: int, a2: int, b2: int)
    requires
        after.size() == before.size(),
        forall|x: int, y: int|
            0 <= x < before.size() && 0 <= y < before.size() && !((x == u && y == v) || (x == v && y == u))
                ==> #[trigger] after.weight(x, y) == before.weight(x, y),
        u / s < v / s,
        a2 < b2,
        !(a2 == u / s && b2 == v / s),
        clusters_bridged(before, s, a2, b2),
    ensures
        clusters_bridged(after, s, a2, b2),
{
    let (x, y) = choose|x: int, y: int|
        0 <= x < before.size() && 0 <= y < before.size() && x / s == a2 && y / s == b2 && #[trigger] before.weight(x, y)
            == Some(TieStrength::Weak);
    assert(after.weight(x, y) == Some(TieStrength::Weak));
}

/// For each pair of clusters, with probability `p_bridge`, one weak tie
/// between a uniformly chosen member of each (replacing any tie the two had).
fn wire_bridges(net: &mut TieNetwork, k: usize, size: usize, p_bridge: Probability, rng: &mut RandomStream)
    requires
        old(net).valid(),
        k * size == old(net).size(),
        size > 0 || k < 2 || p_bridge.is_never(),
        size > 0 ==> forall|x: int, y: int|
            0 <= x < old(net).size() && 0 <= y < old(net).size() && #[trigger] old(net).adjacent(x, y) ==> x / size as int
                == y / size as int,
    ensures
        final(net).valid(),
        final(net).size() == old(net).size(),
        forall|x: int, y: int|
            0 <= x < old(net).size() && 0 <= y < old(net).size() && #[trigger] old(net).adjacent(x, y)
                ==> final(net).adjacent(x, y),
        forall|x: int, y: int|
            0 <= x < old(net).size() && 0 <= y < old(net).size() && x / size as int == y / size as int
                ==> #[trigger] final(net).weight(x, y) == old(net).weight(x, y),
        forall|x: int, y: int|
            0 <= x < old(net).size() && 0 <= y < old(net).size() ==> #[trigger] final(net).weight(x, y)
                == old(net).weight(x, y) || final(net).weight(x, y) == Some(TieStrength::Weak),
        p_bridge.is_never() ==> final(net).same_as(old(net)),
        // with certain bridges, every two clusters are joined by a weak tie
        p_bridge.is_certain() ==> forall|a: int, b: int|
            0 <= a < b < k ==> #[trigger] clusters_bridged(final(net), size as int, a, b),
        // at most one tie joins any two clusters
        size > 0 ==> forall|a: int, b: int|
            0 <= a < b ==> #[trigger] single_tie_between(final(net), size as int, a, b),
        (final(net)@, final(rng).position()) == bridges_from(
            old(net)@,
            k as int,
            size,
            0,
            1,
            p_bridge,
            old(rng).seed(),
            old(rng).position(),
        ),
        final(rng).seed() == old(rng).seed(),
{
    let ghost start = *net;
    let ghost n = start.size();
    proof {
        if size > 0 {
            let sz = size as int;
            assert forall|a2: int, b2: int| 0 <= a2 < b2 implies #[trigger] no_tie_between(net, sz, a2, b2) by {
                assert forall|x: int, y: int| 0 <= x < n && 0 <= y < n && x / sz == a2 && y / sz == b2 implies !#[trigger] net.adjacent(
                    x,
                    y,
                ) by {
                    if net.adjacent(x, y) {
                        assert(x / sz == y / sz);
                    }
                }
            }
            assert forall|a2: int, b2: int| 0 <= a2 < b2 implies #[trigger] single_tie_between(net, sz, a2, b2) by {
                assert(no_tie_between(net, sz, a2, b2));
            }
        }
    }
    let mut a: usize = 0;
    while a < k
        invariant
            net.valid(),
            start.valid(),
            n == start.size(),
            net.size() == n,
            k * size == n,
            size > 0 || k < 2 || p_bridge.is_never(),
            a <= k,
            forall|x: int, y: int|
                0 <= x < n && 0 <= y < n && #[trigger] start.adjacent(x, y) ==> net.adjacent(x, y),
            forall|x: int, y: int|
                0 <= x < n && 0 <= y < n && x / size as int == y / size as int ==> #[trigger] net.weight(x, y)
                    == start.weight(x, y),
            forall|x: int, y: int|
                0 <= x < n && 0 <= y < n ==> #[trigger] net.weight(x, y) == start.weight(x, y) || net.weight(
                    x,
                    y,
                ) == Some(TieStrength::Weak),
            p_bridge.is_never() ==> net.same_as(&start),
            p_bridge.is_certain() ==> forall|a2: int, b2: int|
                0 <= a2 < b2 < k && a2 < a ==> #[trigger] clusters_bridged(net, size as int, a2, b2),
            size > 0 ==> forall|a2: int, b2: int|
                0 <= a2 < b2 ==> #[trigger] single_tie_between(net, size as int, a2, b2),
            size > 0 ==> forall|a2: int, b2: int|
                0 <= a2 < b2 && a2 >= a ==> #[trigger] no_tie_between(net, size as int, a2, b2),
            rng.seed() == old(rng).seed(),
            bridges_from(net@, k as int, size, a as int, a + 1, p_bridge, old(rng).seed(), rng.position())
                == bridges_from(start@, k as int, size, 0, 1, p_bridge, old(rng).seed(), old(rng).position()),
        decreases k - a,
    {
        let mut b: usize = a + 1;
        while b < k
            invariant
                net.valid(),
                start.valid(),
                n == start.size(),
                net.size() == n,
                k * size == n,
                size > 0 || k < 2 || p_bridge.is_never(),
                a < k,
                a < b <= k,
                forall|x: int, y: int|
                    0 <= x < n && 0 <= y < n && #[trigger] start.adjacent(x, y) ==> net.adjacent(x, y),
                forall|x: int, y: int|
                    0 <= x < n && 0 <= y < n && x / size as int == y / size as int ==> #[trigger] net.weight(
                        x,
                        y,
                    ) == start.weight(x, y),
                forall|x: int, y: int|
                    0 <= x < n && 0 <= y < n ==> #[trigger] net.weight(x, y) == start.weight(x, y)
                        || net.weight(x, y) == Some(TieStrength::Weak),
                p_bridge.is_never() ==> net.same_as(&start),
                p_bridge.is_certain() ==> forall|a2: int, b2: int|
                    0 <= a2 < b2 < k && (a2 < a || (a2 == a && b2 < b)) ==> #[trigger] clusters_bridged(
                        net,
                        size as int,
                        a2,
                        b2,
                    ),
                size > 0 ==> forall|a2: int, b2: int|
                    0 <= a2 < b2 ==> #[trigger] single_tie_between(net, size as int, a2, b2),
                size > 0 ==> forall|a2: int, b2: int|
                    0 <= a2 < b2 && (a2 > a || (a2 == a && b2 >= b)) ==> #[trigger] no_tie_between(
                        net,
                        size as int,
                        a2,
                        b2,
                    ),
                rng.seed() == old(rng).seed(),
                bridges_from(net@, k as int, size, a as int, b as int, p_bridge, old(rng).seed(), rng.position())
                    == bridges_from(start@, k as int, size, 0, 1, p_bridge, old(rng).seed(), old(rng).position()),
            decreases k - b,
        {
            if let Some((ia, ib)) = draw_bridge(rng, p_bridge, size) {
                proof {
                    lemma_block_fits(a as int, k as int, size as int);
                    lemma_block_fits(b as int, k as int, size as int);
                    lemma_block(a * size + ia, a as int, size as int);
                    lemma_block(b * size + ib, b as int, size as int);
                }
                let u = a * size + ia;
                let v = b * size + ib;
                let ghost before = *net;
                net.add_edge_weighted(u, v, TieStrength::Weak);
                proof {
                    assert forall|x: int, y: int|
                        0 <= x < n && 0 <= y < n && #[trigger] start.adjacent(x, y) implies net.adjacent(x, y) by {
                        assert(before.adjacent(x, y));
                    }
                    assert forall|x: int, y: int|
                        0 <= x < n && 0 <= y < n && x / size as int == y / size as int implies #[trigger] net.weight(
                            x,
                            y,
                        ) == start.weight(x, y) by {
                        assert(before.weight(x, y) == start.weight(x, y));
                    }
                    assert forall|x: int, y: int|
                        0 <= x < n && 0 <= y < n implies #[trigger] net.weight(x, y) == start.weight(x, y)
                            || net.weight(x, y) == Some(TieStrength::Weak) by {
                        assert(before.weight(x, y) == start.weight(x, y) || before.weight(x, y) == Some(TieStrength::Weak));
                    }
                    let sz = size as int;
                    assert(u as int / sz == a && v as int / sz == b);
                    assert forall|a2: int, b2: int| 0 <= a2 < b2 implies #[trigger] single_tie_between(net, sz, a2, b2) by {
                        if a2 == a && b2 == b {
                            assert(no_tie_between(&before, sz, a2, b2));
                            assert forall|x1: int, y1: int, x2: int, y2: int|
                                0 <= x1 < net.size() && 0 <= y1 < net.size() && 0 <= x2 < net.size() && 0 <= y2 < net.size()
                                    && x1 / sz == a2 && y1 / sz == b2 && x2 / sz == a2 && y2 / sz == b2 && #[trigger] net.adjacent(
                                    x1,
                                    y1,
                                ) && #[trigger] net.adjacent(x2, y2) implies x1 == x2 && y1 == y2 by {
                                if !(x1 == u && y1 == v) {
                                    assert(!before.adjacent(x1, y1));
                                }
                                if !(x2 == u && y2 == v) {
                                    assert(!before.adjacent(x2, y2));
                                }
                            }
                        } else {
                            lemma_other_clusters_kept(&before, net, sz, u as int, v as int, a2, b2);
                        }
                    }
                    assert forall|a2: int, b2: int|
                        0 <= a2 < b2 && (a2 > a || (a2 == a && b2 >= b + 1)) implies #[trigger] no_tie_between(net, sz, a2, b2) by {
                        lemma_other_clusters_kept(&before, net, sz, u as int, v as int, a2, b2);
                    }
                    if p_bridge.is_certain() {
                        assert(clusters_bridged(net, sz, a as int, b as int)) by {
                            assert(net.weight(u as int, v as int) == Some(TieStrength::Weak));
                        }
                        assert forall|a2: int, b2: int|
                            0 <= a2 < b2 < k && (a2 < a || (a2 == a && b2 < b + 1)) implies #[trigger] clusters_bridged(
                                net,
                                sz,
                                a2,
                                b2,
                            ) by {
                            if !(a2 == a && b2 == b) {
                                lemma_bridge_kept(&before, net, sz, u as int, v as int, a2, b2);
                            }
                        }
                    }
                }
            }
            b = b + 1;
        }
        a = a + 1;
    }
}

/// Wiring cluster `c` keeps the rings of the clusters before it closed,
/// and closes its own.
proof fn lemma_rings_kept(
    at_start: &TieNetwork,
    after_ring: &TieNetwork,
    after_pairs: &TieNetwork,
    net: &TieNetwork,
    base: int,
    sz: int,
    c: int,
    weak_ok: bool,
)
    requires
        sz >= 3,
        c >= 0,
        base == c * sz,
        base + sz <= at_start.size(),
        forall|c2: int| 0 <= c2 < c ==> #[trigger] ring_closed(at_start, sz, c2),
        grows_within(at_start, after_ring, base, base + sz, false),
        grows_within(at_start, after_pairs, base, base + sz, weak_ok),
        grows_within(after_pairs, net, base, base + sz, false),
        after_ring.weight(base + sz - 1, base) == Some(TieStrength::Strong),
        forall|x: int, y: int|
            0 <= x < after_ring.size() && 0 <= y < after_ring.size() && #[trigger] after_ring.adjacent(x, y)
                ==> after_pairs.weight(x, y) == after_ring.weight(x, y),
    ensures
        forall|c2: int| 0 <= c2 <= c ==> #[trigger] ring_closed(net, sz, c2),
{
    assert forall|c2: int| 0 <= c2 <= c implies #[trigger] ring_closed(net, sz, c2) by {
        if c2 < c {
            lemma_block_fits(c2, c, sz);
            assert(c2 * sz >= 0) by (nonlinear_arith)
                requires
                    c2 >= 0,
                    sz >= 0,
            ;
            assert(ring_closed(at_start, sz, c2));
            assert(after_pairs.weight(c2 * sz + sz - 1, c2 * sz) == at_start.weight(c2 * sz + sz - 1, c2 * sz));
        } else {
            assert(after_ring.adjacent(base + sz - 1, base));
            assert(after_pairs.weight(base + sz - 1, base) == Some(TieStrength::Strong));
        }
    }
}

/// A generated network and the cluster of each of its nodes.
pub struct GeneratedNetwork {
    pub net: TieNetwork,
    pub cluster_of: Vec<usize>,
}

/// Generates a weak-tie bridging network from the settings and a random
/// stream. Cluster `c` is the nodes `c * cluster_size .. (c + 1) *
/// cluster_size`. Inside a cluster: a strong ring, then each untied pair
/// strong with probability `p_strong` (or else weak with probability
/// `p_weak_intra`), then the triangle closure. Between two clusters: one
/// weak tie with probability `p_bridge`.
pub fn generate(cfg: &Config, rng: &mut RandomStream) -> (g: GeneratedNetwork)
    requires
        cfg.clusters * cfg.cluster_size <= usize::MAX,
        cfg.cluster_size > 0 || cfg.clusters < 2 || cfg.p_bridge.is_never(),
    ensures
        generated(cfg, &g.net, g.cluster_of@),
        // the network is fixed by the settings and the stream
        (g.net@, final(rng).position()) == generated_from(cfg, old(rng).seed(), old(rng).position()),
        final(rng).seed() == old(rng).seed(),
{
    generate_observed(cfg, rng, |_cluster: usize| {})
}

/// The same, calling `on_cluster` with the index of each cluster once it is
/// wired (wiring a cluster is where the cost of a run lies, so this is where
/// a caller counts its progress).
#[verifier::spinoff_prover]
pub fn generate_observed<F: FnMut(usize)>(cfg: &Config, rng: &mut RandomStream, mut on_cluster: F) -> (g: GeneratedNetwork)
    requires
        cfg.clusters * cfg.cluster_size <= usize::MAX,
        cfg.cluster_size > 0 || cfg.clusters < 2 || cfg.p_bridge.is_never(),
        forall|i: usize| call_requires(on_cluster, (i,)),
    ensures
        generated(cfg, &g.net, g.cluster_of@),
        // the network is fixed by the settings and the stream
        (g.net@, final(rng).position()) == generated_from(cfg, old(rng).seed(), old(rng).position()),
        final(rng).seed() == old(rng).seed(),
{
    let k = cfg.clusters;
    let size = cfg.cluster_size;
    let n = k * size;
    let mut net = TieNetwork::with_nodes(n);
    let mut cluster_of: Vec<usize> = Vec::new();
    let mut c: usize = 0;
    let mut base: usize = 0;
    while c < k
        invariant
            n == k * size,
            c <= k,
            base == c * size,
            cluster_of@.len() == base,
            forall|v: int| 0 <= v < base ==> #[trigger] cluster_of@[v] == v / size as int,
        decreases k - c,
    {
        proof {
            lemma_block_fits(c as int, k as int, size as int);
        }
        let mut j: usize = 0;
        while j < size
            invariant
                n == k * size,
                c < k,
                base == c * size,
                base + size <= n,
                j <= size,
                cluster_of@.len() == base + j,
                forall|v: int| 0 <= v < base + j ==> #[trigger] cluster_of@[v] == v / size as int,
            decreases size - j,
        {
            proof {
                lemma_block(base + j, c as int, size as int);
            }
            cluster_of.push(c);
            j = j + 1;
        }
        base = base + size;
        c = c + 1;
    }
    let ghost weak_ok = !cfg.p_weak_intra.is_never();
    proof {
        assert(net@ =~~= blank_matrix(n as nat)) by {
            assert forall|i: int| 0 <= i < n implies net@[i] =~= blank_matrix(n as nat)[i] by {
                assert forall|j: int| 0 <= j < n implies net@[i][j] == blank_matrix(n as nat)[i][j] by {
                    assert(net.weight(i, j) is None);
                }
            }
        }
    }
    let mut c: usize = 0;
    let mut base: usize = 0;
    while c < k
        invariant
            n == k * size,
            c <= k,
            base == c * size,
            base <= n,
            net.valid(),
            net.size() == n,
            weak_ok == !cfg.p_weak_intra.is_never(),
            forall|x: int, y: int|
                0 <= x < n && 0 <= y < n && #[trigger] net.adjacent(x, y) ==> x < base && y < base && x / size as int
                    == y / size as int,
            !weak_ok ==> forall|x: int, y: int|
                0 <= x < n && 0 <= y < n && #[trigger] net.adjacent(x, y) ==> net.weight(x, y) == Some(
                    TieStrength::Strong),
            size >= 3 ==> strong_ties_closed(&net, 0, base as int),
            forall|x: int|
                0 <= x && x + 1 < base && x / size as int == (x + 1) / size as int ==> #[trigger] net.weight(x, x + 1)
                    == Some(TieStrength::Strong),
            cfg.p_strong.is_certain() ==> forall|x: int, y: int|
                0 <= x < base && 0 <= y < base && x != y && x / size as int == y / size as int ==> #[trigger] net.adjacent(x, y),
            size >= 3 ==> forall|c2: int| 0 <= c2 < c ==> #[trigger] ring_closed(&net, size as int, c2),
            forall|i: usize| call_requires(on_cluster, (i,)),
            k == cfg.clusters,
            size == cfg.cluster_size,
            rng.seed() == old(rng).seed(),
            clusters_from(cfg, net@, c as int, old(rng).seed(), rng.position())
                == clusters_from(cfg, blank_matrix(n as nat), 0, old(rng).seed(), old(rng).position()),
        decreases k - c,
    {
        proof {
            lemma_block_fits(c as int, k as int, size as int);
        }
        let ghost at_start = net;
        wire_ring(&mut net, base, size);
        let ghost after_ring = net;
        wire_pairs(&mut net, base, size, cfg.p_strong, cfg.p_weak_intra, rng);
        let ghost after_pairs = net;
        proof {
            lemma_grows_trans(&at_start, &after_ring, &after_pairs, base as int, base + size, false, weak_ok);
        }
        if size >= 3 {
            close_triangles(&mut net, base, base + size);
            proof {
                lemma_grows_trans(&at_start, &after_pairs, &net, base as int, base + size, weak_ok, false);
                lemma_rings_kept(&at_start, &after_ring, &after_pairs, &net, base as int, size as int, c as int, weak_ok);
            }
        }
        proof {
            assert(n > 0 ==> size > 0) by (nonlinear_arith)
                requires
                    n == k * size,
            ;
            assert(grows_within(&at_start, &net, base as int, base + size, weak_ok));
            assert forall|x: int, y: int|
                0 <= x < n && 0 <= y < n && #[trigger] net.adjacent(x, y) implies x < base + size && y < base + size
                    && x / size as int == y / size as int by {
                lemma_block(x, c as int, size as int);
                lemma_block(y, c as int, size as int);
                if !at_start.adjacent(x, y) {
                    assert(base <= x < base + size && base <= y < base + size);
                }
            }
            if !weak_ok {
                assert forall|x: int, y: int|
                    0 <= x < n && 0 <= y < n && #[trigger] net.adjacent(x, y) implies net.weight(x, y) == Some(
                        TieStrength::Strong) by {
                    assert(net.weight(x, y) == at_start.weight(x, y) || net.weight(x, y) == Some(TieStrength::Strong));
                    if net.weight(x, y) == at_start.weight(x, y) {
                        assert(at_start.adjacent(x, y));
                    }
                }
            }
            if size >= 3 {
                assert forall|x: int, y: int|
                    0 <= x < base + size && 0 <= y < base + size && #[trigger] net.weight(x, y) == Some(TieStrength::Strong)
                        implies net.share_neighbor(x, y) by {
                    if base <= x && base <= y {
                        assert(strong_ties_closed(&net, base as int, base + size));
                    } else {
                        lemma_block(x, c as int, size as int);
                        lemma_block(y, c as int, size as int);
                        assert(net.weight(x, y) == at_start.weight(x, y));
                        assert(at_start.adjacent(x, y));
                        assert(at_start.share_neighbor(x, y));
                        let w = choose|w: int| 0 <= w < n && at_start.adjacent(x, w) && at_start.adjacent(y, w);
                        assert(net.adjacent(x, w) && net.adjacent(y, w));
                    }
                }
            }
            assert forall|x: int|
                0 <= x && x + 1 < base + size && x / size as int == (x + 1) / size as int implies #[trigger] net.weight(x, x + 1)
                    == Some(TieStrength::Strong) by {
                lemma_block(x, c as int, size as int);
                lemma_block(x + 1, c as int, size as int);
                if x + 1 < base {
                    assert(at_start.weight(x, x + 1) == Some(TieStrength::Strong));
                    assert(at_start.adjacent(x, x + 1));
                } else {
                    let i = x - base;
                    assert(after_ring.weight(base + i, base + i + 1) == Some(TieStrength::Strong));
                    assert(after_ring.adjacent(x, x + 1));
                    assert(net.weight(x, x + 1) == after_ring.weight(x, x + 1) || net.weight(x, x + 1) == Some(TieStrength::Strong)) by {
                        if size >= 3 {
                            assert(after_pairs.weight(x, x + 1) == after_ring.weight(x, x + 1));
                            assert(after_pairs.adjacent(x, x + 1));
                        } else {
                            assert(after_pairs.weight(x, x + 1) == after_ring.weight(x, x + 1));
                        }
                    }
                }
            }
            if cfg.p_strong.is_certain() {
                assert forall|x: int, y: int|
                    0 <= x < base + size && 0 <= y < base + size && x != y && x / size as int == y / size as int implies #[trigger] net.adjacent(x, y) by {
                    lemma_block(x, c as int, size as int);
                    lemma_block(y, c as int, size as int);
                    if x < base || y < base {
                        assert(at_start.adjacent(x, y));
                    } else {
                        assert(after_pairs.adjacent(x, y));
                    }
                }
            }
        }
        on_cluster(c);
        base = base + size;
        c = c + 1;
    }
    let ghost clustered = net;
    wire_bridges(&mut net, k, size, cfg.p_bridge, rng);
    let g = GeneratedNetwork { net, cluster_of };
    proof {
        assert forall|x: int, y: int|
            0 <= x < n && 0 <= y < n && #[trigger] g.net.adjacent(x, y) && x / size as int != y / size as int
                implies g.net.weight(x, y) == Some(TieStrength::Weak) by {
            assert(!clustered.adjacent(x, y));
        }
        if size >= 3 {
            assert forall|x: int, y: int|
                0 <= x < n && 0 <= y < n && #[trigger] g.net.weight(x, y) == Some(TieStrength::Strong)
                    implies g.net.share_neighbor(x, y) by {
                if x / size as int != y / size as int {
                    assert(!clustered.adjacent(x, y));
                } else {
                    assert(clustered.weight(x, y) == Some(TieStrength::Strong));
                    let w = choose|w: int| 0 <= w < n && clustered.adjacent(x, w) && clustered.adjacent(y, w);
                    assert(g.net.adjacent(x, w) && g.net.adjacent(y, w));
                }
            }
        }
        assert forall|x: int, y: int|
            0 <= x < n && 0 <= y < n && #[trigger] g.net.adjacent(x, y) && x / size as int == y / size as int && !weak_ok
                implies g.net.weight(x, y) == Some(TieStrength::Strong) by {
            assert(clustered.adjacent(x, y));
        }
        assert forall|x: int|
            0 <= x && x + 1 < n && x / size as int == (x + 1) / size as int implies #[trigger] g.net.weight(x, x + 1)
                == Some(TieStrength::Strong) by {
            assert(clustered.weight(x, x + 1) == Some(TieStrength::Strong));
        }
        if cfg.p_strong.is_certain() {
            assert forall|x: int, y: int|
                0 <= x < n && 0 <= y < n && x != y && x / size as int == y / size as int implies #[trigger] g.net.weight(x, y)
                    == Some(TieStrength::Strong) || (weak_ok && g.net.weight(x, y) == Some(TieStrength::Weak)) by {
                assert(clustered.adjacent(x, y));
            }
        }
        if size >= 3 {
            let sz = size as int;
            assert forall|c2: int| 0 <= c2 < k implies #[trigger] ring_closed(&g.net, sz, c2) by {
                assert(ring_closed(&clustered, sz, c2));
                lemma_block_fits(c2, k as int, sz);
                lemma_block(c2 * sz + sz - 1, c2, sz);
                lemma_block(c2 * sz, c2, sz);
                assert(c2 * sz >= 0) by (nonlinear_arith)
                    requires
                        c2 >= 0,
                        sz >= 0,
                ;
            }
        }
        if cfg.p_bridge.is_never() {
            assert forall|x: int, y: int|
                0 <= x < n && 0 <= y < n && #[trigger] g.net.adjacent(x, y) implies x / size as int == y / size as int by {
                assert(g.net.weight(x, y) == clustered.weight(x, y));
                assert(clustered.adjacent(x, y));
            }
        }
    }
    g
}

/// The tie matrix and the stream position after the clusters of `cfg` from
/// the `c`-th on are wired, one after the other: the ring, the untied
/// pairs, and, with three or more members, the triangle closure.
pub open spec fn clusters_from(cfg: &Config, m: Seq<Seq<Option<TieStrength>>>, c: int, seed: u64, pos: nat) -> (Seq<Seq<Option<TieStrength>>>, nat)
    decreases cfg.clusters - c,
{
    if c < 0 || c >= cfg.clusters {
        (m, pos)
    } else {
        let size = cfg.cluster_size as int;
        let base = c * size;
        let paired = pairs_from(ring_from(m, base, size, 0), base, size, 0, 1, cfg.p_strong, cfg.p_weak_intra, seed, pos);
        let wired = if size >= 3 {
            closure(paired.0, base, base + size)
        } else {
            paired.0
        };
        clusters_from(cfg, wired, c + 1, seed, paired.1)
    }
}

/// The tie matrix without ties on `n` nodes.
pub open spec fn blank_matrix(n: nat) -> Seq<Seq<Option<TieStrength>>> {
    Seq::new(n, |i: int| Seq::new(n, |j: int| None::<TieStrength>))
}

/// The tie matrix `generate` builds for `cfg` from the stream seeded `seed`
/// at `pos`, and the stream position after it: the clusters, then the
/// bridges.
pub open spec fn generated_from(cfg: &Config, seed: u64, pos: nat) -> (Seq<Seq<Option<TieStrength>>>, nat) {
    let clustered = clusters_from(cfg, blank_matrix((cfg.clusters * cfg.cluster_size) as nat), 0, seed, pos);
    bridges_from(clustered.0, cfg.clusters as int, cfg.cluster_size, 0, 1, cfg.p_bridge, seed, clustered.1)
}

/// The ring of cluster `c` (clusters of `s` consecutive nodes) is closed:
/// its last member is strongly tied to its first.
pub open spec fn ring_closed(net: &TieNetwork, s: int, c: int) -> bool {
    net.weight(c * s + s - 1, c * s) == Some(TieStrength::Strong)
}

/// What `generate` promises of its result for the settings `cfg`.
pub open spec fn generated(cfg: &Config, net: &TieNetwork, cluster_of: Seq<usize>) -> bool {
    let n = cfg.clusters * cfg.cluster_size;
    let s = cfg.cluster_size as int;
    &&& net.valid()
    &&& net.size() == n
    &&& cluster_of.len() == n
    // node `v` is in cluster `v / cluster_size`
    &&& forall|v: int| 0 <= v < n ==> #[trigger] cluster_of[v] == v / s
    // every tie between two clusters is weak
    &&& forall|x: int, y: int|
        0 <= x < n && 0 <= y < n && #[trigger] net.adjacent(x, y) && x / s != y / s
            ==> net.weight(x, y) == Some(TieStrength::Weak)
    // without weak ties inside clusters, every tie inside a cluster is strong
    &&& cfg.p_weak_intra.is_never() ==> forall|x: int, y: int|
        0 <= x < n && 0 <= y < n && #[trigger] net.adjacent(x, y) && x / s == y / s
            ==> net.weight(x, y) == Some(TieStrength::Strong)
    // with three or more members per cluster, every strong tie lies in a triangle
    &&& s >= 3 ==> forall|x: int, y: int|
        0 <= x < n && 0 <= y < n && #[trigger] net.weight(x, y) == Some(TieStrength::Strong)
            ==> net.share_neighbor(x, y)
    // consecutive members of a cluster are strongly tied
    &&& forall|x: int|
        0 <= x && x + 1 < n && x / s == (x + 1) / s ==> #[trigger] net.weight(x, x + 1)
            == Some(TieStrength::Strong)
    // ... and with three or more members, the last of each cluster to the first
    &&& s >= 3 ==> forall|c: int| 0 <= c < cfg.clusters ==> #[trigger] ring_closed(net, s, c)
    // with a certain strong tie, each cluster is a clique
    &&& cfg.p_strong.is_certain() ==> forall|x: int, y: int|
        0 <= x < n && 0 <= y < n && x != y && x / s == y / s ==> #[trigger] net.weight(x, y)
            == Some(TieStrength::Strong) || (!cfg.p_weak_intra.is_never() && net.weight(x, y) == Some(TieStrength::Weak))
    // without bridges, no tie leaves a cluster
    &&& cfg.p_bridge.is_never() ==> forall|x: int, y: int|
        0 <= x < n && 0 <= y < n && #[trigger] net.adjacent(x, y) ==> x / s == y / s
    // at most one tie joins any two clusters ...
    &&& s > 0 ==> forall|a: int, b: int| 0 <= a < b ==> #[trigger] single_tie_between(net, s, a, b)
    // ... and with certain bridges, exactly one: a weak tie
    &&& cfg.p_bridge.is_certain() ==> forall|a: int, b: int|
        0 <= a < b < cfg.clusters ==> #[trigger] clusters_bridged(net, s, a, b)
}

} // verus!
