//! Run settings: the diffusion model, the ablation policy and the
//! parameters of one run.
use vstd::prelude::*;
use vstd::arithmetic::power2::pow2;
use crate::text::{all_ascii, ascii_lowered, lowercase_of, same_text, to_lowercase, trim_white_space, trimmed};

verus! {

/// The diffusion process.
#[derive(Debug, Clone, Copy, PartialEq, Eq, Structural)]
pub enum DiffusionModel {
    /// Susceptible-infected contact: every informed neighbour informs an
    /// uninformed node with probability `beta`.
    Si,
    /// Threshold cascade (Granovetter 1978): an uninformed node becomes
    /// informed once the informed share of its neighbours reaches `theta`.
    Threshold,
}

impl DiffusionModel {
    pub open spec fn label_text(self) -> Seq<char> {
        match self {
            DiffusionModel::Si => "si"@,
            DiffusionModel::Threshold => "threshold"@,
        }
    }

    pub fn label(&self) -> (r: &'static str)
        ensures
            r@ == self.label_text(),
    {
        match self {
            DiffusionModel::Si => "si",
            DiffusionModel::Threshold => "threshold",
        }
    }
}

/// The key a user's text is matched on: trimmed, then lower-cased.
pub open spec fn normalized(s: Seq<char>) -> Seq<char> {
    lowercase_of(trimmed(s))
}

/// The key of a text that is ASCII once trimmed: trimmed, then with
/// `A`-`Z` mapped to `a`-`z`.
pub open spec fn ascii_key(s: Seq<char>) -> Seq<char> {
    ascii_lowered(trimmed(s))
}

/// The message that rejects an unknown diffusion model.
pub open spec fn diffusion_error_text(s: Seq<char>) -> Seq<char> {
    "不正な拡散モデル: \""@ + s + "\" (si / threshold のみ対応)"@
}

/// Reads a diffusion model from its already normalized key `key`; `text`
/// is the user's text, quoted in the error.
pub fn diffusion_from_key(text: &str, key: &str) -> (r: Result<DiffusionModel, String>)
    ensures
        (r == Ok::<DiffusionModel, String>(DiffusionModel::Si)) <==> key@ == "si"@,
        (r == Ok::<DiffusionModel, String>(DiffusionModel::Threshold)) <==> (key@ == "threshold"@
            || key@ == "thr"@),
        r is Err <==> !(key@ == "si"@ || key@ == "threshold"@ || key@ == "thr"@),
        r matches Err(e) ==> e@ == diffusion_error_text(text@),
{
    proof {
        reveal_strlit("si");
        reveal_strlit("threshold");
        reveal_strlit("thr");
        assert("si"@.len() == 2);
        assert("thr"@.len() == 3);
        assert("threshold"@.len() == 9);
    }
    if same_text(key, "si") {
        Ok(DiffusionModel::Si)
    } else if same_text(key, "threshold") || same_text(key, "thr") {
        Ok(DiffusionModel::Threshold)
    } else {
        let mut e = String::from_str("不正な拡散モデル: \"");
        e.append(text);
        e.append("\" (si / threshold のみ対応)");
        Err(e)
    }
}

/// Reads a diffusion model (`si`, `threshold` or `thr`, in any case, with
/// white space around it allowed).
pub fn parse_diffusion(s: &str) -> (r: Result<DiffusionModel, String>)
    ensures
        (r == Ok::<DiffusionModel, String>(DiffusionModel::Si)) <==> normalized(s@) == "si"@,
        (r == Ok::<DiffusionModel, String>(DiffusionModel::Threshold)) <==> (normalized(s@)
            == "threshold"@ || normalized(s@) == "thr"@),
        r is Err <==> !(normalized(s@) == "si"@ || normalized(s@) == "threshold"@ || normalized(s@)
            == "thr"@),
        r matches Err(e) ==> e@ == diffusion_error_text(s@),
        all_ascii(trimmed(s@)) ==> ((r == Ok::<DiffusionModel, String>(DiffusionModel::Si)) <==> ascii_key(s@) == "si"@),
        all_ascii(trimmed(s@)) ==> ((r == Ok::<DiffusionModel, String>(DiffusionModel::Threshold)) <==> (
            ascii_key(s@) == "threshold"@ || ascii_key(s@) == "thr"@)),
{
    let t = trim_white_space(s);
    let key = to_lowercase(t);
    diffusion_from_key(s, key.as_str())
}

/// What an ablation removes.
#[derive(Debug, Clone, Copy, PartialEq, Eq, Structural)]
pub enum RemovePolicy {
    /// Nothing (the baseline).
    Baseline,
    /// Every weak tie.
    Weak,
    /// Every strong tie.
    Strong,
    /// As many ties as there are weak ties, chosen at random (the control).
    Random,
}

impl RemovePolicy {
    pub open spec fn label_text(self) -> Seq<char> {
        match self {
            RemovePolicy::Baseline => "none"@,
            RemovePolicy::Weak => "weak"@,
            RemovePolicy::Strong => "strong"@,
            RemovePolicy::Random => "random"@,
        }
    }

    pub fn label(&self) -> (r: &'static str)
        ensures
            r@ == self.label_text(),
    {
        match self {
            RemovePolicy::Baseline => "none",
            RemovePolicy::Weak => "weak",
            RemovePolicy::Strong => "strong",
            RemovePolicy::Random => "random",
        }
    }
}

/// The message that rejects an unknown ablation policy.
pub open spec fn remove_error_text(s: Seq<char>) -> Seq<char> {
    "不正な除去対象: \""@ + s + "\" (none / weak / strong / random のみ対応)"@
}

/// The policy whose key is `key`, if any.
pub open spec fn remove_policy_of_key(key: Seq<char>) -> Option<RemovePolicy> {
    if key == "none"@ {
        Some(RemovePolicy::Baseline)
    } else if key == "weak"@ {
        Some(RemovePolicy::Weak)
    } else if key == "strong"@ {
        Some(RemovePolicy::Strong)
    } else if key == "random"@ {
        Some(RemovePolicy::Random)
    } else {
        None
    }
}

/// Reads an ablation policy from its already normalized key `key`; `text`
/// is the user's text, quoted in the error.
pub fn remove_from_key(text: &str, key: &str) -> (r: Result<RemovePolicy, String>)
    ensures
        r matches Ok(p) ==> remove_policy_of_key(key@) == Some(p),
        r is Err <==> remove_policy_of_key(key@) is None,
        r matches Err(e) ==> e@ == remove_error_text(text@),
{
    if same_text(key, "none") {
        Ok(RemovePolicy::Baseline)
    } else if same_text(key, "weak") {
        Ok(RemovePolicy::Weak)
    } else if same_text(key, "strong") {
        Ok(RemovePolicy::Strong)
    } else if same_text(key, "random") {
        Ok(RemovePolicy::Random)
    } else {
        let mut e = String::from_str("不正な除去対象: \"");
        e.append(text);
        e.append("\" (none / weak / strong / random のみ対応)");
        Err(e)
    }
}

/// Reads an ablation policy (`none`, `weak`, `strong` or `random`, in any
/// case, with white space around it allowed).
pub fn parse_remove(s: &str) -> (r: Result<RemovePolicy, String>)
    ensures
        r matches Ok(p) ==> remove_policy_of_key(normalized(s@)) == Some(p),
        r is Err <==> remove_policy_of_key(normalized(s@)) is None,
        r matches Err(e) ==> e@ == remove_error_text(s@),
        all_ascii(trimmed(s@)) ==> (r matches Ok(p) ==> remove_policy_of_key(ascii_key(s@)) == Some(p)),
        all_ascii(trimmed(s@)) ==> (r is Err <==> remove_policy_of_key(ascii_key(s@)) is None),
{
    let t = trim_white_space(s);
    let key = to_lowercase(t);
    remove_from_key(s, key.as_str())
}

/// One in 2^53: the resolution of a probability.
pub const PROBABILITY_ONE: u64 = 0x20_0000_0000_0000;

/// A probability `threshold / 2^53`. A draw of a random 64-bit word
/// succeeds when its 53 high bits, read as a number, are below `threshold`;
/// this is the event `u < p` for the uniform `u` in `[0, 1)` built from the
/// same word. `0` never succeeds; `PROBABILITY_ONE` or more always does.
#[derive(Debug, Clone, Copy, PartialEq, Eq, Structural)]
pub struct Probability {
    pub threshold: u64,
}

impl Probability {
    pub open spec fn is_never(self) -> bool {
        self.threshold == 0
    }

    pub open spec fn is_certain(self) -> bool {
        self.threshold >= PROBABILITY_ONE
    }
}

/// A non-negative ratio `num / den`, with `den > 0`.
#[derive(Debug, Clone, Copy, PartialEq, Eq, Structural)]
pub struct Ratio {
    pub num: u64,
    pub den: u64,
}

impl Ratio {
    /// `part / whole >= num / den`, for `whole > 0`.
    pub open spec fn reached_by(self, part: int, whole: int) -> bool {
        part * self.den >= self.num * whole
    }
}

/// For the double `p` with the bits `bits`, the threshold of a draw that
/// succeeds when a uniform double `u` in `[0, 1)` made of 53 random bits is
/// below `p`: `u < p` exactly when those bits, read as a number, are below
/// `ceil(p * 2^53)`. NaN and `p <= 0` never succeed; `p >= 1` always does.
pub open spec fn draw_boundary(bits: u64) -> u64 {
    let e = double_exponent(bits);
    let f = double_fraction(bits);
    let m = if e == 0 { f } else { f + 0x10_0000_0000_0000 };
    let s = if e == 0 { 1021 } else { 1022 - e };
    if e == 0x7ff && f != 0 {
        0
    } else if (bits >> 63u64) == 1 || (e == 0 && f == 0) {
        0
    } else if e >= 1023 {
        PROBABILITY_ONE
    } else {
        let q = pow2(s as nat) as int;
        ((m + q - 1) / q) as u64
    }
}

/// The probability of the double `p` given by its bits (see
/// `draw_boundary`).
pub fn draw_threshold(bits: u64) -> (r: Probability)
    ensures
        r.threshold == draw_boundary(bits),
        r.threshold <= PROBABILITY_ONE,
{
    let e = (bits >> 52u64) & 0x7ffu64;
    let f = bits & 0xf_ffff_ffff_ffffu64;
    if e == 0x7ff && f != 0 {
        return Probability { threshold: 0 };
    }
    if (bits >> 63u64) == 1 || (e == 0 && f == 0) {
        return Probability { threshold: 0 };
    }
    if e >= 1023 {
        return Probability { threshold: PROBABILITY_ONE };
    }
    assert(f < 0x10_0000_0000_0000) by (bit_vector)
        requires
            f == bits & 0xf_ffff_ffff_ffffu64,
    ;
    let m: u64 = if e == 0 { f } else { f + 0x10_0000_0000_0000 };
    let s: u64 = if e == 0 { 1021 } else { 1022 - e };
    proof {
        vstd::arithmetic::power2::lemma2_to64();
        vstd::arithmetic::power2::lemma2_to64_rest();
        vstd::arithmetic::power2::lemma_pow2_pos(s as nat);
    }
    if s == 0 {
        assert(m as int == (m + pow2(0) as int - 1) / pow2(0) as int);
        return Probability { threshold: m };
    }
    if s >= 64 {
        proof {
            vstd::arithmetic::power2::lemma_pow2_strictly_increases(53, s as nat);
            let q = pow2(s as nat) as int;
            assert((m + q - 1) / q == 1) by (nonlinear_arith)
                requires
                    1 <= m < q,
            ;
        }
        return Probability { threshold: 1 };
    }
    proof {
        vstd::bits::lemma_u64_pow2_no_overflow(s as nat);
        vstd::bits::lemma_u64_shl_is_mul(1, s);
    }
    let step: u64 = 1u64 << s;
    let total: u128 = m as u128 + step as u128 - 1;
    proof {
        vstd::bits::lemma_u128_shr_is_div(total, s as u128);
        let q = pow2(s as nat) as int;
        let t = total as int;
        assert(t / q <= 0x20_0000_0000_0000) by (nonlinear_arith)
            requires
                t == m + q - 1,
                m < 0x20_0000_0000_0000,
                q >= 2,
        ;
    }
    Probability { threshold: (total >> (s as u128)) as u64 }
}

/// The biased exponent of the double with the bits `bits`.
pub open spec fn double_exponent(bits: u64) -> int {
    ((bits >> 52u64) & 0x7ffu64) as int
}

/// The fraction field of the double with the bits `bits`.
pub open spec fn double_fraction(bits: u64) -> int {
    (bits & 0xf_ffff_ffff_ffffu64) as int
}

/// For a positive finite double below 2 with the bits `bits`, the point
/// halfway between it and the next lower double, as `(b, p)` for
/// `b / 2^p`: a double `v = m * 2^x` is preceded by `(m - 1) * 2^x`, or by
/// `(2m - 1) * 2^(x - 1)` when it is a power of two above the least normal.
pub open spec fn halfway_below(bits: u64) -> (int, nat) {
    let e = double_exponent(bits);
    let f = double_fraction(bits);
    let m = if e == 0 { f } else { f + 0x10_0000_0000_0000 };
    let x = if e == 0 { -1074 } else { e - 1075 };
    if f == 0 && e > 1 {
        (4 * m - 1, (2 - x) as nat)
    } else {
        (2 * m - 1, (1 - x) as nat)
    }
}

/// The threshold that the comparison `share >= theta` of doubles applies to
/// an exact share, for the double `theta` with the bits `bits`: a share
/// rounds to a double at or above `theta` exactly when it lies at or above
/// the point halfway between `theta` and the double below it. Zero, and a
/// negative `theta`, accept every share; a `theta` of 2 or more, infinity
/// or NaN accept none. Below a denominator of `2^63` the halfway point is
/// rounded up to the next multiple of `2^-63`.
pub open spec fn share_boundary(bits: u64) -> Ratio {
    let e = double_exponent(bits);
    let f = double_fraction(bits);
    let (b, p) = halfway_below(bits);
    if e == 0x7ff && f != 0 {
        Ratio { num: 2, den: 1 }
    } else if (bits >> 63u64) == 1 || (e == 0 && f == 0) {
        Ratio { num: 0, den: 1 }
    } else if e >= 1024 {
        Ratio { num: 2, den: 1 }
    } else if p <= 63 {
        Ratio { num: b as u64, den: pow2(p) as u64 }
    } else {
        let q = pow2((p - 63) as nat) as int;
        Ratio { num: ((b + q - 1) / q) as u64, den: pow2(63) as u64 }
    }
}

/// The threshold of a share for the double `theta` given by its bits (see
/// `share_boundary`).
pub fn share_threshold(bits: u64) -> (r: Ratio)
    ensures
        r == share_boundary(bits),
        r.den > 0,
{
    let e = (bits >> 52u64) & 0x7ffu64;
    let f = bits & 0xf_ffff_ffff_ffffu64;
    if e == 0x7ff && f != 0 {
        return Ratio { num: 2, den: 1 };
    }
    if (bits >> 63u64) == 1 || (e == 0 && f == 0) {
        return Ratio { num: 0, den: 1 };
    }
    if e >= 1024 {
        return Ratio { num: 2, den: 1 };
    }
    assert(f < 0x10_0000_0000_0000) by (bit_vector)
        requires
            f == bits & 0xf_ffff_ffff_ffffu64,
    ;
    let m: u64 = if e == 0 { f } else { f + 0x10_0000_0000_0000 };
    let (b, p): (u64, u64) = if f == 0 && e > 1 {
        (4 * m - 1, 1077 - e)
    } else if e == 0 {
        (2 * m - 1, 1075)
    } else {
        (2 * m - 1, 1076 - e)
    };
    assert((b as int, p as nat) == halfway_below(bits));
    if p <= 63 {
        proof {
            vstd::bits::lemma_u64_pow2_no_overflow(p as nat);
            vstd::bits::lemma_u64_shl_is_mul(1, p);
        }
        Ratio { num: b, den: 1u64 << p }
    } else {
        let s = p - 63;
        proof {
            vstd::bits::lemma_u64_pow2_no_overflow(63);
            vstd::bits::lemma_u64_shl_is_mul(1, 63);
            vstd::arithmetic::power2::lemma_pow2_pos(s as nat);
        }
        let den: u64 = 1u64 << 63u64;
        if s >= 64 {
            proof {
                vstd::arithmetic::power2::lemma2_to64();
                vstd::arithmetic::power2::lemma2_to64_rest();
                vstd::arithmetic::power2::lemma_pow2_strictly_increases(55, s as nat);
                assert(b < 0x80_0000_0000_0000);
                let q = pow2(s as nat) as int;
                assert((b + q - 1) / q == 1) by (nonlinear_arith)
                    requires
                        1 <= b < q,
                ;
            }
            Ratio { num: 1, den }
        } else {
            proof {
                vstd::arithmetic::power2::lemma2_to64();
                vstd::arithmetic::power2::lemma2_to64_rest();
                vstd::bits::lemma_u64_pow2_no_overflow(s as nat);
                vstd::bits::lemma_u64_shl_is_mul(1, s);
            }
            let step: u64 = 1u64 << s;
            let total: u128 = b as u128 + step as u128 - 1;
            proof {
                vstd::bits::lemma_u128_shr_is_div(total, s as u128);
                let q = pow2(s as nat) as int;
                let t = total as int;
                assert(t / q < 0x8000_0000_0000_0000) by (nonlinear_arith)
                    requires
                        t == b + q - 1,
                        b < 0x80_0000_0000_0000,
                        q >= 2,
                        q <= 0x8000_0000_0000_0000,
                ;
            }
            let num = (total >> (s as u128)) as u64;
            Ratio { num, den }
        }
    }
}

/// The settings of one run.
#[derive(Debug, Clone)]
pub struct Config {
    /// Number of clusters (communities).
    pub clusters: usize,
    /// Number of agents in each cluster.
    pub cluster_size: usize,
    /// Probability of a strong tie between two members of a cluster.
    pub p_strong: Probability,
    /// Probability of one weak tie between two clusters.
    pub p_bridge: Probability,
    /// Probability of a weak tie between two members of a cluster that did
    /// not get a strong one.
    pub p_weak_intra: Probability,
    /// The diffusion process.
    pub diffusion: DiffusionModel,
    /// Infection probability of the SI process.
    pub beta: Probability,
    /// Activation threshold of the threshold cascade.
    pub theta: Ratio,
    /// What the ablation removes.
    pub remove: RemovePolicy,
    /// Number of seeds the diffusion starts from.
    pub n_seeds: usize,
    /// Most cascade rounds.
    pub max_iterations: usize,
    /// The root seed of the random streams, if fixed.
    pub seed: Option<u64>,
    /// Where results are written.
    pub output_dir: String,
}

impl Config {
    /// Total number of agents (`clusters * cluster_size`).
    pub fn n_agents(&self) -> (r: usize)
        requires
            self.clusters * self.cluster_size <= usize::MAX,
        ensures
            r == self.clusters * self.cluster_size,
    {
        self.clusters * self.cluster_size
    }
}

impl Default for Config {
    /// Ten clusters of twenty, `p_strong` 0.6, `p_bridge` 0.3, SI with
    /// `beta` 0.5, `theta` 0.2 (the share threshold of the double 0.2), one
    /// seed, 200 rounds, seed 42.
    fn default() -> (r: Config)
        ensures
            r.clusters == 10,
            r.cluster_size == 20,
            r.p_strong.threshold == 0x13_3333_3333_3333,
            r.p_bridge.threshold == 0x9_9999_9999_999a,
            r.p_weak_intra.threshold == 0,
            r.diffusion == DiffusionModel::Si,
            r.beta.threshold == 0x10_0000_0000_0000,
            r.theta == (Ratio { num: 0x33_3333_3333_3333, den: 0x100_0000_0000_0000 }),
            r.remove == RemovePolicy::Baseline,
            r.n_seeds == 1,
            r.max_iterations == 200,
            r.seed == Some(42u64),
            r.output_dir@ == "results"@,
    {
        Config {
            clusters: 10,
            cluster_size: 20,
            p_strong: Probability { threshold: 0x13_3333_3333_3333 },
            p_bridge: Probability { threshold: 0x9_9999_9999_999a },
            p_weak_intra: Probability { threshold: 0 },
            diffusion: DiffusionModel::Si,
            beta: Probability { threshold: 0x10_0000_0000_0000 },
            theta: Ratio { num: 0x33_3333_3333_3333, den: 0x100_0000_0000_0000 },
            remove: RemovePolicy::Baseline,
            n_seeds: 1,
            max_iterations: 200,
            seed: Some(42),
            output_dir: String::from_str("results"),
        }
    }
}

} // verus!
