//! The ant's selection rule: attractiveness of an edge, exploitation and
//! roulette-wheel choice.
use vstd::prelude::*;
use crate::pheromone::TAU_ONE;

verus! {

/// The fixed-point unit of the heuristic factor `(1 / d)^beta`.
pub const ETA_ONE: u128 = 1152921504606846976;

/// Largest attractiveness: `TAU_ONE * ETA_ONE`.
pub const MAX_WEIGHT: u128 = 1329227995784915872903807060280344576;

/// Most choices a selection is made among.
pub const MAX_CHOICES: usize = 64;

/// `x` divided (rounding down) by `d`, `times` times over.
pub open spec fn divide_repeatedly(x: int, d: int, times: nat) -> int
    decreases times,
{
    if times == 0 {
        x
    } else {
        divide_repeatedly(x / d, d, (times - 1) as nat)
    }
}

/// Attractiveness `tau * (1 / d)^beta` of an edge of level `tau` and length
/// `d`, in fixed point; a zero length counts as one.
pub open spec fn attractiveness(tau: int, d: int, beta: nat) -> int {
    divide_repeatedly(tau * ETA_ONE, if d < 1 { 1 } else { d }, beta)
}

proof fn lemma_divide_repeatedly_bound(x: int, d: int, times: nat)
    requires
        x >= 0,
        d >= 1,
    ensures
        0 <= divide_repeatedly(x, d, times) <= x,
    decreases times,
{
    if times > 0 {
        assert(x / d <= x) by (nonlinear_arith)
            requires
                x >= 0,
                d >= 1,
        ;
        lemma_divide_repeatedly_bound(x / d, d, (times - 1) as nat);
    }
}

/// Computes `attractiveness(tau, d, beta)`.
pub fn attractiveness_of(tau: u64, d: u64, beta: u32) -> (r: u128)
    requires
        tau <= TAU_ONE,
    ensures
        r as int == attractiveness(tau as int, d as int, beta as nat),
        r <= MAX_WEIGHT,
{
    let dd: u128 = if d < 1 { 1 } else { d as u128 };
    assert(tau * ETA_ONE <= MAX_WEIGHT) by (nonlinear_arith)
        requires
            tau <= TAU_ONE,
    ;
    let x0: u128 = tau as u128 * ETA_ONE;
    let mut x: u128 = x0;
    let mut k: u32 = 0;
    proof {
        lemma_divide_repeatedly_bound(x0 as int, dd as int, beta as nat);
    }
    while k < beta
        invariant
            k <= beta,
            dd >= 1,
            x <= x0,
            divide_repeatedly(x as int, dd as int, (beta - k) as nat) == divide_repeatedly(
                x0 as int,
                dd as int,
                beta as nat,
            ),
        decreases beta - k,
    {
        assert(x / dd <= x) by (nonlinear_arith)
            requires
                dd >= 1,
        ;
        x = x / dd;
        k = k + 1;
    }
    x
}

/// Sum of the first `k` weights.
pub open spec fn prefix_sum(w: Seq<u128>, k: int) -> int
    decreases k,
{
    if k <= 0 {
        0
    } else {
        prefix_sum(w, k - 1) + w[k - 1]
    }
}

/// Weights that can be summed without overflow.
pub open spec fn bounded_weights(w: Seq<u128>) -> bool {
    &&& w.len() <= MAX_CHOICES
    &&& forall|k: int| 0 <= k < w.len() ==> #[trigger] w[k] <= MAX_WEIGHT
}

proof fn lemma_prefix_sum_bound(w: Seq<u128>, k: int)
    requires
        bounded_weights(w),
        0 <= k <= w.len(),
    ensures
        0 <= prefix_sum(w, k) <= k * MAX_WEIGHT,
    decreases k,
{
    if k > 0 {
        lemma_prefix_sum_bound(w, k - 1);
    }
}

proof fn lemma_prefix_sum_mono(w: Seq<u128>, a: int, b: int)
    requires
        0 <= a <= b <= w.len(),
    ensures
        prefix_sum(w, a) <= prefix_sum(w, b),
    decreases b - a,
{
    if a < b {
        lemma_prefix_sum_mono(w, a, b - 1);
    }
}

/// Sum of all weights.
pub fn weight_total(weights: &Vec<u128>) -> (r: u128)
    requires
        bounded_weights(weights@),
    ensures
        r as int == prefix_sum(weights@, weights@.len() as int),
{
    let mut total: u128 = 0;
    let mut k: usize = 0;
    while k < weights.len()
        invariant
            bounded_weights(weights@),
            k <= weights@.len(),
            total as int == prefix_sum(weights@, k as int),
        decreases weights@.len() - k,
    {
        proof {
            lemma_prefix_sum_bound(weights@, k + 1);
            assert((k + 1) * MAX_WEIGHT <= 64 * MAX_WEIGHT) by (nonlinear_arith)
                requires
                    k + 1 <= 64,
            ;
        }
        total = total + weights[k];
        k = k + 1;
    }
    total
}

/// Exploitation: the position of the first largest weight.
pub fn pick_exploit(weights: &Vec<u128>) -> (r: usize)
    requires
        weights@.len() > 0,
    ensures
        r < weights@.len(),
        forall|k: int| 0 <= k < weights@.len() ==> #[trigger] weights@[k] <= weights@[r as int],
        forall|k: int| 0 <= k < r ==> #[trigger] weights@[k] < weights@[r as int],
{
    let mut best: usize = 0;
    let mut k: usize = 1;
    while k < weights.len()
        invariant
            1 <= k <= weights@.len(),
            best < k,
            forall|p: int| 0 <= p < k ==> #[trigger] weights@[p] <= weights@[best as int],
            forall|p: int| 0 <= p < best ==> #[trigger] weights@[p] < weights@[best as int],
        decreases weights@.len() - k,
    {
        if weights[k] > weights[best] {
            best = k;
        }
        k = k + 1;
    }
    best
}

/// Roulette wheel: the position whose slice of the running sum holds `draw`,
/// so that each position is taken with probability proportional to its
/// weight when `draw` is uniform below the total.
pub fn pick_roulette(weights: &Vec<u128>, draw: u128) -> (r: usize)
    requires
        bounded_weights(weights@),
        draw < prefix_sum(weights@, weights@.len() as int),
    ensures
        r < weights@.len(),
        prefix_sum(weights@, r as int) <= draw < prefix_sum(weights@, r + 1),
{
    let mut acc: u128 = 0;
    let mut k: usize = 0;
    while k < weights.len()
        invariant
            bounded_weights(weights@),
            k <= weights@.len(),
            acc as int == prefix_sum(weights@, k as int),
            acc <= draw,
            draw < prefix_sum(weights@, weights@.len() as int),
        decreases weights@.len() - k,
    {
        proof {
            lemma_prefix_sum_bound(weights@, k + 1);
            assert((k + 1) * MAX_WEIGHT <= 64 * MAX_WEIGHT) by (nonlinear_arith)
                requires
                    k + 1 <= 64,
            ;
        }
        acc = acc + weights[k];
        if acc > draw {
            return k;
        }
        k = k + 1;
    }
    proof {
        lemma_prefix_sum_mono(weights@, k as int, weights@.len() as int);
    }
    0
}

/// `r` is the position the selection rule takes among `w` for the given
/// draws: when `exploit`, the first largest weight; otherwise, when every
/// weight is zero, the first position, and else the roulette slice holding
/// `spin`.
pub open spec fn is_rule_choice(w: Seq<u128>, exploit: bool, spin: int, r: int) -> bool {
    &&& 0 <= r < w.len()
    &&& exploit ==> (forall|k: int| 0 <= k < w.len() ==> #[trigger] w[k] <= w[r])
    &&& exploit ==> (forall|k: int| 0 <= k < r ==> #[trigger] w[k] < w[r])
    &&& !exploit && prefix_sum(w, w.len() as int) == 0 ==> r == 0
    &&& !exploit && prefix_sum(w, w.len() as int) > 0 ==> prefix_sum(w, r) <= spin < prefix_sum(w, r + 1)
}

/// The selection rule for given draws: when `exploit`, the first largest
/// weight; otherwise the roulette slice holding `spin`, or the first
/// position when every weight is zero.
pub fn apply_rule(weights: &Vec<u128>, exploit: bool, spin: u128) -> (r: usize)
    requires
        weights@.len() > 0,
        bounded_weights(weights@),
        !exploit && prefix_sum(weights@, weights@.len() as int) > 0 ==> spin < prefix_sum(
            weights@,
            weights@.len() as int,
        ),
    ensures
        r < weights@.len(),
        exploit ==> forall|k: int| 0 <= k < weights@.len() ==> #[trigger] weights@[k] <= weights@[r as int],
        exploit ==> forall|k: int| 0 <= k < r ==> #[trigger] weights@[k] < weights@[r as int],
        !exploit && prefix_sum(weights@, weights@.len() as int) == 0 ==> r == 0,
        !exploit && prefix_sum(weights@, weights@.len() as int) > 0 ==> prefix_sum(weights@, r as int)
            <= spin < prefix_sum(weights@, r + 1),
        is_rule_choice(weights@, exploit, spin as int, r as int),
{
    if exploit {
        return pick_exploit(weights);
    }
    let total = weight_total(weights);
    if total == 0 {
        0
    } else {
        pick_roulette(weights, spin)
    }
}

} // verus!
