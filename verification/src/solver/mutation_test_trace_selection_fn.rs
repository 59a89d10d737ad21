//! Fitness-proportionate choice of a parent.
use crate::bignum::{big_add, big_lt, big_random_range, big_sub, BigNum};
use rand::rngs::StdRng;
use vstd::prelude::*;

verus! {

/// The numbers that a list holds.
pub open spec fn nums(s: Seq<BigNum>) -> Seq<int> {
    s.map_values(|b: BigNum| b@)
}

/// The sum of the first `i` weights.
pub open spec fn weight_prefix(w: Seq<int>, i: int) -> int
    decreases i,
{
    if i <= 0 {
        0
    } else {
        weight_prefix(w, i - 1) + w[i - 1]
    }
}

/// The number of places that both the population and the weights have.
pub open spec fn places(n: int, w: Seq<int>) -> int {
    if n < w.len() {
        n
    } else {
        w.len() as int
    }
}

/// The lowest of a list of numbers (`0` for an empty list).
pub open spec fn seq_min(s: Seq<int>) -> int
    decreases s.len(),
{
    if s.len() == 0 {
        0
    } else if s.len() == 1 {
        s[0]
    } else {
        let m = seq_min(s.drop_last());
        if s.last() < m {
            s.last()
        } else {
            m
        }
    }
}

/// The weight of each member: its score less the lowest score.
pub open spec fn roulette_weights(scores: Seq<int>) -> Seq<int> {
    Seq::new(scores.len(), |i: int| scores[i] - seq_min(scores))
}

/// `k` is the place that `pick_by_weight` gives for the weights `w`, `n` places and `target`.
pub open spec fn picks(w: Seq<int>, n: int, target: int, k: int) -> bool {
    if exists|i: int| 0 <= i < places(n, w) && target < #[trigger] weight_prefix(w, i + 1) {
        &&& 0 <= k < places(n, w)
        &&& target < weight_prefix(w, k + 1)
        &&& forall|j: int| 0 <= j < k ==> target >= #[trigger] weight_prefix(w, j + 1)
    } else {
        k == 0
    }
}

/// The lowest number is at most each number of a non-empty list, and is one of them.
proof fn lemma_seq_min(s: Seq<int>)
    requires
        s.len() > 0,
    ensures
        forall|i: int| 0 <= i < s.len() ==> seq_min(s) <= #[trigger] s[i],
        exists|i: int| 0 <= i < s.len() && seq_min(s) == #[trigger] s[i],
    decreases s.len(),
{
    if s.len() > 1 {
        lemma_seq_min(s.drop_last());
        let i0 = choose|i: int| 0 <= i < s.drop_last().len() && seq_min(s.drop_last()) == #[trigger] s.drop_last()[i];
        assert(s.drop_last()[i0] == s[i0]);
        assert forall|i: int| 0 <= i < s.len() implies seq_min(s) <= #[trigger] s[i] by {
            if i < s.len() - 1 {
                assert(s.drop_last()[i] == s[i]);
            }
        }
        if s.last() < seq_min(s.drop_last()) {
            assert(seq_min(s) == s[s.len() - 1]);
        } else {
            assert(seq_min(s) == s[i0]);
        }
    } else {
        assert(seq_min(s) == s[0]);
    }
}

/// Sums of weights that are all zero are zero; sums of weights that are not negative grow.
proof fn lemma_prefix_bounds(w: Seq<int>, i: int)
    requires
        0 <= i <= w.len(),
        forall|j: int| 0 <= j < w.len() ==> #[trigger] w[j] >= 0,
    ensures
        weight_prefix(w, i) >= 0,
        (forall|j: int| 0 <= j < w.len() ==> #[trigger] w[j] == 0) ==> weight_prefix(w, i) == 0,
        forall|j: int| 0 <= j < i ==> weight_prefix(w, i) >= #[trigger] w[j],
    decreases i,
{
    if i > 0 {
        lemma_prefix_bounds(w, i - 1);
    }
}

/// Picks, among the first `min(n, weights.len())` places, the first place `i` at which
/// `target` falls below the sum of the weights up to and including `i`; place `0` where
/// there is none.
pub fn pick_by_weight(weights: &[BigNum], n: usize, target: &BigNum) -> (r: usize)
    ensures
        (exists|i: int| 0 <= i < places(n as int, nums(weights@)) && target@ < #[trigger] weight_prefix(nums(weights@), i + 1)) ==> {
            &&& r < places(n as int, nums(weights@))
            &&& target@ < weight_prefix(nums(weights@), r + 1)
            &&& forall|j: int| 0 <= j < r ==> target@ >= #[trigger] weight_prefix(nums(weights@), j + 1)
        },
        !(exists|i: int| 0 <= i < places(n as int, nums(weights@)) && target@ < #[trigger] weight_prefix(nums(weights@), i + 1)) ==> r == 0,
{
    let ghost w = nums(weights@);
    let m: usize = if n < weights.len() { n } else { weights.len() };
    let mut rest = target.copy();
    let mut i: usize = 0;
    while i < m
        invariant
            i <= m,
            m == places(n as int, w),
            m <= weights@.len(),
            w == nums(weights@),
            rest@ == target@ - weight_prefix(w, i as int),
            forall|j: int| 0 <= j < i ==> target@ >= #[trigger] weight_prefix(w, j + 1),
        decreases m - i,
    {
        proof {
            assert(w[i as int] == weights@[i as int]@);
            assert(weight_prefix(w, i + 1) == weight_prefix(w, i as int) + w[i as int]);
        }
        if big_lt(&rest, &weights[i]) {
            return i;
        }
        rest = big_sub(&rest, &weights[i]);
        i = i + 1;
    }
    0
}

/// A member of the population, drawn with a chance that grows with its score: each weighs
/// its score less the lowest score, and a number drawn below the total weight (or below
/// `1` where the total is not positive) picks the member as `pick_by_weight` says.
pub fn roulette_selection<'a, T>(population: &'a [T], fitness_scores: &[BigNum], rng: &mut StdRng) -> (r: &'a T)
    requires
        population@.len() > 0,
        fitness_scores@.len() > 0,
    ensures
        ({
            let w = roulette_weights(nums(fitness_scores@));
            let total = weight_prefix(w, w.len() as int);
            exists|t: int, k: int| #![trigger picks(w, population@.len() as int, t, k)]
                0 <= t < (if total > 0 { total } else { 1 })
                && picks(w, population@.len() as int, t, k)
                && 0 <= k < population@.len() && *r == population@[k]
                && (population@.len() >= fitness_scores@.len() && total > 0 ==> w[k] > 0)
        }),
        (forall|i: int| 0 <= i < fitness_scores@.len() ==> #[trigger] fitness_scores@[i]@ == fitness_scores@[0]@)
            ==> *r == population@[0],
        (exists|i: int| 0 <= i < fitness_scores@.len() && #[trigger] fitness_scores@[i]@ != fitness_scores@[0]@)
            ==> weight_prefix(roulette_weights(nums(fitness_scores@)), fitness_scores@.len() as int) > 0,
{
    let ghost s = nums(fitness_scores@);
    let mut min_score = fitness_scores[0].copy();
    let mut i: usize = 1;
    proof {
        assert(s.take(1) =~= seq![s[0]]);
    }
    while i < fitness_scores.len()
        invariant
            1 <= i <= fitness_scores@.len(),
            s == nums(fitness_scores@),
            min_score@ == seq_min(s.take(i as int)),
        decreases fitness_scores.len() - i,
    {
        proof {
            assert(s.take(i + 1).drop_last() =~= s.take(i as int));
            assert(s[i as int] == fitness_scores@[i as int]@);
        }
        if big_lt(&fitness_scores[i], &min_score) {
            min_score = fitness_scores[i].copy();
        }
        i = i + 1;
    }
    proof {
        assert(s.take(s.len() as int) =~= s);
    }
    let ghost w = roulette_weights(s);
    let mut weights: Vec<BigNum> = Vec::new();
    let mut total = BigNum::from_i64(0);
    let mut j: usize = 0;
    while j < fitness_scores.len()
        invariant
            j <= fitness_scores@.len(),
            s == nums(fitness_scores@),
            w == roulette_weights(s),
            min_score@ == seq_min(s),
            weights@.len() == j,
            forall|t: int| 0 <= t < j ==> (#[trigger] weights@[t])@ == w[t],
            total@ == weight_prefix(w, j as int),
        decreases fitness_scores.len() - j,
    {
        let wj = big_sub(&fitness_scores[j], &min_score);
        total = big_add(&total, &wj);
        weights.push(wj);
        j = j + 1;
    }
    proof {
        assert(nums(weights@) =~= w);
        lemma_seq_min(s);
        assert forall|t: int| 0 <= t < w.len() implies #[trigger] w[t] >= 0 by {
            assert(s[t] >= seq_min(s));
        }
        lemma_prefix_bounds(w, w.len() as int);
        if forall|t: int| 0 <= t < fitness_scores@.len() ==> #[trigger] fitness_scores@[t]@ == fitness_scores@[0]@ {
            assert forall|t: int| 0 <= t < w.len() implies #[trigger] w[t] == 0 by {
                assert(s[t] == s[0]);
                let m = choose|m: int| 0 <= m < s.len() && seq_min(s) == #[trigger] s[m];
                assert(s[m] == s[0]);
            }
            lemma_prefix_bounds(w, w.len() as int);
        }
        if exists|t: int| 0 <= t < fitness_scores@.len() && #[trigger] fitness_scores@[t]@ != fitness_scores@[0]@ {
            let t = choose|t: int| 0 <= t < fitness_scores@.len() && #[trigger] fitness_scores@[t]@ != fitness_scores@[0]@;
            assert(s[t] != s[0]);
            if w[t] == 0 {
                assert(w[0] > 0);
            }
        }
    }
    let ghost total0 = total@;
    let zero = BigNum::from_i64(0);
    if !big_lt(&zero, &total) {
        total = BigNum::from_i64(1);
    }
    let target = big_random_range(rng, &zero, &total);
    let k = pick_by_weight(&weights, population.len(), &target);
    let ghost n = population@.len() as int;
    proof {
        assert(picks(w, n, target@, k as int));
        if n >= w.len() && total0 > 0 {
            assert(places(n, w) == w.len());
            assert(target@ < weight_prefix(w, (w.len() - 1) + 1));
            assert(weight_prefix(w, k + 1) == weight_prefix(w, k as int) + w[k as int]);
            if k > 0 {
                assert(target@ >= weight_prefix(w, (k - 1) + 1));
            }
        }
        if forall|t: int| 0 <= t < fitness_scores@.len() ==> #[trigger] fitness_scores@[t]@ == fitness_scores@[0]@ {
            assert(target@ == 0);
            assert forall|i: int| 0 <= i < places(n, w) implies !(target@ < #[trigger] weight_prefix(w, i + 1)) by {
                lemma_prefix_bounds(w, i + 1);
            }
        }
    }
    if k < population.len() {
        &population[k]
    } else {
        &population[0]
    }
}

} // verus!
