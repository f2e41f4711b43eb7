//! The ranking algorithm: a fixed-point power iteration over the score
//! matrix. One iteration multiplies each strategy's weight by the weighted
//! score it takes against the whole roster, then normalizes the vector so the
//! weights sum to one. Weights are fixed-point fractions of `WEIGHT_SCALE`.

use vstd::prelude::*;
use vstd::arithmetic::div_mod::lemma_fundamental_div_mod;
use vstd::arithmetic::div_mod::lemma_fundamental_div_mod_converse;
use vstd::arithmetic::div_mod::lemma_div_is_ordered;
use vstd::arithmetic::div_mod::lemma_div_pos_is_pos;
use vstd::arithmetic::div_mod::lemma_div_nonincreasing;
use vstd::arithmetic::div_mod::lemma_div_multiples_vanish;
use vstd::arithmetic::div_mod::lemma_mod_division_less_than_divisor;
use vstd::arithmetic::mul::lemma_mul_upper_bound;
use vstd::arithmetic::mul::lemma_mul_nonnegative;
use vstd::arithmetic::mul::lemma_mul_inequality;
use vstd::arithmetic::mul::lemma_mul_is_distributive_add_other_way;
use vstd::arithmetic::mul::lemma_mul_is_distributive_sub_other_way;
use vstd::arithmetic::mul::lemma_mul_strict_inequality_converse;
use vstd::arithmetic::mul::lemma_mul_inequality_converse;

verus! {

/// Ranking weights are fixed-point fractions of this scale: a weight `w`
/// in `[0, 1]` is carried as the integer `w * WEIGHT_SCALE`.
pub const WEIGHT_SCALE: u64 = 1_000_000;

/// Power-iteration count; no convergence check is made, the fixed count is
/// treated as good enough.
pub const REPS: usize = 5000;

/// The most players a matrix handed to the ranking may have; keeps every
/// intermediate product inside 128 bits.
pub const MAX_PLAYERS: usize = 0x10_0000;

/// The largest admissible score entry; keeps every intermediate product
/// inside 128 bits.
pub const MAX_SCORE: u64 = 0x1_0000_0000;

/// Largest possible weighted row influence: `MAX_PLAYERS` summands of at
/// most `MAX_SCORE * WEIGHT_SCALE` each.
pub const DOT_MAX: u128 = 0x10_0000 * 0x1_0000_0000 * 1_000_000;

/// Largest possible unnormalized next weight: a weight times an influence.
pub const RAW_MAX: u128 = DOT_MAX * 1_000_000;

/// Largest possible normalization total: `MAX_PLAYERS` unnormalized weights.
pub const TOTAL_MAX: u128 = RAW_MAX * 0x10_0000;

/// The matrix is square.
pub open spec fn is_square(m: Seq<Seq<u64>>) -> bool {
    forall|i: int| 0 <= i < m.len() ==> (#[trigger] m[i]).len() == m.len()
}

/// Every entry is small enough for the iteration's arithmetic.
pub open spec fn bounded_scores(m: Seq<Seq<u64>>) -> bool {
    forall|i: int, j: int|
        0 <= i < m.len() && 0 <= j < m.len() ==> #[trigger] m[i][j] <= MAX_SCORE
}

/// A well-formed weight vector: every entry between 0 and the scale.
pub open spec fn wf_weights(w: Seq<int>) -> bool {
    forall|i: int| 0 <= i < w.len() ==> 0 <= #[trigger] w[i] <= WEIGHT_SCALE
}

/// The sum of the first `k` entries.
pub open spec fn sum_prefix(s: Seq<int>, k: int) -> int
    decreases k,
{
    if k <= 0 {
        0
    } else {
        sum_prefix(s, k - 1) + s[k - 1]
    }
}

/// The sum of a weight vector.
pub open spec fn sum_ints(s: Seq<int>) -> int {
    sum_prefix(s, s.len() as int)
}

/// The weighted influence of a row over the first `k` opponents:
/// the sum of `row[j] * w[j]`.
pub open spec fn dot_prefix(row: Seq<u64>, w: Seq<int>, k: int) -> int
    decreases k,
{
    if k <= 0 {
        0
    } else {
        dot_prefix(row, w, k - 1) + row[k - 1] as int * w[k - 1]
    }
}

/// A strategy's full weighted influence: its score against each opponent,
/// weighted by that opponent's current weight, summed over the whole roster.
pub open spec fn dot(row: Seq<u64>, w: Seq<int>) -> int {
    dot_prefix(row, w, w.len() as int)
}

/// The unnormalized next weights: each strategy's current weight times its
/// weighted influence, so weight is reinforced by scoring well against
/// already-heavy opponents.
pub open spec fn raw_seq(scores: Seq<Seq<u64>>, w: Seq<int>) -> Seq<int> {
    Seq::new(w.len(), |i: int| w[i] * dot(scores[i], w))
}

/// The normalization total.
pub open spec fn total_raw(scores: Seq<Seq<u64>>, w: Seq<int>) -> int {
    sum_prefix(raw_seq(scores, w), w.len() as int)
}

/// Each entry scaled to the weight scale and floored.
pub open spec fn div_seq(u: Seq<int>, t: int) -> Seq<int> {
    Seq::new(u.len(), |i: int| u[i] * WEIGHT_SCALE / t)
}

/// The uniform fallback vector: `n` entries of `WEIGHT_SCALE / n`.
pub open spec fn uniform_seq(n: int) -> Seq<int> {
    Seq::new(n as nat, |i: int| WEIGHT_SCALE as int / n)
}

/// One completed iteration: scale the unnormalized weights so they sum to
/// (nearly) one. A total of zero would leave nothing to normalize by; the
/// vector then falls back to uniform weights.
pub open spec fn next_weights(scores: Seq<Seq<u64>>, w: Seq<int>) -> Seq<int> {
    let t = total_raw(scores, w);
    if t > 0 {
        div_seq(raw_seq(scores, w), t)
    } else {
        uniform_seq(w.len() as int)
    }
}

/// The weight vector after `k` completed iterations from `w`.
pub open spec fn iterate(scores: Seq<Seq<u64>>, w: Seq<int>, k: nat) -> Seq<int>
    decreases k,
{
    if k == 0 {
        w
    } else {
        next_weights(scores, iterate(scores, w, (k - 1) as nat))
    }
}

/// The initial weights: one (not pre-normalized) for every strategy.
pub open spec fn init_weights(n: int) -> Seq<int> {
    Seq::new(n as nat, |i: int| WEIGHT_SCALE as int)
}

/// An executable vector carrying exactly a spec weight vector.
pub open spec fn weights_match(v: Seq<u64>, w: Seq<int>) -> bool {
    v.len() == w.len() && forall|i: int| 0 <= i < v.len() ==> #[trigger] v[i] as int == w[i]
}

proof fn lemma_mul_le(a: int, amax: int, b: int, bmax: int)
    requires
        0 <= a <= amax,
        0 <= b <= bmax,
    ensures
        0 <= a * b <= amax * bmax,
{
    lemma_mul_nonnegative(a, b);
    lemma_mul_upper_bound(a, amax, b, bmax);
}

/// Bounds on a prefix sum of a bounded sequence.
proof fn lemma_sum_prefix_bounded(s: Seq<int>, bound: int, k: int)
    requires
        0 <= k <= s.len(),
        0 <= bound,
        forall|i: int| 0 <= i < s.len() ==> 0 <= #[trigger] s[i] <= bound,
    ensures
        0 <= sum_prefix(s, k) <= k * bound,
    decreases k,
{
    if k > 0 {
        lemma_sum_prefix_bounded(s, bound, k - 1);
        assert((k - 1) * bound + bound == k * bound) by (nonlinear_arith);
    }
}

/// Every entry of a nonnegative sequence is at most the whole prefix sum
/// that includes it.
proof fn lemma_sum_prefix_ge_each(s: Seq<int>, k: int, i: int)
    requires
        0 <= i < k <= s.len(),
        forall|j: int| 0 <= j < s.len() ==> 0 <= #[trigger] s[j],
    ensures
        s[i] <= sum_prefix(s, k),
    decreases k,
{
    lemma_sum_prefix_bounded_below(s, k - 1);
    if i < k - 1 {
        lemma_sum_prefix_ge_each(s, k - 1, i);
    }
}

proof fn lemma_sum_prefix_bounded_below(s: Seq<int>, k: int)
    requires
        0 <= k <= s.len(),
        forall|j: int| 0 <= j < s.len() ==> 0 <= #[trigger] s[j],
    ensures
        0 <= sum_prefix(s, k),
    decreases k,
{
    if k > 0 {
        lemma_sum_prefix_bounded_below(s, k - 1);
    }
}

/// Bounds on the weighted influence of a bounded row under well-formed
/// weights.
proof fn lemma_dot_bounds(row: Seq<u64>, w: Seq<int>, k: int)
    requires
        0 <= k <= w.len(),
        w.len() <= row.len(),
        wf_weights(w),
        forall|j: int| 0 <= j < row.len() ==> #[trigger] row[j] <= MAX_SCORE,
    ensures
        0 <= dot_prefix(row, w, k) <= k * ((MAX_SCORE * WEIGHT_SCALE) as int),
    decreases k,
{
    if k > 0 {
        lemma_dot_bounds(row, w, k - 1);
        lemma_mul_le(row[k - 1] as int, MAX_SCORE as int, w[k - 1], WEIGHT_SCALE as int);
        assert((k - 1) * ((MAX_SCORE * WEIGHT_SCALE) as int) + (MAX_SCORE * WEIGHT_SCALE) as int
            == k * ((MAX_SCORE * WEIGHT_SCALE) as int)) by (nonlinear_arith);
    }
}

/// Bounds on the unnormalized next weights.
proof fn lemma_raw_seq_bounds(scores: Seq<Seq<u64>>, w: Seq<int>)
    requires
        w.len() == scores.len(),
        scores.len() <= MAX_PLAYERS,
        is_square(scores),
        bounded_scores(scores),
        wf_weights(w),
    ensures
        forall|i: int|
            0 <= i < w.len() ==> 0 <= #[trigger] raw_seq(scores, w)[i] <= RAW_MAX,
        0 <= total_raw(scores, w) <= TOTAL_MAX,
{
    assert forall|i: int|
        0 <= i < w.len() implies 0 <= #[trigger] raw_seq(scores, w)[i] <= RAW_MAX by {
        lemma_dot_bounds(scores[i], w, w.len() as int);
        assert(dot(scores[i], w) <= w.len() * ((MAX_SCORE * WEIGHT_SCALE) as int));
        lemma_mul_inequality(w.len() as int, MAX_PLAYERS as int, (MAX_SCORE * WEIGHT_SCALE) as int);
        lemma_mul_le(w[i], WEIGHT_SCALE as int, dot(scores[i], w), DOT_MAX as int);
    }
    lemma_sum_prefix_bounded(raw_seq(scores, w), RAW_MAX as int, w.len() as int);
    lemma_mul_inequality(w.len() as int, MAX_PLAYERS as int, RAW_MAX as int);
}

/// One completed iteration keeps the weight vector well-formed: every entry
/// stays between 0 and the scale.
pub proof fn lemma_next_wf(scores: Seq<Seq<u64>>, w: Seq<int>)
    requires
        w.len() == scores.len(),
        scores.len() <= MAX_PLAYERS,
        is_square(scores),
        bounded_scores(scores),
        wf_weights(w),
    ensures
        next_weights(scores, w).len() == w.len(),
        wf_weights(next_weights(scores, w)),
{
    let t = total_raw(scores, w);
    let u = raw_seq(scores, w);
    lemma_raw_seq_bounds(scores, w);
    if t > 0 {
        assert forall|i: int|
            0 <= i < w.len() implies 0 <= #[trigger] next_weights(scores, w)[i] <= WEIGHT_SCALE by {
            lemma_mul_nonnegative(u[i], WEIGHT_SCALE as int);
            lemma_div_pos_is_pos(u[i] * WEIGHT_SCALE, t);
            lemma_sum_prefix_ge_each(u, w.len() as int, i);
            lemma_mul_inequality(u[i], t, WEIGHT_SCALE as int);
            lemma_div_is_ordered(u[i] * WEIGHT_SCALE, t * WEIGHT_SCALE, t);
            lemma_div_multiples_vanish(WEIGHT_SCALE as int, t);
        }
    } else {
        assert forall|i: int|
            0 <= i < w.len() implies 0 <= #[trigger] next_weights(scores, w)[i] <= WEIGHT_SCALE by {
            if w.len() > 0 {
                lemma_div_pos_is_pos(WEIGHT_SCALE as int, w.len() as int);
                lemma_div_nonincreasing(WEIGHT_SCALE as int, w.len() as int);
            }
        }
    }
}

/// Iterating keeps the vector's length and well-formedness.
pub proof fn lemma_iterate_wf(scores: Seq<Seq<u64>>, w: Seq<int>, k: nat)
    requires
        w.len() == scores.len(),
        scores.len() <= MAX_PLAYERS,
        is_square(scores),
        bounded_scores(scores),
        wf_weights(w),
    ensures
        iterate(scores, w, k).len() == w.len(),
        wf_weights(iterate(scores, w, k)),
    decreases k,
{
    if k > 0 {
        lemma_iterate_wf(scores, w, (k - 1) as nat);
        lemma_next_wf(scores, iterate(scores, w, (k - 1) as nat));
    }
}

/// Summing floored scaled shares: the sum of `u[i] * WEIGHT_SCALE / t` over
/// a prefix, times `t`, sits within `k * t` below the exact scaled sum.
proof fn lemma_sum_div_bounds(u: Seq<int>, t: int, k: int)
    requires
        t > 0,
        0 <= k <= u.len(),
        forall|i: int| 0 <= i < u.len() ==> 0 <= #[trigger] u[i],
    ensures
        sum_prefix(div_seq(u, t), k) * t <= sum_prefix(u, k) * WEIGHT_SCALE,
        sum_prefix(div_seq(u, t), k) * t >= sum_prefix(u, k) * WEIGHT_SCALE - k * (t - 1),
    decreases k,
{
    let q = div_seq(u, t);
    if k == 0 {
        assert(sum_prefix(q, 0) * t == 0) by (nonlinear_arith);
        assert(k * (t - 1) == 0) by (nonlinear_arith)
            requires
                k == 0,
        ;
    } else {
        lemma_sum_div_bounds(u, t, k - 1);
        let a = u[k - 1] * WEIGHT_SCALE;
        lemma_mul_nonnegative(u[k - 1], WEIGHT_SCALE as int);
        lemma_fundamental_div_mod(a, t);
        lemma_mod_division_less_than_divisor(a, t);
        assert(0 <= a % t) by (nonlinear_arith)
            requires
                0 <= a,
                0 < t,
        ;
        assert(q[k - 1] == a / t);
        // distribute the outer multiplications over the prefix sums
        lemma_mul_is_distributive_add_other_way(t, sum_prefix(q, k - 1), q[k - 1]);
        assert(sum_prefix(q, k) * t == sum_prefix(q, k - 1) * t + (a / t) * t);
        lemma_mul_is_distributive_add_other_way(
            WEIGHT_SCALE as int,
            sum_prefix(u, k - 1),
            u[k - 1],
        );
        assert(sum_prefix(u, k) * WEIGHT_SCALE == sum_prefix(u, k - 1) * WEIGHT_SCALE + a);
        assert((a / t) * t == a - a % t);
        assert((k - 1) * (t - 1) + (t - 1) == k * (t - 1)) by (nonlinear_arith);
    }
}

/// The sum of the uniform fallback vector.
proof fn lemma_sum_uniform(n: int, k: int)
    requires
        0 < n,
        0 <= k <= n,
    ensures
        sum_prefix(uniform_seq(n), k) == k * (WEIGHT_SCALE as int / n),
    decreases k,
{
    let c = WEIGHT_SCALE as int / n;
    if k == 0 {
        assert(k * c == 0) by (nonlinear_arith)
            requires
                k == 0,
        ;
    } else {
        lemma_sum_uniform(n, k - 1);
        assert(uniform_seq(n)[k - 1] == c);
        assert((k - 1) * c + c == k * c) by (nonlinear_arith);
    }
}

/// After any completed iteration the weights sum to one, up to the
/// fixed-point rounding: the sum lies in `(WEIGHT_SCALE - n, WEIGHT_SCALE]`,
/// where `n` is the roster size.
pub proof fn lemma_next_sum_bounds(scores: Seq<Seq<u64>>, w: Seq<int>)
    requires
        w.len() == scores.len(),
        1 <= scores.len() <= MAX_PLAYERS,
        is_square(scores),
        bounded_scores(scores),
        wf_weights(w),
    ensures
        WEIGHT_SCALE - w.len() < sum_ints(next_weights(scores, w)) <= WEIGHT_SCALE,
{
    let n = w.len() as int;
    let t = total_raw(scores, w);
    let u = raw_seq(scores, w);
    lemma_raw_seq_bounds(scores, w);
    if t > 0 {
        let s = sum_ints(next_weights(scores, w));
        lemma_sum_div_bounds(u, t, n);
        assert(sum_prefix(u, n) == t);
        // s * t <= t * WEIGHT_SCALE, and s * t >= t * WEIGHT_SCALE - n * (t - 1),
        // which exceeds (WEIGHT_SCALE - n) * t since n >= 1
        assert(s * t <= t * WEIGHT_SCALE);
        assert(s * t >= t * WEIGHT_SCALE - n * (t - 1));
        assert(t * WEIGHT_SCALE == WEIGHT_SCALE as int * t) by (nonlinear_arith);
        assert(n * (t - 1) == n * t - n) by (nonlinear_arith);
        assert(t * WEIGHT_SCALE - n * t == (WEIGHT_SCALE as int - n) * t) by (nonlinear_arith);
        assert(s * t > (WEIGHT_SCALE as int - n) * t);
        lemma_mul_inequality_converse(s, WEIGHT_SCALE as int, t);
        lemma_mul_strict_inequality_converse(WEIGHT_SCALE as int - n, s, t);
    } else {
        lemma_sum_uniform(n, n);
        let c = WEIGHT_SCALE as int / n;
        lemma_fundamental_div_mod(WEIGHT_SCALE as int, n);
        lemma_mod_division_less_than_divisor(WEIGHT_SCALE as int, n);
        assert(n * c == WEIGHT_SCALE - WEIGHT_SCALE as int % n);
        assert(sum_prefix(uniform_seq(n), n) == n * c) by {
            assert(n * c == c * n) by (nonlinear_arith);
        }
    }
}

/// The weight sum after any completed iteration (any `k >= 1`) lies in
/// `(WEIGHT_SCALE - n, WEIGHT_SCALE]`.
pub proof fn lemma_iterate_sum_bounds(scores: Seq<Seq<u64>>, w: Seq<int>, k: nat)
    requires
        w.len() == scores.len(),
        1 <= scores.len() <= MAX_PLAYERS,
        is_square(scores),
        bounded_scores(scores),
        wf_weights(w),
        k >= 1,
    ensures
        WEIGHT_SCALE - w.len() < sum_ints(iterate(scores, w, k)) <= WEIGHT_SCALE,
{
    lemma_iterate_wf(scores, w, (k - 1) as nat);
    lemma_next_sum_bounds(scores, iterate(scores, w, (k - 1) as nat));
}

/// Row `i` scores zero against everyone.
pub open spec fn zero_row(scores: Seq<Seq<u64>>, i: int) -> bool {
    forall|j: int| 0 <= j < scores[i].len() ==> #[trigger] scores[i][j] == 0
}

proof fn lemma_dot_zero(row: Seq<u64>, w: Seq<int>, k: int)
    requires
        0 <= k <= w.len() <= row.len(),
        forall|j: int| 0 <= j < row.len() ==> #[trigger] row[j] == 0,
    ensures
        dot_prefix(row, w, k) == 0,
    decreases k,
{
    if k > 0 {
        lemma_dot_zero(row, w, k - 1);
        assert(row[k - 1] as int * w[k - 1] == 0) by (nonlinear_arith)
            requires row[k - 1] == 0;
    }
}

/// A strategy that scores zero against the whole roster (itself included)
/// has weight exactly zero after one more completed iteration, unless the
/// normalization total was zero and the vector fell back to uniform.
pub proof fn lemma_zero_row_next(scores: Seq<Seq<u64>>, w: Seq<int>, i: int)
    requires
        w.len() == scores.len(),
        is_square(scores),
        0 <= i < w.len(),
        zero_row(scores, i),
        total_raw(scores, w) > 0,
    ensures
        next_weights(scores, w)[i] == 0,
{
    let t = total_raw(scores, w);
    lemma_dot_zero(scores[i], w, w.len() as int);
    assert(raw_seq(scores, w)[i] == w[i] * 0);
    assert(w[i] * 0 == 0) by (nonlinear_arith);
    assert(next_weights(scores, w)[i] == 0 * WEIGHT_SCALE / t);
    assert(0 * WEIGHT_SCALE == 0) by (nonlinear_arith);
    lemma_div_pos_is_pos(0, t);
    lemma_div_nonincreasing(0, t);
}

proof fn lemma_dot_nonneg(row: Seq<u64>, w: Seq<int>, k: int)
    requires
        0 <= k <= w.len() <= row.len(),
        forall|j: int| 0 <= j < w.len() ==> 0 <= #[trigger] w[j],
    ensures
        0 <= dot_prefix(row, w, k),
    decreases k,
{
    if k > 0 {
        lemma_dot_nonneg(row, w, k - 1);
        lemma_mul_nonnegative(row[k - 1] as int, w[k - 1]);
    }
}

proof fn lemma_dot_ge_term(row: Seq<u64>, w: Seq<int>, j: int, k: int)
    requires
        0 <= j < k <= w.len() <= row.len(),
        forall|m: int| 0 <= m < w.len() ==> 0 <= #[trigger] w[m],
    ensures
        dot_prefix(row, w, k) >= row[j] as int * w[j],
    decreases k,
{
    if j == k - 1 {
        lemma_dot_nonneg(row, w, k - 1);
    } else {
        lemma_dot_ge_term(row, w, j, k - 1);
        lemma_mul_nonnegative(row[k - 1] as int, w[k - 1]);
    }
}

/// A sufficient condition for one iteration's normalization total to be
/// positive, so the uniform fallback does not fire: some strategy still has
/// positive weight and a positive self-score.
pub proof fn lemma_positive_total(scores: Seq<Seq<u64>>, w: Seq<int>, i: int)
    requires
        w.len() == scores.len(),
        is_square(scores),
        wf_weights(w),
        0 <= i < w.len(),
        w[i] > 0,
        scores[i][i] > 0,
    ensures
        total_raw(scores, w) > 0,
{
    let n = w.len() as int;
    let u = raw_seq(scores, w);
    lemma_dot_ge_term(scores[i], w, i, n);
    assert(scores[i][i] as int * w[i] > 0) by (nonlinear_arith)
        requires
            scores[i][i] > 0,
            w[i] > 0,
    ;
    assert(u[i] == w[i] * dot(scores[i], w));
    assert(u[i] > 0) by (nonlinear_arith)
        requires
            u[i] == w[i] * dot(scores[i], w),
            w[i] > 0,
            dot(scores[i], w) > 0,
    ;
    assert forall|j: int| 0 <= j < u.len() implies 0 <= #[trigger] u[j] by {
        lemma_dot_nonneg(scores[j], w, n);
        lemma_mul_nonnegative(w[j], dot(scores[j], w));
    }
    lemma_sum_prefix_ge_each(u, n, i);
}

/// Every one of the first `k` iterations had a positive normalization total
/// (so the uniform fallback never fired).
pub open spec fn totals_positive(scores: Seq<Seq<u64>>, w: Seq<int>, k: nat) -> bool
    decreases k,
{
    k == 0 || (totals_positive(scores, w, (k - 1) as nat) && total_raw(
        scores,
        iterate(scores, w, (k - 1) as nat),
    ) > 0)
}

/// A strategy that scores zero against the whole roster is driven to weight
/// zero: after the first completed iteration its weight is exactly zero and
/// it stays zero for every later iteration, as long as each normalization
/// total stays positive.
pub proof fn lemma_zero_row_iterate(scores: Seq<Seq<u64>>, w: Seq<int>, i: int, k: nat)
    requires
        w.len() == scores.len(),
        is_square(scores),
        0 <= i < w.len(),
        zero_row(scores, i),
        totals_positive(scores, w, k),
        k >= 1,
    ensures
        iterate(scores, w, k)[i] == 0,
    decreases k,
{
    let prev = iterate(scores, w, (k - 1) as nat);
    lemma_iterate_len(scores, w, (k - 1) as nat);
    lemma_zero_row_next(scores, prev, i);
}

/// Iterating never changes the vector's length.
pub proof fn lemma_iterate_len(scores: Seq<Seq<u64>>, w: Seq<int>, k: nat)
    requires
        w.len() == scores.len(),
    ensures
        iterate(scores, w, k).len() == w.len(),
    decreases k,
{
    if k > 0 {
        lemma_iterate_len(scores, w, (k - 1) as nat);
    }
}

/// A matrix of row vectors seen as a matrix of sequences, element for
/// element.
pub proof fn lemma_matrix_view(m: Vec<Vec<u64>>)
    ensures
        m.deep_view().len() == m@.len(),
        forall|i: int| 0 <= i < m@.len() ==> #[trigger] m.deep_view()[i] == m@[i]@,
{
    assert forall|i: int| 0 <= i < m@.len() implies #[trigger] m.deep_view()[i] == m@[i]@ by {
        assert(m.deep_view()[i] =~= m@[i]@);
    }
}

/// Converts a score matrix into a normalized strength vector: `REPS`
/// completed power iterations from uniform initial weights (one per
/// strategy, not pre-normalized). The result is exactly the spec-level
/// iteration, so every entry is a well-formed fixed-point weight.
#[verifier::loop_isolation(false)]
pub fn page_rank(scores: &Vec<Vec<u64>>) -> (r: Vec<u64>)
    requires
        is_square(scores.deep_view()),
        scores@.len() <= MAX_PLAYERS,
        bounded_scores(scores.deep_view()),
    ensures
        r@.len() == scores@.len(),
        weights_match(
            r@,
            iterate(scores.deep_view(), init_weights(scores@.len() as int), REPS as nat),
        ),
        forall|i: int| 0 <= i < r@.len() ==> #[trigger] r@[i] <= WEIGHT_SCALE,
{
    let ghost sv = scores.deep_view();
    let ghost init = init_weights(scores@.len() as int);
    proof {
        lemma_matrix_view(*scores);
    }
    let n = scores.len();
    if n == 0 {
        let r: Vec<u64> = Vec::new();
        proof {
            lemma_iterate_len(sv, init, REPS as nat);
        }
        return r;
    }
    let mut weights: Vec<u64> = Vec::new();
    let mut i: usize = 0;
    while i < n
        invariant
            i <= n,
            weights@.len() == i,
            forall|a: int| 0 <= a < i ==> #[trigger] weights@[a] == WEIGHT_SCALE,
        decreases n - i,
    {
        weights.push(WEIGHT_SCALE);
        i = i + 1;
    }
    let mut rep: usize = 0;
    while rep < REPS
        invariant
            rep <= REPS,
            weights@.len() == n,
            weights_match(weights@, iterate(sv, init, rep as nat)),
        decreases REPS - rep,
    {
        let ghost w = iterate(sv, init, rep as nat);
        proof {
            lemma_iterate_wf(sv, init, rep as nat);
        }
        // the unnormalized next weights and their total
        let mut raw: Vec<u128> = Vec::new();
        let mut total: u128 = 0;
        let mut i: usize = 0;
        while i < n
            invariant
                i <= n,
                raw@.len() == i,
                forall|a: int| 0 <= a < i ==> (#[trigger] raw@[a]) as int == raw_seq(sv, w)[a],
                forall|a: int| 0 <= a < i ==> #[trigger] raw@[a] <= RAW_MAX,
                total as int == sum_prefix(raw_seq(sv, w), i as int),
                total <= TOTAL_MAX,
            decreases n - i,
        {
            let row = &scores[i];
            proof {
                assert(row@ == sv[i as int]);
            }
            let mut acc: u128 = 0;
            let mut j: usize = 0;
            while j < n
                invariant
                    j <= n,
                    acc as int == dot_prefix(sv[i as int], w, j as int),
                    acc <= DOT_MAX,
                decreases n - j,
            {
                proof {
                    lemma_mul_le(
                        row@[j as int] as int,
                        MAX_SCORE as int,
                        weights@[j as int] as int,
                        WEIGHT_SCALE as int,
                    );
                }
                let p = (row[j] as u128) * (weights[j] as u128);
                proof {
                    lemma_dot_bounds(sv[i as int], w, j + 1);
                    lemma_mul_inequality(
                        j + 1,
                        MAX_PLAYERS as int,
                        (MAX_SCORE * WEIGHT_SCALE) as int,
                    );
                }
                acc = acc + p;
                j = j + 1;
            }
            let wi = weights[i];
            proof {
                lemma_mul_le(wi as int, WEIGHT_SCALE as int, acc as int, DOT_MAX as int);
            }
            let rw = (wi as u128) * acc;
            proof {
                assert(raw_seq(sv, w)[i as int] == w[i as int] * dot(sv[i as int], w));
                lemma_raw_seq_bounds(sv, w);
                lemma_sum_prefix_bounded(raw_seq(sv, w), RAW_MAX as int, i + 1);
                lemma_mul_inequality(i + 1, MAX_PLAYERS as int, RAW_MAX as int);
            }
            raw.push(rw);
            total = total + rw;
            i = i + 1;
        }
        proof {
            assert(total as int == total_raw(sv, w));
        }
        let mut new_w: Vec<u64> = Vec::new();
        if total > 0 {
            let mut i: usize = 0;
            while i < n
                invariant
                    i <= n,
                    new_w@.len() == i,
                    total as int == total_raw(sv, w),
                    total > 0,
                    raw@.len() == n,
                    forall|a: int| 0 <= a < n ==> (#[trigger] raw@[a]) as int == raw_seq(sv, w)[a],
                    forall|a: int| 0 <= a < n ==> #[trigger] raw@[a] <= RAW_MAX,
                    forall|a: int|
                        0 <= a < i ==> (#[trigger] new_w@[a]) as int == next_weights(sv, w)[a],
                decreases n - i,
            {
                proof {
                    lemma_mul_le(
                        raw@[i as int] as int,
                        RAW_MAX as int,
                        WEIGHT_SCALE as int,
                        WEIGHT_SCALE as int,
                    );
                }
                let num = raw[i] * (WEIGHT_SCALE as u128);
                let q128 = num / total;
                proof {
                    let u = raw_seq(sv, w);
                    let t = total_raw(sv, w);
                    lemma_raw_seq_bounds(sv, w);
                    lemma_sum_prefix_ge_each(u, n as int, i as int);
                    lemma_mul_inequality(u[i as int], t, WEIGHT_SCALE as int);
                    lemma_div_is_ordered(u[i as int] * WEIGHT_SCALE, t * WEIGHT_SCALE, t);
                    lemma_div_multiples_vanish(WEIGHT_SCALE as int, t);
                    assert(q128 <= WEIGHT_SCALE);
                }
                let q = q128 as u64;
                new_w.push(q);
                i = i + 1;
            }
        } else {
            let c = WEIGHT_SCALE / (n as u64);
            proof {
                lemma_div_nonincreasing(WEIGHT_SCALE as int, n as int);
                lemma_div_pos_is_pos(WEIGHT_SCALE as int, n as int);
            }
            let mut i: usize = 0;
            while i < n
                invariant
                    i <= n,
                    new_w@.len() == i,
                    total as int == total_raw(sv, w),
                    !(total > 0),
                    c as int == WEIGHT_SCALE as int / n as int,
                    forall|a: int|
                        0 <= a < i ==> (#[trigger] new_w@[a]) as int == next_weights(sv, w)[a],
                decreases n - i,
            {
                new_w.push(c);
                i = i + 1;
            }
        }
        weights = new_w;
        proof {
            assert(iterate(sv, init, (rep + 1) as nat) == next_weights(sv, w));
        }
        rep = rep + 1;
    }
    proof {
        lemma_iterate_wf(sv, init, REPS as nat);
    }
    weights
}

} // verus!
