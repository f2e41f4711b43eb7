//! The experiment aggregator: runs the full tournament-plus-ranking
//! combination several independent times, sums the weight vectors
//! elementwise, and reports the roster sorted descending by aggregated
//! weight (ties keep roster order).

use vstd::prelude::*;
use crate::strategy::Strategy;
use crate::sim::play_all_pairs;
use crate::sim::tournament_outcome;
use crate::sim::ROUND_LENGTH;
use crate::sim::NUM_ROUNDS;
use crate::rank::page_rank;
use crate::rank::iterate;
use crate::rank::init_weights;
use crate::rank::weights_match;
use crate::rank::wf_weights;
use crate::rank::lemma_matrix_view;
use crate::rank::lemma_iterate_wf;
use crate::rank::bounded_scores;
use crate::rank::MAX_PLAYERS;
use crate::rank::MAX_SCORE;
use crate::rank::WEIGHT_SCALE;
use crate::rank::REPS;

verus! {

/// Independent trials per experiment.
pub const PLAYS: usize = 20;

/// A weight vector that one full trial over this roster can produce: the
/// ranking iteration applied to some tournament outcome of the roster.
pub open spec fn trial_outcome(players: Seq<Strategy>, w: Seq<int>) -> bool {
    exists|m: Seq<Seq<u64>>|
        #[trigger] tournament_outcome(players, m) && w == iterate(
            m,
            init_weights(players.len() as int),
            REPS as nat,
        )
}

/// Every recorded trial is a possible trial of this roster.
pub open spec fn trials_valid(players: Seq<Strategy>, ws: Seq<Seq<int>>) -> bool {
    forall|t: int| 0 <= t < ws.len() ==> trial_outcome(players, #[trigger] ws[t])
}

/// The elementwise sum of the trial weight vectors at position `i`.
pub open spec fn sum_at(ws: Seq<Seq<int>>, i: int) -> int
    decreases ws.len(),
{
    if ws.len() == 0 {
        0
    } else {
        sum_at(ws.drop_last(), i) + ws.last()[i]
    }
}

/// An aggregate that one whole experiment over this roster can produce:
/// `PLAYS` independent trials, summed elementwise (not re-normalized).
pub open spec fn experiment_outcome(players: Seq<Strategy>, agg: Seq<int>) -> bool {
    exists|ws: Seq<Seq<int>>|
        #[trigger] trials_valid(players, ws) && ws.len() == PLAYS && agg.len() == players.len()
            && forall|i: int| 0 <= i < agg.len() ==> #[trigger] agg[i] == sum_at(ws, i)
}

/// `p` strictly precedes `q` in the output order: higher weight first, and
/// among equal weights the lower roster index first.
pub open spec fn rank_before(p: (usize, u64), q: (usize, u64)) -> bool {
    p.1 > q.1 || (p.1 == q.1 && p.0 < q.0)
}

/// Strictly ordered ranking output: descending by weight, and among equal
/// weights ascending by roster index, so ties keep roster order.
pub open spec fn sorted_ranking(r: Seq<(usize, u64)>) -> bool {
    forall|a: int, b: int|
        0 <= a < b < r.len() ==> rank_before(#[trigger] r[a], #[trigger] r[b])
}

/// Inserting `x` at the first position whose entry it outranks keeps the
/// ranking strictly ordered, provided everything before that position
/// outranks `x`.
proof fn lemma_sorted_insert(s: Seq<(usize, u64)>, x: (usize, u64), pos: int)
    requires
        0 <= pos <= s.len(),
        sorted_ranking(s),
        forall|m: int| 0 <= m < pos ==> rank_before(#[trigger] s[m], x),
        pos < s.len() ==> s[pos].1 < x.1,
    ensures
        sorted_ranking(s.insert(pos, x)),
{
    let t = s.insert(pos, x);
    assert forall|a: int, b: int|
        0 <= a < b < t.len() implies rank_before(#[trigger] t[a], #[trigger] t[b]) by {
        if a < pos {
            assert(t[a] == s[a]);
        }
        if b < pos {
            assert(t[b] == s[b]);
        }
        if a > pos {
            assert(t[a] == s[a - 1]);
        }
        if b > pos {
            assert(t[b] == s[b - 1]);
        }
        if a == pos {
            assert(t[a] == x);
        }
        if b == pos {
            assert(t[b] == x);
        }
        if a == pos && b > pos {
            assert(s[pos].1 < x.1);
            if b - 1 > pos {
                assert(rank_before(s[pos as int], s[b - 1]));
            }
        }
    }
}

/// Some entry of `r` pairs roster index `i` with its aggregated weight
/// `agg[i]`.
pub open spec fn pairs_with(r: Seq<(usize, u64)>, agg: Seq<int>, i: int) -> bool {
    exists|k: int| 0 <= k < r.len() && (#[trigger] r[k]).0 == i && r[k].1 as int == agg[i]
}

/// `r` ranks exactly the aggregate `agg`: it pairs every roster index with
/// its aggregated weight, in descending weight order with roster-stable
/// ties.
pub open spec fn ranking_of(r: Seq<(usize, u64)>, agg: Seq<int>) -> bool {
    &&& r.len() == agg.len()
    &&& sorted_ranking(r)
    &&& forall|i: int| 0 <= i < agg.len() ==> #[trigger] pairs_with(r, agg, i)
}

proof fn lemma_sum_at_push(ws: Seq<Seq<int>>, w: Seq<int>, i: int)
    ensures
        sum_at(ws.push(w), i) == sum_at(ws, i) + w[i],
{
    assert(ws.push(w).drop_last() =~= ws);
    assert(ws.push(w).last() == w);
}

/// Sorts roster pairs (entry `a` carries roster index `a`) descending by
/// weight by stable insertion: pairs with equal weights keep roster order.
/// The result holds exactly the input pairs.
pub fn sort_ranked(pairs: &Vec<(usize, u64)>) -> (r: Vec<(usize, u64)>)
    requires
        forall|a: int| 0 <= a < pairs@.len() ==> (#[trigger] pairs@[a]).0 == a,
    ensures
        r@.len() == pairs@.len(),
        sorted_ranking(r@),
        forall|k: int| 0 <= k < r@.len() ==> pairs@.contains(#[trigger] r@[k]),
        forall|a: int| 0 <= a < pairs@.len() ==> r@.contains(#[trigger] pairs@[a]),
{
    let mut out: Vec<(usize, u64)> = Vec::new();
    // ghost position maps: where each output entry came from, and where each
    // consumed input entry went
    let ghost mut fwd: Seq<int> = Seq::empty();
    let ghost mut inv: Seq<int> = Seq::empty();
    let mut idx: usize = 0;
    while idx < pairs.len()
        invariant
            idx <= pairs@.len(),
            out@.len() == idx,
            fwd.len() == idx,
            inv.len() == idx,
            sorted_ranking(out@),
            forall|a: int| 0 <= a < pairs@.len() ==> (#[trigger] pairs@[a]).0 == a,
            forall|k: int|
                0 <= k < idx ==> 0 <= #[trigger] fwd[k] < idx && out@[k] == pairs@[fwd[k]],
            forall|a: int|
                0 <= a < idx ==> 0 <= #[trigger] inv[a] < idx && out@[inv[a]] == pairs@[a],
        decreases pairs@.len() - idx,
    {
        let x = pairs[idx];
        let mut pos: usize = 0;
        while pos < out.len() && out[pos].1 >= x.1
            invariant
                pos <= out@.len(),
                forall|m: int| 0 <= m < pos ==> (#[trigger] out@[m]).1 >= x.1,
            decreases out@.len() - pos,
        {
            pos = pos + 1;
        }
        let ghost old_out = out@;
        proof {
            // everything before the insertion point outranks x: among equal
            // weights its roster index is smaller, since x carries index idx
            assert forall|m: int| 0 <= m < pos implies rank_before(#[trigger] old_out[m], x) by {
                assert(old_out[m] == pairs@[fwd[m]]);
                assert(old_out[m].0 == fwd[m]);
                assert(x == pairs@[idx as int]);
            }
            lemma_sorted_insert(old_out, x, pos as int);
        }
        out.insert(pos, x);
        proof {
            let p = pos as int;
            let new_fwd = Seq::new(
                (idx + 1) as nat,
                |k: int|
                    if k < p {
                        fwd[k]
                    } else if k == p {
                        idx as int
                    } else {
                        fwd[k - 1]
                    },
            );
            let new_inv = Seq::new(
                (idx + 1) as nat,
                |a: int|
                    if a == idx {
                        p
                    } else if inv[a] < p {
                        inv[a]
                    } else {
                        inv[a] + 1
                    },
            );
            assert(out@ == old_out.insert(p, x));
            assert forall|k: int|
                0 <= k < idx + 1 implies 0 <= #[trigger] new_fwd[k] < idx + 1 && out@[k]
                == pairs@[new_fwd[k]] by {
                if k < p {
                    assert(out@[k] == old_out[k]);
                } else if k == p {
                    assert(out@[k] == x);
                } else {
                    assert(out@[k] == old_out[k - 1]);
                }
            }
            assert forall|a: int|
                0 <= a < idx + 1 implies 0 <= #[trigger] new_inv[a] < idx + 1 && out@[new_inv[a]]
                == pairs@[a] by {
                if a == idx {
                    assert(out@[p] == x);
                } else if inv[a] < p {
                    assert(out@[inv[a]] == old_out[inv[a]]);
                } else {
                    assert(out@[inv[a] + 1] == old_out[inv[a]]);
                }
            }
            fwd = new_fwd;
            inv = new_inv;
        }
        idx = idx + 1;
    }
    proof {
        assert forall|k: int| 0 <= k < out@.len() implies pairs@.contains(#[trigger] out@[k]) by {
            assert(out@[k] == pairs@[fwd[k]]);
        }
        assert forall|a: int| 0 <= a < pairs@.len() implies out@.contains(#[trigger] pairs@[a]) by {
            assert(out@[inv[a]] == pairs@[a]);
        }
    }
    out
}

/// Runs the tournament-plus-ranking combination `PLAYS` independent times,
/// sums the weight vectors elementwise, and returns each roster index paired
/// with its aggregated weight, sorted descending with roster-stable ties.
pub fn run_experiment(players: &Vec<Strategy>) -> (r: Vec<(usize, u64)>)
    requires
        1 <= players@.len() <= MAX_PLAYERS,
    ensures
        r@.len() == players@.len(),
        exists|agg: Seq<int>| #[trigger] experiment_outcome(players@, agg) && ranking_of(r@, agg),
{
    let n = players.len();
    let mut agg: Vec<u64> = Vec::new();
    let mut i: usize = 0;
    while i < n
        invariant
            i <= n,
            agg@.len() == i,
            forall|a: int| 0 <= a < i ==> #[trigger] agg@[a] == 0,
        decreases n - i,
    {
        agg.push(0);
        i = i + 1;
    }
    let ghost mut ws: Seq<Seq<int>> = Seq::empty();
    let mut t: usize = 0;
    while t < PLAYS
        invariant
            n == players@.len(),
            1 <= n <= MAX_PLAYERS,
            t <= PLAYS,
            ws.len() == t,
            trials_valid(players@, ws),
            agg@.len() == n,
            forall|a: int| 0 <= a < n ==> #[trigger] agg@[a] as int == sum_at(ws, a),
            forall|a: int| 0 <= a < n ==> #[trigger] agg@[a] <= t * WEIGHT_SCALE,
        decreases PLAYS - t,
    {
        let scores = play_all_pairs(players);
        let ghost m = scores.deep_view();
        proof {
            lemma_matrix_view(scores);
            assert forall|a: int, b: int|
                0 <= a < m.len() && 0 <= b < m.len() implies #[trigger] m[a][b] <= MAX_SCORE by {
                assert(m[a][b] <= 3 * ROUND_LENGTH * NUM_ROUNDS);
            }
            assert(bounded_scores(m));
        }
        let w = page_rank(&scores);
        let ghost wt = iterate(m, init_weights(n as int), REPS as nat);
        proof {
            lemma_iterate_wf(m, init_weights(n as int), REPS as nat);
            assert(trial_outcome(players@, wt));
        }
        let mut new_agg: Vec<u64> = Vec::new();
        let mut i: usize = 0;
        while i < n
            invariant
                n == players@.len(),
                i <= n,
                t < PLAYS,
                agg@.len() == n,
                w@.len() == n,
                weights_match(w@, wt),
                wf_weights(wt),
                forall|a: int| 0 <= a < n ==> #[trigger] agg@[a] as int == sum_at(ws, a),
                forall|a: int| 0 <= a < n ==> #[trigger] agg@[a] <= t * WEIGHT_SCALE,
                new_agg@.len() == i,
                forall|a: int|
                    0 <= a < i ==> #[trigger] new_agg@[a] as int == sum_at(ws, a) + wt[a],
                forall|a: int| 0 <= a < i ==> #[trigger] new_agg@[a] <= (t + 1) * WEIGHT_SCALE,
            decreases n - i,
        {
            new_agg.push(agg[i] + w[i]);
            i = i + 1;
        }
        agg = new_agg;
        proof {
            assert forall|a: int|
                0 <= a < n implies #[trigger] agg@[a] as int == sum_at(ws.push(wt), a) by {
                lemma_sum_at_push(ws, wt, a);
            }
            ws = ws.push(wt);
        }
        t = t + 1;
    }
    let mut pairs: Vec<(usize, u64)> = Vec::new();
    let mut i: usize = 0;
    while i < n
        invariant
            i <= n,
            agg@.len() == n,
            pairs@.len() == i,
            forall|a: int| 0 <= a < i ==> #[trigger] pairs@[a] == (a as usize, agg@[a]),
        decreases n - i,
    {
        pairs.push((i, agg[i]));
        i = i + 1;
    }
    proof {
        assert forall|a: int| 0 <= a < pairs@.len() implies (#[trigger] pairs@[a]).0 == a by {
            assert(pairs@[a] == (a as usize, agg@[a]));
        }
    }
    let r = sort_ranked(&pairs);
    proof {
        let agg_int = Seq::new(players@.len(), |a: int| agg@[a] as int);
        assert forall|a: int| 0 <= a < agg_int.len() implies #[trigger] agg_int[a] == sum_at(
            ws,
            a,
        ) by {
            assert(agg_int[a] == agg@[a] as int);
        }
        assert(experiment_outcome(players@, agg_int));
        assert forall|a: int| 0 <= a < agg_int.len() implies #[trigger] pairs_with(
            r@,
            agg_int,
            a,
        ) by {
            assert(pairs@[a] == (a as usize, agg@[a]));
            assert(r@.contains(pairs@[a]));
            let k0 = choose|k: int| 0 <= k < r@.len() && r@[k] == pairs@[a];
            assert(r@[k0].0 == a && r@[k0].1 as int == agg_int[a]);
        }
        assert(ranking_of(r@, agg_int));
    }
    r
}

} // verus!
