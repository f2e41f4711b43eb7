//! The round simulator, the pairwise match runner and the tournament driver.
//!
//! Each exec function here draws its randomness through `rng::draw_below` and
//! is specified against a spec-level replay of the same computation: its
//! result is exactly what the spec simulation produces under the draws that
//! were actually made, stated as an existential over valid draw sequences.

use vstd::prelude::*;
use crate::game::Move;
use crate::game::PROB_SCALE;
use crate::game::PROB_HALF;
use crate::game::spec_score;
use crate::game::single_score;
use crate::game::lemma_score_bounds;
use crate::strategy::Strategy;
use crate::strategy::Constant;
use crate::rng::draw_below;

verus! {

/// Turns per round.
pub const ROUND_LENGTH: usize = 100;

/// Independent rounds per pairwise match.
pub const NUM_ROUNDS: usize = 100;

/// The four uniform draws one turn consumes: each player's decision draw and
/// the noise draw for each player's revealed move.
#[derive(Clone, Copy, Debug)]
pub struct TurnDraws {
    pub decide1: u64,
    pub decide2: u64,
    pub noise1: u64,
    pub noise2: u64,
}

/// Every component of every draw lies below the probability scale, as a
/// uniform draw does.
pub open spec fn valid_draws(draws: Seq<TurnDraws>) -> bool {
    forall|t: int|
        0 <= t < draws.len() ==> {
            &&& (#[trigger] draws[t]).decide1 < PROB_SCALE
            &&& draws[t].decide2 < PROB_SCALE
            &&& draws[t].noise1 < PROB_SCALE
            &&& draws[t].noise2 < PROB_SCALE
        }
}

/// The full state of one round after some number of turns: each player's
/// clean move history, each player's noisy (as observed by the opponent)
/// history, and the two accumulated scores.
pub struct RoundState {
    pub moves1: Seq<Move>,
    pub moves2: Seq<Move>,
    pub noisy1: Seq<Move>,
    pub noisy2: Seq<Move>,
    pub score1: int,
    pub score2: int,
}

/// The spec-level replay of a round: after `t` turns between `p1` and `p2`
/// at noise level `prob`, where turn `k` consumed the draws `draws[k]`.
/// Each turn, both strategies decide from their own clean history and the
/// opponent's noisy history; each decided move is independently corrupted by
/// the noise model; the payoff is computed from the two noisy moves; and all
/// four histories grow by one entry.
pub open spec fn round_state(
    p1: Strategy,
    p2: Strategy,
    prob: u64,
    draws: Seq<TurnDraws>,
    t: int,
) -> RoundState
    decreases t,
{
    if t <= 0 {
        RoundState {
            moves1: Seq::empty(),
            moves2: Seq::empty(),
            noisy1: Seq::empty(),
            noisy2: Seq::empty(),
            score1: 0,
            score2: 0,
        }
    } else {
        let s = round_state(p1, p2, prob, draws, t - 1);
        let d = draws[t - 1];
        let m1 = p1.spec_play(s.moves1, s.noisy2, d.decide1);
        let m2 = p2.spec_play(s.moves2, s.noisy1, d.decide2);
        let n1 = m1.spec_flip(prob, d.noise1);
        let n2 = m2.spec_flip(prob, d.noise2);
        RoundState {
            moves1: s.moves1.push(m1),
            moves2: s.moves2.push(m2),
            noisy1: s.noisy1.push(n1),
            noisy2: s.noisy2.push(n2),
            score1: s.score1 + spec_score(n1, n2).0,
            score2: s.score2 + spec_score(n1, n2).1,
        }
    }
}

/// The replay after `t` turns only reads the first `t` draws, so appending a
/// draw does not disturb it.
pub proof fn lemma_round_state_prefix(
    p1: Strategy,
    p2: Strategy,
    prob: u64,
    draws: Seq<TurnDraws>,
    d: TurnDraws,
    t: int,
)
    requires
        t <= draws.len(),
    ensures
        round_state(p1, p2, prob, draws.push(d), t) == round_state(p1, p2, prob, draws, t),
    decreases t,
{
    if t > 0 {
        lemma_round_state_prefix(p1, p2, prob, draws, d, t - 1);
        assert(draws.push(d)[t - 1] == draws[t - 1]);
    }
}

/// After `t` turns all four histories have length `t`, each score lies
/// between 0 and 3 per turn, and the two sides together take 2 to 4 points
/// per turn.
pub proof fn lemma_round_state_shape(
    p1: Strategy,
    p2: Strategy,
    prob: u64,
    draws: Seq<TurnDraws>,
    t: int,
)
    requires
        0 <= t,
    ensures
        round_state(p1, p2, prob, draws, t).moves1.len() == t,
        round_state(p1, p2, prob, draws, t).moves2.len() == t,
        round_state(p1, p2, prob, draws, t).noisy1.len() == t,
        round_state(p1, p2, prob, draws, t).noisy2.len() == t,
        0 <= round_state(p1, p2, prob, draws, t).score1 <= 3 * t,
        0 <= round_state(p1, p2, prob, draws, t).score2 <= 3 * t,
        2 * t <= round_state(p1, p2, prob, draws, t).score1 + round_state(
            p1,
            p2,
            prob,
            draws,
            t,
        ).score2 <= 4 * t,
    decreases t,
{
    if t > 0 {
        lemma_round_state_shape(p1, p2, prob, draws, t - 1);
        let s = round_state(p1, p2, prob, draws, t - 1);
        let d = draws[t - 1];
        let m1 = p1.spec_play(s.moves1, s.noisy2, d.decide1);
        let m2 = p2.spec_play(s.moves2, s.noisy1, d.decide2);
        lemma_score_bounds(m1.spec_flip(prob, d.noise1), m2.spec_flip(prob, d.noise2));
    }
}

/// Plays one round of `ROUND_LENGTH` turns between two strategies under one
/// noise level and returns the turn-summed score pair. The result is exactly
/// what the spec-level replay produces under the (valid) draws that were
/// made. In particular, at noise level zero two always-cooperate strategies
/// score 2 per turn each, and two always-defect strategies 1 per turn each.
pub fn play_round(p1: &Strategy, p2: &Strategy, prob: u64) -> (r: (u64, u64))
    requires
        prob <= PROB_HALF,
    ensures
        exists|draws: Seq<TurnDraws>|
            #[trigger] valid_draws(draws) && draws.len() == ROUND_LENGTH && r.0 == round_state(
                *p1,
                *p2,
                prob,
                draws,
                ROUND_LENGTH as int,
            ).score1 && r.1 == round_state(*p1, *p2, prob, draws, ROUND_LENGTH as int).score2,
        r.0 <= 3 * ROUND_LENGTH,
        r.1 <= 3 * ROUND_LENGTH,
        2 * ROUND_LENGTH <= r.0 + r.1,
        (always_cooperates(*p1) && always_cooperates(*p2) && prob == 0) ==> (r.0 == 2
            * ROUND_LENGTH && r.1 == 2 * ROUND_LENGTH),
        (always_defects(*p1) && always_defects(*p2) && prob == 0) ==> (r.0 == ROUND_LENGTH && r.1
            == ROUND_LENGTH),
{
    let mut moves1: Vec<Move> = Vec::new();
    let mut moves2: Vec<Move> = Vec::new();
    let mut noisy1: Vec<Move> = Vec::new();
    let mut noisy2: Vec<Move> = Vec::new();
    let mut score1: u64 = 0;
    let mut score2: u64 = 0;
    let ghost mut draws: Seq<TurnDraws> = Seq::empty();
    let mut t: usize = 0;
    while t < ROUND_LENGTH
        invariant
            prob <= PROB_HALF,
            t <= ROUND_LENGTH,
            draws.len() == t,
            valid_draws(draws),
            moves1@ == round_state(*p1, *p2, prob, draws, t as int).moves1,
            moves2@ == round_state(*p1, *p2, prob, draws, t as int).moves2,
            noisy1@ == round_state(*p1, *p2, prob, draws, t as int).noisy1,
            noisy2@ == round_state(*p1, *p2, prob, draws, t as int).noisy2,
            score1 == round_state(*p1, *p2, prob, draws, t as int).score1,
            score2 == round_state(*p1, *p2, prob, draws, t as int).score2,
        decreases ROUND_LENGTH - t,
    {
        proof {
            lemma_round_state_shape(*p1, *p2, prob, draws, t as int);
        }
        let d1 = draw_below(PROB_SCALE);
        let d2 = draw_below(PROB_SCALE);
        let m1 = p1.play(&moves1, &noisy2, d1);
        let m2 = p2.play(&moves2, &noisy1, d2);
        let f1 = draw_below(PROB_SCALE);
        let f2 = draw_below(PROB_SCALE);
        let n1 = m1.flip_given(prob, f1);
        let n2 = m2.flip_given(prob, f2);
        let (s1, s2) = single_score(n1, n2);
        proof {
            lemma_score_bounds(n1, n2);
            let d = TurnDraws { decide1: d1, decide2: d2, noise1: f1, noise2: f2 };
            lemma_round_state_prefix(*p1, *p2, prob, draws, d, t as int);
            draws = draws.push(d);
            assert(draws[t as int] == d);
        }
        score1 = score1 + s1;
        score2 = score2 + s2;
        moves1.push(m1);
        moves2.push(m2);
        noisy1.push(n1);
        noisy2.push(n2);
        t = t + 1;
    }
    proof {
        lemma_round_state_shape(*p1, *p2, prob, draws, ROUND_LENGTH as int);
        if always_cooperates(*p1) && always_cooperates(*p2) && prob == 0 {
            lemma_mutual_cooperation(*p1, *p2, draws, ROUND_LENGTH as int);
        }
        if always_defects(*p1) && always_defects(*p2) && prob == 0 {
            lemma_mutual_defection(*p1, *p2, draws, ROUND_LENGTH as int);
        }
        assert(valid_draws(draws) && draws.len() == ROUND_LENGTH && score1 == round_state(
            *p1,
            *p2,
            prob,
            draws,
            ROUND_LENGTH as int,
        ).score1 && score2 == round_state(*p1, *p2, prob, draws, ROUND_LENGTH as int).score2);
    }
    (score1, score2)
}

/// A strategy that cooperates on every draw a uniform source can make.
pub open spec fn always_cooperates(p: Strategy) -> bool {
    p matches Strategy::Constant(c) && c.cooperate_prob >= PROB_SCALE
}

/// A strategy that defects on every draw.
pub open spec fn always_defects(p: Strategy) -> bool {
    p matches Strategy::Constant(c) && c.cooperate_prob == 0
}

/// At noise level zero, a round between two always-cooperate strategies is
/// mutual cooperation on every turn, whatever the draws: each side scores 2
/// per turn.
pub proof fn lemma_mutual_cooperation(p1: Strategy, p2: Strategy, draws: Seq<TurnDraws>, t: int)
    requires
        always_cooperates(p1),
        always_cooperates(p2),
        valid_draws(draws),
        0 <= t <= draws.len(),
    ensures
        round_state(p1, p2, 0, draws, t).score1 == 2 * t,
        round_state(p1, p2, 0, draws, t).score2 == 2 * t,
    decreases t,
{
    if t > 0 {
        lemma_mutual_cooperation(p1, p2, draws, t - 1);
    }
}

/// Scores that one round between `p1` and `p2` at noise level `prob` can
/// produce: some valid draw sequence replays to exactly these two totals.
pub open spec fn round_outcome(p1: Strategy, p2: Strategy, prob: u64, s1: int, s2: int) -> bool {
    exists|draws: Seq<TurnDraws>|
        #[trigger] valid_draws(draws) && draws.len() == ROUND_LENGTH && s1 == round_state(
            p1,
            p2,
            prob,
            draws,
            ROUND_LENGTH as int,
        ).score1 && s2 == round_state(p1, p2, prob, draws, ROUND_LENGTH as int).score2
}

/// One record per round of a match: the round's noise level and the two
/// scores it produced. A valid match history has every noise level below one
/// half and every score pair producible by that round.
pub open spec fn valid_rounds(p1: Strategy, p2: Strategy, rounds: Seq<(u64, int, int)>) -> bool {
    forall|t: int|
        0 <= t < rounds.len() ==> {
            &&& (#[trigger] rounds[t]).0 < PROB_HALF
            &&& round_outcome(p1, p2, rounds[t].0, rounds[t].1, rounds[t].2)
        }
}

/// The first player's total over a match history.
pub open spec fn sum_scores1(rounds: Seq<(u64, int, int)>) -> int
    decreases rounds.len(),
{
    if rounds.len() == 0 {
        0
    } else {
        sum_scores1(rounds.drop_last()) + rounds.last().1
    }
}

/// The second player's total over a match history.
pub open spec fn sum_scores2(rounds: Seq<(u64, int, int)>) -> int
    decreases rounds.len(),
{
    if rounds.len() == 0 {
        0
    } else {
        sum_scores2(rounds.drop_last()) + rounds.last().2
    }
}

pub proof fn lemma_sum_scores_push(rounds: Seq<(u64, int, int)>, x: (u64, int, int))
    ensures
        sum_scores1(rounds.push(x)) == sum_scores1(rounds) + x.1,
        sum_scores2(rounds.push(x)) == sum_scores2(rounds) + x.2,
{
    assert(rounds.push(x).drop_last() =~= rounds);
    assert(rounds.push(x).last() == x);
}

/// Totals that one pairwise match between `p1` and `p2` can produce:
/// `NUM_ROUNDS` independent rounds, each under a fresh noise level below one
/// half, with both totals summed from the same rounds.
pub open spec fn pair_outcome(p1: Strategy, p2: Strategy, s1: int, s2: int) -> bool {
    exists|rounds: Seq<(u64, int, int)>|
        #[trigger] valid_rounds(p1, p2, rounds) && rounds.len() == NUM_ROUNDS && s1 == sum_scores1(
            rounds,
        ) && s2 == sum_scores2(rounds)
}

/// Runs `NUM_ROUNDS` independent rounds between one ordered pair, drawing a
/// fresh noise level uniform in `[0, one half)` for each round, and returns
/// the summed score pair: one possible match outcome, with both sides' totals
/// taken from the same rounds.
pub fn play_pair(p1: &Strategy, p2: &Strategy) -> (r: (u64, u64))
    ensures
        pair_outcome(*p1, *p2, r.0 as int, r.1 as int),
        r.0 <= 3 * ROUND_LENGTH * NUM_ROUNDS,
        r.1 <= 3 * ROUND_LENGTH * NUM_ROUNDS,
{
    let mut score1: u64 = 0;
    let mut score2: u64 = 0;
    let ghost mut rounds: Seq<(u64, int, int)> = Seq::empty();
    let mut k: usize = 0;
    while k < NUM_ROUNDS
        invariant
            k <= NUM_ROUNDS,
            rounds.len() == k,
            valid_rounds(*p1, *p2, rounds),
            score1 == sum_scores1(rounds),
            score2 == sum_scores2(rounds),
            score1 <= 3 * ROUND_LENGTH * k,
            score2 <= 3 * ROUND_LENGTH * k,
        decreases NUM_ROUNDS - k,
    {
        let prob = draw_below(PROB_HALF);
        let (a, b) = play_round(p1, p2, prob);
        proof {
            let x = (prob, a as int, b as int);
            assert(round_outcome(*p1, *p2, prob, a as int, b as int));
            lemma_sum_scores_push(rounds, x);
            rounds = rounds.push(x);
            assert(rounds[k as int] == x);
        }
        proof {
            // the running totals stay far below u64::MAX: 300 points a round
            assert(a <= 300 && b <= 300 && score1 <= 300 * k && score2 <= 300 * k);
        }
        score1 = score1 + a;
        score2 = score2 + b;
        k = k + 1;
    }
    (score1, score2)
}

/// Totals that self-play can put in a diagonal cell: the kept cell is the
/// second component of one self-match outcome.
pub open spec fn self_play_outcome(p: Strategy, cell: int) -> bool {
    exists|s1: int| #[trigger] pair_outcome(p, p, s1, cell)
}

/// A score matrix that one tournament over this roster can produce: it is
/// square; every entry is bounded by the most a match can pay; every mirrored
/// off-diagonal cell pair `(i, j)` / `(j, i)` carries the two sides' totals
/// of the one match run between players `i` and `j`; and every diagonal cell
/// carries one side of one self-play match.
pub open spec fn tournament_outcome(players: Seq<Strategy>, scores: Seq<Seq<u64>>) -> bool {
    &&& scores.len() == players.len()
    &&& forall|i: int| 0 <= i < players.len() ==> (#[trigger] scores[i]).len() == players.len()
    &&& forall|i: int, j: int|
        0 <= i < players.len() && 0 <= j < players.len() ==> #[trigger] scores[i][j] <= 3
            * ROUND_LENGTH * NUM_ROUNDS
    &&& forall|i: int, j: int|
        0 <= j < i < players.len() ==> pair_outcome(
            players[i],
            players[j],
            #[trigger] scores[i][j] as int,
            scores[j][i] as int,
        )
    &&& forall|i: int|
        0 <= i < players.len() ==> self_play_outcome(players[i], (#[trigger] scores[i])[i] as int)
}

/// Runs the pairwise match runner once for every unordered pair of players
/// (self-play included) and mirrors each result into both cells of the score
/// matrix, so `scores[i][j]` is player `i`'s total against player `j` and the
/// two mirrored cells always come from the same match run.
pub fn play_all_pairs(players: &Vec<Strategy>) -> (scores: Vec<Vec<u64>>)
    ensures
        tournament_outcome(players@, scores.deep_view()),
{
    let n = players.len();
    let mut results: Vec<Vec<(u64, u64)>> = Vec::new();
    let mut i: usize = 0;
    while i < n
        invariant
            n == players@.len(),
            i <= n,
            results@.len() == i,
            forall|a: int| 0 <= a < i ==> (#[trigger] results@[a])@.len() == a + 1,
            forall|a: int, b: int|
                0 <= b <= a < i ==> {
                    &&& pair_outcome(
                        players@[a],
                        players@[b],
                        (#[trigger] results@[a]@[b]).0 as int,
                        results@[a]@[b].1 as int,
                    )
                    &&& results@[a]@[b].0 <= 3 * ROUND_LENGTH * NUM_ROUNDS
                    &&& results@[a]@[b].1 <= 3 * ROUND_LENGTH * NUM_ROUNDS
                },
        decreases n - i,
    {
        let mut row: Vec<(u64, u64)> = Vec::new();
        let mut j: usize = 0;
        while j < i + 1
            invariant
                n == players@.len(),
                i < n,
                j <= i + 1,
                row@.len() == j,
                forall|b: int|
                    0 <= b < j ==> {
                        &&& pair_outcome(
                            players@[i as int],
                            players@[b],
                            (#[trigger] row@[b]).0 as int,
                            row@[b].1 as int,
                        )
                        &&& row@[b].0 <= 3 * ROUND_LENGTH * NUM_ROUNDS
                        &&& row@[b].1 <= 3 * ROUND_LENGTH * NUM_ROUNDS
                    },
            decreases i + 1 - j,
        {
            let pair = play_pair(&players[i], &players[j]);
            row.push(pair);
            j = j + 1;
        }
        results.push(row);
        i = i + 1;
    }
    let mut scores: Vec<Vec<u64>> = Vec::new();
    let mut i: usize = 0;
    while i < n
        invariant
            n == players@.len(),
            i <= n,
            results@.len() == n,
            forall|a: int| 0 <= a < n ==> (#[trigger] results@[a])@.len() == a + 1,
            forall|a: int, b: int|
                0 <= b <= a < n ==> {
                    &&& pair_outcome(
                        players@[a],
                        players@[b],
                        (#[trigger] results@[a]@[b]).0 as int,
                        results@[a]@[b].1 as int,
                    )
                    &&& results@[a]@[b].0 <= 3 * ROUND_LENGTH * NUM_ROUNDS
                    &&& results@[a]@[b].1 <= 3 * ROUND_LENGTH * NUM_ROUNDS
                },
            scores@.len() == i,
            forall|a: int| 0 <= a < i ==> (#[trigger] scores@[a])@.len() == n,
            forall|a: int, b: int|
                0 <= a < i && 0 <= b < n ==> #[trigger] scores@[a]@[b] == (if b < a {
                    results@[a]@[b].0
                } else {
                    results@[b]@[a].1
                }),
        decreases n - i,
    {
        let mut row: Vec<u64> = Vec::new();
        let mut j: usize = 0;
        while j < n
            invariant
                n == players@.len(),
                i < n,
                j <= n,
                results@.len() == n,
                forall|a: int| 0 <= a < n ==> (#[trigger] results@[a])@.len() == a + 1,
                row@.len() == j,
                forall|b: int|
                    0 <= b < j ==> #[trigger] row@[b] == (if b < i {
                        results@[i as int]@[b].0
                    } else {
                        results@[b]@[i as int].1
                    }),
            decreases n - j,
        {
            let v: u64 = if j < i {
                results[i][j].0
            } else {
                results[j][i].1
            };
            row.push(v);
            j = j + 1;
        }
        scores.push(row);
        i = i + 1;
    }
    proof {
        let ps = players@;
        let sv = scores.deep_view();
        assert forall|a: int| 0 <= a < ps.len() implies (#[trigger] sv[a]).len() == ps.len() by {
            assert(sv[a] =~= scores@[a]@);
        }
        assert forall|a: int, b: int|
            0 <= a < ps.len() && 0 <= b < ps.len() implies #[trigger] sv[a][b] <= 3 * ROUND_LENGTH
            * NUM_ROUNDS by {
            assert(sv[a][b] == scores@[a]@[b]);
        }
        assert forall|a: int, b: int| 0 <= b < a < ps.len() implies pair_outcome(
            ps[a],
            ps[b],
            #[trigger] sv[a][b] as int,
            sv[b][a] as int,
        ) by {
            assert(sv[a][b] == scores@[a]@[b]);
            assert(sv[b][a] == scores@[b]@[a]);
            assert(scores@[a]@[b] == results@[a]@[b].0);
            assert(scores@[b]@[a] == results@[a]@[b].1);
        }
        assert forall|a: int| 0 <= a < ps.len() implies self_play_outcome(
            ps[a],
            (#[trigger] sv[a])[a] as int,
        ) by {
            assert(sv[a][a] == scores@[a]@[a]);
            assert(scores@[a]@[a] == results@[a]@[a].1);
            assert(pair_outcome(
                ps[a],
                ps[a],
                results@[a]@[a].0 as int,
                results@[a]@[a].1 as int,
            ));
        }
    }
    scores
}

/// At noise level zero, a round between two always-defect strategies is
/// mutual defection on every turn, whatever the draws: each side scores 1
/// per turn.
pub proof fn lemma_mutual_defection(p1: Strategy, p2: Strategy, draws: Seq<TurnDraws>, t: int)
    requires
        always_defects(p1),
        always_defects(p2),
        valid_draws(draws),
        0 <= t <= draws.len(),
    ensures
        round_state(p1, p2, 0, draws, t).score1 == 1 * t,
        round_state(p1, p2, 0, draws, t).score2 == 1 * t,
    decreases t,
{
    if t > 0 {
        lemma_mutual_defection(p1, p2, draws, t - 1);
    }
}

} // verus!
