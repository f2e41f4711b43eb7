//! The strategy roster: each strategy maps its own clean history and the
//! opponent's noisy history (plus one uniform draw, for the stochastic one)
//! to the next move. Configuration is fixed at construction; no strategy
//! keeps hidden mutable state.

use vstd::prelude::*;
use crate::game::Move;
use crate::game::PROB_SCALE;

verus! {

/// Ignores both histories and cooperates with a fixed probability
/// `cooperate_prob / PROB_SCALE`, by an independent draw each turn.
#[derive(Clone, Copy, Debug, PartialEq, Eq, Structural)]
pub struct Constant {
    pub cooperate_prob: u64,
}

impl Constant {
    pub fn new(cooperate_prob: u64) -> (r: Constant)
        ensures
            r.cooperate_prob == cooperate_prob,
    {
        Constant { cooperate_prob }
    }

    /// Cooperates exactly when the turn's uniform draw falls below the
    /// configured probability.
    pub open spec fn spec_play(self, draw: u64) -> Move {
        if draw < self.cooperate_prob {
            Move::Cooperate
        } else {
            Move::Defect
        }
    }

    pub fn play(&self, draw: u64) -> (r: Move)
        ensures
            r == self.spec_play(draw),
    {
        if draw < self.cooperate_prob {
            Move::Cooperate
        } else {
            Move::Defect
        }
    }
}

/// Plays `default` for the first `delay` turns; thereafter inspects the most
/// recent `delay` observed moves and plays the opposite of `default` exactly
/// when all of them equal `default`.
#[derive(Clone, Copy, Debug, PartialEq, Eq, Structural)]
pub struct TitForTat {
    pub default: Move,
    pub delay: usize,
}

impl TitForTat {
    pub fn new(default: Move, delay: usize) -> (r: TitForTat)
        ensures
            r.default == default,
            r.delay == delay,
    {
        TitForTat { default, delay }
    }

    pub open spec fn spec_play(self, their_noisy: Seq<Move>) -> Move {
        if their_noisy.len() < self.delay {
            self.default
        } else if exists|k: int|
            their_noisy.len() - self.delay <= k < their_noisy.len()
                && #[trigger] their_noisy[k] != self.default {
            self.default
        } else {
            self.default.spec_opposite()
        }
    }

    pub fn play(&self, my_moves: &Vec<Move>, their_noisy_moves: &Vec<Move>) -> (r: Move)
        ensures
            r == self.spec_play(their_noisy_moves@),
    {
        let n = their_noisy_moves.len();
        if n < self.delay {
            self.default
        } else {
            let mut i: usize = n - self.delay;
            let mut found: bool = false;
            while i < n
                invariant
                    self.delay <= n,
                    n == their_noisy_moves@.len(),
                    n - self.delay <= i <= n,
                    found <==> exists|k: int|
                        n - self.delay <= k < i
                            && #[trigger] their_noisy_moves@[k] != self.default,
                decreases n - i,
            {
                if their_noisy_moves[i] != self.default {
                    found = true;
                }
                i = i + 1;
            }
            if found {
                self.default
            } else {
                self.default.opposite()
            }
        }
    }
}

/// The number of cooperations in a history.
pub open spec fn coop_count(s: Seq<Move>) -> int
    decreases s.len(),
{
    if s.len() == 0 {
        0
    } else {
        coop_count(s.drop_last()) + if s.last() == Move::Cooperate {
            1int
        } else {
            0int
        }
    }
}

pub proof fn lemma_coop_count_bounds(s: Seq<Move>)
    ensures
        0 <= coop_count(s) <= s.len(),
    decreases s.len(),
{
    if s.len() > 0 {
        lemma_coop_count_bounds(s.drop_last());
    }
}

/// Counts the cooperations in a history.
pub fn count_cooperations(moves: &Vec<Move>) -> (r: usize)
    ensures
        r == coop_count(moves@),
{
    let n = moves.len();
    let mut count: usize = 0;
    let mut i: usize = 0;
    while i < n
        invariant
            n == moves@.len(),
            0 <= i <= n,
            count == coop_count(moves@.take(i as int)),
            count <= i,
        decreases n - i,
    {
        proof {
            assert(moves@.take(i + 1).drop_last() =~= moves@.take(i as int));
            assert(moves@.take(i + 1).last() == moves@[i as int]);
        }
        if moves[i] == Move::Cooperate {
            count = count + 1;
        }
        i = i + 1;
    }
    proof {
        assert(moves@.take(n as int) =~= moves@);
    }
    count
}

/// Cooperates unconditionally for the first `start` turns; thereafter
/// cooperates exactly when the opponent's observed cooperation frequency over
/// its entire noisy history reaches `coop_thresh / PROB_SCALE`. An empty
/// history past the opening has no defined frequency and meets no threshold.
#[derive(Clone, Copy, Debug, PartialEq, Eq, Structural)]
pub struct Threshold {
    pub start: usize,
    pub coop_thresh: u64,
}

impl Threshold {
    pub fn new(start: usize, coop_thresh: u64) -> (r: Threshold)
        ensures
            r.start == start,
            r.coop_thresh == coop_thresh,
    {
        Threshold { start, coop_thresh }
    }

    pub open spec fn spec_play(self, their_noisy: Seq<Move>) -> Move {
        if their_noisy.len() < self.start {
            Move::Cooperate
        } else if their_noisy.len() == 0 {
            Move::Defect
        } else if coop_count(their_noisy) * PROB_SCALE
            >= self.coop_thresh * their_noisy.len() {
            Move::Cooperate
        } else {
            Move::Defect
        }
    }

    pub fn play(&self, my_moves: &Vec<Move>, their_noisy_moves: &Vec<Move>) -> (r: Move)
        ensures
            r == self.spec_play(their_noisy_moves@),
    {
        let n = their_noisy_moves.len();
        if n < self.start {
            Move::Cooperate
        } else if n == 0 {
            Move::Defect
        } else {
            let count = count_cooperations(their_noisy_moves);
            proof {
                lemma_coop_count_bounds(their_noisy_moves@);
                assert((self.coop_thresh as u128) * (n as u128) <= u128::MAX) by (nonlinear_arith)
                    requires
                        self.coop_thresh as u128 <= 0xffff_ffff_ffff_ffffu128,
                        n as u128 <= 0xffff_ffff_ffff_ffffu128;
            }
            if (count as u128) * (PROB_SCALE as u128)
                >= (self.coop_thresh as u128) * (n as u128) {
                Move::Cooperate
            } else {
                Move::Defect
            }
        }
    }
}

/// The closed roster of decision rules: one variant per strategy kind, each
/// carrying its own configuration.
#[derive(Clone, Copy, Debug, PartialEq, Eq, Structural)]
pub enum Strategy {
    Constant(Constant),
    TitForTat(TitForTat),
    Threshold(Threshold),
}

impl Strategy {
    /// The decision rule: the next move from one's own clean history, the
    /// opponent's noisy history, and one uniform draw (which only the
    /// stochastic `Constant` strategy reads).
    pub open spec fn spec_play(self, my: Seq<Move>, their_noisy: Seq<Move>, draw: u64) -> Move {
        match self {
            Strategy::Constant(c) => c.spec_play(draw),
            Strategy::TitForTat(t) => t.spec_play(their_noisy),
            Strategy::Threshold(t) => t.spec_play(their_noisy),
        }
    }

    pub fn play(&self, my_moves: &Vec<Move>, their_noisy_moves: &Vec<Move>, draw: u64) -> (r: Move)
        ensures
            r == self.spec_play(my_moves@, their_noisy_moves@, draw),
    {
        match self {
            Strategy::Constant(c) => c.play(draw),
            Strategy::TitForTat(t) => t.play(my_moves, their_noisy_moves),
            Strategy::Threshold(t) => t.play(my_moves, their_noisy_moves),
        }
    }
}

} // verus!
