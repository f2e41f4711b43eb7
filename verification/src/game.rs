//! The move alphabet, the payoff table for one encounter, and the noise
//! model that may corrupt a revealed move.

use vstd::prelude::*;

verus! {

/// Probabilities are fixed-point fractions of this scale: a probability `p`
/// in `[0, 1]` is carried as the integer `p * PROB_SCALE`.
pub const PROB_SCALE: u64 = 1_000_000;

/// The largest admissible noise level, one half: corruption may never be more
/// likely than fidelity.
pub const PROB_HALF: u64 = 500_000;

/// One of the two symbols a player reveals per turn.
#[derive(Clone, Copy, Debug, Eq, PartialEq, Structural)]
pub enum Move {
    Cooperate,
    Defect,
}

impl Move {
    /// The other symbol of the two-move alphabet.
    pub open spec fn spec_opposite(self) -> Move {
        match self {
            Move::Cooperate => Move::Defect,
            Move::Defect => Move::Cooperate,
        }
    }

    #[verifier::when_used_as_spec(spec_opposite)]
    pub fn opposite(self) -> (r: Move)
        ensures
            r == self.spec_opposite(),
    {
        match self {
            Move::Cooperate => Move::Defect,
            Move::Defect => Move::Cooperate,
        }
    }

    /// What the noise model does to a move, given the uniform draw that was
    /// made for it: the move is flipped exactly when the draw falls below the
    /// corruption probability.
    pub open spec fn spec_flip(self, prob: u64, draw: u64) -> Move {
        if draw < prob {
            self.spec_opposite()
        } else {
            self
        }
    }

    /// The deterministic core of the noise model: applies an already-made
    /// uniform draw to this move.
    pub fn flip_given(self, prob: u64, draw: u64) -> (r: Move)
        requires
            prob <= PROB_HALF,
        ensures
            r == self.spec_flip(prob, draw),
    {
        if draw < prob {
            self.opposite()
        } else {
            self
        }
    }

    /// Corrupts this move with probability `prob / PROB_SCALE`, drawing one
    /// fresh uniform value. At noise level zero the move always comes back
    /// unchanged; at any level the result is this move or its opposite.
    pub fn flip(self, prob: u64) -> (r: Move)
        requires
            prob <= PROB_HALF,
        ensures
            exists|draw: u64| draw < PROB_SCALE && r == #[trigger] self.spec_flip(prob, draw),
            prob == 0 ==> r == self,
            r == self || r == self.spec_opposite(),
    {
        let draw = crate::rng::draw_below(PROB_SCALE);
        self.flip_given(prob, draw)
    }
}

/// Opposing a move twice gives the move back: `opposite` is an involution.
pub proof fn lemma_opposite_involutive(m: Move)
    ensures
        m.spec_opposite().spec_opposite() == m,
{
}

/// The payoff of one encounter, from the two revealed moves: mutual
/// cooperation pays (2, 2), mutual defection (1, 1), and a lone defector
/// takes 3 while the cooperator takes 0.
pub open spec fn spec_score(m1: Move, m2: Move) -> (int, int) {
    match (m1, m2) {
        (Move::Cooperate, Move::Cooperate) => (2int, 2int),
        (Move::Cooperate, Move::Defect) => (0int, 3int),
        (Move::Defect, Move::Cooperate) => (3int, 0int),
        (Move::Defect, Move::Defect) => (1int, 1int),
    }
}

pub fn single_score(m1: Move, m2: Move) -> (r: (u64, u64))
    ensures
        r.0 == spec_score(m1, m2).0,
        r.1 == spec_score(m1, m2).1,
{
    match (m1, m2) {
        (Move::Cooperate, Move::Cooperate) => (2, 2),
        (Move::Cooperate, Move::Defect) => (0, 3),
        (Move::Defect, Move::Cooperate) => (3, 0),
        (Move::Defect, Move::Defect) => (1, 1),
    }
}

/// The payoff table is anti-symmetric: swapping the players swaps the two
/// components of the payoff.
pub proof fn lemma_score_antisymmetric(m1: Move, m2: Move)
    ensures
        spec_score(m1, m2).0 == spec_score(m2, m1).1,
        spec_score(m1, m2).1 == spec_score(m2, m1).0,
{
}

/// Both components of every payoff lie between 0 and 3, and one encounter
/// hands out 2 to 4 points in total.
pub proof fn lemma_score_bounds(m1: Move, m2: Move)
    ensures
        0 <= spec_score(m1, m2).0 <= 3,
        0 <= spec_score(m1, m2).1 <= 3,
        2 <= spec_score(m1, m2).0 + spec_score(m1, m2).1 <= 4,
{
}

} // verus!
