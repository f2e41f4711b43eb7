use noisy_tournament::game::Move;
use noisy_tournament::game::single_score;
use noisy_tournament::strategy::Constant;
use noisy_tournament::strategy::Strategy;
use noisy_tournament::strategy::TitForTat;
use noisy_tournament::sim::play_round;
use noisy_tournament::sim::play_pair;
use noisy_tournament::sim::play_all_pairs;
use noisy_tournament::rank::page_rank;

#[test]
fn opposite_is_involutive() {
    assert_eq!(Move::Cooperate.opposite(), Move::Defect);
    assert_eq!(Move::Defect.opposite(), Move::Cooperate);
    assert_eq!(Move::Cooperate.opposite().opposite(), Move::Cooperate);
    assert_eq!(Move::Defect.opposite().opposite(), Move::Defect);
}

#[test]
fn payoff_table() {
    assert_eq!(single_score(Move::Cooperate, Move::Cooperate), (2, 2));
    assert_eq!(single_score(Move::Cooperate, Move::Defect), (0, 3));
    assert_eq!(single_score(Move::Defect, Move::Cooperate), (3, 0));
    assert_eq!(single_score(Move::Defect, Move::Defect), (1, 1));
}

#[test]
fn flip_identity_at_zero_noise() {
    for _ in 0..100 {
        assert_eq!(Move::Cooperate.flip(0), Move::Cooperate);
        assert_eq!(Move::Defect.flip(0), Move::Defect);
    }
}

#[test]
fn round_mutual_cooperation() {
    let c = Strategy::Constant(Constant::new(1_000_000));
    assert_eq!(play_round(&c, &c, 0), (200, 200));
}

#[test]
fn round_mutual_defection() {
    let d = Strategy::Constant(Constant::new(0));
    assert_eq!(play_round(&d, &d, 0), (100, 100));
}

#[test]
fn pair_totals_bounded() {
    let t = Strategy::TitForTat(TitForTat::new(Move::Cooperate, 1));
    let (a, b) = play_pair(&t, &t);
    assert!(a <= 30_000 && b <= 30_000);
    assert!(a + b >= 20_000);
}

#[test]
fn all_pairs_matrix_shape() {
    let players = vec![
        Strategy::Constant(Constant::new(0)),
        Strategy::TitForTat(TitForTat::new(Move::Cooperate, 1)),
    ];
    let scores = play_all_pairs(&players);
    assert_eq!(scores.len(), 2);
    assert_eq!(scores[0].len(), 2);
    assert_eq!(scores[1].len(), 2);
    assert!(scores[0][1] <= 30_000 && scores[1][0] <= 30_000);
}

#[test]
fn page_rank_uniform_matrix() {
    let scores = vec![vec![5, 5], vec![5, 5]];
    assert_eq!(page_rank(&scores), vec![500_000, 500_000]);
}

#[test]
fn page_rank_zero_row_collapses() {
    let scores = vec![vec![5, 5], vec![0, 0]];
    assert_eq!(page_rank(&scores), vec![1_000_000, 0]);
}
