use noisy_tournament::experiment::run_experiment;
use noisy_tournament::experiment::sort_ranked;
use noisy_tournament::game::Move;
use noisy_tournament::strategy::Constant;
use noisy_tournament::strategy::Strategy;
use noisy_tournament::strategy::TitForTat;

#[test]
fn sort_descending_with_stable_ties() {
    let pairs = vec![(0usize, 5u64), (1, 9), (2, 5), (3, 7)];
    assert_eq!(sort_ranked(&pairs), vec![(1, 9), (3, 7), (0, 5), (2, 5)]);
}

#[test]
fn sort_all_equal_keeps_roster_order() {
    let pairs = vec![(0usize, 4u64), (1, 4), (2, 4)];
    assert_eq!(sort_ranked(&pairs), vec![(0, 4), (1, 4), (2, 4)]);
}

#[test]
fn experiment_output_is_a_sorted_ranking() {
    let players = vec![
        Strategy::TitForTat(TitForTat::new(Move::Cooperate, 1)),
        Strategy::Constant(Constant::new(0)),
    ];
    let r = run_experiment(&players);
    assert_eq!(r.len(), 2);
    let mut seen = [false; 2];
    for pair in &r {
        seen[pair.0] = true;
    }
    assert!(seen[0] && seen[1]);
    for w in 1..r.len() {
        assert!(r[w - 1].1 > r[w].1 || (r[w - 1].1 == r[w].1 && r[w - 1].0 < r[w].0));
    }
    let total: u64 = r.iter().map(|p| p.1).sum();
    assert!(total <= 20 * 1_000_000);
}
