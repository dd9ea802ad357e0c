use quoridor::roster::{
    match_list, opening_names, strategy_kind, strategy_names, StrategyKind, BALANCED_DEFENSE_WEIGHT,
    DEFENSIVE_WALL_PREFERENCE, MINIMAX_DEPTH, MONTE_CARLO_SIMULATIONS,
};
use quoridor::text::{rest_of, starts_with, write_thousands};

#[test]
fn the_names_of_a_tournament() {
    assert_eq!(
        strategy_names(),
        vec![
            "Adaptive",
            "Minimax2",
            "Minimax3",
            "SimulatedAnnealing0.5",
            "SimulatedAnnealing1.0",
            "SimulatedAnnealing1.5",
            "SimulatedAnnealing2.0",
            "ProgressiveDeepening2",
            "ProgressiveDeepening3"
        ]
    );
    assert_eq!(opening_names(), vec!["No Opening", "Sidewall Opening", "Standard Opening"]);
}

#[test]
fn players_that_go_by_their_full_name() {
    assert_eq!(strategy_kind("Random"), StrategyKind::Random);
    assert_eq!(strategy_kind("ShortestPath"), StrategyKind::ShortestPath);
    assert_eq!(strategy_kind("Defensive"), StrategyKind::Defensive);
    assert_eq!(strategy_kind("Balanced"), StrategyKind::Balanced);
    assert_eq!(strategy_kind("Adaptive"), StrategyKind::Adaptive);
    assert_eq!(strategy_kind("Mirror"), StrategyKind::Mirror);
    assert_eq!(DEFENSIVE_WALL_PREFERENCE, 70);
    assert_eq!(BALANCED_DEFENSE_WEIGHT, 50);
}

#[test]
fn an_unknown_name_asks_for_the_random_player() {
    assert_eq!(strategy_kind(""), StrategyKind::Random);
    assert_eq!(strategy_kind("random"), StrategyKind::Random);
    assert_eq!(strategy_kind("Mirror2"), StrategyKind::Random);
    assert_eq!(strategy_kind("ProgressiveDeepening2"), StrategyKind::Random);
    assert_eq!(strategy_kind("Minima"), StrategyKind::Random);
    assert_eq!(strategy_kind(" Minimax2"), StrategyKind::Random);
}

#[test]
fn the_depth_of_a_minimax_player() {
    assert_eq!(strategy_kind("Minimax2"), StrategyKind::Minimax(2));
    assert_eq!(strategy_kind("Minimax3"), StrategyKind::Minimax(3));
    assert_eq!(strategy_kind("Minimax"), StrategyKind::Minimax(1));
    assert_eq!(strategy_kind("Minimax+12"), StrategyKind::Minimax(12));
    assert_eq!(strategy_kind("Minimax007"), StrategyKind::Minimax(7));
    assert_eq!(strategy_kind("Minimax0"), StrategyKind::Minimax(0));
    assert_eq!(strategy_kind("Minimax-1"), StrategyKind::Minimax(1));
    assert_eq!(strategy_kind("Minimax 2"), StrategyKind::Minimax(1));
    assert_eq!(strategy_kind("Minimax2k"), StrategyKind::Minimax(1));
    assert_eq!(strategy_kind("Minimax99999999999999999999999"), StrategyKind::Minimax(1));
    assert_eq!(MINIMAX_DEPTH, 1);
}

#[test]
fn the_simulations_of_a_monte_carlo_player() {
    assert_eq!(strategy_kind("MCTS60k"), StrategyKind::MonteCarlo(60000));
    assert_eq!(strategy_kind("MCTS500"), StrategyKind::MonteCarlo(500));
    assert_eq!(strategy_kind("MCTS1kk"), StrategyKind::MonteCarlo(1000000));
    assert_eq!(strategy_kind("MCTSk"), StrategyKind::MonteCarlo(0));
    assert_eq!(strategy_kind("MCTS"), StrategyKind::MonteCarlo(10000));
    assert_eq!(strategy_kind("MCTS60K"), StrategyKind::MonteCarlo(10000));
    assert_eq!(strategy_kind("MCTS6.5k"), StrategyKind::MonteCarlo(10000));
    assert_eq!(MONTE_CARLO_SIMULATIONS, 10000);
}

#[test]
fn the_time_factor_of_an_annealing_player() {
    assert_eq!(strategy_kind("SimulatedAnnealing0.5"), StrategyKind::SimulatedAnnealing("0.5".to_string()));
    assert_eq!(strategy_kind("SimulatedAnnealing"), StrategyKind::SimulatedAnnealing(String::new()));
    assert_eq!(strategy_kind("SimulatedAnnealing fast"), StrategyKind::SimulatedAnnealing(" fast".to_string()));
    assert_eq!(strategy_kind("SimulatedAnnealin"), StrategyKind::Random);
}

#[test]
fn every_pair_meets_once_with_every_opening() {
    let list = match_list(&vec!["A", "B", "C"], &vec!["x", "y"]);
    let seen: Vec<(&str, &str, &str)> = list.iter().map(|f| (f.opening, f.strategy1, f.strategy2)).collect();
    assert_eq!(
        seen,
        vec![("x", "A", "B"), ("x", "A", "C"), ("x", "B", "C"), ("y", "A", "B"), ("y", "A", "C"), ("y", "B", "C")]
    );
}

#[test]
fn the_matches_of_a_tournament() {
    let list = match_list(&strategy_names(), &opening_names());
    assert_eq!(list.len(), 108);
    assert_eq!((list[0].strategy1, list[0].strategy2, list[0].opening), ("Adaptive", "Minimax2", "No Opening"));
    assert_eq!((list[8].strategy1, list[8].strategy2), ("Minimax2", "Minimax3"));
    assert_eq!(
        (list[107].strategy1, list[107].strategy2, list[107].opening),
        ("ProgressiveDeepening2", "ProgressiveDeepening3", "Standard Opening")
    );
    for fixture in &list {
        assert!(fixture.strategy1 != fixture.strategy2);
    }
}

#[test]
fn too_few_for_a_match() {
    assert!(match_list(&vec!["A"], &vec!["x", "y"]).is_empty());
    assert!(match_list(&vec![], &vec!["x"]).is_empty());
    assert!(match_list(&vec!["A", "B"], &vec![]).is_empty());
    // a name that is listed twice meets itself
    let list = match_list(&vec!["A", "A"], &vec!["x"]);
    assert_eq!(list.len(), 1);
    assert_eq!((list[0].strategy1, list[0].strategy2), ("A", "A"));
}

#[test]
fn how_a_text_begins() {
    assert!(starts_with("Minimax2", "Minimax"));
    assert!(starts_with("Minimax", "Minimax"));
    assert!(starts_with("Minimax", ""));
    assert!(starts_with("", ""));
    assert!(!starts_with("Minima", "Minimax"));
    assert!(!starts_with("minimax2", "Minimax"));
    assert!(!starts_with("", "M"));
}

#[test]
fn the_rest_of_a_text() {
    assert_eq!(rest_of("Minimax2", 7), "2");
    assert_eq!(rest_of("Minimax2", 0), "Minimax2");
    assert_eq!(rest_of("Minimax2", 8), "");
    assert_eq!(rest_of("Minimax2", 9), "");
    // characters are counted, not bytes
    assert_eq!(rest_of("äbc", 1), "bc");
}

#[test]
fn a_k_is_three_zeros() {
    assert_eq!(write_thousands("60k"), "60000");
    assert_eq!(write_thousands("k1k"), "0001000");
    assert_eq!(write_thousands("60K"), "60K");
    assert_eq!(write_thousands(""), "");
}
