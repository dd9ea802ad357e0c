use quoridor::annealing::{anneal_move, evaluate_position_with, write_factor, SimulatedAnnealingStrategy};
use quoridor::game::Quoridor;
use quoridor::mcts::{run_mcts, search, search_for_move, simulate_game, MCTSStrategy, SearchTree};
use quoridor::minimax::{
    evaluate_with, minimax_with, promising_walls, search_move, standard_weights, MinimaxStrategy, Weights,
};
use quoridor::mirror::{abs_diff, MirrorStrategy};
use quoridor::notation::ParseError;
use quoridor::openings::get_opening_moves;
use quoridor::player::Player;
use quoridor::strategy::{
    adaptive_move, defence_move, race_move, AdaptiveStrategy, BalancedStrategy, DefensiveStrategy, QuoridorStrategy,
    RandomStrategy, ShortestPathStrategy, Strategy,
};
use quoridor::tournament::{play_game, play_turn, GameEnd, Seat, Tournament, Turn};

fn game(size: usize, walls: usize, state: Option<&str>) -> Quoridor {
    match Quoridor::new(size, walls, state) {
        Ok(game) => game,
        Err(e) => panic!("game refused: {:?}", e),
    }
}

fn is_legal(game: &Quoridor, text: &str) -> bool {
    game.get_all_legal_moves().contains(&text.to_string())
}

fn texts(list: &[&str]) -> Vec<String> {
    list.iter().map(|s| s.to_string()).collect()
}

fn first_child(_visits: usize, _children: Vec<(usize, u128)>) -> usize {
    0
}

fn least_visited(_visits: usize, children: Vec<(usize, u128)>) -> usize {
    let mut best = 0;
    for (i, c) in children.iter().enumerate() {
        if c.0 < children[best].0 {
            best = i;
        }
    }
    best
}

fn out_of_range(_visits: usize, children: Vec<(usize, u128)>) -> usize {
    children.len() + 7
}

fn always(_loss: i128, _time: usize) -> bool {
    true
}

fn never(_loss: i128, _time: usize) -> bool {
    false
}

#[test]
fn opening_book_lines() {
    assert_eq!(get_opening_moves("No Opening", Player::Player1), texts(&["e2"]));
    assert_eq!(get_opening_moves("No Opening", Player::Player2), texts(&["e8"]));
    assert_eq!(get_opening_moves("Sidewall Opening", Player::Player1), texts(&["c3h", "f3h"]));
    assert_eq!(get_opening_moves("Sidewall Opening", Player::Player2), texts(&["a3h", "h3h"]));
    assert_eq!(get_opening_moves("Shiller Opening", Player::Player1), texts(&["e2", "e3", "e4", "c3v"]));
    assert_eq!(get_opening_moves("Stonewall", Player::Player2), texts(&["e8", "e7"]));
    assert_eq!(
        get_opening_moves("Ala Opening", Player::Player1),
        texts(&["e2", "e3", "e4", "d5h", "f5h", "c4v", "g4v"])
    );
    assert_eq!(get_opening_moves("Standard Opening", Player::Player2), texts(&["e8", "e7", "e6", "e6v"]));
    assert_eq!(
        get_opening_moves("Standard Opening (Symmetrical)", Player::Player2),
        texts(&["e8", "e7", "e6", "d6v"])
    );
    assert_eq!(
        get_opening_moves("Rush Variation", Player::Player2),
        texts(&["e8", "e7", "e6", "e6h", "f6", "f5", "g5"])
    );
    assert_eq!(get_opening_moves("Gap Opening (Mainline)", Player::Player2), texts(&["e8", "e7", "e6", "g6h"]));
    assert_eq!(get_opening_moves("Anti-Gap", Player::Player2), texts(&["e8", "e7", "e6", "b3h"]));
    assert_eq!(get_opening_moves("Sidewall", Player::Player1), texts(&["e2", "d7v"]));
    assert_eq!(get_opening_moves("Sidewall (Proper Counter)", Player::Player2), texts(&["e8", "c7h"]));
    assert_eq!(get_opening_moves("Quick Box Variation", Player::Player2), texts(&["e8", "d1h"]));
    assert_eq!(get_opening_moves("Shatranj Opening", Player::Player1), texts(&["d1v"]));
    assert_eq!(get_opening_moves("Lee Inversion", Player::Player1), texts(&["e1v"]));
}

#[test]
fn unknown_opening_has_no_moves() {
    assert!(get_opening_moves("Nothing Like It", Player::Player1).is_empty());
    assert!(get_opening_moves("", Player::Player2).is_empty());
    assert!(get_opening_moves("Shatranj Opening", Player::Player2).is_empty());
    assert!(get_opening_moves("no opening", Player::Player1).is_empty());
}

#[test]
fn names_of_the_strategies() {
    assert_eq!(QuoridorStrategy::new("Plain", "Gap Opening", vec![]).name(), "Plain");
    assert_eq!(QuoridorStrategy::new("Plain", "Gap Opening", texts(&["e2"])).name(), "Plain-Gap Opening");
    assert_eq!(RandomStrategy::new("x", vec![]).name(), "Random");
    assert_eq!(ShortestPathStrategy::new("Stonewall", texts(&["e2"])).name(), "ShortestPath-Stonewall");
    assert_eq!(DefensiveStrategy::new("", vec![], 70).name(), "Defensive");
    assert_eq!(BalancedStrategy::new("", vec![], 50).name(), "Balanced");
    assert_eq!(AdaptiveStrategy::new("", vec![]).name(), "Adaptive");
    assert_eq!(MirrorStrategy::new("", vec![]).name(), "Mirror");
    assert_eq!(MinimaxStrategy::new("", vec![], 2).name(), "Minimax2");
    assert_eq!(MinimaxStrategy::new("Gap", texts(&["e2"]), 12).name(), "Minimax12-Gap");
    assert_eq!(SimulatedAnnealingStrategy::new("", vec![], 15, always).name(), "SimulatedAnnealing1.5");
    assert_eq!(SimulatedAnnealingStrategy::new("", vec![], 10, always).name(), "SimulatedAnnealing1");
    assert_eq!(SimulatedAnnealingStrategy::new("", vec![], 5, always).name(), "SimulatedAnnealing0.5");
    assert_eq!(MCTSStrategy::new("Gap", texts(&["e2"]), 60000, first_child).name(), "MCTS-60000");
    assert_eq!(write_factor(20), "2");
    assert_eq!(write_factor(123), "12.3");
    assert_eq!(write_factor(0), "0");
}

#[test]
fn scripted_opening_is_played_once_and_only_if_legal() {
    let fresh = game(9, 10, None);
    let mut base = QuoridorStrategy::new("Plain", "test", texts(&["e2", "e9", "c3h"]));
    assert_eq!(base.try_opening_move(&fresh), Some("e2".to_string()));
    // "e9" is no legal move on a fresh board: it is used up without being played
    assert_eq!(base.try_opening_move(&fresh), None);
    assert_eq!(base.try_opening_move(&fresh), Some("c3h".to_string()));
    assert_eq!(base.try_opening_move(&fresh), None);
    assert_eq!(base.try_opening_move(&fresh), None);
}

#[test]
fn scripted_wall_needs_stock() {
    let broke = game(9, 10, Some(" /  / e1 e9 / 0 10 / 1"));
    let mut base = QuoridorStrategy::new("Plain", "test", texts(&["c3h"]));
    assert_eq!(base.try_opening_move(&broke), None);
}

#[test]
fn random_player_moves_legally() {
    let fresh = game(9, 10, None);
    let mut player = RandomStrategy::new("", vec![]);
    for _ in 0..20 {
        let chosen = player.choose_move(&fresh).expect("a fresh board has moves");
        assert!(is_legal(&fresh, &chosen));
    }
    let mut scripted = RandomStrategy::new("No Opening", get_opening_moves("No Opening", Player::Player1));
    assert_eq!(scripted.choose_move(&fresh), Some("e2".to_string()));
}

#[test]
fn nobody_moves_on_a_board_of_one_cell() {
    let tiny = game(1, 3, None);
    assert!(tiny.get_all_legal_moves().is_empty());
    assert_eq!(RandomStrategy::new("", vec![]).choose_move(&tiny), None);
    assert_eq!(ShortestPathStrategy::new("", vec![]).choose_move(&tiny), None);
    assert_eq!(DefensiveStrategy::new("", vec![], 100).choose_move(&tiny), None);
    assert_eq!(BalancedStrategy::new("", vec![], 100).choose_move(&tiny), None);
    assert_eq!(AdaptiveStrategy::new("", vec![]).choose_move(&tiny), None);
    assert_eq!(MirrorStrategy::new("", vec![]).choose_move(&tiny), None);
    assert_eq!(MinimaxStrategy::new("", vec![], 2).choose_move(&tiny), None);
    assert_eq!(SimulatedAnnealingStrategy::new("", vec![], 10, always).choose_move(&tiny), None);
    assert_eq!(MCTSStrategy::new("", vec![], 5, first_child).choose_move(&tiny), None);
}

#[test]
fn racing_takes_the_shortest_way() {
    let fresh = game(9, 10, None);
    assert_eq!(race_move(&fresh), Some("e2".to_string()));
    assert_eq!(ShortestPathStrategy::new("", vec![]).choose_move(&fresh), Some("e2".to_string()));
    // a wall in front of the pawn: it has to go around, left or right
    let walled = game(9, 10, Some("e1 /  / e1 e9 / 10 10 / 1"));
    let chosen = race_move(&walled).expect("the pawn can move");
    assert!(chosen == "d1" || chosen == "f1");
    // the second player races down
    let second = game(9, 10, Some(" /  / e1 e9 / 10 10 / 2"));
    assert_eq!(race_move(&second), Some("e8".to_string()));
}

#[test]
fn racing_takes_the_win() {
    let won = game(9, 10, Some(" /  / c8 e5 / 10 10 / 1"));
    assert_eq!(race_move(&won), Some("c9".to_string()));
    let second = game(9, 10, Some(" /  / e5 g2 / 10 10 / 2"));
    assert_eq!(race_move(&second), Some("g1".to_string()));
}

#[test]
fn defending_blocks_or_races() {
    let fresh = game(9, 10, None);
    // never looking for a wall is racing
    assert_eq!(defence_move(&fresh, 0), Some("e2".to_string()));
    // always looking for a wall finds one that lengthens the opponent's way
    for _ in 0..5 {
        let chosen = defence_move(&fresh, 100).expect("a fresh board has moves");
        assert_eq!(chosen.len(), 3);
        let mut after = fresh.clone();
        assert_eq!(after.add_wall(&chosen, false, true), Ok(true));
        assert!(after.distance_to_goal(Player::Player2) > fresh.distance_to_goal(Player::Player2));
    }
    // without stock there is nothing to defend with
    let broke = game(9, 10, Some(" /  / e1 e9 / 0 10 / 1"));
    assert_eq!(defence_move(&broke, 100), Some("e2".to_string()));
    assert_eq!(DefensiveStrategy::new("", vec![], 200).choose_move(&broke), Some("e2".to_string()));
}

#[test]
fn balanced_player_without_stock_races() {
    let broke = game(9, 10, Some(" /  / e1 e9 / 0 10 / 1"));
    assert_eq!(BalancedStrategy::new("", vec![], 100).choose_move(&broke), Some("e2".to_string()));
    let fresh = game(9, 10, None);
    assert_eq!(BalancedStrategy::new("", vec![], 0).choose_move(&fresh), Some("e2".to_string()));
    let chosen = BalancedStrategy::new("", vec![], 100).choose_move(&fresh).expect("a move");
    assert_eq!(chosen.len(), 3);
}

#[test]
fn adaptive_player_races_when_ahead() {
    let ahead = game(9, 10, Some(" /  / e5 e9 / 10 10 / 1"));
    assert_eq!(adaptive_move(&ahead), Some("e6".to_string()));
    assert_eq!(AdaptiveStrategy::new("", vec![]).choose_move(&ahead), Some("e6".to_string()));
    let behind = game(9, 10, Some(" /  / e1 e3 / 10 10 / 1"));
    for _ in 0..5 {
        let chosen = adaptive_move(&behind).expect("a move");
        assert!(is_legal(&behind, &chosen));
    }
}

#[test]
fn static_evaluation_values() {
    let w = standard_weights();
    assert_eq!(w, Weights { distance: 6001, attack: 144500, defence: 65200 });
    let fresh = game(9, 10, None);
    // equal distances, one step to the next row for both
    assert_eq!(evaluate_with(&fresh, w), 144500 + 65200);
    // the mover is four steps ahead
    let ahead = game(9, 10, Some(" /  / e5 e9 / 10 10 / 1"));
    assert_eq!(evaluate_with(&ahead, w), 6001 * 4 + 144500 + 65200);
    // seen from the other side
    let behind = game(9, 10, Some(" /  / e5 e9 / 10 10 / 2"));
    assert_eq!(evaluate_with(&behind, w), -6001 * 4 + 144500 + 65200);
    // a wall in front of the mover: two steps to the next row; the wall is in the way of both
    let walled = game(9, 10, Some("e1 /  / e1 e9 / 10 10 / 1"));
    assert_eq!(walled.distance_to_goal(Player::Player1), 9);
    assert_eq!(walled.distance_to_goal(Player::Player2), 9);
    assert_eq!(evaluate_with(&walled, w), 144500 / 2 + 65200);
    // the same wall with the opponent's pawn elsewhere: it is in the mover's way only
    let aside = game(9, 10, Some("e1 /  / e1 a9 / 10 10 / 1"));
    assert_eq!(evaluate_with(&aside, w), -6001 + 144500 / 2 + 65200);
    // three steps to the next row: the third of the weight, rounded down
    let boxed = game(9, 10, Some("d1f1 /  / e1 a9 / 10 10 / 1"));
    assert_eq!(boxed.moves_to_next_row(Player::Player1), 3);
    assert_eq!(boxed.distance_to_goal(Player::Player1), 10);
    assert_eq!(evaluate_with(&boxed, w), -6001 * 2 + 48166 + 65200);
    // on the goal row the next row counts as unreachable
    let done = game(9, 10, Some(" /  / e9 e5 / 10 10 / 1"));
    assert_eq!(evaluate_with(&done, w), 6001 * 4 + 1445 + 65200);
    let other = Weights { distance: 1, attack: 0, defence: 0 };
    assert_eq!(evaluate_with(&ahead, other), 4);
    assert_eq!(MinimaxStrategy::new("", vec![], 1).with_weights(other).evaluate(&ahead), 4);
}

#[test]
fn minimax_at_depth_zero_is_the_static_evaluation() {
    let w = standard_weights();
    let player = MinimaxStrategy::new("", vec![], 3);
    for state in [" /  / e1 e9 / 10 10 / 1", "e3 / a2 / e2 e8 / 8 10 / 2", " /  / e5 e9 / 0 0 / 1"] {
        let position = game(9, 10, Some(state));
        let expected = evaluate_with(&position, w);
        assert_eq!(minimax_with(&position, w, 0, i64::MIN, i64::MAX, true), expected);
        assert_eq!(minimax_with(&position, w, 0, i64::MIN, i64::MAX, false), expected);
        assert_eq!(minimax_with(&position, w, 0, -5, 5, true), expected);
        assert_eq!(player.minimax(&position, 0, i64::MIN, i64::MAX, true), expected);
        assert_eq!(player.evaluate(&position), expected);
    }
    // no legal move left: the static evaluation at any depth
    let tiny = game(1, 3, None);
    assert_eq!(minimax_with(&tiny, w, 3, i64::MIN, i64::MAX, true), evaluate_with(&tiny, w));
}

#[test]
fn minimax_after_a_winning_last_move_is_the_static_evaluation() {
    let w = standard_weights();
    // the last move took the second player's pawn to row nine, the goal row of the first, who is to move
    let mut position = game(9, 10, Some(" /  / e5 e8 / 10 10 / 2"));
    assert_eq!(position.move_pawn("e9", false), Ok(true));
    assert!(position.win_check(position.last_move()));
    assert_eq!(minimax_with(&position, w, 2, i64::MIN, i64::MAX, true), evaluate_with(&position, w));
}

fn plain_minimax(position: &Quoridor, w: Weights, depth: usize, maximizing: bool) -> i64 {
    if depth == 0 || position.win_check(position.last_move()) {
        return evaluate_with(position, w);
    }
    let moves = position.get_all_legal_moves();
    if moves.is_empty() {
        return evaluate_with(position, w);
    }
    let mut best = if maximizing { i64::MIN } else { i64::MAX };
    for m in &moves {
        let mut child = position.clone();
        assert_eq!(child.play(m, false), Ok(true));
        let v = plain_minimax(&child, w, depth - 1, !maximizing);
        best = if maximizing { best.max(v) } else { best.min(v) };
    }
    best
}

#[test]
fn pruned_search_finds_the_minimax_value() {
    let w = standard_weights();
    for state in [" /  / b2 b4 / 1 1 / 1", "b2 /  / c1 b5 / 2 0 / 2", " / b3 / c3 c2 / 0 3 / 1"] {
        let position = game(5, 3, Some(state));
        for depth in 1..3 {
            for maximizing in [true, false] {
                let exact = plain_minimax(&position, w, depth, maximizing);
                assert_eq!(minimax_with(&position, w, depth, i64::MIN, i64::MAX, maximizing), exact);
                // a narrow window still bounds the value
                let low = exact - 1000;
                let high = exact + 1000;
                assert_eq!(minimax_with(&position, w, depth, low, high, maximizing), exact);
                let above = minimax_with(&position, w, depth, exact, exact + 10, maximizing);
                assert!(above <= exact);
                let below = minimax_with(&position, w, depth, exact - 10, exact, maximizing);
                assert!(below >= exact);
            }
        }
    }
}

#[test]
fn searching_player_takes_the_win() {
    let won = game(9, 10, Some(" /  / c8 e5 / 10 10 / 1"));
    assert_eq!(search_move(&won, standard_weights(), 2), Some("c9".to_string()));
    assert_eq!(MinimaxStrategy::new("", vec![], 1).choose_move(&won), Some("c9".to_string()));
}

#[test]
fn searching_player_moves_legally() {
    let w = standard_weights();
    let position = game(5, 2, Some(" /  / c1 c5 / 2 2 / 1"));
    for depth in 0..3 {
        let chosen = search_move(&position, w, depth).expect("a move");
        assert!(is_legal(&position, &chosen));
        // no pawn move does better
        let mut after = position.clone();
        assert_eq!(after.play(&chosen, false), Ok(true));
        let below = if depth > 0 { depth - 1 } else { 0 };
        let value = plain_minimax(&after, w, below, false);
        for m in position.get_legal_moves(Player::Player1) {
            let mut other = position.clone();
            assert_eq!(other.play(&m, false), Ok(true));
            assert!(plain_minimax(&other, w, below, false) <= value);
        }
    }
    let mut scripted = MinimaxStrategy::new("Stonewall", get_opening_moves("Stonewall", Player::Player1), 1);
    let fresh = game(9, 10, None);
    assert_eq!(scripted.choose_move(&fresh), Some("e2".to_string()));
}

#[test]
fn promising_walls_are_the_best_blockers() {
    let fresh = game(9, 10, None);
    let walls = fresh.get_legal_walls(Player::Player1);
    let kept = promising_walls(&fresh, &walls);
    assert!(kept.len() <= 20);
    assert!(!kept.is_empty());
    let before = fresh.distance_to_goal(Player::Player2);
    let gain = |w: &String| {
        let mut after = fresh.clone();
        assert_eq!(after.add_wall(w, false, false), Ok(true));
        after.distance_to_goal(Player::Player2) - before
    };
    let mut last = usize::MAX;
    for w in &kept {
        assert!(walls.contains(w));
        let g = gain(w);
        assert!(g > 0);
        assert!(g <= last);
        last = g;
    }
    for w in &walls {
        if !kept.contains(w) {
            let g = gain(w);
            assert!(g == 0 || (kept.len() == 20 && g <= last));
        }
    }
    assert!(promising_walls(&fresh, &vec![]).is_empty());
}

#[test]
fn mirror_positions() {
    let fresh = game(9, 10, None);
    let mirror = MirrorStrategy::new("", vec![]);
    assert_eq!(mirror.calculate_mirrored_position(&fresh, Player::Player2), (8, 4));
    assert_eq!(mirror.calculate_mirrored_position(&fresh, Player::Player1), (0, 4));
    let other = game(9, 10, Some(" /  / e1 c7 / 10 10 / 1"));
    assert_eq!(mirror.calculate_mirrored_position(&other, Player::Player2), (6, 6));
    assert_eq!(abs_diff(3, 8), 5);
    assert_eq!(abs_diff(8, 3), 5);
    assert_eq!(abs_diff(4, 4), 0);
}

#[test]
fn mirror_player_heads_for_the_mirror_cell() {
    let position = game(9, 10, Some(" /  / e1 c7 / 10 10 / 1"));
    let mirror = MirrorStrategy::new("", vec![]);
    // the mirror cell of c7 is g3; from e1 a step up and a step right both come within three
    // steps of it, and both come nearer to some cell of the goal row; a step left does not
    let chosen = mirror.find_best_move_toward(&position, (6, 6)).expect("a move");
    assert!(chosen == "e2" || chosen == "f1");
    let mut player = MirrorStrategy::new("", vec![]);
    let chosen = player.choose_move(&position).expect("a move");
    assert!(chosen == "e2" || chosen == "f1");
    // heading for the far corner on the left, only a step left will do
    assert_eq!(mirror.find_best_move_toward(&position, (8, 0)), Some("d1".to_string()));
}

#[test]
fn mirror_player_answers_walls() {
    // the pawns mirror each other already, and the opponent has a wall at c3
    let position = game(9, 10, Some("c3 /  / e1 e9 / 10 9 / 1"));
    let mirror = MirrorStrategy::new("", vec![]);
    // the anchor c3 is row 6, column 2; its mirror image is row 2, column 6: g7
    assert_eq!(mirror.mirror_opponent_walls(&position, Player::Player2), Some("g7h".to_string()));
    let mut player = MirrorStrategy::new("", vec![]);
    assert_eq!(player.choose_move(&position), Some("g7h".to_string()));
    // no wall in stock: no answer
    let broke = game(9, 10, Some("c3 /  / e1 e9 / 0 9 / 1"));
    assert_eq!(mirror.mirror_opponent_walls(&broke, Player::Player2), None);
    // no wall on the board: no answer, and the player falls back on adapting
    let fresh = game(9, 10, None);
    assert_eq!(mirror.mirror_opponent_walls(&fresh, Player::Player2), None);
    let chosen = MirrorStrategy::new("", vec![]).choose_move(&fresh).expect("a move");
    assert!(is_legal(&fresh, &chosen));
}

#[test]
fn position_values_for_annealing() {
    let w = standard_weights();
    let fresh = game(9, 10, None);
    // equal distances and stocks, one step to the next row: 14.45 / 1.1
    assert_eq!(evaluate_position_with(&fresh, w, Player::Player1), 1445000 / 11);
    let ahead = game(9, 10, Some(" /  / e5 e9 / 7 10 / 1"));
    assert_eq!(evaluate_position_with(&ahead, w, Player::Player1), 6001 * 4 + 131363 - 65200 * 3);
    assert_eq!(evaluate_position_with(&ahead, w, Player::Player2), -6001 * 4 + 131363 + 65200 * 3);
    let player = SimulatedAnnealingStrategy::new("", vec![], 10, never);
    assert_eq!(player.evaluate_position(&fresh, Player::Player2), 131363);
}

#[test]
fn annealing_player_moves_legally() {
    let w = standard_weights();
    let position = game(5, 2, Some(" /  / c1 c5 / 2 2 / 1"));
    for _ in 0..3 {
        let chosen = anneal_move(&position, w, &always).expect("a move");
        assert!(is_legal(&position, &chosen));
    }
    let won = game(9, 10, Some(" /  / c8 e5 / 10 10 / 1"));
    assert_eq!(anneal_move(&won, w, &never), Some("c9".to_string()));
    let mut player = SimulatedAnnealingStrategy::new("No Opening", get_opening_moves("No Opening", Player::Player1),
        10, always);
    let fresh = game(9, 10, None);
    assert_eq!(player.choose_move(&fresh), Some("e2".to_string()));
    let chosen = player.choose_move(&position).expect("a move");
    assert!(is_legal(&position, &chosen));
}

#[test]
fn annealing_player_with_walls_only() {
    // the pawn is boxed in between the opponent and two walls, but walls can be placed
    let w = standard_weights();
    let position = game(3, 2, Some(" /  / a1 a2 / 2 2 / 1"));
    let chosen = anneal_move(&position, w, &always).expect("a move");
    assert!(is_legal(&position, &chosen));
}

fn child_visits(tree: &SearchTree) -> usize {
    let root = tree.node(0);
    root.children.iter().map(|&c| tree.node(c).visits).sum()
}

fn check_tree(tree: &SearchTree) {
    assert_eq!(child_visits(tree) + tree.stopped_short_count(), tree.simulation_count());
    assert_eq!(tree.node(0).visits, tree.simulation_count());
    assert!(tree.won_count() + tree.drawn_count() <= tree.simulation_count());
    assert_eq!(tree.node(0).wins, 10 * tree.won_count() as u128 + 5 * tree.drawn_count() as u128);
    for i in 0..tree.node_count() {
        let node = tree.node(i);
        assert!(node.visits <= tree.simulation_count());
        assert!(node.wins <= 10 * node.visits as u128);
        for &c in &node.children {
            assert!(c > i && c < tree.node_count());
            assert_eq!(tree.node(c).depth, node.depth + 1);
        }
        if i > 0 {
            // every node but the root was visited when it was made
            assert!(node.visits >= 1);
        }
    }
}

#[test]
fn search_counts_every_simulation_once() {
    let position = game(5, 2, Some(" /  / c1 c5 / 2 2 / 1"));
    let moves = position.get_all_legal_moves();
    for limit in [0usize, 1, 7, 40] {
        let tree = search(&position, moves.clone(), limit, None, &least_visited);
        assert_eq!(tree.simulation_count(), limit);
        check_tree(&tree);
        assert!(tree.node(0).children.len() <= moves.len());
        assert_eq!(tree.node(0).children.len() + tree.node(0).unexpanded_moves.len(), moves.len());
        for &c in &tree.node(0).children {
            assert!(moves.contains(&tree.node(c).move_str));
        }
    }
}

#[test]
fn search_counts_simulations_that_stop_at_the_root() {
    // the first player has one move, which wins; the second player is walled in and has none
    let position = game(2, 0, Some("b1 / a1 / a1 b2 / 0 0 / 1"));
    let moves = position.get_all_legal_moves();
    assert_eq!(moves.len(), 1);
    let tree = search(&position, moves, 12, None, &first_child);
    assert_eq!(tree.simulation_count(), 12);
    check_tree(&tree);
    // every simulation ends with the win that the move brings
    assert_eq!(tree.won_count(), 12);
    assert_eq!(tree.drawn_count(), 0);
    assert_eq!(tree.node(0).wins, 120);
    // the node of the move has nothing to try: once it is made, every simulation stops at the root
    assert_eq!(tree.node_count(), 2);
    assert_eq!(tree.node(1).visits, 1);
    assert_eq!(tree.stopped_short_count(), 11);
}

#[test]
fn search_counts_lost_simulations_as_nothing() {
    // the second player is one step from its goal row and to move after any move of the first,
    // who is far from its own
    let position = game(5, 0, Some(" /  / a1 e2 / 0 0 / 1"));
    let moves = position.get_all_legal_moves();
    let tree = search(&position, moves, 8, None, &least_visited);
    check_tree(&tree);
    assert_eq!(tree.won_count(), 0);
    assert_eq!(tree.drawn_count(), 0);
    assert_eq!(tree.node(0).wins, 0);
}

#[test]
fn search_with_a_selection_rule_that_is_out_of_range() {
    let position = game(3, 1, Some(" /  / b1 b3 / 1 1 / 1"));
    let moves = position.get_all_legal_moves();
    let tree = search(&position, moves, 30, None, &out_of_range);
    assert_eq!(tree.simulation_count(), 30);
    check_tree(&tree);
}

#[test]
fn search_stops_when_the_time_is_up() {
    let position = game(5, 2, Some(" /  / c1 c5 / 2 2 / 1"));
    let moves = position.get_all_legal_moves();
    let tree = search(&position, moves, 1_000_000, Some(30), &least_visited);
    assert!(tree.simulation_count() < 1_000_000);
    check_tree(&tree);
}

#[test]
fn best_child_has_the_most_visits() {
    let position = game(5, 2, Some(" /  / c1 c5 / 2 2 / 1"));
    let moves = position.get_all_legal_moves();
    let tree = search(&position, moves, 60, None, &first_child);
    let place = tree.best_child();
    let root = tree.node(0);
    let most = tree.node(root.children[place]).visits;
    for (k, &c) in root.children.iter().enumerate() {
        assert!(tree.node(c).visits <= most);
        if k < place {
            assert!(tree.node(c).visits < most);
        }
    }
}

#[test]
fn tree_search_moves_legally() {
    let position = game(5, 2, Some(" /  / c1 c5 / 2 2 / 1"));
    for limit in [0usize, 3, 25] {
        let chosen = run_mcts(&position, limit, None, &least_visited).expect("a move");
        assert!(is_legal(&position, &chosen));
    }
    // a single legal move is played without a search
    let forced = game(2, 0, Some(" / a1 / a1 b2 / 0 0 / 1"));
    assert_eq!(forced.get_all_legal_moves(), texts(&["a2"]));
    assert_eq!(run_mcts(&forced, 1000, None, &first_child), Some("a2".to_string()));
    let mut player = MCTSStrategy::new("No Opening", texts(&["e9", "c3"]), 5, least_visited).with_time_limit(2000);
    // the scripted moves are not legal here: each is used up, and the search answers
    let chosen = player.choose_move(&position).expect("a move");
    assert!(is_legal(&position, &chosen));
    let chosen = player.choose_move(&position).expect("a move");
    assert!(is_legal(&position, &chosen));
}

#[test]
fn simulated_games_end() {
    for state in [" /  / c1 c5 / 2 2 / 1", " /  / c4 c2 / 0 0 / 2", "b2 / c3 / a1 e5 / 1 1 / 1"] {
        let mut position = game(5, 2, Some(state));
        let winner = simulate_game(&mut position);
        let first = position.pawn_position(Player::Player1);
        let second = position.pawn_position(Player::Player2);
        match winner {
            Some(Player::Player1) => assert_eq!(first.0, 0),
            Some(Player::Player2) => {
                assert_eq!(second.0, 4);
                assert!(first.0 != 0);
            }
            None => {}
        }
        assert!(position.distance_to_goal(Player::Player1) < 100);
        assert!(position.distance_to_goal(Player::Player2) < 100);
    }
    let mut won = game(5, 2, Some(" /  / c5 c1 / 2 2 / 1"));
    assert_eq!(simulate_game(&mut won), Some(Player::Player1));
    assert_eq!(won.state_string().as_str(), " /  / c5 c1 / 2 2 / 1");
}

fn by_name(strategy_name: String, opening_name: String, seat: Player) -> Box<dyn Strategy> {
    let opening = get_opening_moves(&opening_name, seat);
    match strategy_name.as_str() {
        "ShortestPath" => Box::new(ShortestPathStrategy::new(&opening_name, opening)),
        "Adaptive" => Box::new(AdaptiveStrategy::new(&opening_name, opening)),
        "Minimax1" => Box::new(MinimaxStrategy::new(&opening_name, opening, 1)),
        _ => Box::new(RandomStrategy::new(&opening_name, opening)),
    }
}

#[test]
fn a_boxed_strategy_is_the_strategy() {
    let fresh = game(9, 10, None);
    let mut boxed: Box<dyn Strategy> = Box::new(ShortestPathStrategy::new("Gap", texts(&["c3h"])));
    assert_eq!(boxed.name(), "ShortestPath-Gap");
    assert_eq!(boxed.choose_move(&fresh), Some("c3h".to_string()));
    assert_eq!(boxed.choose_move(&fresh), Some("e2".to_string()));
}

#[test]
fn a_turn_is_played() {
    let mut first = ShortestPathStrategy::new("", vec![]);
    let mut second = ShortestPathStrategy::new("", texts(&["e1"]));
    let mut position = game(9, 10, None);
    assert!(matches!(play_turn(&mut first, &mut second, &mut position, Player::Player1), Turn::Played(m) if m == "e2"));
    assert_eq!(position.active_player(), Player::Player2);
    assert!(matches!(play_turn(&mut first, &mut second, &mut position, Player::Player1), Turn::Played(m) if m == "e8"));
    assert_eq!(position.state_string().as_str(), " /  / e2 e8 / 10 10 / 1");
    // a winning answer is not made on the board
    let mut won = game(9, 10, Some(" /  / c8 e5 / 10 10 / 1"));
    assert!(matches!(play_turn(&mut first, &mut second, &mut won, Player::Player1), Turn::Won(m) if m == "c9"));
    assert_eq!(won.state_string().as_str(), " /  / c8 e5 / 10 10 / 1");
    // nobody answers on a board of one cell
    let mut tiny = game(1, 0, None);
    assert!(matches!(play_turn(&mut first, &mut second, &mut tiny, Player::Player1), Turn::NoAnswer));
}

#[test]
fn the_racer_who_moves_first_wins() {
    let mut first = ShortestPathStrategy::new("", vec![]);
    let mut second = ShortestPathStrategy::new("", vec![]);
    // the pawns race up and down different columns and never meet
    let mut position = game(9, 10, Some(" /  / a1 i9 / 10 10 / 1"));
    assert_eq!(play_game(&mut first, &mut second, &mut position), GameEnd::Won(Seat::First));
    assert_eq!(position.pawn_position(Player::Player1), (1, 0));
    assert_eq!(position.pawn_position(Player::Player2), (7, 8));
    // whoever is to move at the start sits in the first seat
    let mut position = game(9, 10, Some(" /  / a1 i9 / 10 10 / 2"));
    assert_eq!(play_game(&mut first, &mut second, &mut position), GameEnd::Won(Seat::First));
    assert_eq!(position.pawn_position(Player::Player2), (7, 8));
    assert_eq!(position.pawn_position(Player::Player1), (1, 0));
    // in the same column they meet and jump, and the game still ends with a winner
    let mut position = game(9, 10, None);
    assert!(play_game(&mut first, &mut second, &mut position) != GameEnd::Drawn);
}

#[test]
fn a_player_without_a_move_loses() {
    let mut first = RandomStrategy::new("", vec![]);
    let mut second = RandomStrategy::new("", vec![]);
    let mut tiny = game(1, 0, None);
    assert_eq!(play_game(&mut first, &mut second, &mut tiny), GameEnd::Stuck(Seat::First));
}

#[test]
fn every_game_of_a_match_is_counted() {
    let mut tournament = Tournament::new(5, 2, 7);
    assert_eq!(tournament.run_match("ShortestPath", "Random", "No Opening", &by_name), Ok(()));
    assert_eq!(tournament.run_match("Adaptive", "Adaptive", "", &by_name), Ok(()));
    let results = tournament.results();
    assert_eq!(results.len(), 2);
    assert_eq!(results[0].strategy1, "ShortestPath");
    assert_eq!(results[0].strategy2, "Random");
    assert_eq!(results[0].opening, "No Opening");
    for r in results {
        assert_eq!(r.strategy1_wins + r.strategy2_wins + r.draws, 7);
    }
    // when a strategy plays itself, every winning move counts for the first of the two names
    assert_eq!(results[1].strategy2_wins, 0);
    let kept = tournament.into_results();
    assert_eq!(kept.len(), 2);
}

#[test]
fn racers_win_from_the_first_seat() {
    let mut tournament = Tournament::new(9, 10, 4);
    assert_eq!(tournament.run_match("ShortestPath", "Shortest", "", &by_name), Ok(()));
    // "Shortest" is no known name and plays at random; the racer wins from either seat
    let result = &tournament.results()[0];
    assert_eq!(result.strategy1_wins + result.strategy2_wins + result.draws, 4);
    assert!(result.strategy1_wins >= 2);
}

#[test]
fn no_match_on_a_board_that_is_too_large() {
    let mut tournament = Tournament::new(10, 10, 3);
    assert_eq!(tournament.run_match("ShortestPath", "Random", "", &by_name), Err(ParseError::BoardSize));
    assert!(tournament.results().is_empty());
    let mut none = Tournament::new(0, 10, 3);
    assert_eq!(none.run_tournament(&by_name), Err(ParseError::BoardSize));
    assert!(none.results().is_empty());
}

#[test]
fn a_series_plays_every_pair_with_every_opening() {
    let mut tournament = Tournament::new(3, 1, 2);
    let names = vec!["ShortestPath", "Random", "Adaptive"];
    let openings = vec!["No Opening", "none"];
    assert_eq!(tournament.run_series(&names, &openings, &by_name), Ok(()));
    let results = tournament.results();
    assert_eq!(results.len(), 6);
    let pairs: Vec<(&str, &str, &str)> =
        results.iter().map(|r| (r.opening.as_str(), r.strategy1.as_str(), r.strategy2.as_str())).collect();
    assert_eq!(
        pairs,
        vec![
            ("No Opening", "ShortestPath", "Random"),
            ("No Opening", "ShortestPath", "Adaptive"),
            ("No Opening", "Random", "Adaptive"),
            ("none", "ShortestPath", "Random"),
            ("none", "ShortestPath", "Adaptive"),
            ("none", "Random", "Adaptive"),
        ]
    );
    for r in results {
        assert_eq!(r.strategy1_wins + r.strategy2_wins + r.draws, 2);
    }
    tournament.set_results(vec![]);
    assert!(tournament.results().is_empty());
}

#[test]
fn a_simulated_game_is_played_by_the_rules() {
    for state in [" /  / e1 e9 / 10 10 / 1", "e2h / d8v / e1 e9 / 9 9 / 1", " /  / c1 c5 / 0 0 / 2"] {
        for _ in 0..5 {
            let mut position = game(9, 10, Some(state));
            let winner = simulate_game(&mut position);
            let first = position.pawn_position(Player::Player1);
            let second = position.pawn_position(Player::Player2);
            match winner {
                Some(Player::Player1) => assert_eq!(first.0, 0),
                Some(Player::Player2) => {
                    assert_eq!(second.0, 8);
                    assert!(first.0 != 0);
                }
                None => {}
            }
            // nobody was walled off on the way, and the walls were paid for
            assert!(position.distance_to_goal(Player::Player1) < 100);
            assert!(position.distance_to_goal(Player::Player2) < 100);
            let walls = position.hwall_positions().len() + position.vwall_positions().len();
            let start = game(9, 10, Some(state));
            let stock = |g: &Quoridor| g.walls_available(Player::Player1) + g.walls_available(Player::Player2);
            let stood = start.hwall_positions().len() + start.vwall_positions().len();
            assert_eq!(walls - stood, stock(&start) - stock(&position));
        }
    }
}

#[test]
fn racers_without_walls_finish_a_simulated_game() {
    // neither has a wall, so both run for their rows and the first to move arrives first
    let mut position = game(9, 0, Some(" /  / a1 i9 / 0 0 / 1"));
    assert_eq!(simulate_game(&mut position), Some(Player::Player1));
    assert_eq!(position.pawn_position(Player::Player1), (0, 0));
    assert_eq!(position.pawn_position(Player::Player2), (7, 8));
    // a player on a board of one row has nowhere to go
    let mut tiny = game(1, 0, None);
    let before = tiny.state_string().clone();
    let winner = simulate_game(&mut tiny);
    assert_eq!(tiny.state_string(), &before);
    assert_eq!(winner, Some(Player::Player1));
}

#[test]
fn the_search_answers_with_its_most_visited_move() {
    let position = game(5, 1, Some(" /  / c1 c5 / 1 1 / 1"));
    let moves = position.get_all_legal_moves();
    let tree = search(&position, moves.clone(), 60, None, &|_v: usize, stats: Vec<(usize, u128)>| {
        // always descend into the child that was visited least
        let mut least = 0;
        for k in 0..stats.len() {
            if stats[k].0 < stats[least].0 {
                least = k;
            }
        }
        least
    });
    assert_eq!(tree.simulation_count(), 60);
    let place = tree.best_child();
    let favourite = tree.favourite().unwrap();
    let root = tree.node(0);
    let most = root.children.iter().map(|&c| tree.node(c).visits).max().unwrap();
    assert_eq!(tree.node(root.children[place]).visits, most);
    assert_eq!(tree.node(root.children[place]).move_str, favourite);
    assert!(moves.contains(&favourite));
    // the first of the most visited is taken
    for k in 0..place {
        assert!(tree.node(root.children[k]).visits < most);
    }
}

#[test]
fn the_answer_comes_with_its_tree() {
    let position = game(5, 1, Some(" /  / c1 c5 / 1 1 / 1"));
    let first_child = |_v: usize, _stats: Vec<(usize, u128)>| 0usize;
    let (chosen, tree) = search_for_move(&position, 40, None, &first_child);
    let tree = tree.expect("more than one legal move, so a search was made");
    assert_eq!(tree.simulation_count(), 40);
    assert!(!tree.node(0).children.is_empty());
    assert_eq!(chosen, tree.favourite());
    assert!(position.get_all_legal_moves().contains(&chosen.unwrap()));
    // no simulation, no tried move: the answer is some legal move
    let (chosen, tree) = search_for_move(&position, 0, None, &first_child);
    let tree = tree.unwrap();
    assert_eq!(tree.simulation_count(), 0);
    assert!(tree.node(0).children.is_empty());
    assert_eq!(tree.favourite(), None);
    assert!(position.get_all_legal_moves().contains(&chosen.unwrap()));
    // one legal move, no search
    let cornered = game(2, 0, Some(" / a2v / a1 b2 / 0 0 / 1"));
    let moves = cornered.get_all_legal_moves();
    if moves.len() == 1 {
        let (chosen, tree) = search_for_move(&cornered, 10, None, &first_child);
        assert!(tree.is_none());
        assert_eq!(chosen, Some(moves[0].clone()));
    }
    // no legal move, no answer
    let tiny = game(1, 0, None);
    let (chosen, tree) = search_for_move(&tiny, 10, None, &first_child);
    assert!(chosen.is_none() && tree.is_none());
}

#[test]
fn the_player_answers_with_its_tree() {
    let position = game(5, 1, Some(" /  / c1 c5 / 1 1 / 1"));
    let first_child = |_v: usize, _stats: Vec<(usize, u128)>| 0usize;
    let mut player = MCTSStrategy::new("Gap", texts(&["c2", "a9"]), 25, first_child);
    // the scripted move comes without a search
    let (chosen, tree) = player.choose_with_tree(&position);
    assert_eq!(chosen, Some("c2".to_string()));
    assert!(tree.is_none());
    // a scripted move that is not legal is used up, and a search is made
    let (chosen, tree) = player.choose_with_tree(&position);
    let tree = tree.unwrap();
    assert_eq!(tree.simulation_count(), 25);
    assert_eq!(chosen, tree.favourite());
    let (chosen, tree) = player.choose_with_tree(&position);
    assert_eq!(chosen, tree.unwrap().favourite());
}
