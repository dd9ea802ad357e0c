use quoridor::game::Quoridor;
use quoridor::notation::ParseError;
use quoridor::player::Player;

fn fresh9() -> Quoridor {
    match Quoridor::new(9, 10, None) {
        Ok(game) => game,
        Err(e) => panic!("fresh game refused: {:?}", e),
    }
}

fn from_state(state: &str) -> Quoridor {
    match Quoridor::new(9, 10, Some(state)) {
        Ok(game) => game,
        Err(e) => panic!("state refused: {:?}", e),
    }
}

fn sorted(mut list: Vec<String>) -> Vec<String> {
    list.sort();
    list
}

#[test]
fn fresh_game_layout() {
    let game = fresh9();
    assert_eq!(game.size(), 9);
    assert_eq!(game.walls(), 10);
    assert_eq!(game.pawn_position(Player::Player1), (8, 4));
    assert_eq!(game.pawn_position(Player::Player2), (0, 4));
    assert_eq!(game.walls_available(Player::Player1), 10);
    assert_eq!(game.walls_available(Player::Player2), 10);
    assert_eq!(game.active_player(), Player::Player1);
    assert_eq!(game.state_string().as_str(), " /  / e1 e9 / 10 10 / 1");
    assert_eq!(game.last_move().as_str(), "Blank");
    assert_eq!(game.previous_state().as_str(), "");
    assert!(game.hwall_positions().is_empty());
    assert!(game.vwall_positions().is_empty());
}

#[test]
fn board_size_is_checked() {
    assert!(matches!(Quoridor::new(0, 10, None), Err(ParseError::BoardSize)));
    assert!(matches!(Quoridor::new(10, 10, None), Err(ParseError::BoardSize)));
    assert!(Quoridor::new(1, 0, None).is_ok());
}

#[test]
fn coordinates_round_trip() {
    let game = fresh9();
    for row in 0..9 {
        for col in 0..9 {
            let text = game.coord_to_algebraic((row, col));
            assert_eq!(game.algebraic_to_coord(&text), Ok((row, col)));
        }
    }
    assert_eq!(game.coord_to_algebraic((0, 0)), "a9");
    assert_eq!(game.coord_to_algebraic((8, 8)), "i1");
    assert_eq!(game.coord_to_algebraic((6, 4)), "e3");
}

#[test]
fn algebraic_errors() {
    let game = fresh9();
    assert_eq!(game.algebraic_to_coord("e"), Err(ParseError::TooShort));
    assert_eq!(game.algebraic_to_coord(""), Err(ParseError::TooShort));
    assert_eq!(game.algebraic_to_coord("12"), Err(ParseError::InvalidColumn));
    assert_eq!(game.algebraic_to_coord("ex"), Err(ParseError::InvalidRow));
    assert_eq!(game.algebraic_to_coord("e0"), Err(ParseError::OutOfBounds));
    assert_eq!(game.algebraic_to_coord("e10"), Err(ParseError::OutOfBounds));
    assert_eq!(game.algebraic_to_coord("j1"), Err(ParseError::OutOfBounds));
    assert_eq!(game.algebraic_to_coord("E2"), Ok((7, 4)));
    assert_eq!(game.algebraic_to_coord("e+2"), Ok((7, 4)));
    assert_eq!(game.algebraic_to_coord("e02"), Ok((7, 4)));
}

#[test]
fn wall_notation_is_tolerated_as_cell() {
    let game = fresh9();
    assert_eq!(game.algebraic_to_coord("e3v"), Ok((6, 4)));
    assert_eq!(game.algebraic_to_coord("e3h"), Ok((6, 4)));
    assert_eq!(game.algebraic_to_coord("e10v"), Ok((8, 4)));
}

#[test]
fn jump_over_adjacent_opponent() {
    let game = from_state(" /  / e2 e3 / 10 10 / 1");
    let moves = game.get_legal_moves(Player::Player1);
    assert!(moves.contains(&"e4".to_string()));
    assert!(!moves.contains(&"e3".to_string()));
    assert_eq!(sorted(moves), vec!["d2", "e1", "e4", "f2"]);
}

#[test]
fn side_step_when_jump_is_walled() {
    let game = from_state("e3 /  / e2 e3 / 10 10 / 1");
    let moves = game.get_legal_moves(Player::Player1);
    assert!(moves.contains(&"d3".to_string()));
    assert!(moves.contains(&"f3".to_string()));
    assert!(!moves.contains(&"e4".to_string()));
    assert!(!moves.contains(&"e3".to_string()));
    assert_eq!(sorted(moves), vec!["d2", "d3", "e1", "f2", "f3"]);
}

#[test]
fn side_step_when_jump_leaves_the_board() {
    let game = from_state(" /  / e8 e9 / 10 10 / 1");
    assert_eq!(sorted(game.get_legal_moves(Player::Player1)), vec!["d8", "d9", "e7", "f8", "f9"]);
    // in the corner only one side step is left
    let corner = from_state(" /  / a8 a9 / 10 10 / 1");
    assert_eq!(sorted(corner.get_legal_moves(Player::Player1)), vec!["a7", "b8", "b9"]);
    // the opponent in the corner can jump
    assert_eq!(sorted(corner.get_legal_moves(Player::Player2)), vec!["a7", "b9"]);
}

#[test]
fn jump_sideways() {
    let game = from_state(" /  / d5 e5 / 10 10 / 1");
    assert_eq!(sorted(game.get_legal_moves(Player::Player1)), vec!["c5", "d4", "d6", "f5"]);
    assert_eq!(sorted(game.get_legal_moves(Player::Player2)), vec!["c5", "e4", "e6", "f5"]);
    // a vertical wall behind the opponent: the side steps are above and below it
    let walled = from_state(" / e5 / d5 e5 / 10 10 / 1");
    assert_eq!(sorted(walled.get_legal_moves(Player::Player1)), vec!["c5", "d4", "d6", "e4", "e6"]);
}

#[test]
fn a_wall_between_the_pawns_rules_out_the_jump() {
    let game = from_state("e2 /  / e2 e3 / 10 10 / 1");
    assert_eq!(sorted(game.get_legal_moves(Player::Player1)), vec!["d2", "e1", "f2"]);
}

#[test]
fn win_detection() {
    let game = from_state(" /  / e8 e1 / 10 10 / 1");
    assert!(game.win_check("e9"));
    assert!(!game.win_check("e7"));
    assert!(!game.win_check("d8"));
    assert!(!game.win_check("zz"));
    let other = from_state(" /  / e8 e2 / 10 10 / 2");
    assert!(other.win_check("e1"));
    assert!(!other.win_check("e9"));
}

#[test]
fn fresh_distances() {
    let game = fresh9();
    assert_eq!(game.distance_to_goal(Player::Player1), 8);
    assert_eq!(game.distance_to_goal(Player::Player2), 8);
    assert_eq!(game.moves_to_next_row(Player::Player1), 1);
    assert_eq!(game.moves_to_next_row(Player::Player2), 1);
}

#[test]
fn next_row_on_the_goal_row_is_the_sentinel() {
    let game = from_state(" /  / e9 e1 / 10 10 / 1");
    assert_eq!(game.moves_to_next_row(Player::Player1), 100);
    assert_eq!(game.moves_to_next_row(Player::Player2), 100);
    assert_eq!(game.distance_to_goal(Player::Player1), 0);
}

#[test]
fn walled_off_pawn_gets_the_sentinel() {
    // A row of horizontal walls across the whole board, placed unchecked.
    let game = from_state("a5c5e5g5i5 /  / e1 e9 / 10 10 / 1");
    assert_eq!(game.distance_to_goal(Player::Player1), 100);
    assert_eq!(game.distance_to_goal(Player::Player2), 100);
    assert!(!game.has_path(Player::Player1, (0, 0)));
    assert!(game.has_path(Player::Player1, (8, 0)));
    assert!(!game.has_path(Player::Player1, (9, 0)));
}

#[test]
fn wall_lengthens_the_way() {
    let mut game = fresh9();
    assert_eq!(game.add_wall("e1h", false, true), Ok(true));
    assert_eq!(game.distance_to_goal(Player::Player1), 9);
    assert_eq!(game.moves_to_next_row(Player::Player1), 2);
    assert_eq!(game.walls_available(Player::Player1), 9);
    assert_eq!(game.walls_available(Player::Player2), 10);
    assert_eq!(game.active_player(), Player::Player2);
    assert_eq!(game.state_string().as_str(), "e1 /  / e1 e9 / 9 10 / 2");
    assert_eq!(game.previous_state().as_str(), " /  / e1 e9 / 10 10 / 1");
    assert_eq!(game.last_move().as_str(), "e1h");
    assert_eq!(game.hwall_positions(), &vec![(8, 4)]);
}

#[test]
fn wall_edges_by_position() {
    let game = fresh9();
    assert_eq!(game.get_wall_edges("e3h"), Ok(vec![((6, 4), (5, 4)), ((6, 5), (5, 5))]));
    assert_eq!(game.get_wall_edges("e3v"), Ok(vec![((6, 4), (6, 5)), ((5, 4), (5, 5))]));
    assert_eq!(game.get_wall_edges("i3h"), Ok(vec![((6, 8), (5, 8))]));
    assert_eq!(game.get_wall_edges("e9v"), Ok(vec![((0, 4), (0, 5))]));
    assert_eq!(game.get_wall_edges("e9h"), Ok(vec![]));
    assert_eq!(game.get_wall_edges("i3v"), Ok(vec![]));
    assert_eq!(game.get_wall_edges("e3"), Err(ParseError::TooShort));
    assert_eq!(game.get_wall_edges("e3x"), Err(ParseError::InvalidOrientation));
    assert_eq!(game.get_wall_edges("e33h"), Err(ParseError::InvalidOrientation));
    assert_eq!(game.get_wall_edges("z3h"), Err(ParseError::OutOfBounds));
}

#[test]
fn wall_check_rejections() {
    let mut game = fresh9();
    assert!(game.wall_check(Player::Player1, "e3h"));
    assert!(!game.wall_check(Player::Player1, "e3"));
    assert!(!game.wall_check(Player::Player1, "e3x"));
    // a wall that reaches over the board's edge has a passage that is not there
    for over_the_edge in ["e9h", "i3v", "i3h", "e9v", "i9h", "i9v", "a9h", "i1v"] {
        assert!(!game.wall_check(Player::Player1, over_the_edge), "{}", over_the_edge);
        assert_eq!(game.add_wall(over_the_edge, false, true), Ok(false), "{}", over_the_edge);
    }
    assert_eq!(game.active_player(), Player::Player1);
    assert_eq!(game.walls_available(Player::Player1), 10);
    // the walls next to the edge lie on the board
    for inside in ["h3h", "h3v", "a1h", "a1v", "h8h", "h8v", "a8h", "a8v"] {
        assert!(game.wall_check(Player::Player1, inside), "{}", inside);
    }
    assert_eq!(game.add_wall("e3h", false, true), Ok(true));
    // the same wall again: its passages are gone
    assert!(!game.wall_check(Player::Player2, "e3h"));
    // a crossing wall on the same anchor
    assert!(!game.wall_check(Player::Player2, "e3v"));
    // an overlapping wall of the same orientation shares a passage
    assert!(!game.wall_check(Player::Player2, "d3h"));
    assert!(game.wall_check(Player::Player2, "c3h"));
    // no stock
    let broke = from_state(" /  / e1 e9 / 0 10 / 1");
    assert!(!broke.wall_check(Player::Player1, "e3h"));
    assert!(broke.wall_check(Player::Player2, "e3h"));
}

#[test]
fn wall_check_is_repeatable() {
    let game = from_state("a5c5e5g5 /  / e1 e9 / 10 10 / 1");
    for text in ["h5h", "i5h", "e3h", "e5v", "a1v", "zz", "i5v"] {
        assert_eq!(game.wall_check(Player::Player1, text), game.wall_check(Player::Player1, text));
    }
    // a wall over the edge, which would close the last gap in the row as well
    assert!(!game.wall_check(Player::Player1, "i5h"));
    assert!(game.wall_check(Player::Player1, "e3h"));
}

#[test]
fn a_wall_over_the_edge_is_placed_only_without_the_rules() {
    let mut game = fresh9();
    assert_eq!(game.add_wall("i3h", false, true), Ok(false));
    assert_eq!(game.play("i3h", true), Ok(false));
    assert_eq!(game.state_string().as_str(), " /  / e1 e9 / 10 10 / 1");
    // what the rules allow is what is listed
    let listed = game.get_legal_walls(Player::Player1);
    for row in 1..=9 {
        for column in "abcdefghi".chars() {
            for mark in ['h', 'v'] {
                let wall = format!("{}{}{}", column, row, mark);
                assert_eq!(game.wall_check(Player::Player1, &wall), listed.contains(&wall), "{}", wall);
            }
        }
    }
    // without the rules it is placed as long as it severs a passage
    assert_eq!(game.add_wall("i3h", false, false), Ok(true));
    assert_eq!(game.hwall_positions(), &vec![(6, 8)]);
    assert_eq!(game.walls_available(Player::Player1), 9);
    assert_eq!(game.add_wall("e9h", false, false), Ok(false));
}

#[test]
fn rejected_wall_leaves_the_state_alone() {
    let mut game = from_state("a5c5e5g5 /  / e1 e9 / 10 10 / 1");
    let before = game.state_string().clone();
    assert_eq!(game.add_wall("i5h", false, true), Ok(false));
    assert_eq!(game.state_string(), &before);
    assert_eq!(game.walls_available(Player::Player1), 10);
    assert_eq!(game.active_player(), Player::Player1);
    assert_eq!(game.add_wall("e9h", false, false), Ok(false));
    assert_eq!(game.add_wall("x", false, false), Err(ParseError::TooShort));
    assert_eq!(game.state_string(), &before);
}

#[test]
fn wall_without_stock_is_not_placed() {
    let mut game = from_state(" /  / e1 e9 / 0 10 / 1");
    assert_eq!(game.add_wall("e3h", false, false), Ok(false));
    assert_eq!(game.walls_available(Player::Player1), 0);
    assert_eq!(game.add_wall("e3h", true, false), Ok(true));
    assert_eq!(game.walls_available(Player::Player1), 0);
    assert_eq!(game.active_player(), Player::Player1);
}

#[test]
fn pawn_moves() {
    let mut game = fresh9();
    assert_eq!(game.move_pawn("e3", true), Ok(false));
    assert_eq!(game.move_pawn("E2", true), Ok(false));
    assert_eq!(game.move_pawn("e2", true), Ok(true));
    assert_eq!(game.pawn_position(Player::Player1), (7, 4));
    assert_eq!(game.active_player(), Player::Player2);
    assert_eq!(game.state_string().as_str(), " /  / e2 e9 / 10 10 / 2");
    assert_eq!(game.previous_state().as_str(), " /  / e1 e9 / 10 10 / 1");
    assert_eq!(game.last_move().as_str(), "e2");
    assert_eq!(game.move_pawn("?", true), Err(ParseError::TooShort));
    assert_eq!(game.move_pawn("a1", false), Ok(true));
    assert_eq!(game.pawn_position(Player::Player2), (8, 0));
}

#[test]
fn legal_walls_on_fresh_board() {
    let game = fresh9();
    let walls = game.get_legal_walls(Player::Player1);
    assert_eq!(walls.len(), 128);
    assert!(walls.contains(&"a1h".to_string()));
    assert!(walls.contains(&"h8v".to_string()));
    assert!(!walls.contains(&"a9h".to_string()));
    assert!(!walls.contains(&"i1h".to_string()));
    for w in &walls {
        assert!(game.wall_check(Player::Player1, w));
    }
}

#[test]
fn state_string_round_trip() {
    let mut game = fresh9();
    assert_eq!(game.add_wall("e3h", false, true), Ok(true));
    assert_eq!(game.move_pawn("e8", true), Ok(true));
    assert_eq!(game.add_wall("a2v", false, true), Ok(true));
    let text = game.state_string().clone();
    assert_eq!(text.as_str(), "e3 / a2 / e1 e8 / 8 10 / 2");
    let again = from_state(&text);
    assert_eq!(again.state_string(), &text);
    assert_eq!(again.pawn_position(Player::Player2), (1, 4));
    assert_eq!(again.active_player(), Player::Player2);
    assert_eq!(again.get_legal_moves(Player::Player1).len(), game.get_legal_moves(Player::Player1).len());
    assert_eq!(again.distance_to_goal(Player::Player1), game.distance_to_goal(Player::Player1));
}

#[test]
fn state_string_errors() {
    assert!(matches!(Quoridor::new(9, 10, Some("")), Err(ParseError::FieldCount)));
    assert!(matches!(Quoridor::new(9, 10, Some("a/b/c/d")), Err(ParseError::FieldCount)));
    assert!(matches!(Quoridor::new(9, 10, Some("/////")), Err(ParseError::FieldCount)));
    assert!(matches!(Quoridor::new(9, 10, Some(" /  / e1 / 10 10 / 1")), Err(ParseError::PawnField)));
    assert!(matches!(Quoridor::new(9, 10, Some(" /  / e1 z9 / 10 10 / 1")), Err(ParseError::OutOfBounds)));
    assert!(matches!(Quoridor::new(9, 10, Some(" /  / e1 e9 / 10 / 1")), Err(ParseError::StockField)));
    assert!(matches!(Quoridor::new(9, 10, Some("e / / e1 e9 / 10 10 / 1")), Ok(_)));
    assert!(matches!(Quoridor::new(9, 10, Some("ex / / e1 e9 / 10 10 / 1")), Err(ParseError::InvalidRow)));
    assert!(matches!(Quoridor::new(9, 10, Some(" / 3e / e1 e9 / 10 10 / 1")), Err(ParseError::InvalidColumn)));
}

#[test]
fn state_string_defaults() {
    let game = from_state("  /  /  e2   e8  / x 3 / 7");
    assert_eq!(game.walls_available(Player::Player1), 10);
    assert_eq!(game.walls_available(Player::Player2), 3);
    assert_eq!(game.active_player(), Player::Player2);
    assert_eq!(game.state_string().as_str(), " /  / e2 e8 / 10 3 / 2");
    // a wall that severs nothing is dropped, an odd last character too
    let game = from_state("e9a1b / i3 / e2 e8 / 1 1 / 1");
    assert_eq!(game.hwall_positions(), &vec![(8, 0)]);
    assert!(game.vwall_positions().is_empty());
}

#[test]
fn goal_rows() {
    let game = fresh9();
    let top = game.goal_positions(Player::Player1);
    let bottom = game.goal_positions(Player::Player2);
    assert_eq!(top.len(), 9);
    assert_eq!(top[3], (0, 3));
    assert_eq!(bottom[8], (8, 8));
}

#[test]
fn opponent_and_name() {
    assert_eq!(Player::Player1.opponent(), Player::Player2);
    assert_eq!(Player::Player2.opponent(), Player::Player1);
    assert_eq!(Player::Player1.name(), "player1");
    assert_eq!(Player::Player2.name(), "player2");
}

#[test]
fn clone_is_independent() {
    let game = fresh9();
    let mut copy = game.clone();
    assert_eq!(copy.add_wall("e1h", false, true), Ok(true));
    assert_eq!(game.distance_to_goal(Player::Player1), 8);
    assert_eq!(copy.distance_to_goal(Player::Player1), 9);
    assert_eq!(game.state_string().as_str(), " /  / e1 e9 / 10 10 / 1");
}

#[test]
fn accepted_walls_keep_both_pawns_connected() {
    let mut game = fresh9();
    let mut placed = 0;
    let mut k = 0usize;
    while placed < 20 {
        let walls = game.get_legal_walls(game.active_player());
        if walls.is_empty() {
            break;
        }
        k = (k * 31 + 17) % walls.len();
        assert_eq!(game.add_wall(&walls[k], false, true), Ok(true));
        placed += 1;
        assert!(game.distance_to_goal(Player::Player1) < 100);
        assert!(game.distance_to_goal(Player::Player2) < 100);
    }
    assert_eq!(placed, 20);
    assert_eq!(game.walls_available(Player::Player1), 0);
    assert_eq!(game.walls_available(Player::Player2), 0);
}

#[test]
fn an_unchecked_wall_can_be_placed_twice() {
    let mut game = fresh9();
    assert_eq!(game.add_wall("e3h", false, false), Ok(true));
    let after_one = (game.distance_to_goal(Player::Player1), game.distance_to_goal(Player::Player2));
    // the passages are gone already: taking them out again changes nothing but the list and the stock
    assert_eq!(game.add_wall("e3h", false, false), Ok(true));
    assert_eq!(game.hwall_positions(), &vec![(6, 4), (6, 4)]);
    assert_eq!((game.distance_to_goal(Player::Player1), game.distance_to_goal(Player::Player2)), after_one);
    assert_eq!(game.walls_available(Player::Player1), 9);
    assert_eq!(game.walls_available(Player::Player2), 9);
    assert_eq!(game.state_string().as_str(), "e3e3 /  / e1 e9 / 9 9 / 1");
    // with the rules consulted it is refused
    assert_eq!(game.add_wall("e3h", false, true), Ok(false));
}

#[test]
fn wall_stock_goes_down_by_one_when_a_wall_is_placed() {
    let mut game = fresh9();
    for (text, mover) in [("a2h", Player::Player1), ("c2h", Player::Player2), ("e2v", Player::Player1)] {
        let own = game.walls_available(mover);
        let other = game.walls_available(mover.opponent());
        assert_eq!(game.add_wall(text, false, true), Ok(true));
        assert_eq!(game.walls_available(mover), own - 1);
        assert_eq!(game.walls_available(mover.opponent()), other);
        // the same wall again is refused and costs nothing
        let own = game.walls_available(mover.opponent());
        assert_eq!(game.add_wall(text, false, true), Ok(false));
        assert_eq!(game.walls_available(mover.opponent()), own);
        assert_eq!(game.active_player(), mover.opponent());
    }
    // a wall placed while a state is replayed costs nothing
    let own = game.walls_available(Player::Player2);
    assert_eq!(game.add_wall("g5h", true, true), Ok(true));
    assert_eq!(game.walls_available(Player::Player2), own);
    assert_eq!(game.active_player(), Player::Player2);
}

#[test]
fn a_pawn_cannot_be_walled_in() {
    // the first player stands in the corner behind a wall; a second wall would close the corner
    let game = from_state("a1 /  / a1 e9 / 10 10 / 2");
    assert!(!game.wall_check(Player::Player2, "a1v"));
    assert!(!game.wall_check(Player::Player2, "b1v"));
    assert!(game.wall_check(Player::Player2, "c1v"));
    assert!(game.wall_check(Player::Player2, "b2v"));
}

#[test]
fn no_pawn_move_is_listed_twice() {
    for state in [
        " /  / e1 e9 / 10 10 / 1",
        " /  / e5 e4 / 10 10 / 1",
        "e5h /  / e5 e4 / 9 10 / 2",
        " /  / a1 a2 / 10 10 / 1",
        "a2h / a1v / a1 a2 / 9 9 / 1",
        " / e4v / e5 e4 / 10 9 / 1",
    ] {
        let game = Quoridor::new(9, 10, Some(state)).unwrap();
        for player in [Player::Player1, Player::Player2] {
            let moves = game.get_legal_moves(player);
            for i in 0..moves.len() {
                for j in (i + 1)..moves.len() {
                    assert!(moves[i] != moves[j], "{} is listed twice in {:?}", moves[i], state);
                }
            }
            let cells = game.legal_destinations(player);
            assert_eq!(cells.len(), moves.len());
        }
    }
    let fresh = Quoridor::new(9, 10, None).unwrap();
    assert_eq!(fresh.get_legal_moves(Player::Player1).len(), 3);
    assert_eq!(fresh.get_legal_moves(Player::Player2).len(), 3);
}

#[test]
fn distances_after_walls_are_lengths_of_real_ways() {
    let mut game = Quoridor::new(9, 10, None).unwrap();
    let asked =
        ["e2h", "c2h", "a2h", "g2h", "h2v", "h2h", "i2h", "e8h", "zz", "e2h", "d8v", "c8h", "a8h", "g8h", "i8h"];
    let mut placed = 0;
    for wall in asked {
        if game.add_wall(wall, false, true) == Ok(true) {
            placed += 1;
        }
        for player in [Player::Player1, Player::Player2] {
            let steps = game.distance_to_goal(player);
            assert!((8..=80).contains(&steps), "{} steps after {}", steps, wall);
        }
        assert_eq!(game.pawn_position(Player::Player1), (8, 4));
        assert_eq!(game.pawn_position(Player::Player2), (0, 4));
    }
    assert!(placed >= 8);
    // the first player's row of walls leaves one gap, far from the pawn
    assert!(game.distance_to_goal(Player::Player1) > 8);
}

#[test]
fn a_written_state_is_read_as_the_same_board() {
    let mut game = fresh9();
    let moves = ["e2", "e8", "e3h", "d7v", "e3", "a2h", "h8v", "e7", "f3", "c5h", "g5v", "e6"];
    for text in moves {
        assert_eq!(game.play(text, true), Ok(true), "{}", text);
        let written = game.state_string().clone();
        let read = Quoridor::new(9, 10, Some(&written)).unwrap();
        assert_eq!(read.state_string(), &written);
        assert_eq!(read.hwall_positions(), game.hwall_positions());
        assert_eq!(read.vwall_positions(), game.vwall_positions());
        for player in [Player::Player1, Player::Player2] {
            assert_eq!(read.pawn_position(player), game.pawn_position(player));
            assert_eq!(read.walls_available(player), game.walls_available(player));
            assert_eq!(read.distance_to_goal(player), game.distance_to_goal(player));
        }
        assert_eq!(read.active_player(), game.active_player());
        assert_eq!(read.get_all_legal_moves(), game.get_all_legal_moves());
        // no move is on record in the game that was read
        assert_eq!(read.last_move().as_str(), "Blank");
    }
    assert_eq!(game.state_string().as_str(), "e3a2c5 / d7h8g5 / f3 e6 / 7 7 / 1");
}

#[test]
fn no_wall_is_listed_twice() {
    for state in [" /  / e1 e9 / 10 10 / 1", "e3a2c5 / d7h8g5 / f3 d7 / 7 7 / 1", "a5c5e5g5 /  / e1 e9 / 10 10 / 2"] {
        let game = from_state(state);
        for player in [Player::Player1, Player::Player2] {
            let mut walls = game.get_legal_walls(player);
            let listed = walls.len();
            walls.sort();
            walls.dedup();
            assert_eq!(walls.len(), listed);
        }
        let mut all = game.get_all_legal_moves();
        let listed = all.len();
        all.sort();
        all.dedup();
        assert_eq!(all.len(), listed);
    }
    assert_eq!(fresh9().get_legal_walls(Player::Player1).len(), 128);
}
