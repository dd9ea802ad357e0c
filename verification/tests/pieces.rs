use quoridor::annealing::toughest_reply;
use quoridor::game::Quoridor;
use quoridor::mcts::{MCTSNode, SearchTree};
use quoridor::minimax::standard_weights;
use quoridor::notation::{
    is_wall_text, read_cell, read_wall, same_text, write_cell, write_number, write_wall, Orientation, ParseError,
};
use quoridor::player::Player;
use quoridor::strategy::{is_listed, percent, pick};
use quoridor::text::{blank, read_number_or, split_pairs, split_text, split_words, trim_text};

fn board(size: usize, walls: usize, state: Option<&str>) -> Quoridor {
    match Quoridor::new(size, walls, state) {
        Ok(game) => game,
        Err(e) => panic!("game refused: {:?}", e),
    }
}

fn owned(list: &[&str]) -> Vec<String> {
    list.iter().map(|s| s.to_string()).collect()
}

#[test]
fn cells_are_written_and_read() {
    assert_eq!(write_cell(9, (8, 0)), "a1");
    assert_eq!(write_cell(9, (0, 8)), "i9");
    assert_eq!(write_cell(5, (0, 0)), "a5");
    assert_eq!(write_cell(1, (0, 0)), "a1");
    assert_eq!(read_cell(5, "a5"), Ok((0, 0)));
    assert_eq!(read_cell(5, "e1"), Ok((4, 4)));
    assert_eq!(read_cell(5, "a6"), Err(ParseError::OutOfBounds));
    assert_eq!(read_cell(5, "f1"), Err(ParseError::OutOfBounds));
    assert_eq!(read_cell(9, "a+"), Err(ParseError::InvalidRow));
    assert_eq!(read_cell(9, "a1x"), Err(ParseError::InvalidRow));
    assert_eq!(read_cell(9, "a99999999999999999999999999"), Err(ParseError::OutOfBounds));
    assert_eq!(read_cell(9, "a0000000000000000000000003"), Ok((6, 0)));
    assert_eq!(read_cell(9, "é1"), Err(ParseError::InvalidColumn));
    assert_eq!(read_cell(9, "1a"), Err(ParseError::InvalidColumn));
    assert_eq!(read_cell(9, "héh"), Err(ParseError::InvalidRow));
}

#[test]
fn walls_are_written_and_read() {
    assert_eq!(write_wall(9, (6, 4), Orientation::Horizontal), "e3h");
    assert_eq!(write_wall(9, (6, 4), Orientation::Vertical), "e3v");
    assert_eq!(read_wall(9, "e3h"), Ok(((6, 4), Orientation::Horizontal)));
    assert_eq!(read_wall(9, "E3v"), Ok(((6, 4), Orientation::Vertical)));
    assert_eq!(read_wall(9, "e3"), Err(ParseError::TooShort));
    assert_eq!(read_wall(9, ""), Err(ParseError::TooShort));
    assert_eq!(read_wall(9, "e3H"), Err(ParseError::InvalidOrientation));
    assert_eq!(read_wall(9, "e03h"), Err(ParseError::InvalidOrientation));
    assert_eq!(read_wall(9, "33h"), Err(ParseError::InvalidColumn));
    assert_eq!(read_wall(9, "eeh"), Err(ParseError::InvalidRow));
    assert_eq!(read_wall(9, "e0h"), Err(ParseError::OutOfBounds));
    for row in 0..9 {
        for col in 0..9 {
            for orientation in [Orientation::Horizontal, Orientation::Vertical] {
                let text = write_wall(9, (row, col), orientation);
                assert_eq!(read_wall(9, &text), Ok(((row, col), orientation)));
                assert!(is_wall_text(&text));
            }
        }
    }
    assert!(!is_wall_text("e3"));
    assert!(!is_wall_text("e3x"));
    assert!(!is_wall_text("e10h"));
    assert!(is_wall_text("zzh"));
}

#[test]
fn numbers_and_texts() {
    assert_eq!(write_number(0), "0");
    assert_eq!(write_number(7), "7");
    assert_eq!(write_number(10), "10");
    assert_eq!(write_number(60000), "60000");
    assert_eq!(write_number(usize::MAX), usize::MAX.to_string());
    assert!(same_text("", ""));
    assert!(same_text("e2", "e2"));
    assert!(!same_text("e2", "e3"));
    assert!(!same_text("e2", "e2h"));
    assert!(!same_text("e", ""));
    assert_eq!(read_number_or("10", 3), 10);
    assert_eq!(read_number_or("+10", 3), 10);
    assert_eq!(read_number_or("007", 3), 7);
    assert_eq!(read_number_or("", 3), 3);
    assert_eq!(read_number_or("+", 3), 3);
    assert_eq!(read_number_or("-1", 3), 3);
    assert_eq!(read_number_or("1 ", 3), 3);
    assert_eq!(read_number_or("x", 3), 3);
    assert_eq!(read_number_or(&usize::MAX.to_string(), 3), usize::MAX);
    assert_eq!(read_number_or("99999999999999999999999999999999", 3), 3);
}

#[test]
fn text_is_cut_into_pieces() {
    assert_eq!(split_text("", '/'), owned(&[""]));
    assert_eq!(split_text("a", '/'), owned(&["a"]));
    assert_eq!(split_text("/", '/'), owned(&["", ""]));
    assert_eq!(split_text("a/b//c/", '/'), owned(&["a", "b", "", "c", ""]));
    assert_eq!(split_text(" /  / e1 e9 / 10 10 / 1", '/'), owned(&[" ", "  ", " e1 e9 ", " 10 10 ", " 1"]));
    assert!(split_words("").is_empty());
    assert!(split_words("  \t ").is_empty());
    assert_eq!(split_words("e1"), owned(&["e1"]));
    assert_eq!(split_words(" e1  e9\n"), owned(&["e1", "e9"]));
    assert_eq!(split_words("a\u{a0}b\u{3000}c"), owned(&["a", "b", "c"]));
    assert_eq!(trim_text(""), "");
    assert_eq!(trim_text("   "), "");
    assert_eq!(trim_text("  a b \t"), "a b");
    assert_eq!(trim_text("ab"), "ab");
    assert!(split_pairs("").is_empty());
    assert!(split_pairs("a").is_empty());
    assert_eq!(split_pairs("a1b2"), owned(&["a1", "b2"]));
    assert_eq!(split_pairs("a1b2c"), owned(&["a1", "b2"]));
    assert!(blank(' '));
    assert!(blank('\t'));
    assert!(blank('\u{2009}'));
    assert!(!blank('a'));
    assert!(!blank('\u{200b}'));
}

#[test]
fn lists_of_moves() {
    let list = owned(&["e2", "d1", "e3h"]);
    assert!(is_listed(&list, "d1"));
    assert!(is_listed(&list, "e3h"));
    assert!(!is_listed(&list, "e3"));
    assert!(!is_listed(&vec![], "e3"));
    assert_eq!(pick(&list, 0), "e2");
    assert_eq!(pick(&list, 2), "e3h");
    assert_eq!(percent(0), 0);
    assert_eq!(percent(70), 70);
    assert_eq!(percent(100), 100);
    assert_eq!(percent(101), 100);
    assert_eq!(percent(u32::MAX), 100);
}

#[test]
fn typed_moves() {
    let position = board(9, 10, Some("e3 /  / e2 e3 / 10 10 / 1"));
    let mut cells = position.legal_destinations(Player::Player1);
    cells.sort();
    assert_eq!(cells, vec![(6, 3), (6, 5), (7, 3), (7, 5), (8, 4)]);
    assert!(position.wall_allowed(Player::Player1, (4, 4), Orientation::Horizontal));
    assert!(!position.wall_allowed(Player::Player1, (6, 4), Orientation::Horizontal));
    assert!(!position.wall_allowed(Player::Player1, (6, 4), Orientation::Vertical));
    // walls that reach over the edge would sever one passage, or none
    assert!(!position.wall_allowed(Player::Player1, (0, 4), Orientation::Vertical));
    assert!(!position.wall_allowed(Player::Player1, (4, 8), Orientation::Horizontal));
    assert!(!position.wall_allowed(Player::Player1, (0, 4), Orientation::Horizontal));
    assert!(!position.wall_allowed(Player::Player1, (4, 8), Orientation::Vertical));
    assert!(position.wall_allowed(Player::Player1, (1, 4), Orientation::Vertical));
    assert!(position.wall_allowed(Player::Player1, (4, 7), Orientation::Horizontal));
    // the second player has used up its stock in this game
    let broke = board(9, 10, Some("e3 /  / e2 e3 / 10 0 / 1"));
    assert!(!broke.wall_allowed(Player::Player2, (4, 4), Orientation::Horizontal));
    assert!(!broke.wall_allowed(Player::Player2, (0, 4), Orientation::Horizontal));
    let all = position.get_all_legal_moves();
    let pawn = position.get_legal_moves(Player::Player1);
    let walls = position.get_legal_walls(Player::Player1);
    assert_eq!(all.len(), pawn.len() + walls.len());
    assert_eq!(&all[..pawn.len()], &pawn[..]);
    assert_eq!(&all[pawn.len()..], &walls[..]);
}

#[test]
fn play_tells_walls_from_pawn_moves() {
    let mut position = board(9, 10, None);
    assert_eq!(position.play("e2", true), Ok(true));
    assert_eq!(position.play("e9h", true), Ok(false));
    assert_eq!(position.play("e8h", true), Ok(true));
    assert_eq!(position.hwall_positions(), &vec![(1, 4)]);
    assert_eq!(position.play("e2", true), Ok(false));
    assert_eq!(position.play("e33", true), Err(ParseError::OutOfBounds));
    assert_eq!(position.play("e3x", true), Err(ParseError::InvalidRow));
    assert_eq!(position.play("zzh", false), Err(ParseError::InvalidRow));
    // text of four characters that ends in a mark is read as a pawn move to its first two
    assert_eq!(position.play("e3zh", false), Ok(true));
    assert_eq!(position.pawn_position(Player::Player1), (6, 4));
    assert_eq!(position.last_move().as_str(), "e3zh");
    assert_eq!(position.active_player(), Player::Player2);
}

#[test]
fn a_state_is_read_into_a_running_game() {
    let mut position = board(9, 10, Some("e3 /  / e2 e8 / 9 10 / 2"));
    assert_eq!(position.parse_state_string("a2 / h7 / c3 c7 / 4 5 / 1"), Ok(()));
    assert_eq!(position.state_string().as_str(), "e3a2 / h7 / c3 c7 / 4 5 / 1");
    assert_eq!(position.hwall_positions(), &vec![(6, 4), (7, 0)]);
    assert_eq!(position.vwall_positions(), &vec![(2, 7)]);
    assert_eq!(position.pawn_position(Player::Player1), (6, 2));
    assert_eq!(position.walls_available(Player::Player2), 5);
    assert_eq!(position.active_player(), Player::Player1);
    // malformed text leaves the game as it was
    let before = position.state_string().clone();
    assert_eq!(position.parse_state_string("a2 / zz / c3 c7 / 4 5 / 1"), Err(ParseError::InvalidRow));
    assert_eq!(position.parse_state_string("a2 / / c3 / 4 5 / 1"), Err(ParseError::PawnField));
    assert_eq!(position.parse_state_string("a2 / / c3 c7 / 4 5 6 / 1"), Err(ParseError::StockField));
    assert_eq!(position.parse_state_string("nothing"), Err(ParseError::FieldCount));
    assert_eq!(position.state_string(), &before);
    assert_eq!(position.hwall_positions(), &vec![(6, 4), (7, 0)]);
}

#[test]
fn the_turn_is_passed_on_request() {
    let mut position = board(9, 10, None);
    position.update_state_string(true);
    assert_eq!(position.active_player(), Player::Player1);
    assert_eq!(position.state_string().as_str(), " /  / e1 e9 / 10 10 / 1");
    position.update_state_string(false);
    assert_eq!(position.active_player(), Player::Player2);
    assert_eq!(position.state_string().as_str(), " /  / e1 e9 / 10 10 / 2");
    position.update_state_string(false);
    assert_eq!(position.active_player(), Player::Player1);
}

#[test]
fn passages_are_rebuilt_on_a_board_without_walls() {
    let mut position = board(9, 10, None);
    assert_eq!(position.move_pawn("e2", true), Ok(true));
    position.initialize_graph();
    assert_eq!(position.distance_to_goal(Player::Player1), 7);
    assert_eq!(position.distance_to_goal(Player::Player2), 8);
    assert_eq!(position.get_legal_moves(Player::Player2).len(), 3);
    assert_eq!(position.state_string().as_str(), " /  / e2 e9 / 10 10 / 2");
}

#[test]
fn boards_of_every_size() {
    for size in 1..10 {
        let position = board(size, 2, None);
        assert_eq!(position.size(), size);
        assert_eq!(position.pawn_position(Player::Player1), (size - 1, (size - 1) / 2));
        assert_eq!(position.pawn_position(Player::Player2), (0, size / 2));
        // both pawns start a board's length from their goal rows; on boards of even size they
        // start in different columns
        assert_eq!(position.distance_to_goal(Player::Player1), size - 1);
        assert_eq!(position.distance_to_goal(Player::Player2), size - 1);
        // on a board of two rows the one horizontal wall would close both ways up
        let walls = position.get_legal_walls(Player::Player1);
        let expected = if size == 2 { 1 } else { 2 * (size - 1) * (size - 1) };
        assert_eq!(walls.len(), expected);
    }
}

#[test]
fn the_reply_to_fear() {
    let w = standard_weights();
    // the second player is to move, one step from winning: moving there is what the first has to fear
    let position = board(9, 0, Some(" /  / e5 c2 / 0 0 / 2"));
    let moves = position.get_all_legal_moves();
    assert_eq!(toughest_reply(&position, w, Player::Player1, &moves), "c1");
    let single = owned(&["b2"]);
    assert_eq!(toughest_reply(&position, w, Player::Player1, &single), "b2");
}

#[test]
fn a_tree_starts_as_a_root() {
    let tree = SearchTree::new(owned(&["e2", "d1"]), Player::Player2);
    assert_eq!(tree.node_count(), 1);
    assert_eq!(tree.simulation_count(), 0);
    assert_eq!(tree.stopped_short_count(), 0);
    let root = tree.node(0);
    assert_eq!(root.move_str, "root");
    assert_eq!(root.visits, 0);
    assert_eq!(root.wins, 0);
    assert_eq!(root.depth, 0);
    assert_eq!(root.player, Player::Player2);
    assert!(root.children.is_empty());
    assert_eq!(root.unexpanded_moves, owned(&["e2", "d1"]));
    let node = MCTSNode::new("e2".to_string(), Player::Player1, owned(&["e8"]), 1);
    assert_eq!(node.move_str, "e2");
    assert_eq!(node.visits, 0);
    assert_eq!(node.depth, 1);
    assert_eq!(node.unexpanded_moves, owned(&["e8"]));
}
