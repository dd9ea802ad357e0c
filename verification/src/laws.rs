//! What holds of every game: facts about positions that follow from the
//! rules, proved once for all boards, pawns and walls.

use crate::notation::{
    cell_text, lemma_cell_round_trip, lemma_wall_round_trip, looks_like_wall, on_board, parse_cell, parse_wall,
    wall_text, Coord, Orientation, MAX_SIZE,
};
use crate::player::Player;
use crate::position::{
    lemma_legal_on_board, lemma_path_cells_on_board, lemma_steps_to_row, lemma_ways_same_walls, wall_edges, Position,
    UNREACHABLE,
};
use vstd::prelude::*;

verus! {

/// A passage can be walked in both directions.
pub proof fn lemma_open_symmetric(pos: Position, a: Coord, b: Coord)
    ensures
        pos.open(a, b) == pos.open(b, a),
{
}

/// A way to a row can be entered from any cell that has an open passage to
/// its first cell.
pub proof fn lemma_way_from_neighbour(pos: Position, near: Coord, from: Coord, row: nat)
    requires
        pos.open(near, from),
        pos.reaches_row(from, row),
    ensures
        pos.reaches_row(near, row),
{
    let path = choose|path: Seq<Coord>| pos.path_to_row(path, from, row);
    let longer = seq![near] + path;
    assert forall|i: int| 0 <= i < longer.len() - 1 implies pos.open(#[trigger] longer[i], longer[i + 1]) by {
        if i > 0 {
            assert(longer[i] == path[i - 1]);
            assert(longer[i + 1] == path[i - 1 + 1]);
            assert(pos.open(path[i - 1], path[i - 1 + 1]));
        } else {
            assert(longer[1] == path[0]);
        }
    }
    assert(longer[longer.len() - 1] == path[path.len() - 1]);
    assert(pos.path_to_row(longer, near, row));
}

/// On a board without walls both pawns start with a way to their goal rows.
pub proof fn lemma_fresh_board_is_connected(size: nat, allotment: nat)
    requires
        1 <= size <= MAX_SIZE,
    ensures
        Position::fresh(size, allotment).valid(),
        Position::fresh(size, allotment).both_reach_goal(),
{
    let pos = Position::fresh(size, allotment);
    let c1 = pos.pawn1.1;
    let c2 = pos.pawn2.1;
    let up = Seq::new(size, |i: int| ((size - 1 - i) as usize, c1));
    let down = Seq::new(size, |i: int| (i as usize, c2));
    assert forall|i: int| 0 <= i < up.len() - 1 implies pos.open(#[trigger] up[i], up[i + 1]) by {
        assert(!pos.blocked(up[i], up[i + 1]));
    }
    assert forall|i: int| 0 <= i < down.len() - 1 implies pos.open(#[trigger] down[i], down[i + 1]) by {
        assert(!pos.blocked(down[i], down[i + 1]));
    }
    assert(pos.path_to_row(up, pos.pawn1, 0));
    assert(pos.path_to_row(down, pos.pawn2, (size - 1) as nat));
}

/// Whether the pawns reach their goal rows depends on the board's size,
/// its walls and the pawns' cells alone.
pub proof fn lemma_reach_same_board(p: Position, q: Position)
    requires
        p.size == q.size,
        p.hwalls == q.hwalls,
        p.vwalls == q.vwalls,
        p.pawn1 == q.pawn1,
        p.pawn2 == q.pawn2,
    ensures
        p.reaches_goal(Player::Player1) == q.reaches_goal(Player::Player1),
        p.reaches_goal(Player::Player2) == q.reaches_goal(Player::Player2),
        p.both_reach_goal() == q.both_reach_goal(),
{
    lemma_ways_same_walls(p, q, p.pawn1, 0);
    lemma_ways_same_walls(p, q, p.pawn2, (p.size - 1) as nat);
}

/// A wall that the rules were consulted about never walls a pawn off:
/// whether `add_wall` places it or refuses it, both pawns reach their goal
/// rows afterwards if they did before.
pub proof fn law_checked_wall_keeps_goals_in_reach(
    pos: Position,
    anchor: Coord,
    orientation: Orientation,
    initialise: bool,
    text: Seq<char>,
)
    requires
        pos.both_reach_goal(),
    ensures
        pos.wall_outcome(anchor, orientation, initialise, true, text).both_reach_goal(),
{
    reveal(Position::wall_legal);
    if pos.wall_accepted(anchor, orientation, initialise, true) {
        lemma_reach_same_board(pos.with_wall(anchor, orientation), pos.after_wall(anchor, orientation, text));
    }
}

/// A pawn move that the rules allow keeps both goal rows in reach.
pub proof fn law_legal_pawn_move_keeps_goals_in_reach(pos: Position, cell: Coord, text: Seq<char>)
    requires
        pos.both_reach_goal(),
        pos.legal_destination(pos.active, cell),
    ensures
        pos.after_pawn_move(cell, text).both_reach_goal(),
{
    reveal(Position::legal_destination);
    let mover = pos.active;
    let own = pos.pawn(mover);
    let opp = pos.pawn(mover.other());
    let row = pos.goal_row(mover);
    let moved = pos.with_pawn(mover, cell);
    let after = pos.after_pawn_move(cell, text);
    lemma_open_symmetric(pos, own, cell);
    lemma_open_symmetric(pos, own, opp);
    lemma_open_symmetric(pos, opp, cell);
    if pos.open(own, cell) {
        lemma_way_from_neighbour(pos, cell, own, row);
    } else {
        lemma_way_from_neighbour(pos, opp, own, row);
        lemma_way_from_neighbour(pos, cell, opp, row);
    }
    lemma_ways_same_walls(pos, after, cell, row);
    lemma_ways_same_walls(pos, after, opp, pos.goal_row(mover.other()));
}

/// A pawn move that the rules were consulted about keeps both goal rows
/// in reach, whether `move_pawn` carries it out or refuses it.
pub proof fn law_checked_pawn_move_keeps_goals_in_reach(pos: Position, text: Seq<char>)
    requires
        pos.valid(),
        pos.both_reach_goal(),
        parse_cell(pos.size, text) is Ok,
    ensures
        pos.pawn_outcome(parse_cell(pos.size, text)->Ok_0, true, text).both_reach_goal(),
{
    if pos.names_move(pos.active, text) {
        let cell = parse_cell(pos.size, text)->Ok_0;
        let named = choose|c: Coord| #[trigger] pos.legal_destination(pos.active, c) && text == cell_text(pos.size, c);
        lemma_legal_on_board(pos, pos.active, named);
        lemma_cell_round_trip(pos.size, named);
        law_legal_pawn_move_keeps_goals_in_reach(pos, cell, text);
    }
}

/// Playing by the rules keeps both goal rows in reach: whatever move is
/// handed to the game with the rules consulted, carried out or refused,
/// both pawns reach their goal rows afterwards if they did before.
pub proof fn law_checked_play_keeps_goals_in_reach(pos: Position, text: Seq<char>)
    requires
        pos.valid(),
        pos.both_reach_goal(),
    ensures
        pos.played(text, true).both_reach_goal(),
{
    reveal(Position::played);
    if looks_like_wall(text) {
        if parse_wall(pos.size, text) is Ok {
            let wall = parse_wall(pos.size, text)->Ok_0;
            law_checked_wall_keeps_goals_in_reach(pos, wall.0, wall.1, false, text);
        }
    } else if parse_cell(pos.size, text) is Ok {
        law_checked_pawn_move_keeps_goals_in_reach(pos, text);
    }
}

/// A wall that is placed and paid for costs the active player exactly one
/// wall; a wall that is refused, or placed while a state is replayed, costs
/// nothing; the other player's stock never changes.
pub proof fn law_wall_stock(
    pos: Position,
    anchor: Coord,
    orientation: Orientation,
    initialise: bool,
    check: bool,
    text: Seq<char>,
)
    ensures
        ({
            let after = pos.wall_outcome(anchor, orientation, initialise, check, text);
            let paid = pos.wall_accepted(anchor, orientation, initialise, check) && !initialise;
            &&& paid ==> after.stock(pos.active) + 1 == pos.stock(pos.active)
            &&& !paid ==> after.stock(pos.active) == pos.stock(pos.active)
            &&& after.stock(pos.active.other()) == pos.stock(pos.active.other())
        }),
{
}


/// A shortest way to a row visits no cell twice.
proof fn lemma_shortest_way_has_no_loop(pos: Position, from: Coord, row: nat, path: Seq<Coord>, i: int, j: int)
    requires
        pos.path_to_row(path, from, row),
        forall|other: Seq<Coord>| pos.path_to_row(other, from, row) ==> other.len() >= path.len(),
        0 <= i < j < path.len(),
    ensures
        path[i] != path[j],
{
    if path[i] == path[j] {
        let shorter = path.subrange(0, i + 1) + path.subrange(j + 1, path.len() as int);
        assert forall|k: int| 0 <= k < shorter.len() - 1 implies pos.open(#[trigger] shorter[k], shorter[k + 1]) by {
            if k < i {
                assert(pos.open(path[k], path[k + 1]));
            } else {
                assert(shorter[k + 1] == path[k + (j - i) + 1]);
                assert(pos.open(path[k + (j - i)], path[k + (j - i) + 1]));
                if k == i {
                    assert(shorter[k] == path[j]);
                } else {
                    assert(shorter[k] == path[k + (j - i)]);
                }
            }
        }
        assert(shorter[shorter.len() - 1] == path[path.len() - 1]);
        assert(pos.path_to_row(shorter, from, row));
    }
}

/// Two cells of a board with the same row-major number are one cell.
proof fn lemma_cell_codes_differ(size: int, a: Coord, b: Coord)
    requires
        0 <= a.1 < size,
        0 <= b.1 < size,
        a.0 * size + a.1 == b.0 * size + b.1,
    ensures
        a == b,
{
    assert(a.0 == b.0) by (nonlinear_arith)
        requires
            0 <= a.1 < size,
            0 <= b.1 < size,
            a.0 >= 0,
            b.0 >= 0,
            a.0 * size + a.1 == b.0 * size + b.1,
    {
        if a.0 < b.0 {
            assert(b.0 * size >= (a.0 + 1) * size);
        } else if b.0 < a.0 {
            assert(a.0 * size >= (b.0 + 1) * size);
        }
    }
}

/// A shortest way has fewer steps than the board has cells, so the number
/// that stands for "no way" is never the length of a way.
pub proof fn lemma_distance_is_small(pos: Position, from: Coord, row: nat, steps: nat)
    requires
        pos.size <= MAX_SIZE,
        pos.is_row_distance(from, row, steps),
    ensures
        steps < pos.size * pos.size,
        steps < UNREACHABLE,
{
    let n = pos.size as int;
    let path = choose|path: Seq<Coord>| pos.path_to_row(path, from, row) && path.len() == steps + 1;
    let codes = Seq::new(path.len(), |k: int| path[k].0 * n + path[k].1);
    assert forall|i: int, j: int| 0 <= i < codes.len() && 0 <= j < codes.len() && i != j implies codes[i] != codes[j]
        by {
        lemma_path_cells_on_board(pos, path, i);
        lemma_path_cells_on_board(pos, path, j);
        if i < j {
            lemma_shortest_way_has_no_loop(pos, from, row, path, i, j);
        } else {
            lemma_shortest_way_has_no_loop(pos, from, row, path, j, i);
        }
        if codes[i] == codes[j] {
            lemma_cell_codes_differ(n, path[i], path[j]);
        }
    }
    codes.unique_seq_to_set();
    let all = vstd::set_lib::set_int_range(0, n * n);
    assert(n * n <= 81 && n * n >= 0) by (nonlinear_arith)
        requires
            0 <= n <= 9,
    ;
    vstd::set_lib::lemma_int_range(0, n * n);
    assert forall|code: int| codes.to_set().contains(code) implies all.contains(code) by {
        let k = choose|k: int| 0 <= k < codes.len() && codes[k] == code;
        lemma_path_cells_on_board(pos, path, k);
        let c = path[k];
        assert(0 <= c.0 * n + c.1 < n * n) by (nonlinear_arith)
            requires
                0 <= c.0 < n,
                0 <= c.1 < n,
        ;
    }
    vstd::set_lib::lemma_len_subset(codes.to_set(), all);
}

/// The distance to a row is `UNREACHABLE` exactly when no way leads there.
pub proof fn law_sentinel_means_no_way(pos: Position, from: Coord, row: nat)
    requires
        pos.size <= MAX_SIZE,
    ensures
        pos.steps_to_row(from, row) <= UNREACHABLE,
        pos.steps_to_row(from, row) == UNREACHABLE <==> !pos.reaches_row(from, row),
{
    reveal(Position::steps_to_row);
    if pos.reaches_row(from, row) {
        lemma_steps_to_row(pos, from, row);
        lemma_distance_is_small(pos, from, row, pos.steps_to_row(from, row));
    }
}

/// After a wall that the rules were consulted about, neither pawn's
/// distance to its goal row is the number that stands for "no way".
pub proof fn law_checked_wall_leaves_finite_distances(
    pos: Position,
    anchor: Coord,
    orientation: Orientation,
    initialise: bool,
    text: Seq<char>,
)
    requires
        pos.size <= MAX_SIZE,
        pos.both_reach_goal(),
    ensures
        pos.wall_outcome(anchor, orientation, initialise, true, text).steps_to_goal(Player::Player1) < UNREACHABLE,
        pos.wall_outcome(anchor, orientation, initialise, true, text).steps_to_goal(Player::Player2) < UNREACHABLE,
{
    let after = pos.wall_outcome(anchor, orientation, initialise, true, text);
    law_checked_wall_keeps_goals_in_reach(pos, anchor, orientation, initialise, text);
    law_sentinel_means_no_way(after, after.pawn1, 0);
    law_sentinel_means_no_way(after, after.pawn2, (after.size - 1) as nat);
}

/// The position after the moves of `line` were made in turn from `pos`,
/// with the rules consulted.
pub open spec fn position_after(pos: Position, line: Seq<Seq<char>>) -> Position
    decreases line.len(),
{
    if line.len() == 0 {
        pos
    } else {
        position_after(pos, line.drop_last()).played(line.last(), true)
    }
}

/// The position after `add_wall` was asked for each wall of `walls` in
/// turn, with the rules consulted: a wall is placed if it is accepted, and
/// text that names no wall changes nothing.
pub open spec fn after_walls(pos: Position, walls: Seq<Seq<char>>) -> Position
    decreases walls.len(),
{
    if walls.len() == 0 {
        pos
    } else {
        let before = after_walls(pos, walls.drop_last());
        match parse_wall(before.size, walls.last()) {
            Ok((anchor, orientation)) => before.wall_outcome(anchor, orientation, false, true, walls.last()),
            Err(_) => before,
        }
    }
}

/// Asking for walls moves no pawn and leaves the board's size as it is,
/// and with the rules consulted it walls no pawn off.
pub proof fn lemma_walls_move_no_pawn(pos: Position, walls: Seq<Seq<char>>)
    ensures
        after_walls(pos, walls).size == pos.size,
        after_walls(pos, walls).pawn1 == pos.pawn1,
        after_walls(pos, walls).pawn2 == pos.pawn2,
        pos.both_reach_goal() ==> after_walls(pos, walls).both_reach_goal(),
    decreases walls.len(),
{
    if walls.len() > 0 {
        lemma_walls_move_no_pawn(pos, walls.drop_last());
        let before = after_walls(pos, walls.drop_last());
        match parse_wall(before.size, walls.last()) {
            Ok((anchor, orientation)) => {
                if before.both_reach_goal() {
                    law_checked_wall_keeps_goals_in_reach(before, anchor, orientation, false, walls.last());
                }
            },
            Err(_) => {},
        }
    }
}

/// A step leads to the same row or to a row next to it: after `k` steps a
/// way is at most `k` rows from where it began.
pub proof fn lemma_way_crosses_rows(pos: Position, path: Seq<Coord>, k: int)
    requires
        pos.is_path(path),
        0 <= k < path.len(),
    ensures
        path[0].0 - k <= path[k].0 <= path[0].0 + k,
    decreases k,
{
    if k > 0 {
        lemma_way_crosses_rows(pos, path, k - 1);
        assert(pos.open(path[k - 1], path[k - 1 + 1]));
    }
}

/// Whatever walls were asked for on a fresh board, with the rules
/// consulted, both pawns keep a way to their goal rows, and the distance of
/// each is the length of a real way: at least the rows that lie between the
/// pawn and its goal row, fewer than the board has cells, and never the
/// number that stands for "no way".
pub proof fn law_walls_leave_real_distances(size: nat, allotment: nat, walls: Seq<Seq<char>>, player: Player)
    requires
        1 <= size <= MAX_SIZE,
    ensures
        after_walls(Position::fresh(size, allotment), walls).both_reach_goal(),
        size - 1 <= after_walls(Position::fresh(size, allotment), walls).steps_to_goal(player) < size * size,
        after_walls(Position::fresh(size, allotment), walls).steps_to_goal(player) < UNREACHABLE,
{
    let start = Position::fresh(size, allotment);
    let pos = after_walls(start, walls);
    lemma_fresh_board_is_connected(size, allotment);
    lemma_walls_move_no_pawn(start, walls);
    let from = pos.pawn(player);
    let row = pos.goal_row(player);
    let steps = pos.steps_to_goal(player);
    lemma_steps_to_row(pos, from, row);
    lemma_distance_is_small(pos, from, row, steps);
    let path = choose|path: Seq<Coord>| pos.path_to_row(path, from, row) && path.len() == steps + 1;
    lemma_way_crosses_rows(pos, path, steps as int);
}

/// A wall that the rules allow lies fully on the board: its anchor is below
/// the top row and left of the last column, where the wall severs two
/// passages. No wall that reaches over the board's edge is legal.
pub proof fn law_legal_wall_lies_on_the_board(pos: Position, player: Player, anchor: Coord, orientation: Orientation)
    requires
        on_board(pos.size, anchor),
        pos.wall_legal(player, anchor, orientation),
    ensures
        pos.wall_anchor(anchor),
        wall_edges(pos.size, anchor, orientation).len() == 2,
{
    reveal(Position::wall_legal);
}

/// The walls that the rules allow are the walls that are listed: a wall
/// anchored on the board may be placed exactly if its notation names a
/// legal wall.
pub proof fn law_allowed_walls_are_listed(pos: Position, player: Player, anchor: Coord, orientation: Orientation)
    requires
        1 <= pos.size <= MAX_SIZE,
        on_board(pos.size, anchor),
    ensures
        pos.wall_legal(player, anchor, orientation) <==> pos.names_wall(
            player,
            wall_text(pos.size, anchor, orientation),
        ),
{
    let text = wall_text(pos.size, anchor, orientation);
    lemma_wall_round_trip(pos.size, anchor, orientation);
    if pos.wall_legal(player, anchor, orientation) {
        law_legal_wall_lies_on_the_board(pos, player, anchor, orientation);
    }
    if pos.names_wall(player, text) {
        let (a, o) = choose|a: Coord, o: Orientation|
            pos.wall_anchor(a) && #[trigger] pos.wall_legal(player, a, o) && text == wall_text(pos.size, a, o);
        lemma_wall_round_trip(pos.size, a, o);
    }
}

/// Whether `text` is the notation of a wall whose anchor comes before
/// `(row, col)` when the cells of the board are gone through row by row.
pub open spec fn is_wall_before(size: nat, text: Seq<char>, row: nat, col: nat) -> bool {
    exists|anchor: Coord, orientation: Orientation|
        #[trigger] wall_text(size, anchor, orientation) == text && on_board(size, anchor) && (anchor.0 < row || (
        anchor.0 == row && anchor.1 < col))
}

/// The walls listed up to an anchor are walls anchored before it, and none
/// of them is listed twice.
pub proof fn lemma_walls_before_listed_once(pos: Position, player: Player, row: nat, col: nat)
    requires
        1 <= pos.size <= MAX_SIZE,
        (row < pos.size && col < pos.size) || (row == pos.size && col == 0),
    ensures
        forall|k: int|
            0 <= k < pos.legal_walls_before(player, row, col).len() ==> is_wall_before(
                pos.size,
                #[trigger] pos.legal_walls_before(player, row, col)[k],
                row,
                col,
            ),
        forall|i: int, j: int|
            0 <= i < j < pos.legal_walls_before(player, row, col).len() ==> pos.legal_walls_before(player, row, col)[i]
                != pos.legal_walls_before(player, row, col)[j],
    decreases row, col,
{
    let size = pos.size;
    let list = pos.legal_walls_before(player, row, col);
    if col > 0 {
        let anchor = (row as usize, (col - 1) as usize);
        let before = pos.legal_walls_before(player, row, (col - 1) as nat);
        lemma_walls_before_listed_once(pos, player, row, (col - 1) as nat);
        let along = wall_text(size, anchor, Orientation::Horizontal);
        let across = wall_text(size, anchor, Orientation::Vertical);
        lemma_wall_round_trip(size, anchor, Orientation::Horizontal);
        lemma_wall_round_trip(size, anchor, Orientation::Vertical);
        assert forall|k: int| 0 <= k < before.len() implies before[k] != along && before[k] != across
            && is_wall_before(size, #[trigger] before[k], row, col) by {
            assert(is_wall_before(size, before[k], row, (col - 1) as nat));
            let (a, o) = choose|a: Coord, o: Orientation|
                #[trigger] wall_text(size, a, o) == before[k] && on_board(size, a) && (a.0 < row || (a.0 == row && a.1
                    < col - 1));
            lemma_wall_round_trip(size, a, o);
        }
        assert(is_wall_before(size, along, row, col)) by {
            assert(wall_text(size, anchor, Orientation::Horizontal) == along);
        }
        assert(is_wall_before(size, across, row, col)) by {
            assert(wall_text(size, anchor, Orientation::Vertical) == across);
        }
        assert(along != across);
        let with_along = if pos.wall_legal(player, anchor, Orientation::Horizontal) {
            before.push(along)
        } else {
            before
        };
        assert forall|k: int| 0 <= k < with_along.len() implies with_along[k] != across && is_wall_before(
            size,
            #[trigger] with_along[k],
            row,
            col,
        ) by {
            if k < before.len() {
                assert(with_along[k] == before[k]);
            }
        }
        assert forall|i: int, j: int| 0 <= i < j < with_along.len() implies with_along[i] != with_along[j] by {
            assert(with_along[i] == before[i]);
            if j < before.len() {
                assert(with_along[j] == before[j]);
            }
        }
        assert forall|k: int| 0 <= k < list.len() implies is_wall_before(size, #[trigger] list[k], row, col) by {
            if k < with_along.len() {
                assert(list[k] == with_along[k]);
            }
        }
        assert forall|i: int, j: int| 0 <= i < j < list.len() implies list[i] != list[j] by {
            assert(list[i] == with_along[i]);
            if j < with_along.len() {
                assert(list[j] == with_along[j]);
            }
        }
    } else if row > 1 {
        lemma_walls_before_listed_once(pos, player, (row - 1) as nat, (size - 1) as nat);
        let before = pos.legal_walls_before(player, (row - 1) as nat, (size - 1) as nat);
        assert forall|k: int| 0 <= k < list.len() implies is_wall_before(size, #[trigger] list[k], row, col) by {
            assert(is_wall_before(size, before[k], (row - 1) as nat, (size - 1) as nat));
            let (a, o) = choose|a: Coord, o: Orientation|
                #[trigger] wall_text(size, a, o) == before[k] && on_board(size, a) && (a.0 < row - 1 || (a.0 == row
                    - 1 && a.1 < size - 1));
            assert(wall_text(size, a, o) == list[k]);
        }
    }
}

/// No wall is listed twice among the walls that a player may place.
pub proof fn lemma_wall_list_has_no_duplicate(pos: Position, player: Player)
    requires
        1 <= pos.size <= MAX_SIZE,
    ensures
        forall|i: int, j: int|
            0 <= i < j < pos.legal_wall_list(player).len() ==> pos.legal_wall_list(player)[i] != pos.legal_wall_list(
                player,
            )[j],
{
    lemma_walls_before_listed_once(pos, player, pos.size, 0);
}

} // verus!
