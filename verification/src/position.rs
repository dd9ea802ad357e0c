//! The mathematical model of a game: what a position is, which passages are
//! open in it, and what the rules allow. Everything here is specification;
//! the engine's contracts are written in these terms.

use crate::notation::{
    cell_text, decimal, lemma_cell_round_trip, lemma_wall_round_trip, looks_like_wall, on_board, parse_cell,
    parse_wall, wall_text, Coord, Orientation, ParseError, MAX_SIZE,
};
use crate::player::Player;
use crate::text::{number_or, pairs, split, trimmed, words};
use vstd::prelude::*;

verus! {

/// The distance reported when no way exists.
pub const UNREACHABLE: usize = 100;

/// A position of the game, as plain values.
pub struct Position {
    /// Rows and columns of the board.
    pub size: nat,
    /// Walls that each player starts a fresh game with.
    pub allotment: nat,
    /// Anchors of the horizontal walls, in the order they were placed.
    pub hwalls: Seq<Coord>,
    /// Anchors of the vertical walls, in the order they were placed.
    pub vwalls: Seq<Coord>,
    /// Cell of the first player's pawn.
    pub pawn1: Coord,
    /// Cell of the second player's pawn.
    pub pawn2: Coord,
    /// Walls the first player has left.
    pub stock1: nat,
    /// Walls the second player has left.
    pub stock2: nat,
    /// Whose turn it is.
    pub active: Player,
    /// The serialized state before the last move.
    pub previous: Seq<char>,
    /// The last move, as it was written.
    pub last_move: Seq<char>,
}

/// `b` is the cell above, below, left or right of `a`.
pub open spec fn adjacent(a: Coord, b: Coord) -> bool {
    ||| (a.0 == b.0 && (a.1 + 1 == b.1 || b.1 + 1 == a.1))
    ||| (a.1 == b.1 && (a.0 + 1 == b.0 || b.0 + 1 == a.0))
}

/// The passages that a wall severs, as pairs of cells: none, one or two,
/// depending on how close to the board's edge the wall is anchored.
pub open spec fn wall_edges(size: nat, anchor: Coord, orientation: Orientation) -> Seq<(Coord, Coord)> {
    let (r, c) = anchor;
    match orientation {
        Orientation::Horizontal => if r > 0 {
            if c + 1 < size {
                seq![(anchor, ((r - 1) as usize, c)), ((r, (c + 1) as usize), ((r - 1) as usize, (c + 1) as usize))]
            } else {
                seq![(anchor, ((r - 1) as usize, c))]
            }
        } else {
            Seq::empty()
        },
        Orientation::Vertical => if c + 1 < size {
            if r > 0 {
                seq![(anchor, (r, (c + 1) as usize)), (((r - 1) as usize, c), ((r - 1) as usize, (c + 1) as usize))]
            } else {
                seq![(anchor, (r, (c + 1) as usize))]
            }
        } else {
            Seq::empty()
        },
    }
}

/// The wall severs the passage between `a` and `b`.
pub open spec fn wall_cuts(size: nat, anchor: Coord, orientation: Orientation, a: Coord, b: Coord) -> bool {
    let edges = wall_edges(size, anchor, orientation);
    exists|i: int| 0 <= i < edges.len() && (#[trigger] edges[i] == (a, b) || edges[i] == (b, a))
}

/// The anchors that a run of two-character chunks names, for walls of one
/// orientation: the first chunk that names no cell is an error, and a wall
/// that would sever no passage is left out.
pub open spec fn anchors_of(size: nat, chunks: Seq<Seq<char>>, orientation: Orientation) -> Result<
    Seq<Coord>,
    ParseError,
>
    decreases chunks.len(),
{
    if chunks.len() == 0 {
        Ok(Seq::empty())
    } else {
        match anchors_of(size, chunks.drop_last(), orientation) {
            Err(e) => Err(e),
            Ok(before) => match parse_cell(size, chunks.last()) {
                Err(e) => Err(e),
                Ok(anchor) => Ok(
                    if wall_edges(size, anchor, orientation).len() > 0 {
                        before.push(anchor)
                    } else {
                        before
                    },
                ),
            },
        }
    }
}

/// One less than `n`, or zero when `n` is zero.
pub open spec fn less_one(n: nat) -> nat {
    if n > 0 {
        (n - 1) as nat
    } else {
        0
    }
}

/// The cells of `cells`, each written out, one after the other.
pub open spec fn cells_text(size: nat, cells: Seq<Coord>) -> Seq<char>
    decreases cells.len(),
{
    if cells.len() == 0 {
        Seq::empty()
    } else {
        cells_text(size, cells.drop_last()) + cell_text(size, cells.last())
    }
}

impl Position {
    /// The cell of `player`'s pawn.
    pub open spec fn pawn(self, player: Player) -> Coord {
        match player {
            Player::Player1 => self.pawn1,
            Player::Player2 => self.pawn2,
        }
    }

    /// Walls that `player` has left.
    pub open spec fn stock(self, player: Player) -> nat {
        match player {
            Player::Player1 => self.stock1,
            Player::Player2 => self.stock2,
        }
    }

    /// The row that `player` has to reach.
    pub open spec fn goal_row(self, player: Player) -> nat {
        match player {
            Player::Player1 => 0,
            Player::Player2 => (self.size - 1) as nat,
        }
    }

    /// The board has a size this engine plays on, and the pawns and the
    /// walls' anchors are on it.
    pub open spec fn valid(self) -> bool {
        &&& 1 <= self.size <= MAX_SIZE
        &&& on_board(self.size, self.pawn1)
        &&& on_board(self.size, self.pawn2)
        &&& forall|i: int| 0 <= i < self.hwalls.len() ==> on_board(self.size, #[trigger] self.hwalls[i])
        &&& forall|i: int| 0 <= i < self.vwalls.len() ==> on_board(self.size, #[trigger] self.vwalls[i])
    }

    /// Some wall on the board severs the passage between `a` and `b`.
    pub open spec fn blocked(self, a: Coord, b: Coord) -> bool {
        ||| exists|i: int|
            0 <= i < self.hwalls.len() && wall_cuts(self.size, #[trigger] self.hwalls[i], Orientation::Horizontal, a, b)
        ||| exists|i: int|
            0 <= i < self.vwalls.len() && wall_cuts(self.size, #[trigger] self.vwalls[i], Orientation::Vertical, a, b)
    }

    /// A pawn can step between `a` and `b`: they are neighbours on the board
    /// and no wall stands between them.
    pub open spec fn open(self, a: Coord, b: Coord) -> bool {
        &&& on_board(self.size, a)
        &&& on_board(self.size, b)
        &&& adjacent(a, b)
        &&& !self.blocked(a, b)
    }

    /// `path` is a list of cells in which each has an open passage to the
    /// next.
    pub open spec fn is_path(self, path: Seq<Coord>) -> bool {
        &&& path.len() >= 1
        &&& on_board(self.size, path[0])
        &&& forall|i: int| 0 <= i < path.len() - 1 ==> self.open(#[trigger] path[i], path[i + 1])
    }

    /// `path` leads from `a` to `b`.
    pub open spec fn path_between(self, path: Seq<Coord>, a: Coord, b: Coord) -> bool {
        self.is_path(path) && path[0] == a && path[path.len() - 1] == b
    }

    /// A pawn on `a` can walk to `b`.
    pub open spec fn connected(self, a: Coord, b: Coord) -> bool {
        exists|path: Seq<Coord>| self.path_between(path, a, b)
    }

    /// `path` leads from `from` to some cell of row `row`.
    pub open spec fn path_to_row(self, path: Seq<Coord>, from: Coord, row: nat) -> bool {
        self.is_path(path) && path[0] == from && path[path.len() - 1].0 == row
    }

    /// A pawn on `from` can walk to row `row`.
    pub open spec fn reaches_row(self, from: Coord, row: nat) -> bool {
        exists|path: Seq<Coord>| self.path_to_row(path, from, row)
    }

    /// `steps` is the length of a shortest way from `from` to row `row`.
    pub open spec fn is_row_distance(self, from: Coord, row: nat, steps: nat) -> bool {
        &&& exists|path: Seq<Coord>| self.path_to_row(path, from, row) && path.len() == steps + 1
        &&& forall|path: Seq<Coord>| self.path_to_row(path, from, row) ==> path.len() >= steps + 1
    }

    /// The length of a shortest way from `from` to row `row`, or
    /// `UNREACHABLE` when there is none.
    #[verifier::opaque]
    pub open spec fn steps_to_row(self, from: Coord, row: nat) -> nat {
        if self.reaches_row(from, row) {
            choose|steps: nat| self.is_row_distance(from, row, steps)
        } else {
            UNREACHABLE as nat
        }
    }

    /// The length of a shortest way from `player`'s pawn to its goal row, or
    /// `UNREACHABLE` when the pawn is walled off.
    pub open spec fn steps_to_goal(self, player: Player) -> nat {
        self.steps_to_row(self.pawn(player), self.goal_row(player))
    }

    /// The length of a shortest way from `player`'s pawn to the next row in
    /// its direction of travel, or `UNREACHABLE` when the pawn stands on its
    /// goal row or cannot get to that next row.
    pub open spec fn steps_to_next_row(self, player: Player) -> nat {
        match self.next_row(player) {
            Some(row) => self.steps_to_row(self.pawn(player), row),
            None => UNREACHABLE as nat,
        }
    }

    /// `player`'s pawn can still walk to its goal row.
    pub open spec fn reaches_goal(self, player: Player) -> bool {
        self.reaches_row(self.pawn(player), self.goal_row(player))
    }

    /// Neither pawn is walled off from its goal row.
    pub open spec fn both_reach_goal(self) -> bool {
        self.reaches_goal(Player::Player1) && self.reaches_goal(Player::Player2)
    }

    /// The cell a pawn lands on when it jumps straight over the opponent, as
    /// a pair of integers that may lie off the board.
    pub open spec fn jump_cell(self, player: Player) -> (int, int) {
        let own = self.pawn(player);
        let opp = self.pawn(player.other());
        (2 * opp.0 - own.0, 2 * opp.1 - own.1)
    }

    /// `cell` is where the straight jump lands, and it is on the board.
    pub open spec fn is_jump_cell(self, player: Player, cell: Coord) -> bool {
        let j = self.jump_cell(player);
        on_board(self.size, cell) && cell.0 == j.0 && cell.1 == j.1
    }

    /// The straight jump lands on the board and no wall stands behind the
    /// opponent.
    pub open spec fn can_jump(self, player: Player) -> bool {
        exists|cell: Coord| #[trigger] self.is_jump_cell(player, cell) && self.open(self.pawn(player.other()), cell)
    }

    /// `player`'s pawn may move to `cell`.
    ///
    /// A step through an open passage is allowed unless the opponent stands
    /// there. When the opponent does stand next to the pawn, the pawn may jump
    /// straight over it; when a wall behind the opponent or the board's edge
    /// forbids that, it may step to any other cell next to the opponent
    /// instead.
    #[verifier::opaque]
    pub open spec fn legal_destination(self, player: Player, cell: Coord) -> bool {
        let own = self.pawn(player);
        let opp = self.pawn(player.other());
        ||| self.open(own, cell) && cell != opp
        ||| self.open(own, opp) && self.is_jump_cell(player, cell) && self.open(opp, cell)
        ||| self.open(own, opp) && !self.can_jump(player) && self.open(opp, cell) && cell != own
    }

    /// What the neighbouring cell `via` offers to `player`'s pawn: the cell
    /// itself when it is free, and the jump or the side steps when the
    /// opponent stands on it.
    pub open spec fn offered(self, player: Player, via: Coord, cell: Coord) -> bool {
        let own = self.pawn(player);
        let opp = self.pawn(player.other());
        if via != opp {
            cell == via
        } else {
            ||| self.is_jump_cell(player, cell) && self.open(opp, cell)
            ||| !self.can_jump(player) && self.open(opp, cell) && cell != own
        }
    }

    /// `text` is the notation of a pawn move that `player` may make.
    pub open spec fn names_move(self, player: Player, text: Seq<char>) -> bool {
        exists|cell: Coord| #[trigger] self.legal_destination(player, cell) && text == cell_text(self.size, cell)
    }

    /// A wall anchored on `anchor` lies fully on the board: it is below the
    /// top row and left of the last column.
    pub open spec fn wall_anchor(self, anchor: Coord) -> bool {
        1 <= anchor.0 < self.size && anchor.1 + 1 < self.size
    }

    /// `text` is the notation of a wall that lies fully on the board and that
    /// `player` may place.
    pub open spec fn names_wall(self, player: Player, text: Seq<char>) -> bool {
        exists|anchor: Coord, orientation: Orientation|
            self.wall_anchor(anchor) && #[trigger] self.wall_legal(player, anchor, orientation) && text == wall_text(
                self.size,
                anchor,
                orientation,
            )
    }

    /// The walls that `player` may place among those anchored before
    /// `(row, col)`, in notation. The anchors are taken row by row from the
    /// second row on, and on each anchor the wall along the row comes before
    /// the wall along the column.
    pub open spec fn legal_walls_before(self, player: Player, row: nat, col: nat) -> Seq<Seq<char>>
        decreases row, col,
    {
        if col > 0 {
            let anchor = (row as usize, (col - 1) as usize);
            let before = self.legal_walls_before(player, row, (col - 1) as nat);
            let along_row = if self.wall_legal(player, anchor, Orientation::Horizontal) {
                before.push(wall_text(self.size, anchor, Orientation::Horizontal))
            } else {
                before
            };
            if self.wall_legal(player, anchor, Orientation::Vertical) {
                along_row.push(wall_text(self.size, anchor, Orientation::Vertical))
            } else {
                along_row
            }
        } else if row > 1 {
            self.legal_walls_before(player, (row - 1) as nat, (self.size - 1) as nat)
        } else {
            Seq::empty()
        }
    }

    /// The walls that lie fully on the board and that `player` may place, in
    /// notation and in the order of their anchors.
    pub open spec fn legal_wall_list(self, player: Player) -> Seq<Seq<char>> {
        self.legal_walls_before(player, self.size, 0)
    }

    /// A wall of the other orientation already stands on `anchor`.
    pub open spec fn crossed(self, anchor: Coord, orientation: Orientation) -> bool {
        match orientation {
            Orientation::Horizontal => self.vwalls.contains(anchor),
            Orientation::Vertical => self.hwalls.contains(anchor),
        }
    }

    /// The position with one more wall on the board and nothing else changed.
    pub open spec fn with_wall(self, anchor: Coord, orientation: Orientation) -> Position {
        match orientation {
            Orientation::Horizontal => Position { hwalls: self.hwalls.push(anchor), ..self },
            Orientation::Vertical => Position { vwalls: self.vwalls.push(anchor), ..self },
        }
    }

    /// The wall lies fully on the board, so that it severs two passages,
    /// and both of them are open now. A wall that reaches over the board's
    /// edge does not fit.
    pub open spec fn wall_fits(self, anchor: Coord, orientation: Orientation) -> bool {
        let edges = wall_edges(self.size, anchor, orientation);
        &&& edges.len() == 2
        &&& forall|i: int| 0 <= i < edges.len() ==> self.open((#[trigger] edges[i]).0, edges[i].1)
    }

    /// `player` may place this wall: a wall is left in stock, no wall of the
    /// other orientation stands on the same anchor, the wall lies fully on
    /// the board and both passages that it severs are open, and with it on
    /// the board both pawns still reach their goal rows.
    #[verifier::opaque]
    pub open spec fn wall_legal(self, player: Player, anchor: Coord, orientation: Orientation) -> bool {
        &&& self.stock(player) > 0
        &&& !self.crossed(anchor, orientation)
        &&& self.wall_fits(anchor, orientation)
        &&& self.with_wall(anchor, orientation).both_reach_goal()
    }

    /// Whether `add_wall` places a wall: the wall severs some passage, the
    /// rules allow it if they are consulted, and the active player can pay
    /// for it if it has to be paid. Without the rules a wall that reaches
    /// over the board's edge is placed too, as long as it severs a passage.
    pub open spec fn wall_accepted(
        self,
        anchor: Coord,
        orientation: Orientation,
        initialise: bool,
        check: bool,
    ) -> bool {
        &&& wall_edges(self.size, anchor, orientation).len() > 0
        &&& check ==> self.wall_legal(self.active, anchor, orientation)
        &&& initialise || self.stock(self.active) > 0
    }

    /// The row next to `player`'s pawn in its direction of travel, if the
    /// pawn is not on its goal row yet.
    pub open spec fn next_row(self, player: Player) -> Option<nat> {
        let row = self.pawn(player).0;
        match player {
            Player::Player1 => if row > 0 {
                Some((row - 1) as nat)
            } else {
                None
            },
            Player::Player2 => if row + 1 < self.size {
                Some((row + 1) as nat)
            } else {
                None
            },
        }
    }

    /// `text` is the notation of a move that the active player may make.
    #[verifier::opaque]
    pub open spec fn names_legal(self, text: Seq<char>) -> bool {
        self.names_move(self.active, text) || self.names_wall(self.active, text)
    }

    /// The position after `add_wall` was asked to place a wall.
    pub open spec fn wall_outcome(
        self,
        anchor: Coord,
        orientation: Orientation,
        initialise: bool,
        check: bool,
        text: Seq<char>,
    ) -> Position {
        if !self.wall_accepted(anchor, orientation, initialise, check) {
            self
        } else if initialise {
            self.with_wall(anchor, orientation)
        } else {
            self.after_wall(anchor, orientation, text)
        }
    }

    /// The position after `move_pawn` was asked to move the active player's
    /// pawn to the cell that `text` names.
    pub open spec fn pawn_outcome(self, cell: Coord, check: bool, text: Seq<char>) -> Position {
        if !check || self.names_move(self.active, text) {
            self.after_pawn_move(cell, text)
        } else {
            self
        }
    }

    /// The position after the move `text` was handed to the game: text that
    /// looks like a wall goes to `add_wall`, anything else to `move_pawn`.
    /// Text that names nothing changes nothing.
    #[verifier::opaque]
    pub open spec fn played(self, text: Seq<char>, check: bool) -> Position {
        if looks_like_wall(text) {
            match parse_wall(self.size, text) {
                Ok((anchor, orientation)) => self.wall_outcome(anchor, orientation, false, check, text),
                Err(_) => self,
            }
        } else {
            match parse_cell(self.size, text) {
                Ok(cell) => self.pawn_outcome(cell, check, text),
                Err(_) => self,
            }
        }
    }

    /// The position with `player`'s pawn on `cell`.
    pub open spec fn with_pawn(self, player: Player, cell: Coord) -> Position {
        match player {
            Player::Player1 => Position { pawn1: cell, ..self },
            Player::Player2 => Position { pawn2: cell, ..self },
        }
    }

    /// The position with one wall less in `player`'s stock; an empty stock
    /// stays empty.
    pub open spec fn with_wall_spent(self, player: Player) -> Position {
        match player {
            Player::Player1 => Position { stock1: less_one(self.stock1), ..self },
            Player::Player2 => Position { stock2: less_one(self.stock2), ..self },
        }
    }

    /// The position after a finished turn: the move is recorded with the
    /// state it was made in, and the other player is to move.
    pub open spec fn turn_passed(self, text: Seq<char>, before: Seq<char>) -> Position {
        Position { active: self.active.other(), previous: before, last_move: text, ..self }
    }

    /// The serialized state: five fields separated by `" / "`, namely the
    /// horizontal walls, the vertical walls, the two pawns, the two stocks
    /// and the player to move.
    pub open spec fn state_text(self) -> Seq<char> {
        cells_text(self.size, self.hwalls) + " / "@ + cells_text(self.size, self.vwalls) + " / "@ + cell_text(
            self.size,
            self.pawn1,
        ) + " "@ + cell_text(self.size, self.pawn2) + " / "@ + decimal(self.stock1) + " "@ + decimal(self.stock2)
            + " / "@ + seq![self.active.digit()]
    }

    /// The position after the active player moved its pawn to `cell`.
    pub open spec fn after_pawn_move(self, cell: Coord, text: Seq<char>) -> Position {
        self.with_pawn(self.active, cell).turn_passed(text, self.state_text())
    }

    /// The position after the active player placed a wall.
    pub open spec fn after_wall(self, anchor: Coord, orientation: Orientation, text: Seq<char>) -> Position {
        self.with_wall(anchor, orientation).with_wall_spent(self.active).turn_passed(text, self.state_text())
    }

    /// The position that a serialized state describes, read into this one:
    /// pawns, stocks and the player to move are taken from the text, and the
    /// walls it lists are added to those already standing.
    ///
    /// The text has five fields separated by `/`: horizontal walls, vertical
    /// walls, the two pawns, the two stocks, the player to move. A stock that
    /// is not a number counts as the full allotment, and any player mark
    /// other than `1` means the second player.
    pub open spec fn loaded(self, s: Seq<char>) -> Result<Position, ParseError> {
        let fields = split(s, '/');
        if fields.len() != 5 {
            Err(ParseError::FieldCount)
        } else {
            let pawns = words(fields[2]);
            let stocks = words(fields[3]);
            if pawns.len() != 2 {
                Err(ParseError::PawnField)
            } else if parse_cell(self.size, pawns[0]) is Err {
                Err(parse_cell(self.size, pawns[0])->Err_0)
            } else if parse_cell(self.size, pawns[1]) is Err {
                Err(parse_cell(self.size, pawns[1])->Err_0)
            } else if stocks.len() != 2 {
                Err(ParseError::StockField)
            } else {
                let hs = anchors_of(self.size, pairs(trimmed(fields[0])), Orientation::Horizontal);
                let vs = anchors_of(self.size, pairs(trimmed(fields[1])), Orientation::Vertical);
                if hs is Err {
                    Err(hs->Err_0)
                } else if vs is Err {
                    Err(vs->Err_0)
                } else {
                    Ok(
                        Position {
                            hwalls: self.hwalls + hs->Ok_0,
                            vwalls: self.vwalls + vs->Ok_0,
                            pawn1: parse_cell(self.size, pawns[0])->Ok_0,
                            pawn2: parse_cell(self.size, pawns[1])->Ok_0,
                            stock1: number_or(stocks[0], self.allotment as usize) as nat,
                            stock2: number_or(stocks[1], self.allotment as usize) as nat,
                            active: if trimmed(fields[4]) == seq!['1'] {
                                Player::Player1
                            } else {
                                Player::Player2
                            },
                            ..self
                        },
                    )
                }
            }
        }
    }

    /// The position a game starts in: a fresh one, or the one that a
    /// serialized state describes. A board size outside `1..=MAX_SIZE` is
    /// refused.
    pub open spec fn opening(size: nat, allotment: nat, state: Option<Seq<char>>) -> Result<Position, ParseError> {
        if !(1 <= size <= MAX_SIZE) {
            Err(ParseError::BoardSize)
        } else {
            match state {
                None => Ok(Position::fresh(size, allotment)),
                Some(s) => Position::fresh(size, allotment).loaded(s),
            }
        }
    }

    /// A fresh game: pawns on the middle of their back rows, full stocks, no
    /// walls, the first player to move.
    pub open spec fn fresh(size: nat, allotment: nat) -> Position {
        Position {
            size,
            allotment,
            hwalls: Seq::empty(),
            vwalls: Seq::empty(),
            pawn1: ((size - 1) as usize, ((size - 1) / 2) as usize),
            pawn2: (0, (size / 2) as usize),
            stock1: allotment,
            stock2: allotment,
            active: Player::Player1,
            previous: Seq::empty(),
            last_move: "Blank"@,
        }
    }
}

/// `text` is one of `texts`.
pub open spec fn listed(texts: Seq<String>, text: Seq<char>) -> bool {
    exists|i: int| 0 <= i < texts.len() && (#[trigger] texts[i])@ == text
}

/// What is listed after a text is pushed to a list, or after nothing is.
pub proof fn lemma_listed_step(before: Seq<String>, after: Seq<String>, pushed: bool, added: Seq<char>, text: Seq<char>)
    requires
        pushed ==> after.len() == before.len() + 1 && after[before.len() as int]@ == added && forall|i: int|
            0 <= i < before.len() ==> after[i] == before[i],
        !pushed ==> after == before,
    ensures
        listed(after, text) <==> (listed(before, text) || (pushed && text == added)),
{
    if listed(before, text) {
        let i = choose|i: int| 0 <= i < before.len() && (#[trigger] before[i])@ == text;
        assert(after[i]@ == text);
    }
    if pushed && text == added {
        assert(after[before.len() as int]@ == text);
    }
    if listed(after, text) {
        let i = choose|i: int| 0 <= i < after.len() && (#[trigger] after[i])@ == text;
        if i < before.len() {
            assert(before[i]@ == text);
        }
    }
}

/// A pawn may move to a cell exactly when some neighbouring cell offers it.
pub proof fn lemma_legal_destination(pos: Position, player: Player, cell: Coord)
    ensures
        pos.legal_destination(player, cell) <==> exists|via: Coord|
            pos.open(pos.pawn(player), via) && #[trigger] pos.offered(player, via, cell),
{
    reveal(Position::legal_destination);
    let own = pos.pawn(player);
    let opp = pos.pawn(player.other());
    if pos.legal_destination(player, cell) {
        if pos.open(own, cell) && cell != opp {
            assert(pos.offered(player, cell, cell));
        } else {
            assert(pos.offered(player, opp, cell));
        }
    }
}

/// A shortest way has one length only.
pub proof fn lemma_row_distance_unique(pos: Position, from: Coord, row: nat, first: nat, second: nat)
    requires
        pos.is_row_distance(from, row, first),
        pos.is_row_distance(from, row, second),
    ensures
        first == second,
{
    let p = choose|path: Seq<Coord>| pos.path_to_row(path, from, row) && path.len() == first + 1;
    let q = choose|path: Seq<Coord>| pos.path_to_row(path, from, row) && path.len() == second + 1;
    assert(p.len() >= second + 1);
    assert(q.len() >= first + 1);
}

/// Among the ways that are no longer than a bound there is a shortest.
proof fn lemma_shortest_below(pos: Position, from: Coord, row: nat, bound: nat)
    requires
        exists|path: Seq<Coord>| pos.path_to_row(path, from, row) && path.len() <= bound + 1,
    ensures
        exists|steps: nat| pos.is_row_distance(from, row, steps),
    decreases bound,
{
    if exists|path: Seq<Coord>| pos.path_to_row(path, from, row) && path.len() <= bound {
        let path = choose|path: Seq<Coord>| pos.path_to_row(path, from, row) && path.len() <= bound;
        lemma_shortest_below(pos, from, row, (bound - 1) as nat);
    } else {
        let path = choose|path: Seq<Coord>| pos.path_to_row(path, from, row) && path.len() <= bound + 1;
        assert(path.len() == bound + 1);
        assert(pos.is_row_distance(from, row, bound));
    }
}

/// Where a way exists, a shortest way exists, and `steps_to_row` is its
/// length.
pub proof fn lemma_steps_to_row(pos: Position, from: Coord, row: nat)
    requires
        pos.reaches_row(from, row),
    ensures
        pos.is_row_distance(from, row, pos.steps_to_row(from, row)),
{
    reveal(Position::steps_to_row);
    let path = choose|path: Seq<Coord>| pos.path_to_row(path, from, row);
    lemma_shortest_below(pos, from, row, path.len());
}

/// Which passages are open depends on the board's size and walls alone.
pub proof fn lemma_open_same_walls(p: Position, q: Position, a: Coord, b: Coord)
    requires
        p.size == q.size,
        p.hwalls == q.hwalls,
        p.vwalls == q.vwalls,
    ensures
        p.open(a, b) == q.open(a, b),
{
    assert(p.blocked(a, b) == q.blocked(a, b));
}

/// Which cells a pawn can walk to, and how far they are, depends on the
/// board's size and walls alone.
pub proof fn lemma_ways_same_walls(p: Position, q: Position, from: Coord, row: nat)
    requires
        p.size == q.size,
        p.hwalls == q.hwalls,
        p.vwalls == q.vwalls,
    ensures
        p.reaches_row(from, row) == q.reaches_row(from, row),
        p.steps_to_row(from, row) == q.steps_to_row(from, row),
{
    reveal(Position::steps_to_row);
    assert forall|path: Seq<Coord>| p.is_path(path) == q.is_path(path) by {
        assert forall|i: int| 0 <= i < path.len() - 1 implies (p.open(#[trigger] path[i], path[i + 1]) == q.open(
            path[i],
            path[i + 1],
        )) by {
            lemma_open_same_walls(p, q, path[i], path[i + 1]);
        }
    }
    assert forall|path: Seq<Coord>| p.path_to_row(path, from, row) == q.path_to_row(path, from, row) by {}
    assert forall|steps: nat| p.is_row_distance(from, row, steps) == q.is_row_distance(from, row, steps) by {
        if p.is_row_distance(from, row, steps) {
            let path = choose|path: Seq<Coord>| p.path_to_row(path, from, row) && path.len() == steps + 1;
            assert(q.path_to_row(path, from, row));
        }
        if q.is_row_distance(from, row, steps) {
            let path = choose|path: Seq<Coord>| q.path_to_row(path, from, row) && path.len() == steps + 1;
            assert(p.path_to_row(path, from, row));
        }
    }
    if p.reaches_row(from, row) {
        let path = choose|path: Seq<Coord>| p.path_to_row(path, from, row);
        assert(q.path_to_row(path, from, row));
    }
    if q.reaches_row(from, row) {
        let path = choose|path: Seq<Coord>| q.path_to_row(path, from, row);
        assert(p.path_to_row(path, from, row));
    }
    if p.reaches_row(from, row) {
        lemma_steps_to_row(p, from, row);
        lemma_steps_to_row(q, from, row);
        lemma_row_distance_unique(p, from, row, p.steps_to_row(from, row), q.steps_to_row(from, row));
    }
}

/// A legal pawn move, played with or without consulting the rules, is
/// carried out.
proof fn lemma_legal_pawn_move_played(pos: Position, text: Seq<char>, check: bool)
    requires
        pos.valid(),
        pos.names_move(pos.active, text),
    ensures
        pos.played(text, check) == pos.played(text, true),
        pos.played(text, check) != pos,
        pos.played(text, check).valid(),
        pos.played(text, check).active == pos.active.other(),
        pos.played(text, check).last_move == text,
        pos.played(text, check).size == pos.size,
        exists|cell: Coord|
            #[trigger] pos.legal_destination(pos.active, cell) && text == cell_text(pos.size, cell) && pos.played(
                text,
                check,
            ) == pos.after_pawn_move(cell, text),
{
    reveal(Position::played);
    let cell = choose|cell: Coord|
        #[trigger] pos.legal_destination(pos.active, cell) && text == cell_text(pos.size, cell);
    lemma_legal_on_board(pos, pos.active, cell);
    lemma_cell_round_trip(pos.size, cell);
    assert(!looks_like_wall(text));
    let after = pos.after_pawn_move(cell, text);
    assert(after.hwalls == pos.hwalls && after.vwalls == pos.vwalls);
    assert(pos.played(text, check) == after);
    assert(pos.played(text, true) == after);
}

/// A legal wall, asked for with or without consulting the rules, is
/// placed.
proof fn lemma_legal_wall_played(pos: Position, text: Seq<char>, check: bool)
    requires
        pos.valid(),
        pos.names_wall(pos.active, text),
    ensures
        pos.played(text, check) == pos.played(text, true),
        pos.played(text, check) != pos,
        pos.played(text, check).valid(),
        pos.played(text, check).active == pos.active.other(),
        pos.played(text, check).last_move == text,
        pos.played(text, check).size == pos.size,
        exists|anchor: Coord, orientation: Orientation|
            pos.wall_anchor(anchor) && #[trigger] pos.wall_legal(pos.active, anchor, orientation) && text == wall_text(
                pos.size,
                anchor,
                orientation,
            ) && pos.played(text, check) == pos.after_wall(anchor, orientation, text),
{
    reveal(Position::played);
    reveal(Position::wall_legal);
    let (anchor, orientation) = choose|anchor: Coord, orientation: Orientation|
        pos.wall_anchor(anchor) && #[trigger] pos.wall_legal(pos.active, anchor, orientation) && text == wall_text(
            pos.size,
            anchor,
            orientation,
        );
    lemma_wall_round_trip(pos.size, anchor, orientation);
    assert(looks_like_wall(text));
    let after = pos.after_wall(anchor, orientation, text);
    assert(pos.wall_accepted(anchor, orientation, false, check));
    assert(pos.wall_accepted(anchor, orientation, false, true));
    assert(pos.played(text, check) == after);
    assert(pos.played(text, true) == after);
    assert forall|i: int| 0 <= i < after.hwalls.len() implies on_board(after.size, #[trigger] after.hwalls[i]) by {
        if i < pos.hwalls.len() {
            assert(after.hwalls[i] == pos.hwalls[i]);
        }
    }
    assert forall|i: int| 0 <= i < after.vwalls.len() implies on_board(after.size, #[trigger] after.vwalls[i]) by {
        if i < pos.vwalls.len() {
            assert(after.vwalls[i] == pos.vwalls[i]);
        }
    }
}

/// A legal move, played with or without consulting the rules, is carried
/// out, and leaves a position the engine can work with.
pub proof fn lemma_legal_move_played(pos: Position, text: Seq<char>, check: bool)
    requires
        pos.valid(),
        pos.names_legal(text),
    ensures
        pos.played(text, check) == pos.played(text, true),
        pos.played(text, check) != pos,
        pos.played(text, check).valid(),
        pos.played(text, check).active == pos.active.other(),
        pos.played(text, check).last_move == text,
        pos.played(text, check).size == pos.size,
        pos.names_move(pos.active, text) ==> exists|cell: Coord|
            #[trigger] pos.legal_destination(pos.active, cell) && text == cell_text(pos.size, cell) && pos.played(
                text,
                check,
            ) == pos.after_pawn_move(cell, text),
        pos.names_wall(pos.active, text) ==> exists|anchor: Coord, orientation: Orientation|
            pos.wall_anchor(anchor) && #[trigger] pos.wall_legal(pos.active, anchor, orientation) && text == wall_text(
                pos.size,
                anchor,
                orientation,
            ) && pos.played(text, check) == pos.after_wall(anchor, orientation, text),
{
    reveal(Position::names_legal);
    if pos.names_move(pos.active, text) {
        lemma_legal_pawn_move_played(pos, text, check);
    }
    if pos.names_wall(pos.active, text) {
        lemma_legal_wall_played(pos, text, check);
    }
}

/// Every cell of a path lies on the board.
pub proof fn lemma_path_cells_on_board(pos: Position, path: Seq<Coord>, i: int)
    requires
        pos.is_path(path),
        0 <= i < path.len(),
    ensures
        on_board(pos.size, path[i]),
{
    if i > 0 {
        assert(pos.open(path[i - 1], path[i - 1 + 1]));
    }
}

/// Only a player with a wall in stock may place one.
pub proof fn lemma_wall_needs_stock(pos: Position, player: Player, anchor: Coord, orientation: Orientation)
    requires
        pos.wall_legal(player, anchor, orientation),
    ensures
        pos.stock(player) > 0,
        pos.with_wall(anchor, orientation).both_reach_goal(),
{
    reveal(Position::wall_legal);
}

/// A player without a wall in stock has no wall to place.
pub proof fn lemma_no_stock_no_walls(pos: Position, player: Player, row: nat, col: nat)
    requires
        pos.stock(player) == 0,
    ensures
        pos.legal_walls_before(player, row, col) == Seq::<Seq<char>>::empty(),
    decreases row, col,
{
    reveal(Position::wall_legal);
    if col > 0 {
        lemma_no_stock_no_walls(pos, player, row, (col - 1) as nat);
    } else if row > 1 {
        lemma_no_stock_no_walls(pos, player, (row - 1) as nat, (pos.size - 1) as nat);
    }
}

/// A legal move is a legal pawn move or a legal wall.
pub proof fn lemma_names_legal(pos: Position, text: Seq<char>)
    ensures
        pos.names_legal(text) <==> (pos.names_move(pos.active, text) || pos.names_wall(pos.active, text)),
{
    reveal(Position::names_legal);
}

/// A pawn only ever moves to a cell of the board.
pub proof fn lemma_legal_on_board(pos: Position, player: Player, cell: Coord)
    requires
        pos.legal_destination(player, cell),
    ensures
        on_board(pos.size, cell),
{
    reveal(Position::legal_destination);
}

/// A move that is carried out passes the turn, so the position differs
/// from the one before.
pub proof fn lemma_turn_changes(pos: Position, text: Seq<char>, check: bool)
    ensures
        pos.played(text, check).size == pos.size,
        pos.played(text, check).allotment == pos.allotment,
        pos.played(text, check) != pos ==> pos.played(text, check).active == pos.active.other(),
        looks_like_wall(text) && parse_wall(pos.size, text) is Ok ==> (pos.played(text, check) != pos
            <==> pos.wall_accepted(
            parse_wall(pos.size, text)->Ok_0.0,
            parse_wall(pos.size, text)->Ok_0.1,
            false,
            check,
        )),
        !looks_like_wall(text) && parse_cell(pos.size, text) is Ok ==> (pos.played(text, check) != pos <==> (!check
            || pos.names_move(pos.active, text))),
{
    reveal(Position::played);
}

} // verus!
