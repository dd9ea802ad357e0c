//! The game state and the rules.
//!
//! [`Quoridor`] owns the board's passages, the pawns, the wall stocks and
//! the turn. Its view is a [`Position`]; every contract here is stated over
//! that view.

use crate::board::{
    cell_reachable, cut_wall, fresh_passages, is_open, lemma_passages_same_graph, lemma_passages_same_walls,
    open_neighbours, passages_of, row_distance, row_reachable, severed_by,
};
use crate::graph::{clone_graph, empty_graph};
use crate::laws::{
    law_checked_pawn_move_keeps_goals_in_reach, law_checked_wall_keeps_goals_in_reach, law_sentinel_means_no_way,
    lemma_fresh_board_is_connected, lemma_wall_list_has_no_duplicate,
};
use crate::notation::{
    cell_text, is_wall_text, lemma_cell_round_trip, on_board, parse_cell, parse_wall, read_cell, read_wall,
    same_text, wall_text, write_cell, write_number, write_wall, Coord, Orientation, ParseError, MAX_SIZE,
};
use crate::player::Player;
use crate::position::{
    anchors_of, cells_text, lemma_legal_destination, lemma_legal_move_played, lemma_legal_on_board,
    lemma_listed_step, lemma_no_stock_no_walls, lemma_row_distance_unique, lemma_steps_to_row, lemma_turn_changes,
    lemma_wall_needs_stock,
    listed, wall_edges, Position, UNREACHABLE,
};
use crate::text::{
    pairs, read_number_or, split, split_pairs, split_text, split_words, texts, trim_text, trimmed, words,
};
use petgraph::graph::UnGraph;
use vstd::prelude::*;
use vstd::string::*;

verus! {

/// A game of Quoridor.
pub struct Quoridor {
    /// Rows and columns of the board.
    size: usize,
    /// Walls that each player starts a fresh game with.
    walls: usize,
    /// One node for each cell and one edge for each open passage.
    graph: UnGraph<(usize, usize), ()>,
    /// Anchors of the horizontal walls, in the order they were placed.
    hwall_positions: Vec<Coord>,
    /// Anchors of the vertical walls, in the order they were placed.
    vwall_positions: Vec<Coord>,
    /// Cell of the first player's pawn.
    pawn1: Coord,
    /// Cell of the second player's pawn.
    pawn2: Coord,
    /// Walls the first player has left.
    stock1: usize,
    /// Walls the second player has left.
    stock2: usize,
    /// Whose turn it is.
    active_player: Player,
    /// The serialized state, brought up to date after every change.
    state_string: String,
    /// The serialized state before the last move.
    previous_state: String,
    /// The last move, as it was written.
    last_move: String,
}

impl View for Quoridor {
    type V = Position;

    closed spec fn view(&self) -> Position {
        Position {
            size: self.size as nat,
            allotment: self.walls as nat,
            hwalls: self.hwall_positions@,
            vwalls: self.vwall_positions@,
            pawn1: self.pawn1,
            pawn2: self.pawn2,
            stock1: self.stock1 as nat,
            stock2: self.stock2 as nat,
            active: self.active_player,
            previous: self.previous_state@,
            last_move: self.last_move@,
        }
    }
}

/// Whether `cells` holds `cell`.
fn holds(cells: &Vec<Coord>, cell: Coord) -> (found: bool)
    ensures
        found == cells@.contains(cell),
{
    let mut i: usize = 0;
    while i < cells.len()
        invariant
            i <= cells.len(),
            forall|j: int| 0 <= j < i ==> cells[j] != cell,
        decreases cells.len() - i,
    {
        if cells[i].0 == cell.0 && cells[i].1 == cell.1 {
            return true;
        }
        i = i + 1;
    }
    false
}

/// A copy of `cells`.
fn copy_cells(cells: &Vec<Coord>) -> (copy: Vec<Coord>)
    ensures
        copy@ == cells@,
{
    let mut copy: Vec<Coord> = Vec::new();
    let mut i: usize = 0;
    while i < cells.len()
        invariant
            i <= cells.len(),
            copy@ == cells@.subrange(0, i as int),
        decreases cells.len() - i,
    {
        copy.push(cells[i]);
        assert(cells@.subrange(0, i + 1) =~= cells@.subrange(0, i as int).push(cells[i as int]));
        i = i + 1;
    }
    assert(cells@.subrange(0, cells.len() as int) =~= cells@);
    copy
}

/// Writes the cells of `cells` one after the other.
fn write_cells(size: usize, cells: &Vec<Coord>) -> (text: String)
    requires
        size <= MAX_SIZE,
        forall|i: int| 0 <= i < cells.len() ==> on_board(size as nat, #[trigger] cells[i]),
    ensures
        text@ == cells_text(size as nat, cells@),
{
    let mut text = String::new();
    let mut i: usize = 0;
    assert(cells@.subrange(0, 0) =~= Seq::<Coord>::empty());
    while i < cells.len()
        invariant
            i <= cells.len(),
            size <= MAX_SIZE,
            forall|j: int| 0 <= j < cells.len() ==> on_board(size as nat, #[trigger] cells[j]),
            text@ == cells_text(size as nat, cells@.subrange(0, i as int)),
        decreases cells.len() - i,
    {
        let cell = write_cell(size, cells[i]);
        text.append(cell.as_str());
        proof {
            let upto = cells@.subrange(0, i + 1);
            assert(upto.drop_last() =~= cells@.subrange(0, i as int));
            assert(upto.last() == cells[i as int]);
        }
        i = i + 1;
    }
    assert(cells@.subrange(0, cells.len() as int) =~= cells@);
    text
}

/// What a list holds after a push: what it held, and the new entry.
proof fn lemma_contains_push<T>(s: Seq<T>, x: T, c: T)
    ensures
        s.push(x).contains(c) <==> (s.contains(c) || c == x),
{
    let t = s.push(x);
    if s.contains(c) {
        let i = choose|i: int| 0 <= i < s.len() && s[i] == c;
        assert(t[i] == c);
    }
    if c == x {
        assert(t[s.len() as int] == c);
    }
    if t.contains(c) {
        let i = choose|i: int| 0 <= i < t.len() && t[i] == c;
        if i < s.len() {
            assert(s[i] == c);
        }
    }
}

/// One of the first `upto` cells of `around` offers `cell` to `player`.
spec fn offered_among(pos: Position, player: Player, around: Seq<Coord>, upto: int, cell: Coord) -> bool {
    exists|j: int| 0 <= j < upto && pos.offered(player, #[trigger] around[j], cell)
}

/// `cell` is one of the first `upto` cells of `side`, and not `own`.
spec fn side_among(side: Seq<Coord>, upto: int, own: Coord, cell: Coord) -> bool {
    cell != own && exists|j: int| 0 <= j < upto && #[trigger] side[j] == cell
}

impl Quoridor {
    /// The graph holds exactly the open passages of the position.
    pub closed spec fn passages_agree(&self) -> bool {
        passages_of(self.graph, self@)
    }

    /// The state string is the position's serialized form.
    pub closed spec fn recorded(&self) -> bool {
        self.state_string@ == self@.state_text()
    }

    /// The graph holds the open passages of the position, and the state
    /// string is the position's serialized form.
    pub open spec fn consistent(&self) -> bool {
        self.passages_agree() && self.recorded()
    }

    /// The game is in a state that the engine can work with.
    pub open spec fn wf(&self) -> bool {
        self@.valid() && self.consistent()
    }

    /// Rows and columns of the board.
    pub fn size(&self) -> (size: usize)
        ensures
            size == self@.size,
    {
        self.size
    }

    /// Walls that each player started with.
    pub fn walls(&self) -> (walls: usize)
        ensures
            walls == self@.allotment,
    {
        self.walls
    }

    /// Whose turn it is.
    pub fn active_player(&self) -> (player: Player)
        ensures
            player == self@.active,
    {
        self.active_player
    }

    /// The cell of `player`'s pawn.
    pub fn pawn_position(&self, player: Player) -> (cell: Coord)
        ensures
            cell == self@.pawn(player),
    {
        match player {
            Player::Player1 => self.pawn1,
            Player::Player2 => self.pawn2,
        }
    }

    /// Walls that `player` has left.
    pub fn walls_available(&self, player: Player) -> (stock: usize)
        ensures
            stock == self@.stock(player),
    {
        match player {
            Player::Player1 => self.stock1,
            Player::Player2 => self.stock2,
        }
    }

    /// Anchors of the horizontal walls, in the order they were placed.
    pub fn hwall_positions(&self) -> (anchors: &Vec<Coord>)
        ensures
            anchors@ == self@.hwalls,
    {
        &self.hwall_positions
    }

    /// Anchors of the vertical walls, in the order they were placed.
    pub fn vwall_positions(&self) -> (anchors: &Vec<Coord>)
        ensures
            anchors@ == self@.vwalls,
    {
        &self.vwall_positions
    }

    /// The cells of `player`'s goal row, from left to right.
    pub fn goal_positions(&self, player: Player) -> (cells: Vec<Coord>)
        requires
            self.wf(),
        ensures
            cells.len() == self@.size,
            forall|i: int| 0 <= i < cells.len() ==> cells[i] == (self@.goal_row(player) as usize, i as usize),
    {
        let row = match player {
            Player::Player1 => 0,
            Player::Player2 => self.size - 1,
        };
        let mut cells: Vec<Coord> = Vec::new();
        let mut col: usize = 0;
        while col < self.size
            invariant
                col <= self.size,
                cells.len() == col,
                forall|i: int| 0 <= i < cells.len() ==> cells[i] == (row, i as usize),
            decreases self.size - col,
        {
            cells.push((row, col));
            col = col + 1;
        }
        cells
    }

    /// The serialized state.
    pub fn state_string(&self) -> (text: &String)
        requires
            self.wf(),
        ensures
            text@ == self@.state_text(),
    {
        &self.state_string
    }

    /// The serialized state before the last move.
    pub fn previous_state(&self) -> (text: &String)
        ensures
            text@ == self@.previous,
    {
        &self.previous_state
    }

    /// The last move, as it was written.
    pub fn last_move(&self) -> (text: &String)
        ensures
            text@ == self@.last_move,
    {
        &self.last_move
    }

    /// Writes the serialized form of the position.
    fn render(&self) -> (text: String)
        requires
            self@.valid(),
        ensures
            text@ == self@.state_text(),
    {
        proof {
            assert forall|i: int| 0 <= i < self.hwall_positions.len() implies on_board(
                self.size as nat,
                #[trigger] self.hwall_positions[i],
            ) by {
                assert(self@.hwalls[i] == self.hwall_positions[i]);
            }
            assert forall|i: int| 0 <= i < self.vwall_positions.len() implies on_board(
                self.size as nat,
                #[trigger] self.vwall_positions[i],
            ) by {
                assert(self@.vwalls[i] == self.vwall_positions[i]);
            }
        }
        let mut text = write_cells(self.size, &self.hwall_positions);
        text.append(" / ");
        text.append(write_cells(self.size, &self.vwall_positions).as_str());
        text.append(" / ");
        text.append(write_cell(self.size, self.pawn1).as_str());
        text.append(" ");
        text.append(write_cell(self.size, self.pawn2).as_str());
        text.append(" / ");
        text.append(write_number(self.stock1).as_str());
        text.append(" ");
        text.append(write_number(self.stock2).as_str());
        text.append(" / ");
        match self.active_player {
            Player::Player1 => text.push('1'),
            Player::Player2 => text.push('2'),
        }
        assert(text@ =~= self@.state_text());
        text
    }

    /// Hands the turn to the other player unless `keep_player` is set, and
    /// brings the serialized state up to date.
    pub fn update_state_string(&mut self, keep_player: bool)
        requires
            old(self).wf(),
        ensures
            final(self).wf(),
            final(self)@ == (Position {
                active: if keep_player {
                    old(self)@.active
                } else {
                    old(self)@.active.other()
                },
                ..old(self)@
            }),
    {
        proof {
            lemma_passages_same_walls(
                self.graph,
                self@,
                Position { active: if keep_player { self@.active } else { self@.active.other() }, ..self@ },
            );
        }
        if !keep_player {
            self.active_player = self.active_player.opponent();
        }
        self.state_string = self.render();
    }

    /// Writes a cell in algebraic notation.
    pub fn coord_to_algebraic(&self, coord: Coord) -> (text: String)
        requires
            self.wf(),
            on_board(self@.size, coord),
        ensures
            text@ == cell_text(self@.size, coord),
    {
        write_cell(self.size, coord)
    }

    /// Reads a cell in algebraic notation. A wall's notation is accepted too
    /// and gives the wall's anchor.
    pub fn algebraic_to_coord(&self, square: &str) -> (cell: Result<Coord, ParseError>)
        requires
            self.wf(),
        ensures
            cell == parse_cell(self@.size, square@),
    {
        read_cell(self.size, square)
    }

    /// Whether `player`'s pawn can walk to `destination`.
    pub fn has_path(&self, player: Player, destination: Coord) -> (found: bool)
        requires
            self.wf(),
        ensures
            found == (on_board(self@.size, destination) && self@.connected(self@.pawn(player), destination)),
    {
        if destination.0 >= self.size || destination.1 >= self.size {
            return false;
        }
        cell_reachable(&self.graph, self.size, self.pawn_position(player), destination, Ghost(self@))
    }

    /// The passages that a wall would sever, as pairs of cells.
    pub fn get_wall_edges(&self, wall_move: &str) -> (edges: Result<Vec<(Coord, Coord)>, ParseError>)
        requires
            self.wf(),
        ensures
            match parse_wall(self@.size, wall_move@) {
                Ok((anchor, orientation)) => edges is Ok && edges->Ok_0@ == wall_edges(
                    self@.size,
                    anchor,
                    orientation,
                ),
                Err(e) => edges == Err::<Vec<(Coord, Coord)>, ParseError>(e),
            },
    {
        match read_wall(self.size, wall_move) {
            Ok((anchor, orientation)) => Ok(severed_by(self.size, anchor, orientation)),
            Err(e) => Err(e),
        }
    }

    /// What the neighbouring cell `via` offers to `player`'s pawn: the cell
    /// itself when it is free; when the opponent stands on it, the cell
    /// behind the opponent, or the other cells next to the opponent if the
    /// pawn cannot jump there.
    fn offers(&self, player: Player, via: Coord) -> (cells: Vec<Coord>)
        requires
            self.wf(),
            on_board(self@.size, via),
        ensures
            forall|c: Coord| cells@.contains(c) <==> self@.offered(player, via, c),
    {
        let ghost pos = self@;
        let size = self.size;
        let own = self.pawn_position(player);
        let opp = self.pawn_position(player.opponent());
        let mut cells: Vec<Coord> = Vec::new();
        if via.0 != opp.0 || via.1 != opp.1 {
            cells.push(via);
            assert forall|c: Coord| cells@.contains(c) <==> pos.offered(player, via, c) by {
                lemma_contains_push(Seq::<Coord>::empty(), via, c);
            }
            return cells;
        }
        let lands = 2 * opp.0 >= own.0 && 2 * opp.0 - own.0 < size && 2 * opp.1 >= own.1 && 2 * opp.1 - own.1 < size;
        if lands {
            let jump: Coord = (2 * opp.0 - own.0, 2 * opp.1 - own.1);
            assert(pos.is_jump_cell(player, jump));
            assert forall|c: Coord| pos.is_jump_cell(player, c) implies c == jump by {}
            if is_open(&self.graph, size, opp, jump, Ghost(pos)) {
                cells.push(jump);
                assert forall|c: Coord| cells@.contains(c) <==> pos.offered(player, via, c) by {
                    lemma_contains_push(Seq::<Coord>::empty(), jump, c);
                }
                return cells;
            }
        }
        assert(!pos.can_jump(player));
        let side = open_neighbours(&self.graph, size, opp, Ghost(pos));
        let mut k: usize = 0;
        while k < side.len()
            invariant
                k <= side.len(),
                forall|c: Coord| #[trigger] cells@.contains(c) <==> side_among(side@, k as int, own, c),
            decreases side.len() - k,
        {
            let step = side[k];
            let ghost sofar = cells@;
            if step.0 != own.0 || step.1 != own.1 {
                cells.push(step);
            }
            proof {
                assert forall|c: Coord| #[trigger] cells@.contains(c) <==> side_among(side@, k + 1, own, c) by {
                    if step != own {
                        lemma_contains_push(sofar, step, c);
                    }
                    if side_among(side@, k + 1, own, c) {
                        let j = choose|j: int| 0 <= j < k + 1 && #[trigger] side[j] == c;
                        if j < k {
                            assert(side_among(side@, k as int, own, c));
                        }
                    }
                    if side_among(side@, k as int, own, c) {
                        let j = choose|j: int| 0 <= j < k && #[trigger] side[j] == c;
                        assert(0 <= j < k + 1);
                    }
                    if c == step && step != own {
                        assert(side[k as int] == c);
                    }
                }
            }
            k = k + 1;
        }
        proof {
            assert forall|c: Coord| cells@.contains(c) <==> pos.offered(player, via, c) by {
                if side_among(side@, side.len() as int, own, c) {
                    let j = choose|j: int| 0 <= j < side.len() && #[trigger] side[j] == c;
                    assert(side@.contains(c));
                }
                if pos.offered(player, via, c) {
                    assert(side@.contains(c));
                }
            }
        }
        cells
    }

    /// The cells that `player`'s pawn may move to, each listed once.
    pub fn legal_destinations(&self, player: Player) -> (cells: Vec<Coord>)
        requires
            self.wf(),
        ensures
            forall|c: Coord| cells@.contains(c) <==> self@.legal_destination(player, c),
            forall|i: int| 0 <= i < cells.len() ==> on_board(self@.size, #[trigger] cells[i]),
            forall|i: int, j: int| 0 <= i < j < cells.len() ==> cells[i] != cells[j],
    {
        let ghost pos = self@;
        let own = self.pawn_position(player);
        let around = open_neighbours(&self.graph, self.size, own, Ghost(pos));
        let mut cells: Vec<Coord> = Vec::new();
        let mut i: usize = 0;
        while i < around.len()
            invariant
                i <= around.len(),
                self.wf(),
                pos == self@,
                own == pos.pawn(player),
                forall|c: Coord| around@.contains(c) <==> pos.open(own, c),
                forall|c: Coord| #[trigger] cells@.contains(c) <==> offered_among(pos, player, around@, i as int, c),
                forall|a: int, b: int| 0 <= a < b < cells.len() ==> cells[a] != cells[b],
            decreases around.len() - i,
        {
            let via = around[i];
            assert(around@.contains(via));
            let offered = self.offers(player, via);
            let ghost before = cells@;
            let mut k: usize = 0;
            while k < offered.len()
                invariant
                    k <= offered.len(),
                    forall|c: Coord|
                        #[trigger] cells@.contains(c) <==> (before.contains(c) || offered@.subrange(0, k as
                            int).contains(
                            c,
                        )),
                    forall|a: int, b: int| 0 <= a < b < cells.len() ==> cells[a] != cells[b],
                decreases offered.len() - k,
            {
                let ghost sofar = cells@;
                let cell = offered[k];
                let listed_already = holds(&cells, cell);
                if !listed_already {
                    cells.push(cell);
                }
                proof {
                    assert forall|c: Coord|
                        #[trigger] cells@.contains(c) <==> (before.contains(c) || offered@.subrange(0, k + 1).contains(
                            c,
                        )) by {
                        if !listed_already {
                            lemma_contains_push(sofar, cell, c);
                        }
                        lemma_contains_push(offered@.subrange(0, k as int), cell, c);
                        assert(offered@.subrange(0, k as int).push(cell) =~= offered@.subrange(0, k + 1));
                    }
                    assert forall|a: int, b: int| 0 <= a < b < cells.len() implies cells[a] != cells[b] by {
                        if b == sofar.len() {
                            assert(sofar[a] == cells[a]);
                            assert(!sofar.contains(cell));
                        } else {
                            assert(sofar[a] == cells[a] && sofar[b] == cells[b]);
                        }
                    }
                }
                k = k + 1;
            }
            proof {
                assert(offered@.subrange(0, offered.len() as int) =~= offered@);
                assert forall|c: Coord| #[trigger] cells@.contains(c) <==> offered_among(pos, player, around@, i + 1,
                    c) by {
                    if offered_among(pos, player, around@, i + 1, c) {
                        let j = choose|j: int| 0 <= j < i + 1 && pos.offered(player, #[trigger] around[j], c);
                        if j < i {
                            assert(offered_among(pos, player, around@, i as int, c));
                        }
                    }
                    if before.contains(c) {
                        let j = choose|j: int| 0 <= j < i && pos.offered(player, #[trigger] around[j], c);
                        assert(0 <= j < i + 1);
                    }
                    if pos.offered(player, via, c) {
                        assert(pos.offered(player, around[i as int], c));
                    }
                }
            }
            i = i + 1;
        }
        proof {
            assert forall|c: Coord| cells@.contains(c) <==> pos.legal_destination(player, c) by {
                lemma_legal_destination(pos, player, c);
                if cells@.contains(c) {
                    let j = choose|j: int| 0 <= j < around.len() && pos.offered(player, #[trigger] around[j], c);
                    assert(around@.contains(around[j]));
                }
                if pos.legal_destination(player, c) {
                    let via = choose|via: Coord| pos.open(own, via) && #[trigger] pos.offered(player, via, c);
                    assert(around@.contains(via));
                    let j = choose|j: int| 0 <= j < around.len() && around[j] == via;
                    assert(pos.offered(player, around[j], c));
                }
            }
            assert forall|i: int| 0 <= i < cells.len() implies on_board(pos.size, #[trigger] cells[i]) by {
                assert(cells@.contains(cells[i]));
                lemma_legal_on_board(pos, player, cells[i]);
            }
        }
        cells
    }

    /// The pawn moves that `player` may make, in algebraic notation, each
    /// listed once.
    pub fn get_legal_moves(&self, player: Player) -> (moves: Vec<String>)
        requires
            self.wf(),
        ensures
            forall|text: Seq<char>| listed(moves@, text) <==> self@.names_move(player, text),
            forall|i: int, j: int| 0 <= i < j < moves.len() ==> moves[i]@ != moves[j]@,
    {
        let cells = self.legal_destinations(player);
        let mut moves: Vec<String> = Vec::new();
        let mut i: usize = 0;
        while i < cells.len()
            invariant
                i <= cells.len(),
                self.wf(),
                moves.len() == i,
                forall|j: int| 0 <= j < cells.len() ==> on_board(self@.size, #[trigger] cells[j]),
                forall|a: int, b: int| 0 <= a < b < cells.len() ==> cells[a] != cells[b],
                forall|j: int| 0 <= j < i ==> (#[trigger] moves[j])@ == cell_text(self@.size, cells[j]),
            decreases cells.len() - i,
        {
            let text = write_cell(self.size, cells[i]);
            moves.push(text);
            i = i + 1;
        }
        proof {
            assert forall|text: Seq<char>| listed(moves@, text) <==> self@.names_move(player, text) by {
                if listed(moves@, text) {
                    let j = choose|j: int| 0 <= j < moves.len() && (#[trigger] moves[j])@ == text;
                    assert(cells@.contains(cells[j]));
                    assert(self@.legal_destination(player, cells[j]));
                }
                if self@.names_move(player, text) {
                    let c = choose|c: Coord|
                        #[trigger] self@.legal_destination(player, c) && text == cell_text(self@.size, c);
                    assert(cells@.contains(c));
                    let j = choose|j: int| 0 <= j < cells.len() && cells[j] == c;
                    assert(moves[j]@ == text);
                }
            }
            assert forall|i: int, j: int| 0 <= i < j < moves.len() implies moves[i]@ != moves[j]@ by {
                lemma_cell_round_trip(self@.size, cells[i]);
                lemma_cell_round_trip(self@.size, cells[j]);
            }
        }
        moves
    }

    /// Whether `player` may place the wall anchored on `anchor`.
    pub fn wall_allowed(&self, player: Player, anchor: Coord, orientation: Orientation) -> (legal: bool)
        requires
            self.wf(),
            on_board(self@.size, anchor),
        ensures
            legal == self@.wall_legal(player, anchor, orientation),
    {
        let ghost pos = self@;
        let stocked = self.walls_available(player) > 0;
        let crossed = match orientation {
            Orientation::Horizontal => holds(&self.vwall_positions, anchor),
            Orientation::Vertical => holds(&self.hwall_positions, anchor),
        };
        let fits = self.wall_fits(anchor, orientation);
        let legal = stocked && !crossed && fits && self.wall_spares_goals(anchor, orientation);
        proof {
            reveal(Position::wall_legal);
        }
        legal
    }

    /// Whether the wall lies fully on the board and both passages that it
    /// would sever are open.
    fn wall_fits(&self, anchor: Coord, orientation: Orientation) -> (fits: bool)
        requires
            self.wf(),
            on_board(self@.size, anchor),
        ensures
            fits == self@.wall_fits(anchor, orientation),
    {
        let ghost pos = self@;
        let edges = severed_by(self.size, anchor, orientation);
        if edges.len() != 2 {
            return false;
        }
        let mut i: usize = 0;
        while i < edges.len()
            invariant
                i <= edges.len(),
                self.wf(),
                pos == self@,
                edges@ == wall_edges(pos.size, anchor, orientation),
                forall|j: int|
                    0 <= j < edges.len() ==> on_board(pos.size, (#[trigger] edges[j]).0) && on_board(
                        pos.size,
                        edges[j].1,
                    ),
                forall|j: int| 0 <= j < i ==> pos.open((#[trigger] edges[j]).0, edges[j].1),
            decreases edges.len() - i,
        {
            let (a, b) = edges[i];
            if !is_open(&self.graph, self.size, a, b, Ghost(pos)) {
                assert(!pos.open(
                    wall_edges(pos.size, anchor, orientation)[i as int].0,
                    wall_edges(pos.size, anchor, orientation)[i as int].1,
                ));
                return false;
            }
            i = i + 1;
        }
        true
    }

    /// Whether both pawns still reach their goal rows with the wall on the
    /// board.
    fn wall_spares_goals(&self, anchor: Coord, orientation: Orientation) -> (spared: bool)
        requires
            self.wf(),
            on_board(self@.size, anchor),
        ensures
            spared == self@.with_wall(anchor, orientation).both_reach_goal(),
    {
        let ghost pos = self@;
        let ghost after = pos.with_wall(anchor, orientation);
        let mut trial = clone_graph(&self.graph);
        proof {
            lemma_passages_same_graph(self.graph, trial, pos);
        }
        cut_wall(&mut trial, self.size, anchor, orientation, Ghost(pos));
        row_reachable(&trial, self.size, self.pawn1, 0, Ghost(after)) && row_reachable(
            &trial,
            self.size,
            self.pawn2,
            self.size - 1,
            Ghost(after),
        )
    }

    /// Whether `player` may place the wall that `wall_move` names: the
    /// player has a wall left, no wall of the other orientation stands on
    /// the same anchor, the wall lies fully on the board and both passages
    /// that it would sever are open, and with the wall both pawns still
    /// reach their goal rows. Text that names no wall is not a legal wall.
    pub fn wall_check(&self, player: Player, wall_move: &str) -> (legal: bool)
        requires
            self.wf(),
        ensures
            legal == match parse_wall(self@.size, wall_move@) {
                Ok((anchor, orientation)) => self@.wall_legal(player, anchor, orientation),
                Err(_) => false,
            },
    {
        match read_wall(self.size, wall_move) {
            Ok((anchor, orientation)) => self.wall_allowed(player, anchor, orientation),
            Err(_) => false,
        }
    }

    /// Places the wall that `wall_move` names for the active player.
    ///
    /// With `check`, the wall is placed only if the rules allow it. With
    /// `initialise`, the wall costs nothing and the turn does not pass; this
    /// is how a serialized state is replayed. A wall that severs no passage
    /// is never placed, and neither is one that would have to be paid from
    /// an empty stock.
    pub fn add_wall(&mut self, wall_move: &str, initialise: bool, check: bool) -> (placed: Result<bool, ParseError>)
        requires
            old(self).wf(),
        ensures
            final(self).wf(),
            match parse_wall(old(self)@.size, wall_move@) {
                Err(e) => placed == Err::<bool, ParseError>(e) && final(self)@ == old(self)@,
                Ok((anchor, orientation)) => {
                    &&& placed == Ok::<bool, ParseError>(
                        old(self)@.wall_accepted(anchor, orientation, initialise, check),
                    )
                    &&& final(self)@ == old(self)@.wall_outcome(anchor, orientation, initialise, check, wall_move@)
                },
            },
            check && old(self)@.both_reach_goal() ==> final(self)@.both_reach_goal(),
    {
        proof {
            match parse_wall(self@.size, wall_move@) {
                Ok((anchor, orientation)) => {
                    if check && self@.both_reach_goal() {
                        law_checked_wall_keeps_goals_in_reach(self@, anchor, orientation, initialise, wall_move@);
                    }
                },
                Err(_) => {},
            }
        }
        let (anchor, orientation) = match read_wall(self.size, wall_move) {
            Ok(wall) => wall,
            Err(e) => {
                return Err(e);
            },
        };
        let edges = severed_by(self.size, anchor, orientation);
        if edges.len() == 0 {
            return Ok(false);
        }
        if check && !self.wall_allowed(self.active_player, anchor, orientation) {
            return Ok(false);
        }
        if !initialise && self.walls_available(self.active_player) == 0 {
            return Ok(false);
        }
        let ghost before = self@;
        match orientation {
            Orientation::Horizontal => self.hwall_positions.push(anchor),
            Orientation::Vertical => self.vwall_positions.push(anchor),
        }
        cut_wall(&mut self.graph, self.size, anchor, orientation, Ghost(before));
        assert(self@ == before.with_wall(anchor, orientation));
        if !initialise {
            self.previous_state = self.state_string.clone();
            match self.active_player {
                Player::Player1 => {
                    self.stock1 = self.stock1 - 1;
                },
                Player::Player2 => {
                    self.stock2 = self.stock2 - 1;
                },
            }
            self.last_move = wall_move.to_owned();
            self.active_player = self.active_player.opponent();
        }
        proof {
            lemma_passages_same_walls(self.graph, before.with_wall(anchor, orientation), self@);
        }
        self.state_string = self.render();
        Ok(true)
    }

    /// Moves the active player's pawn to the cell that `move_str` names.
    ///
    /// With `check`, the pawn moves only if `move_str` is the notation of a
    /// move that the rules allow.
    pub fn move_pawn(&mut self, move_str: &str, check: bool) -> (moved: Result<bool, ParseError>)
        requires
            old(self).wf(),
        ensures
            final(self).wf(),
            match parse_cell(old(self)@.size, move_str@) {
                Err(e) => moved == Err::<bool, ParseError>(e) && final(self)@ == old(self)@,
                Ok(cell) => {
                    &&& moved == Ok::<bool, ParseError>(!check || old(self)@.names_move(old(self)@.active, move_str@))
                    &&& final(self)@ == old(self)@.pawn_outcome(cell, check, move_str@)
                },
            },
            check && old(self)@.both_reach_goal() ==> final(self)@.both_reach_goal(),
    {
        proof {
            if check && self@.both_reach_goal() && parse_cell(self@.size, move_str@) is Ok {
                law_checked_pawn_move_keeps_goals_in_reach(self@, move_str@);
            }
        }
        let destination = match read_cell(self.size, move_str) {
            Ok(cell) => cell,
            Err(e) => {
                return Err(e);
            },
        };
        let ghost before = self@;
        if check {
            let cells = self.legal_destinations(self.active_player);
            let canonical = write_cell(self.size, destination);
            let named = holds(&cells, destination) && same_text(canonical.as_str(), move_str);
            proof {
                if before.names_move(before.active, move_str@) {
                    let c = choose|c: Coord|
                        #[trigger] before.legal_destination(before.active, c) && move_str@ == cell_text(before.size, c);
                    assert(cells@.contains(c));
                    let j = choose|j: int| 0 <= j < cells.len() && cells[j] == c;
                    assert(on_board(before.size, cells[j]));
                    lemma_cell_round_trip(before.size, c);
                }
            }
            if !named {
                return Ok(false);
            }
        }
        match self.active_player {
            Player::Player1 => {
                self.pawn1 = destination;
            },
            Player::Player2 => {
                self.pawn2 = destination;
            },
        }
        self.previous_state = self.state_string.clone();
        self.last_move = move_str.to_owned();
        self.active_player = self.active_player.opponent();
        proof {
            lemma_passages_same_walls(self.graph, before, self@);
        }
        self.state_string = self.render();
        Ok(true)
    }

    /// The walls that `player` may place, in notation and in the order of
    /// their anchors, each listed once.
    pub fn get_legal_walls(&self, player: Player) -> (walls: Vec<String>)
        requires
            self.wf(),
        ensures
            forall|text: Seq<char>| listed(walls@, text) <==> self@.names_wall(player, text),
            texts(walls@) == self@.legal_wall_list(player),
            forall|i: int, j: int| 0 <= i < j < walls.len() ==> walls[i]@ != walls[j]@,
    {
        let ghost pos = self@;
        let size = self.size;
        let mut walls: Vec<String> = Vec::new();
        assert(texts(walls@) =~= Seq::<Seq<char>>::empty());
        if self.walls_available(player) == 0 {
            proof {
                lemma_no_stock_no_walls(pos, player, pos.size, 0);
                assert forall|text: Seq<char>| !pos.names_wall(player, text) by {
                    if pos.names_wall(player, text) {
                        let (anchor, orientation) = choose|anchor: Coord, orientation: Orientation|
                            pos.wall_anchor(anchor) && #[trigger] pos.wall_legal(player, anchor, orientation) && text
                                == wall_text(pos.size, anchor, orientation);
                        lemma_wall_needs_stock(pos, player, anchor, orientation);
                    }
                }
            }
            return walls;
        }
        let mut row: usize = 1;
        while row < size
            invariant
                1 <= row <= size,
                self.wf(),
                pos == self@,
                size == self.size,
                forall|text: Seq<char>| #[trigger] listed(walls@, text) <==> names_wall_before(pos, player, row as
                    int, 0, text),
                texts(walls@) == pos.legal_walls_before(player, row as nat, 0),
            decreases size - row,
        {
            let mut col: usize = 0;
            while col + 1 < size
                invariant
                    1 <= row < size,
                    col + 1 <= size,
                    self.wf(),
                    pos == self@,
                    size == self.size,
                    forall|text: Seq<char>|
                        #[trigger] listed(walls@, text) <==> names_wall_before(pos, player, row as int, col as int,
                            text),
                    texts(walls@) == pos.legal_walls_before(player, row as nat, col as nat),
                decreases size - col,
            {
                let anchor: Coord = (row, col);
                let ghost start = walls@;
                let h = self.wall_allowed(player, anchor, Orientation::Horizontal);
                if h {
                    walls.push(write_wall(size, anchor, Orientation::Horizontal));
                }
                let ghost middle = walls@;
                let v = self.wall_allowed(player, anchor, Orientation::Vertical);
                if v {
                    walls.push(write_wall(size, anchor, Orientation::Vertical));
                }
                proof {
                    assert forall|text: Seq<char>| #[trigger]
                        listed(walls@, text) <==> names_wall_before(pos, player, row as int, col + 1, text) by {
                        lemma_listed_step(start, middle, h, wall_text(pos.size, anchor, Orientation::Horizontal), text);
                        lemma_listed_step(middle, walls@, v, wall_text(pos.size, anchor, Orientation::Vertical), text);
                        lemma_names_wall_step(pos, player, row as int, col as int, text);
                    }
                    if h {
                        assert(texts(middle) =~= texts(start).push(
                            wall_text(pos.size, anchor, Orientation::Horizontal),
                        ));
                    }
                    if v {
                        assert(texts(walls@) =~= texts(middle).push(
                            wall_text(pos.size, anchor, Orientation::Vertical),
                        ));
                    }
                }
                col = col + 1;
            }
            proof {
                assert forall|text: Seq<char>| #[trigger]
                    listed(walls@, text) <==> names_wall_before(pos, player, row + 1, 0, text) by {
                    lemma_names_wall_row(pos, player, row as int, col as int, text);
                }
            }
            row = row + 1;
        }
        proof {
            assert forall|text: Seq<char>| listed(walls@, text) <==> pos.names_wall(player, text) by {
                lemma_names_wall_all(pos, player, text);
            }
            lemma_wall_list_has_no_duplicate(pos, player);
            let list = pos.legal_wall_list(player);
            assert(texts(walls@) == list);
            assert forall|i: int, j: int| 0 <= i < j < walls.len() implies walls[i]@ != walls[j]@ by {
                assert(list[i] == walls[i]@ && list[j] == walls[j]@);
            }
        }
        walls
    }

    /// Every move that the active player may make, pawn moves first, in
    /// notation, each listed once.
    pub fn get_all_legal_moves(&self) -> (moves: Vec<String>)
        requires
            self.wf(),
        ensures
            forall|text: Seq<char>| listed(moves@, text) <==> self@.names_legal(text),
            forall|i: int, j: int| 0 <= i < j < moves.len() ==> moves[i]@ != moves[j]@,
            ({
                let walls = self@.legal_wall_list(self@.active);
                let pawn_moves = moves@.len() - walls.len();
                &&& pawn_moves >= 0
                &&& texts(moves@).subrange(pawn_moves, moves@.len() as int) == walls
                &&& forall|j: int| 0 <= j < pawn_moves ==> self@.names_move(self@.active, (#[trigger] moves[j])@)
            }),
    {
        proof {
            reveal(Position::names_legal);
        }
        let mut moves = self.get_legal_moves(self.active_player);
        let walls = self.get_legal_walls(self.active_player);
        let ghost pawn_moves = moves@;
        proof {
            assert forall|j: int| 0 <= j < walls.len() implies (#[trigger] walls[j])@.len() == 3 by {
                assert(listed(walls@, walls[j]@));
                assert(self@.names_wall(self@.active, walls[j]@));
            }
            assert forall|j: int| 0 <= j < pawn_moves.len() implies self@.names_move(
                self@.active,
                (#[trigger] pawn_moves[j])@,
            ) by {
                assert(listed(pawn_moves, pawn_moves[j]@));
            }
            assert(texts(moves@).subrange(pawn_moves.len() as int, moves@.len() as int) =~= texts(walls@).subrange(
                0,
                0,
            ));
        }
        let mut i: usize = 0;
        while i < walls.len()
            invariant
                i <= walls.len(),
                moves@.len() == pawn_moves.len() + i,
                texts(walls@) == self@.legal_wall_list(self@.active),
                forall|a: int, b: int| 0 <= a < b < pawn_moves.len() ==> pawn_moves[a]@ != pawn_moves[b]@,
                forall|a: int, b: int| 0 <= a < b < walls.len() ==> walls[a]@ != walls[b]@,
                forall|j: int| 0 <= j < walls.len() ==> (#[trigger] walls[j])@.len() == 3,
                forall|j: int| 0 <= j < pawn_moves.len() ==> moves@[j] == pawn_moves[j],
                forall|j: int|
                    0 <= j < pawn_moves.len() ==> self@.names_move(self@.active, (#[trigger] pawn_moves[j])@),
                texts(moves@).subrange(pawn_moves.len() as int, moves@.len() as int) == texts(walls@).subrange(
                    0,
                    i as int,
                ),
                forall|text: Seq<char>| #[trigger]
                    listed(moves@, text) <==> (listed(pawn_moves, text) || listed(walls@.subrange(0, i as int), text)),
            decreases walls.len() - i,
        {
            let ghost before = moves@;
            moves.push(walls[i].clone());
            proof {
                assert(texts(moves@).subrange(pawn_moves.len() as int, moves@.len() as int) =~= texts(walls@).subrange(
                    0,
                    i + 1,
                ));
                assert forall|text: Seq<char>| #[trigger]
                    listed(moves@, text) <==> (listed(pawn_moves, text) || listed(
                        walls@.subrange(0, i + 1),
                        text,
                    )) by {
                    lemma_listed_step(before, moves@, true, walls[i as int]@, text);
                    lemma_listed_step(
                        walls@.subrange(0, i as int),
                        walls@.subrange(0, i + 1),
                        true,
                        walls[i as int]@,
                        text,
                    );
                }
            }
            i = i + 1;
        }
        proof {
            assert(walls@.subrange(0, walls.len() as int) =~= walls@);
            assert(texts(walls@).subrange(0, walls.len() as int) =~= texts(walls@));
            assert(texts(walls@).len() == walls.len());
            assert forall|j: int| 0 <= j < pawn_moves.len() implies self@.names_move(
                self@.active,
                (#[trigger] moves[j])@,
            ) by {
                assert(moves@[j] == pawn_moves[j]);
            }
            assert forall|i: int, j: int| 0 <= i < j < moves.len() implies moves[i]@ != moves[j]@ by {
                let pawns = pawn_moves.len() as int;
                let tail = texts(moves@).subrange(pawns, moves@.len() as int);
                if j < pawns {
                    assert(moves@[i] == pawn_moves[i] && moves@[j] == pawn_moves[j]);
                } else {
                    assert(tail[j - pawns] == texts(moves@)[j]);
                    assert(moves[j]@ == walls[j - pawns]@);
                    if i < pawns {
                        assert(self@.names_move(self@.active, moves[i]@));
                        assert(moves[i]@.len() == 2);
                    } else {
                        assert(tail[i - pawns] == texts(moves@)[i]);
                        assert(moves[i]@ == walls[i - pawns]@);
                    }
                }
            }
        }
        moves
    }

    /// The length of a shortest way from `player`'s pawn to its goal row, or
    /// `UNREACHABLE` when the pawn is walled off.
    pub fn distance_to_goal(&self, player: Player) -> (steps: usize)
        requires
            self.wf(),
        ensures
            steps == self@.steps_to_goal(player),
            steps <= UNREACHABLE,
            self@.reaches_goal(player) ==> self@.is_row_distance(
                self@.pawn(player),
                self@.goal_row(player),
                steps as nat,
            ),
            !self@.reaches_goal(player) ==> steps == UNREACHABLE,
    {
        let row = match player {
            Player::Player1 => 0,
            Player::Player2 => self.size - 1,
        };
        let steps = row_distance(&self.graph, self.size, self.pawn_position(player), row, Ghost(self@));
        proof {
            let from = self@.pawn(player);
            reveal(Position::steps_to_row);
            law_sentinel_means_no_way(self@, from, row as nat);
            if self@.reaches_row(from, row as nat) {
                lemma_steps_to_row(self@, from, row as nat);
                lemma_row_distance_unique(self@, from, row as nat, steps as nat, self@.steps_to_row(from, row as nat));
            }
        }
        steps
    }

    /// Whether the move that `move_str` names takes the active player's pawn
    /// to its goal row. Text that names no cell wins nothing.
    pub fn win_check(&self, move_str: &str) -> (wins: bool)
        requires
            self.wf(),
        ensures
            wins == match parse_cell(self@.size, move_str@) {
                Ok(cell) => cell.0 == self@.goal_row(self@.active),
                Err(_) => false,
            },
    {
        match read_cell(self.size, move_str) {
            Ok(cell) => match self.active_player {
                Player::Player1 => cell.0 == 0,
                Player::Player2 => cell.0 == self.size - 1,
            },
            Err(_) => false,
        }
    }

    /// The length of a shortest way from `player`'s pawn to the next row in
    /// its direction of travel, or `UNREACHABLE` when the pawn stands on its
    /// goal row or cannot get to that next row.
    pub fn moves_to_next_row(&self, player: Player) -> (steps: usize)
        requires
            self.wf(),
        ensures
            steps == self@.steps_to_next_row(player),
            steps <= UNREACHABLE,
            match self@.next_row(player) {
                Some(row) => {
                    &&& self@.reaches_row(self@.pawn(player), row) ==> self@.is_row_distance(
                        self@.pawn(player),
                        row,
                        steps as nat,
                    )
                    &&& !self@.reaches_row(self@.pawn(player), row) ==> steps == UNREACHABLE
                },
                None => steps == UNREACHABLE,
            },
    {
        let here = self.pawn_position(player);
        let next = match player {
            Player::Player1 => {
                if here.0 > 0 {
                    here.0 - 1
                } else {
                    return UNREACHABLE;
                }
            },
            Player::Player2 => {
                if here.0 < self.size - 1 {
                    here.0 + 1
                } else {
                    return UNREACHABLE;
                }
            },
        };
        let steps = row_distance(&self.graph, self.size, here, next, Ghost(self@));
        proof {
            reveal(Position::steps_to_row);
            law_sentinel_means_no_way(self@, here, next as nat);
            if self@.reaches_row(here, next as nat) {
                lemma_steps_to_row(self@, here, next as nat);
                lemma_row_distance_unique(self@, here, next as nat, steps as nat, self@.steps_to_row(here, next as
                    nat));
            }
        }
        steps
    }

    /// Hands a move to the game: text that looks like a wall goes to
    /// `add_wall`, anything else to `move_pawn`. The turn passes when the
    /// move is carried out.
    pub fn play(&mut self, move_str: &str, check: bool) -> (done: Result<bool, ParseError>)
        requires
            old(self).wf(),
        ensures
            final(self).wf(),
            final(self)@ == old(self)@.played(move_str@, check),
            final(self)@.size == old(self)@.size,
            check && old(self)@.both_reach_goal() ==> final(self)@.both_reach_goal(),
            done is Ok ==> (done->Ok_0 <==> final(self)@ != old(self)@),
            old(self)@.names_legal(move_str@) ==> done == Ok::<bool, ParseError>(true),
    {
        proof {
            reveal(Position::played);
            if self@.names_legal(move_str@) {
                lemma_legal_move_played(self@, move_str@, check);
            }
            lemma_turn_changes(self@, move_str@, check);
        }
        if is_wall_text(move_str) {
            self.add_wall(move_str, false, check)
        } else {
            self.move_pawn(move_str, check)
        }
    }

    /// Stands the walls of `anchors` on the board without charging anyone.
    fn stand_walls(&mut self, anchors: &Vec<Coord>, orientation: Orientation)
        requires
            old(self)@.valid(),
            passages_of(old(self).graph, old(self)@),
            forall|i: int| 0 <= i < anchors.len() ==> on_board(old(self)@.size, #[trigger] anchors[i]),
        ensures
            final(self)@.valid(),
            passages_of(final(self).graph, final(self)@),
            final(self)@ == (match orientation {
                Orientation::Horizontal => Position { hwalls: old(self)@.hwalls + anchors@, ..old(self)@ },
                Orientation::Vertical => Position { vwalls: old(self)@.vwalls + anchors@, ..old(self)@ },
            }),
    {
        let ghost start = self@;
        let mut i: usize = 0;
        assert(start.hwalls + anchors@.subrange(0, 0) =~= start.hwalls);
        assert(start.vwalls + anchors@.subrange(0, 0) =~= start.vwalls);
        while i < anchors.len()
            invariant
                i <= anchors.len(),
                start.valid(),
                self@.valid(),
                passages_of(self.graph, self@),
                forall|j: int| 0 <= j < anchors.len() ==> on_board(start.size, #[trigger] anchors[j]),
                self@ == (match orientation {
                    Orientation::Horizontal => Position {
                        hwalls: start.hwalls + anchors@.subrange(0, i as int),
                        ..start
                    },
                    Orientation::Vertical => Position { vwalls: start.vwalls + anchors@.subrange(0, i as int),
                        ..start },
                }),
            decreases anchors.len() - i,
        {
            let anchor = anchors[i];
            let ghost before = self@;
            match orientation {
                Orientation::Horizontal => self.hwall_positions.push(anchor),
                Orientation::Vertical => self.vwall_positions.push(anchor),
            }
            cut_wall(&mut self.graph, self.size, anchor, orientation, Ghost(before));
            proof {
                assert(self@ == before.with_wall(anchor, orientation));
                assert(anchors@.subrange(0, i + 1) =~= anchors@.subrange(0, i as int).push(anchor));
                assert((start.hwalls + anchors@.subrange(0, i as int)).push(anchor) =~= start.hwalls
                    + anchors@.subrange(0, i + 1));
                assert((start.vwalls + anchors@.subrange(0, i as int)).push(anchor) =~= start.vwalls
                    + anchors@.subrange(0, i + 1));
            }
            i = i + 1;
        }
        assert(anchors@.subrange(0, anchors.len() as int) =~= anchors@);
    }

    /// Reads a serialized state into the game: pawns, stocks and the player
    /// to move are taken from it, and its walls are added to the board.
    /// When the text is malformed the game is left as it was.
    pub fn parse_state_string(&mut self, state_string: &str) -> (read: Result<(), ParseError>)
        requires
            old(self).wf(),
        ensures
            final(self).wf(),
            match old(self)@.loaded(state_string@) {
                Ok(pos) => read is Ok && final(self)@ == pos,
                Err(e) => read == Err::<(), ParseError>(e) && final(self)@ == old(self)@,
            },
    {
        let ghost before = self@;
        let size = self.size;
        let fields = split_text(state_string, '/');
        if fields.len() != 5 {
            return Err(ParseError::FieldCount);
        }
        let ghost parts = split(state_string@, '/');
        assert(forall|j: int| 0 <= j < 5 ==> fields[j]@ == #[trigger] parts[j]);
        let pawns = split_words(fields[2].as_str());
        if pawns.len() != 2 {
            return Err(ParseError::PawnField);
        }
        let ghost pawn_words = words(parts[2]);
        assert(pawns[0]@ == pawn_words[0] && pawns[1]@ == pawn_words[1]);
        let pawn1 = match read_cell(size, pawns[0].as_str()) {
            Ok(cell) => cell,
            Err(e) => {
                return Err(e);
            },
        };
        let pawn2 = match read_cell(size, pawns[1].as_str()) {
            Ok(cell) => cell,
            Err(e) => {
                return Err(e);
            },
        };
        let stocks = split_words(fields[3].as_str());
        if stocks.len() != 2 {
            return Err(ParseError::StockField);
        }
        let ghost stock_words = words(parts[3]);
        assert(stocks[0]@ == stock_words[0] && stocks[1]@ == stock_words[1]);
        let stock1 = read_number_or(stocks[0].as_str(), self.walls);
        let stock2 = read_number_or(stocks[1].as_str(), self.walls);
        let hchunks = split_pairs(trim_text(fields[0].as_str()).as_str());
        let hs = match read_anchors(size, &hchunks, Orientation::Horizontal) {
            Ok(list) => list,
            Err(e) => {
                return Err(e);
            },
        };
        let vchunks = split_pairs(trim_text(fields[1].as_str()).as_str());
        let vs = match read_anchors(size, &vchunks, Orientation::Vertical) {
            Ok(list) => list,
            Err(e) => {
                return Err(e);
            },
        };
        let mark = trim_text(fields[4].as_str());
        let first = mark.as_str().unicode_len() == 1 && mark.as_str().get_char(0) == '1';
        assert(first == (trimmed(parts[4]) == seq!['1'])) by {
            if first {
                assert(mark@ =~= seq!['1']);
            }
        }
        self.pawn1 = pawn1;
        self.pawn2 = pawn2;
        self.stock1 = stock1;
        self.stock2 = stock2;
        self.active_player = if first { Player::Player1 } else { Player::Player2 };
        proof {
            lemma_passages_same_walls(self.graph, before, self@);
        }
        self.stand_walls(&hs, Orientation::Horizontal);
        self.stand_walls(&vs, Orientation::Vertical);
        self.state_string = self.render();
        Ok(())
    }

    /// A game on a board of `size` rows in which each player starts with
    /// `walls` walls: a fresh one, or the one that `state_string` describes.
    pub fn new(size: usize, walls: usize, state_string: Option<&str>) -> (game: Result<Quoridor, ParseError>)
        ensures
            match Position::opening(
                size as nat,
                walls as nat,
                match state_string {
                    Some(s) => Some(s@),
                    None => None,
                },
            ) {
                Ok(pos) => game is Ok && game->Ok_0.wf() && game->Ok_0@ == pos,
                Err(e) => game is Err && game->Err_0 == e,
            },
            state_string is None && game is Ok ==> game->Ok_0@.both_reach_goal(),
    {
        if size < 1 || size > MAX_SIZE {
            return Err(ParseError::BoardSize);
        }
        let mut game = Quoridor::fresh(size, walls);
        match state_string {
            Some(s) => match game.parse_state_string(s) {
                Ok(()) => Ok(game),
                Err(e) => Err(e),
            },
            None => Ok(game),
        }
    }

    /// Lays out the passages of a board on which no wall stands: whatever
    /// the graph held before, afterwards it joins every two neighbouring
    /// cells and nothing else. The position and the state string stay as
    /// they are.
    pub fn initialize_graph(&mut self)
        requires
            old(self)@.valid(),
            old(self)@.hwalls.len() == 0,
            old(self)@.vwalls.len() == 0,
        ensures
            final(self).passages_agree(),
            final(self)@ == old(self)@,
            final(self).recorded() == old(self).recorded(),
    {
        self.graph = fresh_passages(self.size, Ghost(self@));
    }

    /// A fresh game on a board of `size` rows, each player holding `walls`
    /// walls.
    pub(crate) fn fresh(size: usize, walls: usize) -> (game: Quoridor)
        requires
            1 <= size <= MAX_SIZE,
        ensures
            game.wf(),
            game@ == Position::fresh(size as nat, walls as nat),
            game@.both_reach_goal(),
    {
        proof {
            lemma_fresh_board_is_connected(size as nat, walls as nat);
        }
        let ghost pos = Position::fresh(size as nat, walls as nat);
        let mut game = Quoridor {
            size,
            walls,
            graph: empty_graph(),
            hwall_positions: Vec::new(),
            vwall_positions: Vec::new(),
            pawn1: (size - 1, (size - 1) / 2),
            pawn2: (0, size / 2),
            stock1: walls,
            stock2: walls,
            active_player: Player::Player1,
            state_string: String::new(),
            previous_state: String::new(),
            last_move: "Blank".to_owned(),
        };
        assert(game@ =~= pos);
        game.initialize_graph();
        game.state_string = game.render();
        game
    }
}

/// Reads the anchors of walls of one orientation from two-character chunks.
fn read_anchors(
    size: usize,
    chunks: &Vec<String>,
    orientation: Orientation,
) -> (anchors: Result<Vec<Coord>, ParseError>)
    requires
        size <= MAX_SIZE,
    ensures
        match anchors_of(size as nat, texts(chunks@), orientation) {
            Ok(list) => anchors is Ok && anchors->Ok_0@ == list,
            Err(e) => anchors == Err::<Vec<Coord>, ParseError>(e),
        },
        anchors is Ok ==> forall|i: int|
            0 <= i < anchors->Ok_0.len() ==> on_board(size as nat, #[trigger] anchors->Ok_0[i]),
{
    let mut anchors: Vec<Coord> = Vec::new();
    let mut i: usize = 0;
    let ghost all = texts(chunks@);
    assert(all.subrange(0, 0) =~= Seq::<Seq<char>>::empty());
    while i < chunks.len()
        invariant
            i <= chunks.len(),
            size <= MAX_SIZE,
            all == texts(chunks@),
            anchors_of(size as nat, all.subrange(0, i as int), orientation) == Ok::<Seq<Coord>, ParseError>(anchors@),
            forall|j: int| 0 <= j < anchors.len() ==> on_board(size as nat, #[trigger] anchors[j]),
        decreases chunks.len() - i,
    {
        let ghost next = all.subrange(0, i + 1);
        assert(next.drop_last() =~= all.subrange(0, i as int));
        assert(next.last() == chunks[i as int]@);
        match read_cell(size, chunks[i].as_str()) {
            Err(e) => {
                proof {
                    lemma_anchors_error(size as nat, all, orientation, i + 1);
                    assert(all.subrange(0, all.len() as int) =~= all);
                }
                return Err(e);
            },
            Ok(anchor) => {
                let edges = severed_by(size, anchor, orientation);
                if edges.len() > 0 {
                    anchors.push(anchor);
                }
            },
        }
        i = i + 1;
    }
    assert(all.subrange(0, chunks.len() as int) =~= all);
    Ok(anchors)
}

/// Once a prefix of the chunks fails to parse, so does the whole run, with
/// the same error.
proof fn lemma_anchors_error(size: nat, chunks: Seq<Seq<char>>, orientation: Orientation, upto: int)
    requires
        0 <= upto <= chunks.len(),
        anchors_of(size, chunks.subrange(0, upto), orientation) is Err,
    ensures
        anchors_of(size, chunks.subrange(0, chunks.len() as int), orientation) == anchors_of(
            size,
            chunks.subrange(0, upto),
            orientation,
        ),
    decreases chunks.len() - upto,
{
    if upto < chunks.len() {
        let longer = chunks.subrange(0, upto + 1);
        assert(longer.drop_last() =~= chunks.subrange(0, upto));
        lemma_anchors_error(size, chunks, orientation, upto + 1);
    }
}

impl Clone for Quoridor {
    /// An independent copy of the game.
    fn clone(&self) -> (copy: Quoridor)
        ensures
            copy@ == self@,
            copy.wf() == self.wf(),
    {
        let copy = Quoridor {
            size: self.size,
            walls: self.walls,
            graph: clone_graph(&self.graph),
            hwall_positions: copy_cells(&self.hwall_positions),
            vwall_positions: copy_cells(&self.vwall_positions),
            pawn1: self.pawn1,
            pawn2: self.pawn2,
            stock1: self.stock1,
            stock2: self.stock2,
            active_player: self.active_player,
            state_string: self.state_string.clone(),
            previous_state: self.previous_state.clone(),
            last_move: self.last_move.clone(),
        };
        proof {
            lemma_passages_same_graph(self.graph, copy.graph, self@);
        }
        copy
    }
}

/// `text` names a legal wall whose anchor comes before `(row, col)` when the
/// anchors are taken row by row.
spec fn names_wall_before(pos: Position, player: Player, row: int, col: int, text: Seq<char>) -> bool {
    exists|anchor: Coord, orientation: Orientation|
        pos.wall_anchor(anchor) && (anchor.0 < row || (anchor.0 == row && anchor.1 < col)) && #[trigger] pos.wall_legal(
            player,
            anchor,
            orientation,
        ) && text == wall_text(pos.size, anchor, orientation)
}

/// Going on by one anchor adds the two walls on that anchor.
proof fn lemma_names_wall_step(pos: Position, player: Player, row: int, col: int, text: Seq<char>)
    requires
        1 <= row < pos.size,
        0 <= col,
        col + 1 < pos.size,
        pos.size <= MAX_SIZE,
    ensures
        names_wall_before(pos, player, row, col + 1, text) <==> {
            ||| names_wall_before(pos, player, row, col, text)
            ||| pos.wall_legal(player, (row as usize, col as usize), Orientation::Horizontal) && text == wall_text(
                pos.size,
                (row as usize, col as usize),
                Orientation::Horizontal,
            )
            ||| pos.wall_legal(player, (row as usize, col as usize), Orientation::Vertical) && text == wall_text(
                pos.size,
                (row as usize, col as usize),
                Orientation::Vertical,
            )
        },
{
    let here: Coord = (row as usize, col as usize);
    if names_wall_before(pos, player, row, col + 1, text) {
        let (anchor, orientation) = choose|anchor: Coord, orientation: Orientation|
            pos.wall_anchor(anchor) && (anchor.0 < row || (anchor.0 == row && anchor.1 < col + 1))
                && #[trigger] pos.wall_legal(player, anchor, orientation) && text == wall_text(
                pos.size,
                anchor,
                orientation,
            );
        if anchor == here {
        } else {
            assert(anchor.0 < row || (anchor.0 == row && anchor.1 < col));
        }
    }
    if names_wall_before(pos, player, row, col, text) {
        let (anchor, orientation) = choose|anchor: Coord, orientation: Orientation|
            pos.wall_anchor(anchor) && (anchor.0 < row || (anchor.0 == row && anchor.1 < col))
                && #[trigger] pos.wall_legal(player, anchor, orientation) && text == wall_text(
                pos.size,
                anchor,
                orientation,
            );
        assert(anchor.0 < row || (anchor.0 == row && anchor.1 < col + 1));
    }
    assert(pos.wall_anchor(here));
}

/// At the end of a row the next anchor is the first of the next row.
proof fn lemma_names_wall_row(pos: Position, player: Player, row: int, col: int, text: Seq<char>)
    requires
        col + 1 >= pos.size,
    ensures
        names_wall_before(pos, player, row + 1, 0, text) <==> names_wall_before(pos, player, row, col, text),
{
    if names_wall_before(pos, player, row + 1, 0, text) {
        let (anchor, orientation) = choose|anchor: Coord, orientation: Orientation|
            pos.wall_anchor(anchor) && (anchor.0 < row + 1 || (anchor.0 == row + 1 && anchor.1 < 0))
                && #[trigger] pos.wall_legal(player, anchor, orientation) && text == wall_text(
                pos.size,
                anchor,
                orientation,
            );
        assert(anchor.0 < row || (anchor.0 == row && anchor.1 < col));
    }
    if names_wall_before(pos, player, row, col, text) {
        let (anchor, orientation) = choose|anchor: Coord, orientation: Orientation|
            pos.wall_anchor(anchor) && (anchor.0 < row || (anchor.0 == row && anchor.1 < col))
                && #[trigger] pos.wall_legal(player, anchor, orientation) && text == wall_text(
                pos.size,
                anchor,
                orientation,
            );
        assert(anchor.0 < row + 1);
    }
}

/// Before the first anchor no wall is named, and after the last all are.
proof fn lemma_names_wall_all(pos: Position, player: Player, text: Seq<char>)
    requires
        pos.size <= MAX_SIZE,
    ensures
        names_wall_before(pos, player, pos.size as int, 0, text) <==> pos.names_wall(player, text),
        names_wall_before(pos, player, 1, 0, text) == false,
{
    if pos.names_wall(player, text) {
        let (anchor, orientation) = choose|anchor: Coord, orientation: Orientation|
            pos.wall_anchor(anchor) && #[trigger] pos.wall_legal(player, anchor, orientation) && text == wall_text(
                pos.size,
                anchor,
                orientation,
            );
        assert(anchor.0 < pos.size);
    }
}

} // verus!
