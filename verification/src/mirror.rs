//! The mirroring player: it heads for the cell that mirrors the opponent's
//! pawn through the centre of the board, and answers walls with their mirror
//! images.

use crate::game::Quoridor;
use crate::notation::{cell_text, on_board, wall_text, write_cell, write_wall, Coord, Orientation};
use crate::player::Player;
use crate::position::{lemma_wall_needs_stock, Position};
use crate::strategy::{adaptive_move, is_adaptive_choice, text_of, QuoridorStrategy, Strategy};
use crate::text::texts;
use vstd::prelude::*;
use vstd::string::*;

verus! {

/// The distance between `a` and `b`.
pub fn abs_diff(a: usize, b: usize) -> (d: usize)
    ensures
        d == span(a as int, b as int),
{
    if a > b {
        a - b
    } else {
        b - a
    }
}

/// The distance between two numbers.
pub open spec fn span(a: int, b: int) -> int {
    if a > b {
        a - b
    } else {
        b - a
    }
}

/// The number of steps between two cells on a board without walls.
pub open spec fn manhattan(a: Coord, b: Coord) -> int {
    span(a.0 as int, b.0 as int) + span(a.1 as int, b.1 as int)
}

/// `value` raised to at least `low`, then lowered to at most `high`.
pub open spec fn clamped(value: int, low: int, high: int) -> int {
    let raised = if value < low {
        low
    } else {
        value
    };
    if raised > high {
        high
    } else {
        raised
    }
}

/// The image of `at` under the point reflection whose centre, doubled, is
/// `twice_centre`.
pub open spec fn reflected(twice_centre: int, at: int) -> int {
    twice_centre - at
}

/// The cell that mirrors `cell` through the centre whose coordinates,
/// doubled, are `twice_centre`, brought onto a board of `size` rows.
pub open spec fn mirror_cell(size: nat, twice_centre: (usize, usize), cell: Coord) -> Coord {
    (
        clamped(reflected(twice_centre.0 as int, cell.0 as int), 0, size - 1) as usize,
        clamped(reflected(twice_centre.1 as int, cell.1 as int), 0, size - 1) as usize,
    )
}

/// The anchor that mirrors a wall's anchor: like `mirror_cell`, but never in
/// the top row, where no horizontal wall can stand.
pub open spec fn mirror_anchor(size: nat, twice_centre: (usize, usize), anchor: Coord) -> Coord {
    (
        clamped(reflected(twice_centre.0 as int, anchor.0 as int), 1, size - 1) as usize,
        clamped(reflected(twice_centre.1 as int, anchor.1 as int), 0, size - 1) as usize,
    )
}

/// A pawn on `cell` is nearer to some cell of `player`'s goal row than a pawn
/// on `from`, counted in steps on a board without walls.
pub open spec fn nears_goal(pos: Position, player: Player, from: Coord, cell: Coord) -> bool {
    exists|col: int|
        0 <= col < pos.size && manhattan(cell, (pos.goal_row(player) as usize, col as usize)) < #[trigger] manhattan(
            from,
            (pos.goal_row(player) as usize, col as usize),
        )
}

/// How a move to `cell` is rated by a player heading for `target`: the steps
/// left to the target, less one if the move also nears the goal row. Less is
/// better.
pub open spec fn toward_score(pos: Position, target: Coord, cell: Coord) -> int {
    let steps = manhattan(cell, target);
    if nears_goal(pos, pos.active, pos.pawn(pos.active), cell) && steps > 0 {
        steps - 1
    } else {
        steps
    }
}

/// What a player heading for `target` answers: a pawn move that no other
/// pawn move rates better, or nothing when the pawn cannot move.
pub open spec fn is_toward_choice(pos: Position, target: Coord, chosen: Option<Seq<char>>) -> bool {
    match chosen {
        None => forall|cell: Coord| !pos.legal_destination(pos.active, cell),
        Some(text) => exists|cell: Coord|
            {
                &&& #[trigger] pos.legal_destination(pos.active, cell)
                &&& text == cell_text(pos.size, cell)
                &&& forall|other: Coord| #[trigger]
                    pos.legal_destination(pos.active, other) ==> toward_score(pos, target, cell) <= toward_score(
                        pos,
                        target,
                        other,
                    )
            },
    }
}

/// `text` is the mirror image of a wall that stands on the board, and the
/// active player may place it.
pub open spec fn is_mirror_wall(pos: Position, twice_centre: (usize, usize), text: Seq<char>) -> bool {
    ||| exists|i: int|
        0 <= i < pos.hwalls.len() && mirrors(pos, twice_centre, #[trigger] pos.hwalls[i], Orientation::Horizontal, text)
    ||| exists|i: int|
        0 <= i < pos.vwalls.len() && mirrors(pos, twice_centre, #[trigger] pos.vwalls[i], Orientation::Vertical, text)
}

/// The active player may place the mirror image of the wall on `anchor`.
pub open spec fn mirror_fits(
    pos: Position,
    twice_centre: (usize, usize),
    anchor: Coord,
    orientation: Orientation,
) -> bool {
    let image = mirror_anchor(pos.size, twice_centre, anchor);
    pos.wall_anchor(image) && pos.wall_legal(pos.active, image, orientation)
}

/// `text` names the mirror image of the wall on `anchor`, and the active
/// player may place it.
pub open spec fn mirrors(
    pos: Position,
    twice_centre: (usize, usize),
    anchor: Coord,
    orientation: Orientation,
    text: Seq<char>,
) -> bool {
    mirror_fits(pos, twice_centre, anchor, orientation) && text == wall_text(
        pos.size,
        mirror_anchor(pos.size, twice_centre, anchor),
        orientation,
    )
}

/// What a player that mirrors walls answers: the mirror image of a wall on
/// the board, or nothing when it has no wall left or no mirror image may be
/// placed.
pub open spec fn is_mirror_wall_choice(pos: Position, twice_centre: (usize, usize), chosen: Option<Seq<char>>) -> bool {
    match chosen {
        Some(text) => is_mirror_wall(pos, twice_centre, text),
        None => forall|text: Seq<char>| !is_mirror_wall(pos, twice_centre, text),
    }
}

/// The doubled centre of a board of `size` rows.
pub open spec fn board_centre(size: nat) -> (usize, usize) {
    ((size - 1) as usize, (size - 1) as usize)
}

/// What the mirroring player answers in `pos`.
///
/// If its pawn is not on the mirror image of the opponent's pawn and can
/// move, a move toward that cell. Otherwise the mirror image of a wall, if
/// one may be placed. Otherwise what the adapting player answers.
pub open spec fn is_mirror_choice(pos: Position, twice_centre: (usize, usize), chosen: Option<Seq<char>>) -> bool {
    let target = mirror_cell(pos.size, twice_centre, pos.pawn(pos.active.other()));
    let can_walk = pos.pawn(pos.active) != target && exists|cell: Coord| pos.legal_destination(pos.active, cell);
    if can_walk {
        is_toward_choice(pos, target, chosen)
    } else if exists|text: Seq<char>| is_mirror_wall(pos, twice_centre, text) {
        chosen is Some && is_mirror_wall(pos, twice_centre, chosen->0)
    } else {
        is_adaptive_choice(pos, chosen)
    }
}

/// One coordinate of a mirror image.
fn reflect(twice_centre: usize, at: usize, low: usize, high: usize) -> (image: usize)
    ensures
        image == clamped(reflected(twice_centre as int, at as int), low as int, high as int),
{
    let value = if twice_centre < at { 0 } else { twice_centre - at };
    let raised = if value < low { low } else { value };
    if raised > high {
        high
    } else {
        raised
    }
}

/// Whether a move from `from` to `cell` nears `player`'s goal row.
fn nearing(game: &Quoridor, player: Player, from: Coord, cell: Coord) -> (nearer: bool)
    requires
        game.wf(),
        on_board(game@.size, from),
        on_board(game@.size, cell),
    ensures
        nearer == nears_goal(game@, player, from, cell),
{
    let goals = game.goal_positions(player);
    let mut i: usize = 0;
    while i < goals.len()
        invariant
            i <= goals.len(),
            game.wf(),
            on_board(game@.size, from),
            on_board(game@.size, cell),
            goals.len() == game@.size,
            forall|j: int| 0 <= j < goals.len() ==> goals[j] == (game@.goal_row(player) as usize, j as usize),
            forall|col: int|
                0 <= col < i ==> !(manhattan(cell, (game@.goal_row(player) as usize, col as usize)) < #[trigger]
                    manhattan(
                    from,
                    (game@.goal_row(player) as usize, col as usize),
                )),
        decreases goals.len() - i,
    {
        let goal = goals[i];
        let now = abs_diff(from.0, goal.0) + abs_diff(from.1, goal.1);
        let then = abs_diff(cell.0, goal.0) + abs_diff(cell.1, goal.1);
        if then < now {
            assert(manhattan(cell, (game@.goal_row(player) as usize, i as usize)) < manhattan(
                from,
                (game@.goal_row(player) as usize, i as usize),
            ));
            return true;
        }
        i = i + 1;
    }
    false
}

/// Plays a scripted opening, then mirrors the opponent.
pub struct MirrorStrategy {
    base: QuoridorStrategy,
    centre: Option<(usize, usize)>,
}

impl MirrorStrategy {
    /// The name and the scripted opening.
    pub closed spec fn base(&self) -> QuoridorStrategy {
        self.base
    }

    /// The doubled centre that the player mirrors through, once it has seen
    /// a board.
    pub closed spec fn centre(&self) -> Option<(usize, usize)> {
        self.centre
    }

    /// The doubled centre that the player mirrors through on a board of
    /// `size` rows: the one it fixed on the first board it saw, or this
    /// board's.
    pub open spec fn centre_for(&self, size: nat) -> (usize, usize) {
        match self.centre() {
            Some(c) => c,
            None => board_centre(size),
        }
    }

    /// A player that has not seen a board yet.
    pub fn new(opening_name: &str, opening_moves: Vec<String>) -> (strategy: MirrorStrategy)
        ensures
            strategy.centre() is None,
            strategy.base().book() == texts(opening_moves@),
            strategy.base().used() == 0,
            strategy.base().title() == (if opening_moves.len() == 0 {
                "Mirror"@
            } else {
                "Mirror"@ + seq!['-'] + opening_name@
            }),
    {
        MirrorStrategy { base: QuoridorStrategy::new("Mirror", opening_name, opening_moves), centre: None }
    }

    /// The doubled centre that the player mirrors through on this board.
    fn twice_centre(&self, game: &Quoridor) -> (c: (usize, usize))
        requires
            game.wf(),
        ensures
            c == self.centre_for(game@.size),
    {
        match self.centre {
            Some(c) => c,
            None => (game.size() - 1, game.size() - 1),
        }
    }

    /// The cell that mirrors `opponent`'s pawn through the centre of the
    /// board.
    pub fn calculate_mirrored_position(&self, game: &Quoridor, opponent: Player) -> (cell: Coord)
        requires
            game.wf(),
        ensures
            cell == mirror_cell(game@.size, self.centre_for(game@.size), game@.pawn(opponent)),
            on_board(game@.size, cell),
    {
        let c = self.twice_centre(game);
        let at = game.pawn_position(opponent);
        let high = game.size() - 1;
        (reflect(c.0, at.0, 0, high), reflect(c.1, at.1, 0, high))
    }

    /// The pawn move that brings the active player's pawn nearest to
    /// `target_pos`, a move that also nears the goal row counting as one
    /// step nearer.
    pub fn find_best_move_toward(&self, game: &Quoridor, target_pos: Coord) -> (chosen: Option<String>)
        requires
            game.wf(),
            on_board(game@.size, target_pos),
        ensures
            is_toward_choice(game@, target_pos, text_of(chosen)),
    {
        let ghost pos = game@;
        let player = game.active_player();
        let here = game.pawn_position(player);
        let cells = game.legal_destinations(player);
        let mut best: Option<Coord> = None;
        let mut best_score: usize = usize::MAX;
        let mut i: usize = 0;
        while i < cells.len()
            invariant
                i <= cells.len(),
                game.wf(),
                pos == game@,
                player == pos.active,
                here == pos.pawn(player),
                on_board(pos.size, target_pos),
                forall|c: Coord| cells@.contains(c) <==> pos.legal_destination(pos.active, c),
                forall|j: int| 0 <= j < cells.len() ==> on_board(pos.size, #[trigger] cells[j]),
                i > 0 ==> best is Some,
                best is Some ==> cells@.contains(best->0) && best_score == toward_score(pos, target_pos, best->0),
                forall|j: int| 0 <= j < i ==> best_score <= toward_score(pos, target_pos, #[trigger] cells[j]),
            decreases cells.len() - i,
        {
            let cell = cells[i];
            assert(cells@.contains(cell));
            let steps = abs_diff(cell.0, target_pos.0) + abs_diff(cell.1, target_pos.1);
            let score = if steps > 0 && nearing(game, player, here, cell) {
                steps - 1
            } else {
                steps
            };
            if score < best_score || best.is_none() {
                best_score = score;
                best = Some(cell);
            }
            i = i + 1;
        }
        match best {
            Some(cell) => {
                proof {
                    assert forall|other: Coord| #[trigger] pos.legal_destination(pos.active, other) implies
                        toward_score(
                        pos,
                        target_pos,
                        cell,
                    ) <= toward_score(pos, target_pos, other) by {
                        assert(cells@.contains(other));
                        let j = choose|j: int| 0 <= j < cells.len() && cells[j] == other;
                        assert(best_score <= toward_score(pos, target_pos, cells[j]));
                    }
                    let j = choose|j: int| 0 <= j < cells.len() && cells[j] == cell;
                    assert(on_board(pos.size, cells[j]));
                }
                Some(write_cell(game.size(), cell))
            },
            None => {
                proof {
                    assert forall|cell: Coord| !pos.legal_destination(pos.active, cell) by {
                        if pos.legal_destination(pos.active, cell) {
                            assert(cells@.contains(cell));
                        }
                    }
                }
                None
            },
        }
    }

    /// The mirror image of a wall on the board that the active player may
    /// place: those of the horizontal walls are tried first, each list in
    /// the order the walls were placed.
    pub fn mirror_opponent_walls(&self, game: &Quoridor, opponent: Player) -> (chosen: Option<String>)
        requires
            game.wf(),
        ensures
            is_mirror_wall_choice(game@, self.centre_for(game@.size), text_of(chosen)),
    {
        let ghost pos = game@;
        let player = game.active_player();
        let c = self.twice_centre(game);
        if game.walls_available(player) == 0 {
            proof {
                assert forall|anchor: Coord, orientation: Orientation| !#[trigger] mirror_fits(
                    pos,
                    c,
                    anchor,
                    orientation,
                ) by {
                    if mirror_fits(pos, c, anchor, orientation) {
                        lemma_wall_needs_stock(
                            pos,
                            pos.active,
                            mirror_anchor(pos.size, c, anchor),
                            orientation,
                        );
                    }
                }
            }
            return None;
        }
        let size = game.size();
        let hwalls = game.hwall_positions();
        let mut i: usize = 0;
        while i < hwalls.len()
            invariant
                i <= hwalls.len(),
                game.wf(),
                pos == game@,
                size == pos.size,
                player == pos.active,
                c == self.centre_for(pos.size),
                hwalls@ == pos.hwalls,
                forall|j: int| 0 <= j < i ==> !mirror_fits(pos, c, #[trigger] hwalls[j], Orientation::Horizontal),
            decreases hwalls.len() - i,
        {
            let anchor = hwalls[i];
            let image: Coord = (reflect(c.0, anchor.0, 1, size - 1), reflect(c.1, anchor.1, 0, size - 1));
            if image.0 >= 1 && image.1 + 1 < size && game.wall_allowed(player, image, Orientation::Horizontal) {
                let text = write_wall(size, image, Orientation::Horizontal);
                assert(mirrors(pos, c, pos.hwalls[i as int], Orientation::Horizontal, text@));
                return Some(text);
            }
            i = i + 1;
        }
        let vwalls = game.vwall_positions();
        let mut k: usize = 0;
        while k < vwalls.len()
            invariant
                k <= vwalls.len(),
                game.wf(),
                pos == game@,
                size == pos.size,
                player == pos.active,
                c == self.centre_for(pos.size),
                hwalls@ == pos.hwalls,
                vwalls@ == pos.vwalls,
                forall|j: int| 0 <= j < hwalls.len() ==> !mirror_fits(pos, c, #[trigger] hwalls[j],
                    Orientation::Horizontal),
                forall|j: int| 0 <= j < k ==> !mirror_fits(pos, c, #[trigger] vwalls[j], Orientation::Vertical),
            decreases vwalls.len() - k,
        {
            let anchor = vwalls[k];
            let image: Coord = (reflect(c.0, anchor.0, 1, size - 1), reflect(c.1, anchor.1, 0, size - 1));
            if image.0 >= 1 && image.1 + 1 < size && game.wall_allowed(player, image, Orientation::Vertical) {
                let text = write_wall(size, image, Orientation::Vertical);
                assert(mirrors(pos, c, pos.vwalls[k as int], Orientation::Vertical, text@));
                return Some(text);
            }
            k = k + 1;
        }
        None
    }
}

impl Strategy for MirrorStrategy {
    open spec fn ready(&self) -> bool {
        true
    }

    open spec fn title(&self) -> Seq<char> {
        self.base().title()
    }

    /// The name under which the strategy plays.
    fn name(&self) -> (text: String) {
        self.base.name()
    }

    /// The scripted move if one is due and legal; otherwise what
    /// `is_mirror_choice` says. The centre is fixed on the first board on
    /// which the player has to find a move of its own.
    fn choose_move(&mut self, game: &Quoridor) -> (chosen: Option<String>)
        ensures
            final(self).base().book() == old(self).base().book(),
            match old(self).base().scripted(game@) {
                Some(text) => text_of(chosen) == Some(text) && final(self).centre() == old(self).centre(),
                None => {
                    &&& final(self).centre() == Some(old(self).centre_for(game@.size))
                    &&& is_mirror_choice(game@, old(self).centre_for(game@.size), text_of(chosen))
                },
            },
    {
        proof {
            reveal(Position::names_legal);
        }
        if let Some(move_str) = self.base.try_opening_move(game) {
            return Some(move_str);
        }
        let ghost pos = game@;
        if self.centre.is_none() {
            self.centre = Some((game.size() - 1, game.size() - 1));
        }
        let ghost c = self.centre_for(pos.size);
        let player = game.active_player();
        let opponent = player.opponent();
        let target = self.calculate_mirrored_position(game, opponent);
        let here = game.pawn_position(player);
        if here.0 != target.0 || here.1 != target.1 {
            if let Some(text) = self.find_best_move_toward(game, target) {
                return Some(text);
            }
        }
        if let Some(text) = self.mirror_opponent_walls(game, opponent) {
            return Some(text);
        }
        adaptive_move(game)
    }
}

} // verus!
