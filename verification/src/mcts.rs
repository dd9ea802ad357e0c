//! Monte-Carlo tree search: a tree of tried moves grown one simulation at a
//! time, each simulation a random game played out from a new leaf.
//!
//! The nodes live in one list and name each other by index. Which child to
//! descend into is decided by a selection rule that the player is handed,
//! so that the logarithm and square root of the usual rule can be computed
//! where floating point is at home.

use crate::chance::{random_index, thread_rng};
use crate::clock::{as_millis, elapsed, now};
use crate::game::Quoridor;
use crate::laws::position_after;
use crate::notation::{cell_text, decimal, lemma_cell_round_trip, parse_cell, write_number, Coord};
use crate::player::Player;
use crate::position::{lemma_legal_move_played, lemma_legal_on_board, lemma_names_legal, listed, Position};
use crate::strategy::{is_listed, own_steps_after, pick, text_of, Strategy};
use crate::text::texts;
use vstd::prelude::*;
use vstd::string::*;

verus! {

/// What a simulation that the searching player won adds to the score of
/// every node on its path.
pub const WIN_SCORE: u128 = 10;

/// What a simulation without a winner adds.
pub const DRAW_SCORE: u128 = 5;

/// A node of the search tree: a move that was tried, and what the
/// simulations through it brought.
pub struct MCTSNode {
    /// The move that leads to this node.
    pub move_str: String,
    /// How many simulations went through this node.
    pub visits: usize,
    /// The score that those simulations added up to.
    pub wins: u128,
    /// The nodes of the moves tried from here, by index.
    pub children: Vec<usize>,
    /// The moves from here that have not been tried.
    pub unexpanded_moves: Vec<String>,
    /// The player who made the move.
    pub player: Player,
    /// How many moves lead from the root to this node.
    pub depth: usize,
}

impl MCTSNode {
    /// A node that no simulation has gone through.
    pub fn new(move_str: String, player: Player, unexpanded_moves: Vec<String>, depth: usize) -> (node: MCTSNode)
        ensures
            node.move_str == move_str,
            node.visits == 0,
            node.wins == 0,
            node.children@.len() == 0,
            node.unexpanded_moves == unexpanded_moves,
            node.player == player,
            node.depth == depth,
    {
        MCTSNode { move_str, visits: 0, wins: 0, children: Vec::new(), unexpanded_moves, player, depth }
    }
}

/// The visits of the nodes `kids`, added up.
pub open spec fn visit_sum(nodes: Seq<MCTSNode>, kids: Seq<usize>) -> nat
    decreases kids.len(),
{
    if kids.len() == 0 {
        0
    } else {
        visit_sum(nodes, kids.drop_last()) + nodes[kids.last() as int].visits as nat
    }
}

/// The nodes form a tree under node 0: every child comes later in the list
/// than its parent and lies one move deeper, no node is a child twice, and
/// no node has more visits than there were simulations.
pub open spec fn is_tree(nodes: Seq<MCTSNode>, simulations: nat) -> bool {
    &&& nodes.len() >= 1
    &&& nodes[0].depth == 0
    &&& forall|i: int, k: int|
        0 <= i < nodes.len() && 0 <= k < nodes[i].children@.len() ==> {
            let c = #[trigger] nodes[i].children@[k];
            i < c < nodes.len() && nodes[c as int].depth == nodes[i].depth + 1
        }
    &&& forall|i: int, j: int, k: int|
        0 <= i < nodes.len() && 0 <= j < k < nodes[i].children@.len() ==> #[trigger] nodes[i].children@[j]
            != #[trigger] nodes[i].children@[k]
    &&& forall|i: int|
        0 <= i < nodes.len() ==> (#[trigger] nodes[i]).visits <= simulations && nodes[i].wins <= WIN_SCORE
            * nodes[i].visits && nodes[i].depth <= i
}

/// `path` leads down the tree from the root, as far as the bookkeeping needs
/// to know: its first node is the root, its second is a child of the root,
/// and each of its nodes lies as many moves deep as its place in the path
/// says.
pub open spec fn is_descent(nodes: Seq<MCTSNode>, path: Seq<usize>) -> bool {
    &&& forall|t: int| 0 <= t < path.len() ==> (#[trigger] path[t]) < nodes.len() && nodes[path[t] as int].depth == t
    &&& path.len() > 0 ==> path[0] == 0
    &&& path.len() > 1 ==> nodes[0].children@.contains(path[1])
}

/// The sum stays as it is when no visit count of the nodes changes.
proof fn lemma_sum_same(before: Seq<MCTSNode>, after: Seq<MCTSNode>, kids: Seq<usize>)
    requires
        forall|k: int| 0 <= k < kids.len() ==> after[(#[trigger] kids[k]) as int].visits == before[kids[k] as
            int].visits,
    ensures
        visit_sum(after, kids) == visit_sum(before, kids),
    decreases kids.len(),
{
    if kids.len() > 0 {
        let rest = kids.drop_last();
        assert forall|k: int| 0 <= k < rest.len() implies after[(#[trigger] rest[k]) as int].visits == before[rest[k]
            as int].visits by {
            assert(rest[k] == kids[k]);
        }
        lemma_sum_same(before, after, rest);
        assert(kids.last() == kids[kids.len() - 1]);
    }
}

/// The sum grows by one when one of the nodes, each named once, gets one more
/// visit.
proof fn lemma_sum_bumped(before: Seq<MCTSNode>, after: Seq<MCTSNode>, kids: Seq<usize>, at: int)
    requires
        0 <= at < kids.len(),
        forall|j: int, k: int| 0 <= j < k < kids.len() ==> kids[j] != kids[k],
        after[kids[at] as int].visits == before[kids[at] as int].visits + 1,
        forall|k: int|
            0 <= k < kids.len() && k != at ==> after[(#[trigger] kids[k]) as int].visits == before[kids[k] as
                int].visits,
    ensures
        visit_sum(after, kids) == visit_sum(before, kids) + 1,
    decreases kids.len(),
{
    let rest = kids.drop_last();
    let last = kids.len() - 1;
    assert(kids.last() == kids[last]);
    assert forall|k: int| 0 <= k < rest.len() implies rest[k] == kids[k] by {}
    if at == last {
        assert forall|k: int| 0 <= k < rest.len() implies after[(#[trigger] rest[k]) as int].visits == before[rest[k]
            as int].visits by {
            assert(rest[k] == kids[k]);
        }
        lemma_sum_same(before, after, rest);
    } else {
        assert forall|k: int| 0 <= k < rest.len() && k != at implies after[(#[trigger] rest[k]) as int].visits
            == before[rest[k] as int].visits by {
            assert(rest[k] == kids[k]);
        }
        lemma_sum_bumped(before, after, rest, at);
    }
}

/// A search tree, with the count of the simulations that went into it.
pub struct SearchTree {
    nodes: Vec<MCTSNode>,
    simulations: usize,
    stopped_short: usize,
    won: usize,
    drawn: usize,
}

impl SearchTree {
    /// The nodes of the tree; node 0 is the root.
    pub closed spec fn nodes(&self) -> Seq<MCTSNode> {
        self.nodes@
    }

    /// How many simulations were completed.
    pub closed spec fn simulations(&self) -> nat {
        self.simulations as nat
    }

    /// How many simulations ended before they reached a child of the root:
    /// their path was the root alone.
    pub closed spec fn stopped_short(&self) -> nat {
        self.stopped_short as nat
    }

    /// The children of the root, by index.
    pub open spec fn root_children(&self) -> Seq<usize> {
        self.nodes()[0].children@
    }

    /// How many simulations the searching player won.
    pub closed spec fn won(&self) -> nat {
        self.won as nat
    }

    /// How many simulations nobody won.
    pub closed spec fn drawn(&self) -> nat {
        self.drawn as nat
    }

    /// The visits of the root's children, added up.
    pub open spec fn root_child_visits(&self) -> nat {
        visit_sum(self.nodes(), self.root_children())
    }

    /// The tree is well formed, and no simulation is lost or counted twice:
    /// each one went through exactly one child of the root unless it stopped
    /// at the root, and each one went through the root, where a win left
    /// the full score and a game without a winner half of it.
    pub open spec fn wf(&self) -> bool {
        &&& is_tree(self.nodes(), self.simulations())
        &&& self.root_child_visits() + self.stopped_short() == self.simulations()
        &&& self.nodes()[0].visits == self.simulations()
        &&& self.won() + self.drawn() <= self.simulations()
        &&& self.nodes()[0].wins == WIN_SCORE * self.won() + DRAW_SCORE * self.drawn()
    }

    /// A tree that is only a root, from which `moves` can be tried. `player`
    /// is the one who moved last.
    pub fn new(moves: Vec<String>, player: Player) -> (tree: SearchTree)
        ensures
            tree.wf(),
            tree.simulations() == 0,
            tree.stopped_short() == 0,
            tree.won() == 0,
            tree.drawn() == 0,
            tree.nodes().len() == 1,
            tree.nodes()[0].unexpanded_moves == moves,
            tree.nodes()[0].children@.len() == 0,
    {
        let mut nodes: Vec<MCTSNode> = Vec::new();
        nodes.push(MCTSNode::new("root".to_owned(), player, moves, 0));
        SearchTree { nodes, simulations: 0, stopped_short: 0, won: 0, drawn: 0 }
    }

    /// How many nodes the tree has.
    pub fn node_count(&self) -> (count: usize)
        ensures
            count == self.nodes().len(),
    {
        self.nodes.len()
    }

    /// The node at `index`.
    pub fn node(&self, index: usize) -> (node: &MCTSNode)
        requires
            index < self.nodes().len(),
        ensures
            *node == self.nodes()[index as int],
    {
        &self.nodes[index]
    }

    /// How many simulations were completed.
    pub fn simulation_count(&self) -> (count: usize)
        ensures
            count == self.simulations(),
    {
        self.simulations
    }

    /// How many simulations went through no child of the root.
    pub fn stopped_short_count(&self) -> (count: usize)
        ensures
            count == self.stopped_short(),
    {
        self.stopped_short
    }

    /// How many simulations the searching player won.
    pub fn won_count(&self) -> (count: usize)
        ensures
            count == self.won(),
    {
        self.won
    }

    /// How many simulations nobody won.
    pub fn drawn_count(&self) -> (count: usize)
        ensures
            count == self.drawn(),
    {
        self.drawn
    }

    /// Hangs a new node under `parent`, for the move `move_str` that is taken
    /// off the parent's untried moves at `index`, and returns the node's
    /// index.
    fn expand(&mut self, parent: usize, index: usize, player: Player, next_moves: Vec<String>) -> (child: usize)
        requires
            old(self).wf(),
            parent < old(self).nodes().len(),
            index < old(self).nodes()[parent as int].unexpanded_moves@.len(),
            old(self).nodes().len() < usize::MAX,
        ensures
            final(self).wf(),
            final(self).simulations() == old(self).simulations(),
            final(self).stopped_short() == old(self).stopped_short(),
            final(self).won() == old(self).won(),
            final(self).drawn() == old(self).drawn(),
            child == old(self).nodes().len(),
            final(self).nodes().len() == old(self).nodes().len() + 1,
            forall|i: int| 0 <= i < old(self).nodes().len() && i != parent ==> final(self).nodes()[i] ==
                old(self).nodes()[i],
            final(self).nodes()[parent as int].children@ == old(self).nodes()[parent as int].children@.push(child),
            final(self).nodes()[parent as int].unexpanded_moves@ == old(self).nodes()[parent as
                int].unexpanded_moves@.remove(
                index as int,
            ),
            final(self).nodes()[parent as int].depth == old(self).nodes()[parent as int].depth,
            final(self).nodes()[parent as int].visits == old(self).nodes()[parent as int].visits,
            final(self).nodes()[parent as int].move_str == old(self).nodes()[parent as int].move_str,
            final(self).nodes()[child as int].move_str == old(self).nodes()[parent as int].unexpanded_moves@[index as
                int],
            final(self).nodes()[child as int].depth == old(self).nodes()[parent as int].depth + 1,
            final(self).nodes()[child as int].visits == 0,
            final(self).nodes()[child as int].children@.len() == 0,
            final(self).nodes()[child as int].unexpanded_moves == next_moves,
            final(self).nodes()[child as int].player == player,
    {
        let ghost before = self.nodes@;
        let ghost kids = before[0].children@;
        let move_str = self.nodes[parent].unexpanded_moves.remove(index);
        let depth = self.nodes[parent].depth + 1;
        let child = self.nodes.len();
        self.nodes.push(MCTSNode::new(move_str, player, next_moves, depth));
        self.nodes[parent].children.push(child);
        proof {
            let after = self.nodes@;
            assert forall|i: int, k: int| 0 <= i < after.len() && 0 <= k < after[i].children@.len() implies {
                let c = #[trigger] after[i].children@[k];
                i < c < after.len() && after[c as int].depth == after[i].depth + 1
            } by {
                if i == parent {
                    if k < before[i].children@.len() {
                        assert(after[i].children@[k] == before[i].children@[k]);
                    }
                } else if i < before.len() {
                    assert(after[i].children@[k] == before[i].children@[k]);
                }
            }
            assert forall|i: int, j: int, k: int|
                0 <= i < after.len() && 0 <= j < k < after[i].children@.len() implies #[trigger] after[i].children@[j]
                != #[trigger] after[i].children@[k] by {
                if i == parent {
                    if k < before[i].children@.len() {
                        assert(before[i].children@[j] != before[i].children@[k]);
                    } else {
                        assert(before[i].children@[j] < before.len());
                    }
                } else if i < before.len() {
                    assert(before[i].children@[j] != before[i].children@[k]);
                }
            }
            if parent == 0 {
                assert(after[0].children@.drop_last() =~= kids);
                assert forall|k: int| 0 <= k < kids.len() implies after[(#[trigger] kids[k]) as int].visits
                    == before[kids[k] as int].visits by {
                    assert(kids[k] == before[0].children@[k]);
                }
                lemma_sum_same(before, after, kids);
            } else {
                assert forall|k: int| 0 <= k < kids.len() implies after[(#[trigger] kids[k]) as int].visits
                    == before[kids[k] as int].visits by {
                    assert(kids[k] == before[0].children@[k]);
                }
                lemma_sum_same(before, after, kids);
            }
        }
        child
    }

    /// Counts one simulation that went along `path` and added `score` to
    /// every node on it.
    fn record(&mut self, path: &Vec<usize>, score: u128)
        requires
            old(self).wf(),
            is_descent(old(self).nodes(), path@),
            path@.len() > 0,
            score == WIN_SCORE || score == DRAW_SCORE || score == 0,
            old(self).simulations() < usize::MAX,
        ensures
            final(self).wf(),
            final(self).simulations() == old(self).simulations() + 1,
            final(self).won() == old(self).won() + (if score == WIN_SCORE {
                1nat
            } else {
                0nat
            }),
            final(self).drawn() == old(self).drawn() + (if score == DRAW_SCORE {
                1nat
            } else {
                0nat
            }),
            final(self).stopped_short() == old(self).stopped_short() + (if path@.len() == 1 {
                1nat
            } else {
                0nat
            }),
            final(self).nodes().len() == old(self).nodes().len(),
            forall|i: int|
                0 <= i < old(self).nodes().len() ==> {
                    &&& (#[trigger] final(self).nodes()[i]).children == old(self).nodes()[i].children
                    &&& final(self).nodes()[i].unexpanded_moves == old(self).nodes()[i].unexpanded_moves
                    &&& final(self).nodes()[i].move_str == old(self).nodes()[i].move_str
                    &&& final(self).nodes()[i].depth == old(self).nodes()[i].depth
                    &&& final(self).nodes()[i].player == old(self).nodes()[i].player
                },
    {
        let ghost before = self.nodes@;
        let ghost kids = before[0].children@;
        let ghost sims = self.simulations as nat;
        let mut t: usize = 0;
        while t < path.len()
            invariant
                t <= path.len(),
                path@.len() > 0,
                score <= WIN_SCORE,
                sims == self.simulations,
                sims < usize::MAX,
                self.stopped_short == old(self).stopped_short,
                self.won == old(self).won,
                self.drawn == old(self).drawn,
                self.nodes@[0].wins == before[0].wins + (if t > 0 {
                    score as int
                } else {
                    0int
                }),
                is_descent(before, path@),
                is_tree(before, sims),
                self.nodes@.len() == before.len(),
                kids == before[0].children@,
                forall|i: int|
                    0 <= i < before.len() ==> {
                        &&& (#[trigger] self.nodes@[i]).children == before[i].children
                        &&& self.nodes@[i].unexpanded_moves == before[i].unexpanded_moves
                        &&& self.nodes@[i].move_str == before[i].move_str
                        &&& self.nodes@[i].depth == before[i].depth
                        &&& self.nodes@[i].player == before[i].player
                        &&& self.nodes@[i].visits <= sims + 1
                        &&& self.nodes@[i].wins <= WIN_SCORE * self.nodes@[i].visits
                    },
                forall|i: int|
                    0 <= i < before.len() && before[i].depth >= t ==> (#[trigger] self.nodes@[i]).visits ==
                        before[i].visits,
                self.nodes@[0].visits == before[0].visits + (if t > 0 {
                    1nat
                } else {
                    0nat
                }),
                visit_sum(self.nodes@, kids) == visit_sum(before, kids) + (if t > 1 {
                    1nat
                } else {
                    0nat
                }),
            decreases path.len() - t,
        {
            let at = path[t];
            let ghost now = self.nodes@;
            assert(now[at as int].visits == before[at as int].visits);
            assert(WIN_SCORE * (now[at as int].visits + 1) == WIN_SCORE * now[at as int].visits + WIN_SCORE) by
                (nonlinear_arith);
            assert(WIN_SCORE * now[at as int].visits <= 10 * usize::MAX) by (nonlinear_arith)
                requires
                    now[at as int].visits <= usize::MAX,
            ;
            self.nodes[at].visits = self.nodes[at].visits + 1;
            self.nodes[at].wins = self.nodes[at].wins + score;
            proof {
                let next = self.nodes@;
                if t == 1 {
                    let k = choose|k: int| 0 <= k < kids.len() && kids[k] == path[1];
                    assert forall|j: int| 0 <= j < kids.len() && j != k implies next[(#[trigger] kids[j]) as int].visits
                        == now[kids[j] as int].visits by {
                        if j < k {
                            assert(before[0].children@[j] != before[0].children@[k]);
                        } else {
                            assert(before[0].children@[k] != before[0].children@[j]);
                        }
                    }
                    assert forall|i: int, j: int| 0 <= i < j < kids.len() implies kids[i] != kids[j] by {
                        assert(before[0].children@[i] != before[0].children@[j]);
                    }
                    lemma_sum_bumped(now, next, kids, k);
                } else {
                    assert forall|j: int| 0 <= j < kids.len() implies next[(#[trigger] kids[j]) as int].visits
                        == now[kids[j] as int].visits by {
                        let c = before[0].children@[j];
                        assert(before[c as int].depth == 1);
                    }
                    lemma_sum_same(now, next, kids);
                }
            }
            t = t + 1;
        }
        self.simulations = self.simulations + 1;
        if path.len() == 1 {
            self.stopped_short = self.stopped_short + 1;
        }
        if score == WIN_SCORE {
            self.won = self.won + 1;
        } else if score == DRAW_SCORE {
            self.drawn = self.drawn + 1;
        }
    }
}


/// How many moves a simulated game lasts at most; a game that lasts longer
/// has no winner.
pub const SIMULATION_MOVES: usize = 200;

/// The player whose pawn stands on its goal row, if any; the first player
/// is looked at first.
pub open spec fn winner_of(pos: Position) -> Option<Player> {
    if pos.pawn1.0 == 0 {
        Some(Player::Player1)
    } else if pos.pawn2.0 + 1 == pos.size {
        Some(Player::Player2)
    } else {
        None
    }
}

/// Whether `text` is a pawn move by which the player to move in `pos`
/// closes in on its goal row: a move after which the pawn is as close to
/// the row as any pawn move brings it, and no farther than it is now; or
/// any pawn move, if every one of them takes the pawn farther away.
pub open spec fn is_closing_move(pos: Position, text: Seq<char>) -> bool {
    &&& pos.names_move(pos.active, text)
    &&& {
        ||| {
            &&& own_steps_after(pos, text) <= pos.steps_to_goal(pos.active)
            &&& forall|other: Seq<char>| #[trigger]
                pos.names_move(pos.active, other) ==> own_steps_after(pos, text) <= own_steps_after(pos, other)
        }
        ||| forall|other: Seq<char>| #[trigger]
            pos.names_move(pos.active, other) ==> own_steps_after(pos, other) > pos.steps_to_goal(pos.active)
    }
}

/// Trying a legal pawn move by `move_pawn` leaves the position that
/// playing it leaves.
proof fn lemma_pawn_move_tried(pos: Position, text: Seq<char>)
    requires
        pos.valid(),
        pos.names_move(pos.active, text),
    ensures
        parse_cell(pos.size, text) is Ok,
        pos.pawn_outcome(parse_cell(pos.size, text)->Ok_0, true, text) == pos.played(text, false),
{
    lemma_names_legal(pos, text);
    lemma_legal_move_played(pos, text, false);
    let cell = choose|cell: Coord|
        #[trigger] pos.legal_destination(pos.active, cell) && text == cell_text(pos.size, cell) && pos.played(
            text,
            false,
        ) == pos.after_pawn_move(cell, text);
    lemma_legal_on_board(pos, pos.active, cell);
    lemma_cell_round_trip(pos.size, cell);
}

/// The pawn moves by which the active player closes in on its goal row:
/// those of `moves` after which the pawn is closest to the row, as long as
/// that is no farther than it is now; all of `moves` if every move takes
/// the pawn farther away.
fn closing_moves(game: &Quoridor, moves: &Vec<String>) -> (best: Vec<String>)
    requires
        game.wf(),
        moves.len() > 0,
        forall|text: Seq<char>| listed(moves@, text) <==> game@.names_move(game@.active, text),
    ensures
        best.len() > 0,
        forall|text: Seq<char>| listed(best@, text) <==> is_closing_move(game@, text),
{
    let ghost pos = game@;
    let player = game.active_player();
    let mut best: Vec<String> = Vec::new();
    let mut best_distance = game.distance_to_goal(player);
    let ghost now = best_distance;
    let mut i: usize = 0;
    while i < moves.len()
        invariant
            i <= moves.len(),
            game.wf(),
            pos == game@,
            player == pos.active,
            now == pos.steps_to_goal(pos.active),
            forall|text: Seq<char>| listed(moves@, text) <==> pos.names_move(pos.active, text),
            best_distance <= now,
            best.len() == 0 ==> best_distance == now,
            forall|j: int| 0 <= j < i ==> own_steps_after(pos, (#[trigger] moves[j])@) >= best_distance,
            forall|j: int|
                0 <= j < i && own_steps_after(pos, (#[trigger] moves[j])@) == best_distance ==> listed(
                    best@,
                    moves[j]@,
                ),
            forall|k: int|
                0 <= k < best.len() ==> listed(moves@, (#[trigger] best[k])@) && own_steps_after(pos, best[k]@)
                    == best_distance,
        decreases moves.len() - i,
    {
        let text = pick(moves, i);
        proof {
            lemma_pawn_move_tried(pos, text@);
        }
        let mut trial = game.clone();
        let _ = trial.move_pawn(text.as_str(), true);
        let distance = trial.distance_to_goal(player);
        assert(distance == own_steps_after(pos, text@));
        let ghost before = best@;
        if distance < best_distance {
            best = Vec::new();
            best.push(text);
            best_distance = distance;
            assert(best[0]@ == moves[i as int]@);
        } else if distance == best_distance {
            best.push(text);
            proof {
                assert(best[before.len() as int]@ == moves[i as int]@);
                assert forall|j: int|
                    0 <= j < i && own_steps_after(pos, (#[trigger] moves[j])@) == best_distance implies listed(
                    best@,
                    moves[j]@,
                ) by {
                    let k = choose|k: int| 0 <= k < before.len() && (#[trigger] before[k])@ == moves[j]@;
                    assert(best[k] == before[k]);
                }
                assert forall|k: int| 0 <= k < best.len() implies listed(moves@, (#[trigger] best[k])@)
                    && own_steps_after(pos, best[k]@) == best_distance by {
                    if k < before.len() {
                        assert(best[k] == before[k]);
                    }
                }
            }
        }
        i = i + 1;
    }
    if best.len() == 0 {
        let mut all: Vec<String> = Vec::new();
        let mut k: usize = 0;
        while k < moves.len()
            invariant
                k <= moves.len(),
                all.len() == k,
                forall|j: int| 0 <= j < k ==> (#[trigger] all[j])@ == moves[j]@,
            decreases moves.len() - k,
        {
            all.push(pick(moves, k));
            k = k + 1;
        }
        proof {
            assert forall|other: Seq<char>| #[trigger] pos.names_move(pos.active, other) implies own_steps_after(
                pos,
                other,
            ) > now by {
                assert(listed(moves@, other));
                let j = choose|j: int| 0 <= j < moves.len() && (#[trigger] moves[j])@ == other;
                assert(own_steps_after(pos, moves[j]@) >= best_distance);
                if own_steps_after(pos, moves[j]@) == best_distance {
                    assert(listed(best@, moves[j]@));
                }
            }
            assert forall|text: Seq<char>| listed(all@, text) <==> is_closing_move(pos, text) by {
                if listed(all@, text) {
                    let j = choose|j: int| 0 <= j < all.len() && (#[trigger] all[j])@ == text;
                    assert(moves[j]@ == text);
                    assert(listed(moves@, text));
                }
                if is_closing_move(pos, text) {
                    assert(listed(moves@, text));
                    let j = choose|j: int| 0 <= j < moves.len() && (#[trigger] moves[j])@ == text;
                    assert(all[j]@ == text);
                }
            }
        }
        return all;
    }
    proof {
        let least = best[0]@;
        assert(listed(moves@, least) && own_steps_after(pos, least) == best_distance);
        assert forall|text: Seq<char>| listed(best@, text) <==> is_closing_move(pos, text) by {
            if listed(best@, text) {
                let k = choose|k: int| 0 <= k < best.len() && (#[trigger] best[k])@ == text;
                assert(listed(moves@, best[k]@));
                assert forall|other: Seq<char>| #[trigger] pos.names_move(pos.active, other) implies own_steps_after(
                    pos,
                    text,
                ) <= own_steps_after(pos, other) by {
                    assert(listed(moves@, other));
                    let j = choose|j: int| 0 <= j < moves.len() && (#[trigger] moves[j])@ == other;
                    assert(own_steps_after(pos, moves[j]@) >= best_distance);
                }
            }
            if is_closing_move(pos, text) {
                assert(listed(moves@, text));
                let j = choose|j: int| 0 <= j < moves.len() && (#[trigger] moves[j])@ == text;
                assert(own_steps_after(pos, moves[j]@) >= best_distance);
                assert(pos.names_move(pos.active, least));
                assert(own_steps_after(pos, text) == best_distance);
                assert(listed(best@, moves[j]@));
            }
        }
    }
    best
}

/// Whether the player to move in `pos` races for its goal row: it is no
/// farther from it than the opponent is from its own, or it has no wall
/// left.
pub open spec fn races(pos: Position) -> bool {
    pos.steps_to_goal(pos.active) <= pos.steps_to_goal(pos.active.other()) || pos.stock(pos.active) == 0
}

/// Whether the player to move in `pos` is stuck: it races and has no pawn
/// move, or it does not race and has no legal move at all.
pub open spec fn stuck(pos: Position) -> bool {
    if races(pos) {
        forall|text: Seq<char>| !pos.names_move(pos.active, text)
    } else {
        forall|text: Seq<char>| !pos.names_legal(text)
    }
}

/// Whether the moves of `line` can be made in turn from `start` in a
/// simulated game: where each is made no pawn stands on its goal row, and
/// the move is a legal one, a pawn move that closes in on the goal row if
/// the player to move races.
pub open spec fn is_playout(start: Position, line: Seq<Seq<char>>) -> bool
    decreases line.len(),
{
    line.len() == 0 || {
        let before = position_after(start, line.drop_last());
        &&& is_playout(start, line.drop_last())
        &&& winner_of(before) is None
        &&& before.names_legal(line.last())
        &&& races(before) ==> is_closing_move(before, line.last())
    }
}

/// Whether the simulated game that `line` records, from `start` to `last`,
/// ended with `winner`. A simulated game lasts `SIMULATION_MOVES` moves at
/// most. A winner stands on its goal row in the last position. There is no
/// winner when all the moves were made, or when no pawn stands on its goal
/// row and the player to move is stuck.
pub open spec fn is_simulation(
    start: Position,
    line: Seq<Seq<char>>,
    last: Position,
    winner: Option<Player>,
) -> bool {
    &&& is_playout(start, line)
    &&& last == position_after(start, line)
    &&& line.len() <= SIMULATION_MOVES
    &&& match winner {
        Some(_) => winner == winner_of(last),
        None => line.len() == SIMULATION_MOVES || (winner_of(last) is None && stuck(last)),
    }
}

/// Plays `game` on until a pawn stands on its goal row, a player has no
/// move, or `SIMULATION_MOVES` moves were made, and says who won.
///
/// A player that is no farther from its goal row than the opponent, or that
/// has no wall left, makes one of the pawn moves that bring it closest to
/// its goal row; any other player makes a legal move chosen at random.
pub fn simulate_game(game: &mut Quoridor) -> (winner: Option<Player>)
    requires
        old(game).wf(),
    ensures
        final(game).wf(),
        final(game)@.size == old(game)@.size,
        winner is Some ==> winner == winner_of(final(game)@),
        winner_of(old(game)@) is Some ==> winner == winner_of(old(game)@) && final(game)@ == old(game)@,
        old(game)@.both_reach_goal() ==> final(game)@.both_reach_goal(),
        exists|line: Seq<Seq<char>>| #[trigger] is_simulation(old(game)@, line, final(game)@, winner),
{
    let ghost start = game@;
    let ghost line = Seq::<Seq<char>>::empty();
    let mut rng = thread_rng();
    let mut count: usize = 0;
    while count < SIMULATION_MOVES
        invariant
            count <= SIMULATION_MOVES,
            game.wf(),
            start == old(game)@,
            game@.size == start.size,
            count == 0 ==> game@ == start,
            count > 0 ==> winner_of(start) is None,
            start.both_reach_goal() ==> game@.both_reach_goal(),
            line.len() == count,
            is_playout(start, line),
            game@ == position_after(start, line),
        decreases SIMULATION_MOVES - count,
    {
        if game.pawn_position(Player::Player1).0 == 0 {
            assert(is_simulation(start, line, game@, Some(Player::Player1)));
            return Some(Player::Player1);
        }
        if game.pawn_position(Player::Player2).0 == game.size() - 1 {
            assert(is_simulation(start, line, game@, Some(Player::Player2)));
            return Some(Player::Player2);
        }
        let player = game.active_player();
        let rival = player.opponent();
        let own = game.distance_to_goal(player);
        let other = game.distance_to_goal(rival);
        let ghost before = game@;
        assert(winner_of(before) is None);
        let text = if own <= other || game.walls_available(player) == 0 {
            assert(races(before));
            let pawn_moves = game.get_legal_moves(player);
            if pawn_moves.len() == 0 {
                proof {
                    assert forall|text: Seq<char>| !before.names_move(before.active, text) by {
                        if before.names_move(before.active, text) {
                            assert(listed(pawn_moves@, text));
                        }
                    }
                    assert(is_simulation(start, line, before, None));
                }
                return None;
            }
            let best = closing_moves(game, &pawn_moves);
            let text = pick(&best, random_index(&mut rng, best.len()));
            proof {
                assert(is_closing_move(before, text@));
                lemma_names_legal(before, text@);
            }
            text
        } else {
            assert(!races(before));
            let moves = game.get_all_legal_moves();
            if moves.len() == 0 {
                proof {
                    assert forall|text: Seq<char>| !before.names_legal(text) by {
                        if before.names_legal(text) {
                            assert(listed(moves@, text));
                        }
                    }
                    assert(is_simulation(start, line, before, None));
                }
                return None;
            }
            pick(&moves, random_index(&mut rng, moves.len()))
        };
        proof {
            lemma_legal_move_played(before, text@, true);
        }
        let _ = game.play(text.as_str(), true);
        proof {
            assert(line.push(text@).drop_last() =~= line);
            line = line.push(text@);
        }
        count = count + 1;
    }
    assert(is_simulation(start, line, game@, None));
    None
}

/// What a child of a node brought so far: its visits and its score.
pub type ChildStats = (usize, u128);

/// What is told of the children of a node to the selection rule.
fn stats_of(tree: &SearchTree, at: usize) -> (stats: Vec<ChildStats>)
    requires
        tree.wf(),
        at < tree.nodes().len(),
    ensures
        stats.len() == tree.nodes()[at as int].children@.len(),
        forall|k: int|
            0 <= k < stats.len() ==> (#[trigger] stats[k]) == (
                tree.nodes()[tree.nodes()[at as int].children@[k] as int].visits,
                tree.nodes()[tree.nodes()[at as int].children@[k] as int].wins,
            ),
{
    let node = tree.node(at);
    let mut stats: Vec<ChildStats> = Vec::new();
    let mut k: usize = 0;
    while k < node.children.len()
        invariant
            k <= node.children.len(),
            tree.wf(),
            at < tree.nodes().len(),
            *node == tree.nodes()[at as int],
            stats.len() == k,
            forall|j: int|
                0 <= j < k ==> (#[trigger] stats[j]) == (
                    tree.nodes()[node.children@[j] as int].visits,
                    tree.nodes()[node.children@[j] as int].wins,
                ),
        decreases node.children.len() - k,
    {
        let c = node.children[k];
        assert(c == tree.nodes()[at as int].children@[k as int]);
        let child = tree.node(c);
        stats.push((child.visits, child.wins));
        k = k + 1;
    }
    stats
}

/// Walks down the tree from the root to a node from which a move has not
/// been tried, or to a node without moves, making the moves on `game` along
/// the way. Returns the nodes walked through and the node reached; a node
/// without moves is reached but not walked through.
fn descend<S: Fn(usize, Vec<ChildStats>) -> usize>(
    tree: &SearchTree,
    game: &mut Quoridor,
    select: &S,
) -> (walk: (Vec<usize>, usize))
    requires
        tree.wf(),
        old(game).wf(),
        tree.nodes()[0].unexpanded_moves@.len() + tree.nodes()[0].children@.len() > 0,
        forall|v: usize, stats: Vec<ChildStats>| #[trigger] select.requires((v, stats)),
    ensures
        final(game).wf(),
        final(game)@.size == old(game)@.size,
        is_descent(tree.nodes(), walk.0@),
        walk.0@.len() > 0,
        walk.1 < tree.nodes().len(),
        tree.nodes()[walk.1 as int].unexpanded_moves@.len() > 0 ==> walk.0@[walk.0@.len() - 1] == walk.1,
        tree.nodes()[0].unexpanded_moves@.len() > 0 ==> walk.1 == 0,
{
    let ghost nodes = tree.nodes();
    let ghost size = game@.size;
    let mut path: Vec<usize> = Vec::new();
    let mut cur: usize = 0;
    loop
        invariant_except_break
            nodes[cur as int].depth == path@.len(),
            cur == 0 <==> path@.len() == 0,
            path@.len() == 1 ==> nodes[0].children@.contains(cur),
            path@.len() > 0 ==> nodes[0].unexpanded_moves@.len() == 0,
        invariant
            tree.wf(),
            nodes == tree.nodes(),
            game.wf(),
            game@.size == size,
            cur < nodes.len(),
            is_descent(nodes, path@),
            nodes[0].unexpanded_moves@.len() + nodes[0].children@.len() > 0,
            forall|v: usize, stats: Vec<ChildStats>| #[trigger] select.requires((v, stats)),
        ensures
            game.wf(),
            game@.size == size,
            is_descent(nodes, path@),
            path@.len() > 0,
            cur < nodes.len(),
            nodes[cur as int].unexpanded_moves@.len() > 0 ==> path@[path@.len() - 1] == cur,
            nodes[0].unexpanded_moves@.len() > 0 ==> cur == 0,
        decreases nodes.len() - cur,
    {
        let node = tree.node(cur);
        if node.unexpanded_moves.len() == 0 && node.children.len() == 0 {
            break;
        }
        let ghost before = path@;
        path.push(cur);
        proof {
            assert forall|t: int| 0 <= t < path@.len() implies (#[trigger] path@[t]) < nodes.len() && nodes[path@[t]
                as int].depth
                == t by {
                if t < before.len() {
                    assert(path@[t] == before[t]);
                }
            }
            if before.len() > 0 {
                assert(path@[0] == before[0]);
            }
            if before.len() > 1 {
                assert(path@[1] == before[1]);
            }
        }
        if node.unexpanded_moves.len() > 0 {
            break;
        }
        let stats = stats_of(tree, cur);
        let asked = select(node.visits, stats);
        let k = if asked < node.children.len() { asked } else { 0 };
        let next = node.children[k];
        assert(next == nodes[cur as int].children@[k as int]);
        cur = next;
        let _ = game.play(tree.node(cur).move_str.as_str(), true);
    }
    (path, cur)
}

/// Grows a search tree for the player to move in `game` by up to `limit`
/// simulations, and by fewer if `time_limit`, in milliseconds, runs out
/// first. `moves` are the moves that the search chooses among.
///
/// Every simulation walks down the tree, tries one new move if the node it
/// reaches has one, plays the game out, and adds the outcome to every node
/// it walked through: the full score if the searching player won, half of
/// it if nobody did.
pub fn search<S: Fn(usize, Vec<ChildStats>) -> usize>(
    game: &Quoridor,
    moves: Vec<String>,
    limit: usize,
    time_limit: Option<u64>,
    select: &S,
) -> (tree: SearchTree)
    requires
        game.wf(),
        moves.len() > 0,
        forall|v: usize, stats: Vec<ChildStats>| #[trigger] select.requires((v, stats)),
    ensures
        tree.wf(),
        tree.simulations() <= limit,
        time_limit is None ==> tree.simulations() == limit,
        tree.simulations() > 0 ==> tree.root_children().len() > 0,
        forall|k: int|
            0 <= k < tree.root_children().len() ==> listed(
                moves@,
                tree.nodes()[(#[trigger] tree.root_children()[k]) as int].move_str@,
            ),
{
    let searcher = game.active_player();
    let mut rng = thread_rng();
    let start = now();
    let ghost all = moves@;
    let mut tree = SearchTree::new(moves, searcher.opponent());
    proof {
        assert forall|j: int| 0 <= j < tree.nodes()[0].unexpanded_moves@.len() implies listed(
            all,
            (#[trigger] tree.nodes()[0].unexpanded_moves@[j])@,
        ) by {}
    }
    let mut count: usize = 0;
    while count < limit
        invariant
            count <= limit,
            game.wf(),
            tree.wf(),
            tree.simulations() == count,
            count > 0 ==> tree.root_children().len() > 0,
            tree.root_children().len() == 0 ==> tree.nodes().len() == 1,
            tree.nodes()[0].unexpanded_moves@.len() + tree.root_children().len() > 0,
            forall|j: int|
                0 <= j < tree.nodes()[0].unexpanded_moves@.len() ==> listed(
                    all,
                    (#[trigger] tree.nodes()[0].unexpanded_moves@[j])@,
                ),
            forall|k: int|
                0 <= k < tree.root_children().len() ==> listed(
                    all,
                    tree.nodes()[(#[trigger] tree.root_children()[k]) as int].move_str@,
                ),
            forall|v: usize, stats: Vec<ChildStats>| #[trigger] select.requires((v, stats)),
        ensures
            tree.wf(),
            tree.simulations() <= limit,
            time_limit is None ==> tree.simulations() == limit,
            tree.simulations() > 0 ==> tree.root_children().len() > 0,
            forall|k: int|
                0 <= k < tree.root_children().len() ==> listed(
                    all,
                    tree.nodes()[(#[trigger] tree.root_children()[k]) as int].move_str@,
                ),
        decreases limit - count,
    {
        if let Some(millis) = time_limit {
            let spent = elapsed(&start);
            if as_millis(&spent) > millis as u128 {
                break;
            }
        }
        let mut playout = game.clone();
        let (mut path, reached) = descend(&tree, &mut playout, select);
        let ghost before = tree.nodes();
        if tree.node(reached).unexpanded_moves.len() > 0 && tree.node_count() < usize::MAX {
            let index = random_index(&mut rng, tree.node(reached).unexpanded_moves.len());
            let mover = playout.active_player();
            let _ = playout.play(tree.node(reached).unexpanded_moves[index].as_str(), true);
            let next_moves = playout.get_all_legal_moves();
            let child = tree.expand(reached, index, mover, next_moves);
            let ghost walked = path@;
            path.push(child);
            proof {
                let nodes = tree.nodes();
                assert forall|t: int| 0 <= t < path@.len() implies (#[trigger] path@[t]) < nodes.len() &&
                    nodes[path@[t] as int].depth
                    == t by {
                    if t < walked.len() {
                        assert(path@[t] == walked[t]);
                        assert(nodes[walked[t] as int].depth == before[walked[t] as int].depth);
                    }
                }
                assert(path@[0] == walked[0]);
                if walked.len() > 1 {
                    assert(path@[1] == walked[1]);
                    let k = choose|k: int| 0 <= k < before[0].children@.len() && before[0].children@[k] == walked[1];
                    assert(nodes[0].children@[k] == walked[1]);
                } else {
                    assert(nodes[0].children@[nodes[0].children@.len() - 1] == child);
                }
                assert forall|j: int| 0 <= j < nodes[0].unexpanded_moves@.len() implies listed(
                    all,
                    (#[trigger] nodes[0].unexpanded_moves@[j])@,
                ) by {
                    if reached == 0 {
                        let old_j = if j < index { j } else { j + 1 };
                        assert(nodes[0].unexpanded_moves@[j] == before[0].unexpanded_moves@[old_j]);
                        assert(listed(all, before[0].unexpanded_moves@[old_j]@));
                    } else {
                        assert(listed(all, before[0].unexpanded_moves@[j]@));
                    }
                }
                assert forall|k: int| 0 <= k < nodes[0].children@.len() implies listed(
                    all,
                    nodes[(#[trigger] nodes[0].children@[k]) as int].move_str@,
                ) by {
                    if reached == 0 && k == before[0].children@.len() {
                        assert(listed(all, before[0].unexpanded_moves@[index as int]@));
                    } else {
                        assert(nodes[0].children@[k] == before[0].children@[k]);
                        let c = before[0].children@[k];
                        assert(listed(all, before[c as int].move_str@));
                    }
                }
            }
        }
        let winner = simulate_game(&mut playout);
        let score = match winner {
            Some(player) => if player == searcher {
                WIN_SCORE
            } else {
                0
            },
            None => DRAW_SCORE,
        };
        tree.record(&path, score);
        count = count + 1;
    }
    tree
}


impl SearchTree {
    /// How many simulations went through the child of the root at `place`.
    pub open spec fn root_child_visits_at(&self, place: int) -> usize {
        self.nodes()[self.root_children()[place] as int].visits
    }

    /// The child of the root at `place` is the first among the root's
    /// children that no other has more visits than.
    pub open spec fn is_most_visited(&self, place: int) -> bool {
        &&& 0 <= place < self.root_children().len()
        &&& forall|k: int|
            0 <= k < self.root_children().len() ==> #[trigger] self.root_child_visits_at(k)
                <= self.root_child_visits_at(place)
        &&& forall|k: int| 0 <= k < place ==> #[trigger] self.root_child_visits_at(k) < self.root_child_visits_at(place)
    }

    /// The child of the root that most simulations went through; the first
    /// of them if several did. Its place among the root's children is
    /// returned.
    pub fn best_child(&self) -> (place: usize)
        requires
            self.wf(),
            self.root_children().len() > 0,
        ensures
            self.is_most_visited(place as int),
    {
        let root = self.node(0);
        let mut place: usize = 0;
        let mut most: usize = 0;
        let mut k: usize = 0;
        while k < root.children.len()
            invariant
                k <= root.children.len(),
                self.wf(),
                *root == self.nodes()[0],
                root.children@.len() > 0,
                place < root.children@.len(),
                k == 0 ==> most == 0 && place == 0,
                k > 0 ==> place < k && most == self.root_child_visits_at(place as int),
                forall|j: int| 0 <= j < k ==> #[trigger] self.root_child_visits_at(j) <= most,
                forall|j: int| 0 <= j < place ==> #[trigger] self.root_child_visits_at(j) < most,
            decreases root.children.len() - k,
        {
            let c = root.children[k];
            assert(c == self.root_children()[k as int]);
            let visits = self.node(c).visits;
            if visits > most {
                most = visits;
                place = k;
            }
            k = k + 1;
        }
        place
    }

    /// The move that the search likes best: the move of the most visited
    /// child of the root, or nothing if no move was tried.
    pub fn favourite(&self) -> (chosen: Option<String>)
        requires
            self.wf(),
        ensures
            chosen is None <==> self.root_children().len() == 0,
            chosen is Some ==> exists|place: int|
                #[trigger] self.is_most_visited(place) && chosen->0@ == self.nodes()[self.root_children()[place] as int]
                    .move_str@,
    {
        if self.node(0).children.len() == 0 {
            None
        } else {
            let place = self.best_child();
            let c = self.node(0).children[place];
            assert(c == self.root_children()[place as int]);
            Some(self.node(c).move_str.clone())
        }
    }
}

/// What the tree-searching player answers: a legal move, and nothing only
/// when there is no legal move.
pub open spec fn is_searched_choice(pos: Position, chosen: Option<Seq<char>>) -> bool {
    match chosen {
        None => forall|text: Seq<char>| !pos.names_legal(text),
        Some(text) => pos.names_legal(text),
    }
}

/// Whether the player to move in `pos` has more than one legal move.
pub open spec fn has_choice(pos: Position) -> bool {
    exists|a: Seq<char>, b: Seq<char>| a != b && #[trigger] pos.names_legal(a) && #[trigger] pos.names_legal(b)
}

/// Whether `chosen` answers the search that left `tree`, a search in `pos`
/// of `limit` simulations at most: the tree counts every simulation once,
/// all `limit` of them unless the search was given a time to stop at; a
/// search that simulated at all has tried a move; the moves that it tried
/// first are legal ones; and the answer is the move of the most visited
/// child of the root, or some legal move if the search tried none.
pub open spec fn answers_search(
    pos: Position,
    tree: SearchTree,
    limit: nat,
    time_limit: Option<u64>,
    chosen: Option<Seq<char>>,
) -> bool {
    &&& tree.wf()
    &&& tree.simulations() <= limit
    &&& time_limit is None ==> tree.simulations() == limit
    &&& tree.simulations() > 0 ==> tree.root_children().len() > 0
    &&& forall|k: int|
        0 <= k < tree.root_children().len() ==> pos.names_legal(
            tree.nodes()[(#[trigger] tree.root_children()[k]) as int].move_str@,
        )
    &&& chosen is Some
    &&& pos.names_legal(chosen->0)
    &&& tree.root_children().len() > 0 ==> exists|place: int|
        #[trigger] tree.is_most_visited(place) && chosen->0 == tree.nodes()[tree.root_children()[place] as int]
            .move_str@
}

/// The tree-searching policy, with the tree that its search left: the only
/// legal move if there is but one, and then no search is made; otherwise
/// the move that most simulations of a search went through, or a move
/// chosen at random if the search tried none.
pub fn search_for_move<S: Fn(usize, Vec<ChildStats>) -> usize>(
    game: &Quoridor,
    limit: usize,
    time_limit: Option<u64>,
    select: &S,
) -> (answer: (Option<String>, Option<SearchTree>))
    requires
        game.wf(),
        forall|v: usize, stats: Vec<ChildStats>| #[trigger] select.requires((v, stats)),
    ensures
        is_searched_choice(game@, text_of(answer.0)),
        has_choice(game@) ==> answer.1 is Some,
        answer.1 is Some ==> answers_search(game@, answer.1->0, limit as nat, time_limit, text_of(answer.0)),
{
    let moves = game.get_all_legal_moves();
    if moves.len() == 0 {
        proof {
            assert forall|text: Seq<char>| !game@.names_legal(text) by {
                if game@.names_legal(text) {
                    assert(listed(moves@, text));
                }
            }
        }
        return (None, None);
    }
    if moves.len() == 1 {
        proof {
            assert forall|a: Seq<char>, b: Seq<char>|
                #[trigger] game@.names_legal(a) && #[trigger] game@.names_legal(b) implies a == b by {
                assert(listed(moves@, a) && listed(moves@, b));
            }
        }
        return (Some(pick(&moves, 0)), None);
    }
    let mut rng = thread_rng();
    let fallback = pick(&moves, random_index(&mut rng, moves.len()));
    let ghost all = moves@;
    let tree = search(game, moves, limit, time_limit, select);
    let chosen = match tree.favourite() {
        Some(text) => Some(text),
        None => Some(fallback),
    };
    proof {
        assert forall|k: int| 0 <= k < tree.root_children().len() implies game@.names_legal(
            tree.nodes()[(#[trigger] tree.root_children()[k]) as int].move_str@,
        ) by {
            assert(listed(all, tree.nodes()[tree.root_children()[k] as int].move_str@));
        }
        assert(answers_search(game@, tree, limit as nat, time_limit, text_of(chosen)));
    }
    (chosen, Some(tree))
}

/// The tree-searching policy: the answer of `search_for_move`, which
/// states how the answer follows from the tree that the search left.
pub fn run_mcts<S: Fn(usize, Vec<ChildStats>) -> usize>(
    game: &Quoridor,
    limit: usize,
    time_limit: Option<u64>,
    select: &S,
) -> (chosen: Option<String>)
    requires
        game.wf(),
        forall|v: usize, stats: Vec<ChildStats>| #[trigger] select.requires((v, stats)),
    ensures
        is_searched_choice(game@, text_of(chosen)),
{
    search_for_move(game, limit, time_limit, select).0
}

/// Plays a scripted opening, then the move that a Monte-Carlo tree search
/// likes best. `S` is the selection rule: told the visits of a node and the
/// visits and scores of its children, it names the child to descend into by
/// its place among them. A place that is out of range counts as the first.
pub struct MCTSStrategy<S: Fn(usize, Vec<ChildStats>) -> usize> {
    opening_moves: Vec<String>,
    move_counter: usize,
    simulation_limit: usize,
    time_limit: Option<u64>,
    select: S,
}

impl<S: Fn(usize, Vec<ChildStats>) -> usize> MCTSStrategy<S> {
    /// The scripted opening moves, in the order they are to be played.
    pub closed spec fn book(&self) -> Seq<Seq<char>> {
        texts(self.opening_moves@)
    }

    /// How many scripted moves have been used up.
    pub closed spec fn used(&self) -> nat {
        self.move_counter as nat
    }

    /// How many simulations a search runs at most.
    pub closed spec fn simulations(&self) -> nat {
        self.simulation_limit as nat
    }

    /// After how many milliseconds a search stops, if it stops after a time.
    pub closed spec fn time_limit(&self) -> Option<u64> {
        self.time_limit
    }

    /// The selection rule answers whatever it is asked.
    pub closed spec fn selects_for_any_node(&self) -> bool {
        forall|v: usize, stats: Vec<ChildStats>| #[trigger] self.select.requires((v, stats))
    }

    /// The scripted move that is played in `pos`: the next one of the book,
    /// if there is one left and the rules allow it.
    pub open spec fn scripted(&self, pos: Position) -> Option<Seq<char>> {
        if self.used() < self.book().len() && pos.names_legal(self.book()[self.used() as int]) {
            Some(self.book()[self.used() as int])
        } else {
            None
        }
    }

    /// A player whose searches run `simulation_limit` simulations.
    pub fn new(opening_name: &str, opening_moves: Vec<String>, simulation_limit: usize, select: S) -> (strategy: Self)
        requires
            forall|v: usize, stats: Vec<ChildStats>| #[trigger] select.requires((v, stats)),
        ensures
            strategy.ready(),
            strategy.selects_for_any_node(),
            strategy.book() == texts(opening_moves@),
            strategy.used() == 0,
            strategy.simulations() == simulation_limit,
            strategy.time_limit() is None,
    {
        MCTSStrategy { opening_moves, move_counter: 0, simulation_limit, time_limit: None, select }
    }

    /// The same player, whose searches also stop after `millis`
    /// milliseconds.
    pub fn with_time_limit(self, millis: u64) -> (strategy: Self)
        ensures
            self.ready() ==> strategy.ready(),
            self.selects_for_any_node() ==> strategy.selects_for_any_node(),
            strategy.book() == self.book(),
            strategy.used() == self.used(),
            strategy.simulations() == self.simulations(),
            strategy.time_limit() == Some(millis),
    {
        let mut strategy = self;
        strategy.time_limit = Some(millis);
        strategy
    }

    /// The player's answer with the tree that its search left: the scripted
    /// move if one is due and legal, and then no search is made; otherwise
    /// what `search_for_move` answers within this player's limits. A
    /// scripted move is used up whether it is played or not.
    pub fn choose_with_tree(&mut self, game: &Quoridor) -> (answer: (Option<String>, Option<SearchTree>))
        requires
            old(self).selects_for_any_node(),
            game.wf(),
        ensures
            final(self).selects_for_any_node(),
            final(self).simulations() == old(self).simulations(),
            final(self).time_limit() == old(self).time_limit(),
            final(self).book() == old(self).book(),
            final(self).used() == (if old(self).used() < old(self).book().len() {
                old(self).used() + 1
            } else {
                old(self).used()
            }),
            match old(self).scripted(game@) {
                Some(text) => text_of(answer.0) == Some(text) && answer.1 is None,
                None => {
                    &&& is_searched_choice(game@, text_of(answer.0))
                    &&& has_choice(game@) ==> answer.1 is Some
                    &&& answer.1 is Some ==> answers_search(
                        game@,
                        answer.1->0,
                        old(self).simulations(),
                        old(self).time_limit(),
                        text_of(answer.0),
                    )
                },
            },
    {
        if self.move_counter < self.opening_moves.len() {
            let move_str = self.opening_moves[self.move_counter].clone();
            self.move_counter = self.move_counter + 1;
            let legal = game.get_all_legal_moves();
            if is_listed(&legal, move_str.as_str()) {
                return (Some(move_str), None);
            }
        }
        search_for_move(game, self.simulation_limit, self.time_limit, &self.select)
    }
}

impl<S: Fn(usize, Vec<ChildStats>) -> usize> Strategy for MCTSStrategy<S> {
    open spec fn ready(&self) -> bool {
        self.selects_for_any_node()
    }

    /// `MCTS-` followed by the number of simulations.
    open spec fn title(&self) -> Seq<char> {
        "MCTS-"@ + decimal(self.simulations())
    }

    /// `MCTS-` followed by the number of simulations.
    fn name(&self) -> (text: String) {
        let mut text = "MCTS-".to_owned();
        text.append(write_number(self.simulation_limit).as_str());
        text
    }

    /// The answer of `choose_with_tree`, which states how the answer
    /// follows from the tree that the search left.
    fn choose_move(&mut self, game: &Quoridor) -> (chosen: Option<String>)
        ensures
            final(self).book() == old(self).book(),
            final(self).used() == (if old(self).used() < old(self).book().len() {
                old(self).used() + 1
            } else {
                old(self).used()
            }),
            match old(self).scripted(game@) {
                Some(text) => text_of(chosen) == Some(text),
                None => is_searched_choice(game@, text_of(chosen)),
            },
    {
        let chosen = self.choose_with_tree(game).0;
        proof {
            if chosen is None {
                assert forall|text: Seq<char>| !game@.names_move(game@.active, text) by {
                    lemma_names_legal(game@, text);
                    assert(!game@.names_legal(text));
                }
            }
        }
        chosen
    }
}

} // verus!
