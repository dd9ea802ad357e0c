//! Adversarial search: the value of a position some plies ahead, found by
//! minimax with alpha-beta pruning, and the player that moves by it.
//!
//! Scores are whole numbers of ten-thousandths, so that the search compares
//! them exactly.

use crate::game::Quoridor;
use crate::laws::law_sentinel_means_no_way;
use crate::notation::{decimal, write_number, MAX_SIZE};
use crate::player::Player;
use crate::position::{lemma_legal_move_played, lemma_names_legal, listed, Position, UNREACHABLE};
use crate::strategy::{pick, rival_steps_after, text_of, wins, QuoridorStrategy, Strategy};
use crate::text::texts;
use vstd::prelude::*;
use vstd::string::*;

verus! {

/// How much each feature of a position counts, in ten-thousandths.
#[derive(Debug, Clone, Copy, PartialEq, Eq, Structural)]
pub struct Weights {
    /// For each step that the opponent is farther from its goal row than the
    /// mover.
    pub distance: u32,
    /// For the mover's progress: shared out over its steps to the next row.
    pub attack: u32,
    /// For what holds the opponent back: in the searching player's
    /// evaluation each step that the opponent needs to its next row, in the
    /// annealing player's each wall that the player has more than the
    /// opponent.
    pub defence: u32,
}

/// What the attack weight is multiplied by when the next row takes no step.
pub const ATTACK_AT_ONCE: i64 = 20;

/// No score is as large as this, or as small as its negative.
pub const SCORE_LIMIT: i64 = 0x100_0000_0000;

/// The weights this player uses unless told otherwise: 0.6001 for the
/// distances, 14.45 for the attack, 6.52 for the defence.
pub fn standard_weights() -> (w: Weights)
    ensures
        w == (Weights { distance: 6001, attack: 144500, defence: 65200 }),
{
    Weights { distance: 6001, attack: 144500, defence: 65200 }
}

/// The attack feature: the attack weight shared out over the steps to the
/// next row, rounded down.
pub open spec fn attack_term(w: Weights, steps: nat) -> int {
    if steps == 0 {
        ATTACK_AT_ONCE * w.attack
    } else {
        w.attack as int / steps as int
    }
}

/// The static value of a position for the player to move: the weighted sum
/// of how much farther the opponent is from its goal row, of the mover's
/// progress to its next row, and of the opponent's steps to its next row.
#[verifier::opaque]
pub open spec fn evaluation(pos: Position, w: Weights) -> int {
    let mover = pos.active;
    let rival = mover.other();
    w.distance * (pos.steps_to_goal(rival) - pos.steps_to_goal(mover)) + attack_term(w, pos.steps_to_next_row(mover))
        + w.defence * pos.steps_to_next_row(rival)
}

/// The search goes no deeper from `pos`: the depth is used up, the last move
/// reached the goal row of the player now to move, or that player has no
/// legal move.
pub open spec fn is_leaf(pos: Position, depth: nat) -> bool {
    depth == 0 || wins(pos, pos.last_move) || forall|text: Seq<char>| !pos.names_legal(text)
}

/// The minimax value of a position searched `depth` plies deep: the static
/// value at a leaf, and otherwise the best of the values that the legal
/// moves lead to, each searched one ply less deep from the other side. Best
/// means largest for the maximizing side and smallest for the minimizing
/// side.
#[verifier::opaque]
pub open spec fn search_value(pos: Position, w: Weights, depth: nat, maximizing: bool) -> int
    decreases depth,
{
    if is_leaf(pos, depth) {
        evaluation(pos, w)
    } else {
        let best = choose|text: Seq<char>|
            {
                &&& #[trigger] pos.names_legal(text)
                &&& forall|other: Seq<char>|
                    #[trigger] pos.names_legal(other) ==> if maximizing {
                        search_value(pos.played(other, false), w, (depth - 1) as nat, !maximizing) <= search_value(
                            pos.played(text, false),
                            w,
                            (depth - 1) as nat,
                            !maximizing,
                        )
                    } else {
                        search_value(pos.played(other, false), w, (depth - 1) as nat, !maximizing) >= search_value(
                            pos.played(text, false),
                            w,
                            (depth - 1) as nat,
                            !maximizing,
                        )
                    }
            };
        search_value(pos.played(best, false), w, (depth - 1) as nat, !maximizing)
    }
}

/// The value of the position that the move `text` leads to, searched one ply
/// less deep from the other side.
pub open spec fn reply_value(pos: Position, w: Weights, depth: nat, maximizing: bool, text: Seq<char>) -> int {
    search_value(pos.played(text, false), w, (depth - 1) as nat, !maximizing)
}

/// `v` is the best that the player to move can get: the value of some legal
/// move, and no legal move has a better one.
pub open spec fn is_best_value(pos: Position, w: Weights, depth: nat, maximizing: bool, v: int) -> bool {
    &&& exists|text: Seq<char>| #[trigger] pos.names_legal(text) && reply_value(pos, w, depth, maximizing, text) == v
    &&& forall|text: Seq<char>|
        #[trigger] pos.names_legal(text) ==> if maximizing {
            reply_value(pos, w, depth, maximizing, text) <= v
        } else {
            reply_value(pos, w, depth, maximizing, text) >= v
        }
}

/// What a pruned search with the window `alpha..beta` says of the true
/// value: a score inside the window is the value, a score at or below the
/// window is an upper bound of it, a score at or above is a lower bound.
pub open spec fn bounds_value(score: int, value: int, alpha: int, beta: int) -> bool {
    &&& score <= alpha ==> value <= score
    &&& score >= beta ==> value >= score
    &&& alpha < score < beta ==> value == score
}

/// The static value stays within the score limit.
pub proof fn lemma_evaluation_bounded(pos: Position, w: Weights)
    requires
        pos.valid(),
    ensures
        -SCORE_LIMIT < evaluation(pos, w) < SCORE_LIMIT,
{
    reveal(evaluation);
    let mover = pos.active;
    let rival = mover.other();
    law_sentinel_means_no_way(pos, pos.pawn(mover), pos.goal_row(mover));
    law_sentinel_means_no_way(pos, pos.pawn(rival), pos.goal_row(rival));
    lemma_next_row_bounded(pos, mover);
    lemma_next_row_bounded(pos, rival);
    let d = pos.steps_to_goal(rival) - pos.steps_to_goal(mover);
    let m = pos.steps_to_next_row(mover);
    let r = pos.steps_to_next_row(rival);
    assert(-100 * 0x1_0000_0000 <= w.distance * d <= 100 * 0x1_0000_0000) by (nonlinear_arith)
        requires
            -100 <= d <= 100,
            0 <= w.distance < 0x1_0000_0000,
    ;
    assert(0 <= w.defence * r <= 100 * 0x1_0000_0000) by (nonlinear_arith)
        requires
            0 <= r <= 100,
            0 <= w.defence < 0x1_0000_0000,
    ;
    if m > 0 {
        assert(0 <= w.attack as int / m as int <= w.attack) by (nonlinear_arith)
            requires
                m > 0,
                w.attack >= 0,
        ;
    }
}

/// The steps to the next row are at most the number that stands for "no
/// way".
pub proof fn lemma_next_row_bounded(pos: Position, player: Player)
    requires
        pos.size <= MAX_SIZE,
    ensures
        pos.steps_to_next_row(player) <= UNREACHABLE,
{
    match pos.next_row(player) {
        Some(row) => {
            law_sentinel_means_no_way(pos, pos.pawn(player), row);
        },
        None => {},
    }
}

/// The static value of `game` for the player to move.
pub fn evaluate_with(game: &Quoridor, w: Weights) -> (score: i64)
    requires
        game.wf(),
    ensures
        score == evaluation(game@, w),
        -SCORE_LIMIT < score < SCORE_LIMIT,
{
    let mover = game.active_player();
    let rival = mover.opponent();
    let own = game.distance_to_goal(mover) as i64;
    let other = game.distance_to_goal(rival) as i64;
    let own_next = game.moves_to_next_row(mover) as i64;
    let other_next = game.moves_to_next_row(rival) as i64;
    proof {
        reveal(evaluation);
        lemma_evaluation_bounded(game@, w);
        let d = other - own;
        assert(-100 * 0x1_0000_0000 <= w.distance * d <= 100 * 0x1_0000_0000) by (nonlinear_arith)
            requires
                -100 <= d <= 100,
                0 <= w.distance < 0x1_0000_0000,
        ;
        assert(0 <= w.defence * other_next <= 100 * 0x1_0000_0000) by (nonlinear_arith)
            requires
                0 <= other_next <= 100,
                0 <= w.defence < 0x1_0000_0000,
        ;
        if own_next > 0 {
            assert(0 <= w.attack as int / own_next as int <= w.attack) by (nonlinear_arith)
                requires
                    own_next > 0,
                    w.attack >= 0,
            ;
        }
    }
    let attack = if own_next == 0 {
        ATTACK_AT_ONCE * (w.attack as i64)
    } else {
        (w.attack as i64) / own_next
    };
    (w.distance as i64) * (other - own) + attack + (w.defence as i64) * other_next
}

/// Among the first `upto` moves of a list there is one whose reply value is
/// best.
proof fn lemma_best_among(
    pos: Position,
    w: Weights,
    depth: nat,
    maximizing: bool,
    moves: Seq<Seq<char>>,
    upto: int,
) -> (best: int)
    requires
        0 < upto <= moves.len(),
    ensures
        0 <= best < upto,
        forall|j: int|
            0 <= j < upto ==> if maximizing {
                reply_value(pos, w, depth, maximizing, #[trigger] moves[j]) <= reply_value(
                    pos,
                    w,
                    depth,
                    maximizing,
                    moves[best],
                )
            } else {
                reply_value(pos, w, depth, maximizing, moves[j]) >= reply_value(pos, w, depth, maximizing, moves[best])
            },
    decreases upto,
{
    if upto == 1 {
        0
    } else {
        let before = lemma_best_among(pos, w, depth, maximizing, moves, upto - 1);
        let last = reply_value(pos, w, depth, maximizing, moves[upto - 1]);
        let old = reply_value(pos, w, depth, maximizing, moves[before]);
        if (maximizing && last > old) || (!maximizing && last < old) {
            upto - 1
        } else {
            before
        }
    }
}

/// Where the legal moves can be listed, the searched value of a position
/// that is no leaf is the best reply value, and it is the only best one.
proof fn lemma_search_value_is_best(pos: Position, w: Weights, depth: nat, maximizing: bool, moves: Seq<Seq<char>>)
    requires
        !is_leaf(pos, depth),
        forall|text: Seq<char>| pos.names_legal(text) <==> moves.contains(text),
    ensures
        is_best_value(pos, w, depth, maximizing, search_value(pos, w, depth, maximizing)),
        forall|v: int| is_best_value(pos, w, depth, maximizing, v) ==> v == search_value(pos, w, depth, maximizing),
{
    let some = choose|text: Seq<char>| pos.names_legal(text);
    assert(moves.contains(some));
    let best = lemma_best_among(pos, w, depth, maximizing, moves, moves.len() as int);
    let v = reply_value(pos, w, depth, maximizing, moves[best]);
    assert(moves.contains(moves[best]));
    assert forall|text: Seq<char>| #[trigger] pos.names_legal(text) implies if maximizing {
        reply_value(pos, w, depth, maximizing, text) <= v
    } else {
        reply_value(pos, w, depth, maximizing, text) >= v
    } by {
        assert(moves.contains(text));
        let j = choose|j: int| 0 <= j < moves.len() && moves[j] == text;
        assert(reply_value(pos, w, depth, maximizing, moves[j]) == reply_value(pos, w, depth, maximizing, text));
    }
    assert(is_best_value(pos, w, depth, maximizing, v));
    assert(is_best_value(pos, w, depth, maximizing, search_value(pos, w, depth, maximizing))) by {
        reveal_with_fuel(search_value, 1);
        assert(pos.names_legal(moves[best]));
    }
    assert forall|u: int| is_best_value(pos, w, depth, maximizing, u) implies u == search_value(
        pos,
        w,
        depth,
        maximizing,
    ) by {
        let s = search_value(pos, w, depth, maximizing);
        let tu = choose|text: Seq<char>|
            #[trigger] pos.names_legal(text) && reply_value(pos, w, depth, maximizing, text) == u;
        let ts = choose|text: Seq<char>|
            #[trigger] pos.names_legal(text) && reply_value(pos, w, depth, maximizing, text) == s;
        assert(reply_value(pos, w, depth, maximizing, tu) == u);
        assert(reply_value(pos, w, depth, maximizing, ts) == s);
    }
}

/// `list` holds the views of `moves`.
proof fn lemma_listed_contains(moves: Seq<String>, text: Seq<char>)
    ensures
        listed(moves, text) <==> texts(moves).contains(text),
{
    if listed(moves, text) {
        let i = choose|i: int| 0 <= i < moves.len() && (#[trigger] moves[i])@ == text;
        assert(texts(moves)[i] == text);
    }
    if texts(moves).contains(text) {
        let i = choose|i: int| 0 <= i < texts(moves).len() && texts(moves)[i] == text;
        assert(moves[i]@ == text);
    }
}

/// What is known after the first `upto` moves of `list` were searched with
/// the window `alpha..beta`: how the narrowed window `low..high` and the best
/// score so far relate to the values of those moves. Once the window has
/// closed (`cut`), the last score is a bound in the direction of the cut.
pub open spec fn searched(
    pos: Position,
    w: Weights,
    depth: nat,
    maximizing: bool,
    list: Seq<Seq<char>>,
    upto: int,
    alpha: int,
    beta: int,
    low: int,
    high: int,
    best: int,
    cut: bool,
) -> bool {
    if maximizing {
        &&& high == beta
        &&& low == (if best > alpha {
            best
        } else {
            alpha
        })
        &&& !cut ==> low < high
        &&& !cut ==> forall|j: int| 0 <= j < upto ==> reply_value(pos, w, depth, maximizing, #[trigger] list[j]) <= best
        &&& !cut && best > alpha ==> exists|j: int|
            0 <= j < upto && reply_value(pos, w, depth, maximizing, #[trigger] list[j]) == best
        &&& cut ==> best >= beta && exists|j: int|
            0 <= j < upto && reply_value(pos, w, depth, maximizing, #[trigger] list[j]) >= best
    } else {
        &&& low == alpha
        &&& high == (if best < beta {
            best
        } else {
            beta
        })
        &&& !cut ==> low < high
        &&& !cut ==> forall|j: int| 0 <= j < upto ==> reply_value(pos, w, depth, maximizing, #[trigger] list[j]) >= best
        &&& !cut && best < beta ==> exists|j: int|
            0 <= j < upto && reply_value(pos, w, depth, maximizing, #[trigger] list[j]) == best
        &&& cut ==> best <= alpha && exists|j: int|
            0 <= j < upto && reply_value(pos, w, depth, maximizing, #[trigger] list[j]) <= best
    }
}

/// Searching one more move keeps what `searched` says.
proof fn lemma_search_step(
    pos: Position,
    w: Weights,
    depth: nat,
    maximizing: bool,
    list: Seq<Seq<char>>,
    i: int,
    alpha: int,
    beta: int,
    low: int,
    high: int,
    best: int,
    eval: int,
)
    requires
        alpha < beta,
        0 <= i < list.len(),
        searched(pos, w, depth, maximizing, list, i, alpha, beta, low, high, best, false),
        bounds_value(eval, reply_value(pos, w, depth, maximizing, list[i]), low, high),
    ensures
        ({
            let better = if maximizing {
                eval > best
            } else {
                eval < best
            };
            let new_best = if better {
                eval
            } else {
                best
            };
            let new_low = if maximizing && eval > low {
                eval
            } else {
                low
            };
            let new_high = if !maximizing && eval < high {
                eval
            } else {
                high
            };
            searched(
                pos,
                w,
                depth,
                maximizing,
                list,
                i + 1,
                alpha,
                beta,
                new_low,
                new_high,
                new_best,
                new_high <= new_low,
            )
        }),
{
    let value = reply_value(pos, w, depth, maximizing, list[i]);
    if maximizing {
        let new_best = if eval > best { eval } else { best };
        if eval >= high {
            assert(reply_value(pos, w, depth, maximizing, list[i]) >= new_best);
        } else {
            assert forall|j: int| 0 <= j < i + 1 implies reply_value(pos, w, depth, maximizing, #[trigger] list[j])
                <= new_best by {
                if j < i {
                } else {
                    assert(value <= new_best);
                }
            }
            if new_best > alpha {
                if eval > best {
                    assert(reply_value(pos, w, depth, maximizing, list[i]) == new_best);
                } else {
                    let j = choose|j: int| 0 <= j < i && reply_value(pos, w, depth, maximizing, #[trigger] list[j])
                        == best;
                    assert(0 <= j < i + 1);
                }
            }
        }
    } else {
        let new_best = if eval < best { eval } else { best };
        if eval <= low {
            assert(reply_value(pos, w, depth, maximizing, list[i]) <= new_best);
        } else {
            assert forall|j: int| 0 <= j < i + 1 implies reply_value(pos, w, depth, maximizing, #[trigger] list[j])
                >= new_best by {
                if j < i {
                } else {
                    assert(value >= new_best);
                }
            }
            if new_best < beta {
                if eval < best {
                    assert(reply_value(pos, w, depth, maximizing, list[i]) == new_best);
                } else {
                    let j = choose|j: int| 0 <= j < i && reply_value(pos, w, depth, maximizing, #[trigger] list[j])
                        == best;
                    assert(0 <= j < i + 1);
                }
            }
        }
    }
}

/// When the search of a position ends, by a cut or because every move was
/// searched, the best score bounds the position's value.
proof fn lemma_search_done(
    pos: Position,
    w: Weights,
    depth: nat,
    maximizing: bool,
    list: Seq<Seq<char>>,
    upto: int,
    alpha: int,
    beta: int,
    low: int,
    high: int,
    best: int,
    cut: bool,
)
    requires
        alpha < beta,
        !is_leaf(pos, depth),
        forall|text: Seq<char>| pos.names_legal(text) <==> list.contains(text),
        0 <= upto <= list.len(),
        cut || upto == list.len(),
        searched(pos, w, depth, maximizing, list, upto, alpha, beta, low, high, best, cut),
    ensures
        bounds_value(best, search_value(pos, w, depth, maximizing), alpha, beta),
{
    lemma_search_value_is_best(pos, w, depth, maximizing, list);
    let value = search_value(pos, w, depth, maximizing);
    let witness = choose|text: Seq<char>|
        #[trigger] pos.names_legal(text) && reply_value(pos, w, depth, maximizing, text) == value;
    assert(list.contains(witness));
    let k = choose|k: int| 0 <= k < list.len() && list[k] == witness;
    assert forall|j: int| 0 <= j < list.len() implies pos.names_legal(#[trigger] list[j]) by {
        assert(list.contains(list[j]));
    }
    if !cut {
        if maximizing {
            assert(reply_value(pos, w, depth, maximizing, list[k]) <= best);
            if best > alpha {
                let j = choose|j: int| 0 <= j < upto && reply_value(pos, w, depth, maximizing, #[trigger] list[j]) ==
                    best;
                assert(pos.names_legal(list[j]));
            }
        } else {
            assert(reply_value(pos, w, depth, maximizing, list[k]) >= best);
            if best < beta {
                let j = choose|j: int| 0 <= j < upto && reply_value(pos, w, depth, maximizing, #[trigger] list[j]) ==
                    best;
                assert(pos.names_legal(list[j]));
            }
        }
    } else {
        if maximizing {
            let j = choose|j: int| 0 <= j < upto && reply_value(pos, w, depth, maximizing, #[trigger] list[j]) >= best;
            assert(pos.names_legal(list[j]));
        } else {
            let j = choose|j: int| 0 <= j < upto && reply_value(pos, w, depth, maximizing, #[trigger] list[j]) <= best;
            assert(pos.names_legal(list[j]));
        }
    }
}

/// At a leaf the searched value is the static value.
pub proof fn lemma_leaf_value(pos: Position, w: Weights, depth: nat, maximizing: bool)
    requires
        is_leaf(pos, depth),
    ensures
        search_value(pos, w, depth, maximizing) == evaluation(pos, w),
{
    reveal_with_fuel(search_value, 1);
}

/// A position in which a legal move is listed, searched at a positive depth
/// after a last move that did not win, is no leaf.
proof fn lemma_not_leaf(pos: Position, depth: nat, moves: Seq<String>)
    requires
        depth > 0,
        !wins(pos, pos.last_move),
        moves.len() > 0,
        forall|text: Seq<char>| listed(moves, text) <==> pos.names_legal(text),
    ensures
        !is_leaf(pos, depth),
        forall|text: Seq<char>| pos.names_legal(text) <==> texts(moves).contains(text),
{
    assert(listed(moves, moves[0]@));
    assert(pos.names_legal(moves[0]@));
    assert forall|text: Seq<char>| pos.names_legal(text) <==> texts(moves).contains(text) by {
        lemma_listed_contains(moves, text);
    }
}

/// A position without a listed legal move is a leaf.
proof fn lemma_no_move_is_leaf(pos: Position, depth: nat, moves: Seq<String>)
    requires
        moves.len() == 0,
        forall|text: Seq<char>| listed(moves, text) <==> pos.names_legal(text),
    ensures
        is_leaf(pos, depth),
{
    assert forall|text: Seq<char>| !pos.names_legal(text) by {
        if pos.names_legal(text) {
            assert(listed(moves, text));
        }
    }
}

/// Minimax with alpha-beta pruning.
///
/// At a leaf the score is the static value. Elsewhere the moves are tried
/// in turn, each on a copy of the game, and the search of a position stops
/// as soon as the window closes. The score then bounds the true minimax
/// value as `bounds_value` says; with the widest window it is that value.
pub fn minimax_with(game: &Quoridor, w: Weights, depth: usize, alpha: i64, beta: i64, maximizing: bool) -> (score: i64)
    requires
        game.wf(),
    ensures
        -SCORE_LIMIT < score < SCORE_LIMIT,
        is_leaf(game@, depth as nat) ==> score == evaluation(game@, w),
        alpha < beta ==> bounds_value(
            score as int,
            search_value(game@, w, depth as nat, maximizing),
            alpha as int,
            beta as int,
        ),
        alpha == i64::MIN && beta == i64::MAX ==> score == search_value(game@, w, depth as nat, maximizing),
    decreases depth,
{
    let ghost pos = game@;
    let ghost d = depth as nat;
    if depth == 0 || game.win_check(game.last_move().as_str()) {
        proof {
            lemma_leaf_value(pos, w, d, maximizing);
        }
        return evaluate_with(game, w);
    }
    let moves = game.get_all_legal_moves();
    if moves.len() == 0 {
        proof {
            lemma_no_move_is_leaf(pos, d, moves@);
            lemma_leaf_value(pos, w, d, maximizing);
        }
        return evaluate_with(game, w);
    }
    let ghost list = texts(moves@);
    proof {
        lemma_not_leaf(pos, d, moves@);
    }
    let mut low = alpha;
    let mut high = beta;
    let mut best: i64 = if maximizing { i64::MIN } else { i64::MAX };
    let mut i: usize = 0;
    let mut cut = false;
    while i < moves.len() && !cut
        invariant
            i <= moves.len(),
            game.wf(),
            pos == game@,
            d == depth as nat,
            depth > 0,
            list == texts(moves@),
            forall|text: Seq<char>| pos.names_legal(text) <==> list.contains(text),
            i == 0 ==> !cut && best == (if maximizing {
                i64::MIN
            } else {
                i64::MAX
            }),
            i > 0 ==> -SCORE_LIMIT < best < SCORE_LIMIT,
            alpha < beta ==> searched(
                pos,
                w,
                d,
                maximizing,
                list,
                i as int,
                alpha as int,
                beta as int,
                low as int,
                high as int,
                best as int,
                cut,
            ),
        decreases moves.len() - i,
    {
        let text = pick(&moves, i);
        let mut child = game.clone();
        proof {
            assert(list[i as int] == text@);
            assert(list.contains(text@));
            lemma_legal_move_played(pos, text@, false);
        }
        let _ = child.play(text.as_str(), false);
        let eval = minimax_with(&child, w, depth - 1, low, high, !maximizing);
        proof {
            if alpha < beta {
                lemma_search_step(
                    pos,
                    w,
                    d,
                    maximizing,
                    list,
                    i as int,
                    alpha as int,
                    beta as int,
                    low as int,
                    high as int,
                    best as int,
                    eval as int,
                );
            }
        }
        if maximizing {
            if eval > best {
                best = eval;
            }
            if eval > low {
                low = eval;
            }
        } else {
            if eval < best {
                best = eval;
            }
            if eval < high {
                high = eval;
            }
        }
        if high <= low {
            cut = true;
        }
        i = i + 1;
    }
    proof {
        if alpha < beta {
            lemma_search_done(
                pos,
                w,
                d,
                maximizing,
                list,
                i as int,
                alpha as int,
                beta as int,
                low as int,
                high as int,
                best as int,
                cut,
            );
        }
    }
    best
}


/// How many walls the player searches at most when more than that many may
/// be placed.
pub const WALL_CAP: usize = 20;

/// By how many steps the wall `text` lengthens the opponent's shortest way
/// to its goal row; zero when it does not lengthen it.
pub open spec fn gain(pos: Position, text: Seq<char>) -> nat {
    let before = pos.steps_to_goal(pos.active.other());
    let after = rival_steps_after(pos, text);
    if after > before {
        (after - before) as nat
    } else {
        0
    }
}

/// `kept` is a pick of the most promising of `walls` by the measure `g`:
/// at most `WALL_CAP` walls, each of them one of `walls` with a gain, in
/// the order of falling gain, and no wall that was left out has a larger
/// gain than one that was kept while `kept` was full.
#[verifier::opaque]
pub open spec fn is_pick_by(g: spec_fn(Seq<char>) -> nat, walls: Seq<Seq<char>>, kept: Seq<Seq<char>>) -> bool {
    &&& kept.len() <= WALL_CAP
    &&& forall|j: int| 0 <= j < kept.len() ==> walls.contains(#[trigger] kept[j]) && g(kept[j]) > 0
    &&& forall|j: int, k: int| 0 <= j < k < kept.len() ==> g(#[trigger] kept[j]) >= g(#[trigger] kept[k])
    &&& forall|text: Seq<char>|
        #[trigger] walls.contains(text) && g(text) > 0 ==> kept.contains(text) || (kept.len() == WALL_CAP && g(
            kept[kept.len() - 1],
        ) >= g(text))
}

/// `kept` is a pick of the most promising of `walls` in `pos`, measured by
/// how much each lengthens the opponent's way.
pub open spec fn is_promising(pos: Position, walls: Seq<Seq<char>>, kept: Seq<Seq<char>>) -> bool {
    is_pick_by(|text: Seq<char>| gain(pos, text), walls, kept)
}

/// `kept` is a pick of the most promising of `walls` in `pos`.
pub open spec fn is_promising_pick(pos: Position, walls: Seq<String>, kept: Seq<String>) -> bool {
    is_promising(pos, texts(walls), texts(kept))
}

/// The pick after one more wall was seen: it goes in behind the walls that
/// gain at least as much, and the last wall goes out if the pick is full.
pub open spec fn pick_with(kept: Seq<Seq<char>>, at: int, text: Seq<char>) -> Seq<Seq<char>> {
    let grown = kept.insert(at, text);
    if grown.len() > WALL_CAP {
        grown.drop_last()
    } else {
        grown
    }
}

/// A pick stays a pick when a wall with a gain goes in at its place.
proof fn lemma_pick_grows(
    g: spec_fn(Seq<char>) -> nat,
    seen: Seq<Seq<char>>,
    kept: Seq<Seq<char>>,
    at: int,
    text: Seq<char>,
)
    requires
        is_pick_by(g, seen, kept),
        g(text) > 0,
        0 <= at <= kept.len(),
        forall|j: int| 0 <= j < at ==> g(#[trigger] kept[j]) >= g(text),
        at < kept.len() ==> g(kept[at]) < g(text),
    ensures
        is_pick_by(g, seen.push(text), pick_with(kept, at, text)),
{
    reveal(is_pick_by);
    let next = seen.push(text);
    let grown = kept.insert(at, text);
    let now = pick_with(kept, at, text);
    assert forall|j: int| 0 <= j < grown.len() implies #[trigger] grown[j] == (if j < at {
        kept[j]
    } else if j == at {
        text
    } else {
        kept[j - 1]
    }) by {}
    assert forall|j: int| 0 <= j < now.len() implies #[trigger] now[j] == grown[j] by {}
    assert forall|t: Seq<char>| seen.contains(t) implies next.contains(t) by {
        let k = choose|k: int| 0 <= k < seen.len() && seen[k] == t;
        assert(next[k] == t);
    }
    assert(next[seen.len() as int] == text);
    assert forall|j: int| 0 <= j < now.len() implies next.contains(#[trigger] now[j]) && g(now[j]) > 0 by {
        if j < at {
            assert(seen.contains(kept[j]));
        } else if j == at {
        } else {
            assert(seen.contains(kept[j - 1]));
        }
    }
    assert forall|j: int| 0 <= j < grown.len() implies (if j <= at {
        g(#[trigger] grown[j]) >= g(text)
    } else {
        g(grown[j]) < g(text)
    }) by {
        if j > at {
            if j - 1 > at {
                assert(g(kept[at]) >= g(kept[j - 1]));
            }
        }
    }
    assert forall|j: int, k: int| 0 <= j < k < now.len() implies g(#[trigger] now[j]) >= g(#[trigger] now[k]) by {
        if k < at {
            assert(g(kept[j]) >= g(kept[k]));
        } else if k == at {
        } else if j < at {
            assert(g(kept[j]) >= g(kept[k - 1]));
        } else if j == at {
        } else {
            assert(g(kept[j - 1]) >= g(kept[k - 1]));
        }
    }
    assert forall|t: Seq<char>| #[trigger] next.contains(t) && g(t) > 0 implies now.contains(t) || (now.len()
        == WALL_CAP && g(now[now.len() - 1]) >= g(t)) by {
        let k = choose|k: int| 0 <= k < next.len() && next[k] == t;
        let last = now.len() - 1;
        if grown.contains(t) {
            let j = choose|j: int| 0 <= j < grown.len() && grown[j] == t;
            if j < now.len() {
                assert(now[j] == t);
            } else {
                assert(g(now[last]) >= g(grown[j])) by {
                    if last < at {
                        assert(g(kept[last]) >= g(text));
                    } else if last == at {
                    } else {
                        assert(g(kept[last - 1]) >= g(kept[j - 1]));
                    }
                }
            }
        } else {
            if k == seen.len() {
                assert(grown[at] == t);
            } else {
                assert(seen.contains(t));
                if kept.contains(t) {
                    let j = choose|j: int| 0 <= j < kept.len() && kept[j] == t;
                    if j < at {
                        assert(grown[j] == t);
                    } else {
                        assert(grown[j + 1] == t);
                    }
                } else {
                    assert(kept.len() == WALL_CAP);
                    let old_last = kept[kept.len() - 1];
                    assert(g(old_last) >= g(t));
                    assert(grown[grown.len() - 1] == (if at == kept.len() {
                        text
                    } else {
                        old_last
                    }));
                    if at == kept.len() {
                        assert(g(kept[last]) >= g(old_last));
                    } else if last < at {
                        assert(g(kept[last]) >= g(old_last));
                    } else if last == at {
                    } else {
                        assert(g(kept[last - 1]) >= g(old_last));
                    }
                }
            }
        }
    }
}

/// A pick stays a pick when a wall without a gain is passed over.
proof fn lemma_pick_stays(g: spec_fn(Seq<char>) -> nat, seen: Seq<Seq<char>>, kept: Seq<Seq<char>>, text: Seq<char>)
    requires
        is_pick_by(g, seen, kept),
        g(text) == 0,
    ensures
        is_pick_by(g, seen.push(text), kept),
{
    reveal(is_pick_by);
    let next = seen.push(text);
    assert forall|t: Seq<char>| seen.contains(t) implies next.contains(t) by {
        let k = choose|k: int| 0 <= k < seen.len() && seen[k] == t;
        assert(next[k] == t);
    }
    assert forall|j: int| 0 <= j < kept.len() implies next.contains(#[trigger] kept[j]) && g(kept[j]) > 0 by {
        assert(seen.contains(kept[j]));
    }
    assert forall|t: Seq<char>| #[trigger] next.contains(t) && g(t) > 0 implies kept.contains(t) || (kept.len()
        == WALL_CAP && g(kept[kept.len() - 1]) >= g(t)) by {
        let k = choose|k: int| 0 <= k < next.len() && next[k] == t;
        if k < seen.len() {
            assert(seen.contains(t));
        }
    }
}

/// Of no walls, no wall is picked.
proof fn lemma_pick_of_nothing(g: spec_fn(Seq<char>) -> nat)
    ensures
        is_pick_by(g, Seq::empty(), Seq::empty()),
{
    reveal(is_pick_by);
}

/// Every wall of a pick is one of the walls it was picked from.
proof fn lemma_pick_is_listed(g: spec_fn(Seq<char>) -> nat, walls: Seq<String>, kept: Seq<String>, text: Seq<char>)
    requires
        is_pick_by(g, texts(walls), texts(kept)),
        listed(kept, text),
    ensures
        listed(walls, text),
{
    reveal(is_pick_by);
    lemma_listed_contains(kept, text);
    lemma_listed_contains(walls, text);
    let j = choose|j: int| 0 <= j < texts(kept).len() && texts(kept)[j] == text;
    assert(texts(walls).contains(texts(kept)[j]));
}

/// The walls of `walls` that lengthen the opponent's way most.
pub fn promising_walls(game: &Quoridor, walls: &Vec<String>) -> (kept: Vec<String>)
    requires
        game.wf(),
        forall|text: Seq<char>| listed(walls@, text) ==> game@.names_wall(game@.active, text),
    ensures
        is_promising_pick(game@, walls@, kept@),
        forall|text: Seq<char>| listed(kept@, text) ==> listed(walls@, text),
{
    let ghost pos = game@;
    let ghost g = |text: Seq<char>| gain(pos, text);
    let rival = game.active_player().opponent();
    let before = game.distance_to_goal(rival);
    let mut kept: Vec<String> = Vec::new();
    let mut gains: Vec<usize> = Vec::new();
    let mut i: usize = 0;
    proof {
        assert(texts(walls@).subrange(0, 0) =~= Seq::<Seq<char>>::empty());
        assert(texts(kept@) =~= Seq::<Seq<char>>::empty());
        lemma_pick_of_nothing(g);
    }
    while i < walls.len()
        invariant
            i <= walls.len(),
            game.wf(),
            pos == game@,
            g == (|text: Seq<char>| gain(pos, text)),
            rival == pos.active.other(),
            before == pos.steps_to_goal(rival),
            forall|text: Seq<char>| listed(walls@, text) ==> pos.names_wall(pos.active, text),
            gains.len() == kept.len(),
            forall|j: int| 0 <= j < kept.len() ==> (#[trigger] gains[j]) == gain(pos, kept[j]@),
            is_pick_by(g, texts(walls@).subrange(0, i as int), texts(kept@)),
        decreases walls.len() - i,
    {
        let text = pick(walls, i);
        let ghost seen = texts(walls@).subrange(0, i as int);
        let ghost old_kept = texts(kept@);
        proof {
            lemma_names_legal(pos, text@);
            lemma_legal_move_played(pos, text@, false);
            assert(seen.push(text@) =~= texts(walls@).subrange(0, i + 1));
        }
        let mut trial = game.clone();
        let _ = trial.play(text.as_str(), false);
        let after = trial.distance_to_goal(rival);
        if after > before {
            let gained: usize = after - before;
            let mut at: usize = 0;
            while at < gains.len() && gains[at] >= gained
                invariant
                    at <= gains.len(),
                    forall|j: int| 0 <= j < at ==> gains[j] >= gained,
                decreases gains.len() - at,
            {
                at = at + 1;
            }
            proof {
                assert forall|j: int| 0 <= j < at implies g(#[trigger] old_kept[j]) >= g(text@) by {
                    assert(gains[j] == gain(pos, kept[j]@));
                }
                if at < kept.len() {
                    assert(gains[at as int] == gain(pos, kept[at as int]@));
                }
                lemma_pick_grows(g, seen, old_kept, at as int, text@);
            }
            let ghost old_gains = gains@;
            kept.insert(at, text);
            gains.insert(at, gained);
            if kept.len() > WALL_CAP {
                kept.pop();
                gains.pop();
            }
            proof {
                assert(texts(kept@) =~= pick_with(old_kept, at as int, text@));
                assert forall|j: int| 0 <= j < kept.len() implies (#[trigger] gains[j]) == gain(pos, kept[j]@) by {
                    if j < at {
                        assert(old_gains[j] == gain(pos, old_kept[j]));
                    } else if j == at {
                    } else {
                        assert(old_gains[j - 1] == gain(pos, old_kept[j - 1]));
                    }
                }
            }
        } else {
            proof {
                lemma_pick_stays(g, seen, old_kept, text@);
            }
        }
        i = i + 1;
    }
    proof {
        assert(texts(walls@).subrange(0, walls.len() as int) =~= texts(walls@));
        assert forall|text: Seq<char>| listed(kept@, text) implies listed(walls@, text) by {
            lemma_pick_is_listed(g, walls@, kept@, text);
        }
    }
    kept
}


/// The depth at which the replies to a move are searched by a player that
/// looks `depth` plies ahead.
pub open spec fn reply_depth(depth: nat) -> nat {
    if depth > 0 {
        (depth - 1) as nat
    } else {
        0
    }
}

/// The searched value of the position that the move `text` leads to, for a
/// player that looks `depth` plies ahead.
pub open spec fn move_value(pos: Position, w: Weights, depth: nat, text: Seq<char>) -> int {
    search_value(pos.played(text, false), w, reply_depth(depth), false)
}

/// The walls that the searching player looks at: all that may be placed if
/// they are no more than `WALL_CAP`, and otherwise a pick of the most
/// promising.
pub open spec fn is_wall_shortlist(pos: Position, kept: Seq<Seq<char>>) -> bool {
    let all = pos.legal_wall_list(pos.active);
    if all.len() > WALL_CAP {
        is_promising(pos, all, kept)
    } else {
        kept == all
    }
}

/// `text` is the best of the pawn moves and of the walls `kept`: no move
/// among them has a larger searched value, and if `text` is a wall, its
/// value is larger than that of every pawn move.
pub open spec fn is_best_of(pos: Position, w: Weights, depth: nat, kept: Seq<Seq<char>>, text: Seq<char>) -> bool {
    &&& pos.names_move(pos.active, text) || kept.contains(text)
    &&& forall|other: Seq<char>| #[trigger]
        pos.names_move(pos.active, other) ==> if pos.names_move(pos.active, text) {
            move_value(pos, w, depth, text) >= move_value(pos, w, depth, other)
        } else {
            move_value(pos, w, depth, text) > move_value(pos, w, depth, other)
        }
    &&& forall|k: int|
        0 <= k < kept.len() ==> move_value(pos, w, depth, text) >= move_value(pos, w, depth, #[trigger] kept[k])
}

/// What the searching player answers: a winning pawn move if the pawn has
/// one; otherwise the best of the pawn moves and of the walls on its
/// shortlist, and nothing only when there are neither.
pub open spec fn is_search_choice(pos: Position, w: Weights, depth: nat, chosen: Option<Seq<char>>) -> bool {
    if exists|other: Seq<char>| #[trigger] pos.names_move(pos.active, other) && wins(pos, other) {
        chosen is Some && pos.names_move(pos.active, chosen->0) && wins(pos, chosen->0)
    } else {
        exists|kept: Seq<Seq<char>>|
            #[trigger] is_wall_shortlist(pos, kept) && match chosen {
                None => kept.len() == 0 && forall|text: Seq<char>| !pos.names_move(pos.active, text),
                Some(text) => is_best_of(pos, w, depth, kept, text),
            }
    }
}

/// The searched value of the position after the move `text`, found by a
/// full-window search.
fn value_after(game: &Quoridor, w: Weights, depth: usize, text: &str) -> (score: i64)
    requires
        game.wf(),
        game@.names_legal(text@),
    ensures
        score == move_value(game@, w, depth as nat, text@),
        -SCORE_LIMIT < score < SCORE_LIMIT,
{
    proof {
        lemma_legal_move_played(game@, text@, false);
    }
    let mut child = game.clone();
    let _ = child.play(text, false);
    let below = if depth > 0 { depth - 1 } else { 0 };
    minimax_with(&child, w, below, i64::MIN, i64::MAX, false)
}

/// The searching policy, for a player that looks `depth` plies ahead.
pub fn search_move(game: &Quoridor, w: Weights, depth: usize) -> (chosen: Option<String>)
    requires
        game.wf(),
    ensures
        is_search_choice(game@, w, depth as nat, text_of(chosen)),
        chosen is Some ==> game@.names_legal(chosen->0@),
        chosen is None ==> forall|text: Seq<char>| !game@.names_move(game@.active, text),
{
    let ghost pos = game@;
    let ghost d = depth as nat;
    let player = game.active_player();
    let pawn_moves = game.get_legal_moves(player);
    let walls = game.get_legal_walls(player);
    let mut i: usize = 0;
    while i < pawn_moves.len()
        invariant
            i <= pawn_moves.len(),
            game.wf(),
            pos == game@,
            forall|text: Seq<char>| listed(pawn_moves@, text) <==> pos.names_move(pos.active, text),
            forall|j: int| 0 <= j < i ==> !wins(pos, (#[trigger] pawn_moves[j])@),
        decreases pawn_moves.len() - i,
    {
        if game.win_check(pawn_moves[i].as_str()) {
            let text = pick(&pawn_moves, i);
            proof {
                lemma_names_legal(pos, text@);
            }
            return Some(text);
        }
        i = i + 1;
    }
    proof {
        assert forall|other: Seq<char>| #[trigger] pos.names_move(pos.active, other) implies !wins(pos, other) by {
            assert(listed(pawn_moves@, other));
            let j = choose|j: int| 0 <= j < pawn_moves.len() && (#[trigger] pawn_moves[j])@ == other;
        }
    }
    let ghost all = texts(walls@);
    let candidates = if walls.len() > WALL_CAP {
        promising_walls(game, &walls)
    } else {
        walls
    };
    let ghost kept = texts(candidates@);
    assert(is_wall_shortlist(pos, kept));
    let mut best: Option<String> = None;
    let mut best_score: i64 = i64::MIN;
    let mut i: usize = 0;
    while i < pawn_moves.len()
        invariant
            i <= pawn_moves.len(),
            game.wf(),
            pos == game@,
            d == depth as nat,
            forall|text: Seq<char>| listed(pawn_moves@, text) <==> pos.names_move(pos.active, text),
            i == 0 ==> best is None && best_score == i64::MIN,
            i > 0 ==> best is Some,
            best is Some ==> listed(pawn_moves@, best->0@) && best_score == move_value(pos, w, d, best->0@),
            forall|j: int| 0 <= j < i ==> move_value(pos, w, d, (#[trigger] pawn_moves[j])@) <= best_score,
        decreases pawn_moves.len() - i,
    {
        let text = pick(&pawn_moves, i);
        proof {
            lemma_names_legal(pos, text@);
        }
        let score = value_after(game, w, depth, text.as_str());
        if score > best_score {
            best_score = score;
            best = Some(text);
        }
        i = i + 1;
    }
    let ghost pawn_best = best_score;
    let mut k: usize = 0;
    while k < candidates.len()
        invariant
            k <= candidates.len(),
            game.wf(),
            pos == game@,
            d == depth as nat,
            kept == texts(candidates@),
            forall|text: Seq<char>| listed(candidates@, text) ==> pos.names_wall(pos.active, text),
            forall|text: Seq<char>| listed(pawn_moves@, text) <==> pos.names_move(pos.active, text),
            pawn_moves.len() > 0 || k > 0 ==> best is Some,
            best is None ==> best_score == i64::MIN,
            pawn_best <= best_score,
            best is Some ==> best_score == move_value(pos, w, d, best->0@),
            best is Some ==> (listed(pawn_moves@, best->0@) && best_score == pawn_best) || (kept.contains(best->0@)
                && best_score > pawn_best),
            forall|j: int| 0 <= j < pawn_moves.len() ==> move_value(pos, w, d, (#[trigger] pawn_moves[j])@)
                <= pawn_best,
            forall|j: int| 0 <= j < k ==> move_value(pos, w, d, #[trigger] kept[j]) <= best_score,
        decreases candidates.len() - k,
    {
        let text = pick(&candidates, k);
        proof {
            lemma_names_legal(pos, text@);
            assert(kept[k as int] == text@);
        }
        let score = value_after(game, w, depth, text.as_str());
        if score > best_score {
            best_score = score;
            best = Some(text);
        }
        k = k + 1;
    }
    proof {
        if best is None {
            assert forall|text: Seq<char>| !pos.names_move(pos.active, text) by {
                if pos.names_move(pos.active, text) {
                    assert(listed(pawn_moves@, text));
                }
            }
        } else {
            let text = best->0@;
            lemma_names_legal(pos, text);
            if kept.contains(text) {
                lemma_listed_contains(candidates@, text);
                if pos.names_move(pos.active, text) {
                    assert(listed(pawn_moves@, text));
                }
            }
            assert forall|other: Seq<char>| #[trigger] pos.names_move(pos.active, other) implies if pos.names_move(
                pos.active,
                text,
            ) {
                move_value(pos, w, d, text) >= move_value(pos, w, d, other)
            } else {
                move_value(pos, w, d, text) > move_value(pos, w, d, other)
            } by {
                assert(listed(pawn_moves@, other));
                let j = choose|j: int| 0 <= j < pawn_moves.len() && (#[trigger] pawn_moves[j])@ == other;
                assert(move_value(pos, w, d, pawn_moves[j]@) <= pawn_best);
            }
            assert(is_best_of(pos, w, d, kept, text));
        }
    }
    best
}

/// Plays a scripted opening, then the move that a search some plies deep
/// values most.
pub struct MinimaxStrategy {
    base: QuoridorStrategy,
    depth: usize,
    weights: Weights,
}

impl MinimaxStrategy {
    /// The name and the scripted opening.
    pub closed spec fn base(&self) -> QuoridorStrategy {
        self.base
    }

    /// How many plies the player looks ahead.
    pub closed spec fn plies(&self) -> nat {
        self.depth as nat
    }

    /// How the player weighs the features of a position.
    pub closed spec fn weights(&self) -> Weights {
        self.weights
    }

    /// A player that looks `depth` plies ahead with the standard weights. Its
    /// name is `Minimax` followed by the depth.
    pub fn new(opening_name: &str, opening_moves: Vec<String>, depth: usize) -> (strategy: MinimaxStrategy)
        ensures
            strategy.plies() == depth,
            strategy.weights() == (Weights { distance: 6001, attack: 144500, defence: 65200 }),
            strategy.base().book() == texts(opening_moves@),
            strategy.base().used() == 0,
            strategy.base().title() == (if opening_moves.len() == 0 {
                "Minimax"@ + decimal(depth as nat)
            } else {
                "Minimax"@ + decimal(depth as nat) + seq!['-'] + opening_name@
            }),
    {
        let mut name = "Minimax".to_owned();
        name.append(write_number(depth).as_str());
        MinimaxStrategy {
            base: QuoridorStrategy::new(name.as_str(), opening_name, opening_moves),
            depth,
            weights: standard_weights(),
        }
    }

    /// The same player with other weights.
    pub fn with_weights(self, weights: Weights) -> (strategy: MinimaxStrategy)
        ensures
            strategy.plies() == self.plies(),
            strategy.weights() == weights,
            strategy.base() == self.base(),
    {
        MinimaxStrategy { base: self.base, depth: self.depth, weights }
    }

    /// The static value of `game` for the player to move.
    pub fn evaluate(&self, game: &Quoridor) -> (score: i64)
        requires
            game.wf(),
        ensures
            score == evaluation(game@, self.weights()),
            -SCORE_LIMIT < score < SCORE_LIMIT,
    {
        evaluate_with(game, self.weights)
    }

    /// Minimax with alpha-beta pruning, `depth` plies deep.
    ///
    /// At depth zero, after a last move that reached the goal row of the
    /// player now to move, and where no legal move is left, the score is the
    /// static value and nothing is searched. Otherwise the score bounds the
    /// minimax value as `bounds_value` says.
    pub fn minimax(&self, game: &Quoridor, depth: usize, alpha: i64, beta: i64, maximizing: bool) -> (score: i64)
        requires
            game.wf(),
        ensures
            -SCORE_LIMIT < score < SCORE_LIMIT,
            is_leaf(game@, depth as nat) ==> score == evaluation(game@, self.weights()),
            alpha < beta ==> bounds_value(
                score as int,
                search_value(game@, self.weights(), depth as nat, maximizing),
                alpha as int,
                beta as int,
            ),
            alpha == i64::MIN && beta == i64::MAX ==> score == search_value(
                game@,
                self.weights(),
                depth as nat,
                maximizing,
            ),
    {
        minimax_with(game, self.weights, depth, alpha, beta, maximizing)
    }
}

impl Strategy for MinimaxStrategy {
    open spec fn ready(&self) -> bool {
        true
    }

    open spec fn title(&self) -> Seq<char> {
        self.base().title()
    }

    /// The name under which the strategy plays.
    fn name(&self) -> (text: String) {
        self.base.name()
    }

    /// The scripted move if one is due and legal; otherwise the searching
    /// policy's answer.
    fn choose_move(&mut self, game: &Quoridor) -> (chosen: Option<String>)
        ensures
            final(self).base().book() == old(self).base().book(),
            final(self).plies() == old(self).plies(),
            final(self).weights() == old(self).weights(),
            match old(self).base().scripted(game@) {
                Some(text) => text_of(chosen) == Some(text),
                None => is_search_choice(game@, old(self).weights(), old(self).plies(), text_of(chosen)),
            },
    {
        if let Some(move_str) = self.base.try_opening_move(game) {
            return Some(move_str);
        }
        search_move(game, self.weights, self.depth)
    }
}

} // verus!
