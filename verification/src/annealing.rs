//! The annealing player: a randomized search that tries a first move,
//! answers it with the opponent's best reply, looks for a follow-up, and
//! keeps the first move if the position got better or if chance accepts a
//! worse one.
//!
//! Whether chance accepts is not decided here. The player is handed an
//! acceptance test, which is asked with the loss in score and the time that
//! has passed, so that the exponential of the Metropolis rule can be
//! computed where floating point is at home.

use crate::chance::{random_chance, random_index, thread_rng};
use crate::game::Quoridor;
use crate::minimax::{standard_weights, Weights};
use crate::notation::{decimal, digit_char, write_number};
use crate::player::Player;
use crate::position::{lemma_legal_move_played, lemma_names_legal, listed, Position};
use crate::strategy::{pick, text_of, wins, QuoridorStrategy, Strategy};
use crate::text::texts;
use rand::rngs::ThreadRng;
use vstd::prelude::*;
use vstd::string::*;

verus! {

/// How often at most a first move is tried, and how often at most a
/// follow-up.
pub const ANNEALING_ROUNDS: usize = 1000;

/// No position value is as large as this, or as small as its negative.
pub const VALUE_LIMIT: i128 = 0x2_0000_0000_0000_0000_0000_0000;

/// The progress feature: the attack weight over the steps to the next row
/// and a tenth, rounded down.
pub open spec fn progress_term(w: Weights, steps: nat) -> int {
    (10 * w.attack) / (10 * steps + 1) as int
}

/// The value of a position for `player`, in ten-thousandths: the weighted
/// sum of how much farther the opponent is from its goal row, of the
/// player's progress to its next row, and of how many more walls the player
/// has left than the opponent.
pub open spec fn position_value(pos: Position, w: Weights, player: Player) -> int {
    let rival = player.other();
    w.distance * (pos.steps_to_goal(rival) - pos.steps_to_goal(player)) + progress_term(
        w,
        pos.steps_to_next_row(player),
    ) + w.defence * (pos.stock(player) - pos.stock(rival))
}

/// A product stays within the product of the bounds of its factors.
proof fn lemma_product_bound(a: int, b: int, most_a: int, most_b: int)
    by (nonlinear_arith)
    requires
        0 <= a <= most_a,
        -most_b <= b <= most_b,
    ensures
        -(most_a * most_b) <= a * b <= most_a * most_b,
{
}

/// A share of a number that is not negative lies between nothing and the
/// number.
proof fn lemma_share_bound(a: int, b: int)
    by (nonlinear_arith)
    requires
        0 <= a,
        0 < b,
    ensures
        0 <= a / b <= a,
{
}

/// The value of `game` for `player`.
pub fn evaluate_position_with(game: &Quoridor, w: Weights, player: Player) -> (score: i128)
    requires
        game.wf(),
    ensures
        score == position_value(game@, w, player),
        -VALUE_LIMIT < score < VALUE_LIMIT,
{
    let rival = player.opponent();
    let own = game.distance_to_goal(player) as i128;
    let other = game.distance_to_goal(rival) as i128;
    let next = game.moves_to_next_row(player) as i128;
    let own_walls = game.walls_available(player) as i128;
    let other_walls = game.walls_available(rival) as i128;
    let d: i128 = other - own;
    let s: i128 = own_walls - other_walls;
    let wd = w.distance as i128;
    let wa = w.attack as i128;
    let ws = w.defence as i128;
    proof {
        lemma_product_bound(wd as int, d as int, 0x1_0000_0000, 100);
        lemma_product_bound(ws as int, s as int, 0x1_0000_0000, 0x1_0000_0000_0000_0000);
        lemma_share_bound(10 * wa, 10 * next + 1);
    }
    let first: i128 = wd * d;
    let second: i128 = (10 * wa) / (10 * next + 1);
    let third: i128 = ws * s;
    first + second + third
}

/// What the annealing player answers: a winning pawn move if the pawn has
/// one, otherwise some legal move, and nothing only when there is no legal
/// move.
pub open spec fn is_annealed_choice(pos: Position, chosen: Option<Seq<char>>) -> bool {
    match chosen {
        None => forall|text: Seq<char>| !pos.names_legal(text),
        Some(text) => {
            &&& pos.names_legal(text)
            &&& (exists|other: Seq<char>| #[trigger] pos.names_move(pos.active, other) && wins(pos, other))
                ==> pos.names_move(pos.active, text) && wins(pos, text)
        },
    }
}

/// The legal moves of `player`, pawn moves and walls apart.
fn moves_of(game: &Quoridor, player: Player) -> (lists: (Vec<String>, Vec<String>))
    requires
        game.wf(),
    ensures
        forall|text: Seq<char>| listed(lists.0@, text) <==> game@.names_move(player, text),
        forall|text: Seq<char>| listed(lists.1@, text) <==> game@.names_wall(player, text),
{
    (game.get_legal_moves(player), game.get_legal_walls(player))
}

/// A move drawn at random from two lists that are not both empty: with even
/// chances from the walls or from the pawn moves, and from the list that has
/// any if the other is empty.
fn draw(rng: &mut ThreadRng, pawn_moves: &Vec<String>, walls: &Vec<String>) -> (text: String)
    requires
        pawn_moves.len() + walls.len() > 0,
    ensures
        listed(pawn_moves@, text@) || listed(walls@, text@),
{
    let wall_wanted = random_chance(rng, 1, 2);
    if (wall_wanted && walls.len() > 0) || pawn_moves.len() == 0 {
        pick(walls, random_index(rng, walls.len()))
    } else {
        pick(pawn_moves, random_index(rng, pawn_moves.len()))
    }
}

/// The move of `moves` after which the position is worth least to `player`:
/// the reply that `player` has to fear most.
pub fn toughest_reply(game: &Quoridor, w: Weights, player: Player, moves: &Vec<String>) -> (text: String)
    requires
        game.wf(),
        moves.len() > 0,
        forall|t: Seq<char>| listed(moves@, t) ==> game@.names_legal(t),
    ensures
        listed(moves@, text@),
        forall|t: Seq<char>|
            listed(moves@, t) ==> position_value(game@.played(text@, false), w, player) <= #[trigger] position_value(
                game@.played(t, false),
                w,
                player,
            ),
{
    let ghost pos = game@;
    let mut best = pick(moves, 0);
    let mut best_score: i128 = i128::MAX;
    let mut i: usize = 0;
    while i < moves.len()
        invariant
            i <= moves.len(),
            game.wf(),
            pos == game@,
            forall|t: Seq<char>| listed(moves@, t) ==> pos.names_legal(t),
            listed(moves@, best@),
            i == 0 ==> best_score == i128::MAX,
            i > 0 ==> best_score == position_value(pos.played(best@, false), w, player),
            forall|j: int|
                0 <= j < i ==> best_score <= position_value(pos.played((#[trigger] moves[j])@, false), w, player),
        decreases moves.len() - i,
    {
        let text = pick(moves, i);
        proof {
            lemma_legal_move_played(pos, text@, false);
        }
        let mut trial = game.clone();
        let _ = trial.play(text.as_str(), false);
        let score = evaluate_position_with(&trial, w, player);
        if score < best_score {
            best_score = score;
            best = text;
        }
        i = i + 1;
    }
    proof {
        assert forall|t: Seq<char>| listed(moves@, t) implies position_value(pos.played(best@, false), w, player)
            <= #[trigger] position_value(pos.played(t, false), w, player) by {
            let j = choose|j: int| 0 <= j < moves.len() && (#[trigger] moves[j])@ == t;
            assert(best_score <= position_value(pos.played(moves[j]@, false), w, player));
        }
    }
    best
}

/// The clock after `ticks` ticks. It stops at the last time that it can
/// show.
pub open spec fn ticked(clock: usize, ticks: nat) -> usize {
    if clock + ticks <= usize::MAX {
        (clock + ticks) as usize
    } else {
        usize::MAX
    }
}

/// By how much the move `text` changes what `pos` is worth to `player`.
pub open spec fn value_change(pos: Position, w: Weights, player: Player, text: Seq<char>) -> int {
    position_value(pos.played(text, false), w, player) - position_value(pos, w, player)
}

/// Whether the move `text` passes at `time`: it betters the position for
/// `player`, or the acceptance test lets the change pass.
pub open spec fn passes<A: Fn(i128, usize) -> bool>(
    pos: Position,
    w: Weights,
    player: Player,
    accept: &A,
    text: Seq<char>,
    time: usize,
) -> bool {
    let change = value_change(pos, w, player, text);
    change > 0 || accept.ensures((change as i128, time), true)
}

/// Whether the legal move `text` is a follow-up that the `tried`-th try
/// finds at `time`, on a clock that showed `start` before the first try.
pub open spec fn is_follow_up<A: Fn(i128, usize) -> bool>(
    pos: Position,
    w: Weights,
    player: Player,
    accept: &A,
    text: Seq<char>,
    start: usize,
    tried: nat,
    time: usize,
) -> bool {
    &&& 1 <= tried <= ANNEALING_ROUNDS
    &&& time == ticked(start, tried)
    &&& pos.names_legal(text)
    &&& passes(pos, w, player, accept, text, time)
}

/// Whether a follow-up is found for `player` in `game`: a move drawn at
/// random that betters the position, or that the acceptance test lets pass.
/// The clock ticks once for every move that is tried, and the search ends
/// with the first move that passes; it gives up after `ANNEALING_ROUNDS`
/// tries, and at once where there is no legal move.
fn follow_up_found<A: Fn(i128, usize) -> bool>(
    game: &Quoridor,
    w: Weights,
    player: Player,
    accept: &A,
    clock: &mut usize,
    rng: &mut ThreadRng,
) -> (found: bool)
    requires
        game.wf(),
        player == game@.active,
        forall|d: i128, t: usize| #[trigger] accept.requires((d, t)),
    ensures
        found ==> exists|text: Seq<char>, tried: nat| #[trigger]
            is_follow_up(game@, w, player, accept, text, *old(clock), tried, *final(clock)),
        !found ==> *final(clock) == (if exists|text: Seq<char>| game@.names_legal(text) {
            ticked(*old(clock), ANNEALING_ROUNDS as nat)
        } else {
            *old(clock)
        }),
{
    let ghost pos = game@;
    let ghost start = *clock;
    let (pawn_moves, walls) = moves_of(game, player);
    if pawn_moves.len() == 0 && walls.len() == 0 {
        proof {
            assert forall|text: Seq<char>| !pos.names_legal(text) by {
                lemma_names_legal(pos, text);
                if pos.names_legal(text) {
                    assert(listed(pawn_moves@, text) || listed(walls@, text));
                }
            }
        }
        return false;
    }
    proof {
        let some = if pawn_moves.len() > 0 {
            pawn_moves[0]@
        } else {
            walls[0]@
        };
        lemma_names_legal(pos, some);
        if pawn_moves.len() > 0 {
            assert(listed(pawn_moves@, some));
        } else {
            assert(listed(walls@, some));
        }
        assert(pos.names_legal(some));
    }
    let now = evaluate_position_with(game, w, player);
    let mut round: usize = 0;
    while round < ANNEALING_ROUNDS
        invariant
            round <= ANNEALING_ROUNDS,
            game.wf(),
            pos == game@,
            player == pos.active,
            pawn_moves.len() + walls.len() > 0,
            forall|text: Seq<char>| listed(pawn_moves@, text) <==> pos.names_move(player, text),
            forall|text: Seq<char>| listed(walls@, text) <==> pos.names_wall(player, text),
            forall|d: i128, t: usize| #[trigger] accept.requires((d, t)),
            now == position_value(pos, w, player),
            -VALUE_LIMIT < now < VALUE_LIMIT,
            start == *old(clock),
            *clock == ticked(start, round as nat),
        decreases ANNEALING_ROUNDS - round,
    {
        *clock = clock.saturating_add(1);
        assert(*clock == ticked(start, (round + 1) as nat));
        let text = draw(rng, &pawn_moves, &walls);
        proof {
            lemma_names_legal(pos, text@);
            lemma_legal_move_played(pos, text@, false);
        }
        let mut trial = game.clone();
        let _ = trial.play(text.as_str(), false);
        let then = evaluate_position_with(&trial, w, player);
        let change = then - now;
        if change > 0 || accept(change, *clock) {
            assert(change == value_change(pos, w, player, text@));
            proof {
                let tried = (round + 1) as nat;
                assert(is_follow_up(pos, w, player, accept, text@, start, tried, *clock));
            }
            return true;
        }
        round = round + 1;
    }
    false
}

/// The annealing policy.
pub fn anneal_move<A: Fn(i128, usize) -> bool>(game: &Quoridor, w: Weights, accept: &A) -> (chosen: Option<String>)
    requires
        game.wf(),
        forall|d: i128, t: usize| #[trigger] accept.requires((d, t)),
    ensures
        is_annealed_choice(game@, text_of(chosen)),
{
    let ghost pos = game@;
    let player = game.active_player();
    let (pawn_moves, walls) = moves_of(game, player);
    if pawn_moves.len() == 0 && walls.len() == 0 {
        proof {
            assert forall|text: Seq<char>| !pos.names_legal(text) by {
                lemma_names_legal(pos, text);
                if pos.names_legal(text) {
                    assert(listed(pawn_moves@, text) || listed(walls@, text));
                }
            }
        }
        return None;
    }
    let mut i: usize = 0;
    while i < pawn_moves.len()
        invariant
            i <= pawn_moves.len(),
            game.wf(),
            pos == game@,
            forall|text: Seq<char>| listed(pawn_moves@, text) <==> pos.names_move(pos.active, text),
            forall|j: int| 0 <= j < i ==> !wins(pos, (#[trigger] pawn_moves[j])@),
        decreases pawn_moves.len() - i,
    {
        if game.win_check(pawn_moves[i].as_str()) {
            let text = pick(&pawn_moves, i);
            proof {
                lemma_names_legal(pos, text@);
            }
            return Some(text);
        }
        i = i + 1;
    }
    proof {
        assert forall|other: Seq<char>| #[trigger] pos.names_move(pos.active, other) implies !wins(pos, other) by {
            assert(listed(pawn_moves@, other));
            let j = choose|j: int| 0 <= j < pawn_moves.len() && (#[trigger] pawn_moves[j])@ == other;
        }
    }
    let here = evaluate_position_with(game, w, player);
    let mut rng = thread_rng();
    let mut outer_clock: usize = 1;
    let mut inner_clock: usize = 1;
    let mut round: usize = 0;
    while round < ANNEALING_ROUNDS
        invariant
            round <= ANNEALING_ROUNDS,
            game.wf(),
            pos == game@,
            player == pos.active,
            pawn_moves.len() + walls.len() > 0,
            forall|text: Seq<char>| listed(pawn_moves@, text) <==> pos.names_move(pos.active, text),
            forall|text: Seq<char>| listed(walls@, text) <==> pos.names_wall(pos.active, text),
            forall|other: Seq<char>| #[trigger] pos.names_move(pos.active, other) ==> !wins(pos, other),
            forall|d: i128, t: usize| #[trigger] accept.requires((d, t)),
            -VALUE_LIMIT < here < VALUE_LIMIT,
        decreases ANNEALING_ROUNDS - round,
    {
        outer_clock = outer_clock.saturating_add(1);
        let first = draw(&mut rng, &pawn_moves, &walls);
        proof {
            lemma_names_legal(pos, first@);
            lemma_legal_move_played(pos, first@, false);
        }
        let mut after_first = game.clone();
        let _ = after_first.play(first.as_str(), false);
        let replies = after_first.get_all_legal_moves();
        if replies.len() == 0 {
            return Some(first);
        }
        let reply = toughest_reply(&after_first, w, player, &replies);
        proof {
            lemma_legal_move_played(after_first@, reply@, false);
        }
        let gained = evaluate_position_with(&after_first, w, player) - here;
        let mut after_reply = after_first;
        let _ = after_reply.play(reply.as_str(), false);
        if follow_up_found(&after_reply, w, player, accept, &mut inner_clock, &mut rng) {
            if gained > 0 || accept(gained, outer_clock) {
                return Some(first);
            }
        }
        round = round + 1;
    }
    let all = game.get_all_legal_moves();
    proof {
        let some = if pawn_moves.len() > 0 {
            pawn_moves[0]@
        } else {
            walls[0]@
        };
        lemma_names_legal(pos, some);
        if pawn_moves.len() > 0 {
            assert(listed(pawn_moves@, some));
        } else {
            assert(listed(walls@, some));
        }
        assert(listed(all@, some));
    }
    Some(pick(&all, random_index(&mut rng, all.len())))
}


/// How a time factor given in tenths is written: `15` as `1.5`, `10` as `1`.
pub open spec fn factor_text(tenths: nat) -> Seq<char> {
    if tenths % 10 == 0 {
        decimal(tenths / 10)
    } else {
        decimal(tenths / 10) + seq!['.', digit_char(tenths % 10)]
    }
}

/// Writes a time factor given in tenths.
pub fn write_factor(tenths: u32) -> (text: String)
    ensures
        text@ == factor_text(tenths as nat),
{
    let mut text = write_number((tenths / 10) as usize);
    let rest = tenths % 10;
    if rest != 0 {
        text.push('.');
        text.push((48u8 + rest as u8) as char);
        assert(text@ =~= factor_text(tenths as nat));
    }
    text
}

/// Plays a scripted opening, then the annealing policy. `A` is the
/// acceptance test: asked with a loss in score, in ten-thousandths, and the
/// time that has passed, it says whether the loss is accepted.
pub struct SimulatedAnnealingStrategy<A: Fn(i128, usize) -> bool> {
    base: QuoridorStrategy,
    weights: Weights,
    accept: A,
}

impl<A: Fn(i128, usize) -> bool> SimulatedAnnealingStrategy<A> {
    /// The name and the scripted opening.
    pub closed spec fn base(&self) -> QuoridorStrategy {
        self.base
    }

    /// How the player weighs the features of a position.
    pub closed spec fn weights(&self) -> Weights {
        self.weights
    }

    /// The acceptance test answers whatever it is asked.
    pub closed spec fn accepts_any_question(&self) -> bool {
        forall|d: i128, t: usize| #[trigger] self.accept.requires((d, t))
    }

    /// A player with the standard weights. Its name is `SimulatedAnnealing`
    /// followed by the time factor, which is given in tenths.
    pub fn new(opening_name: &str, opening_moves: Vec<String>, time_factor_tenths: u32, accept: A) -> (strategy: Self)
        requires
            forall|d: i128, t: usize| #[trigger] accept.requires((d, t)),
        ensures
            strategy.ready(),
            strategy.accepts_any_question(),
            strategy.weights() == (Weights { distance: 6001, attack: 144500, defence: 65200 }),
            strategy.base().book() == texts(opening_moves@),
            strategy.base().used() == 0,
            strategy.base().title() == (if opening_moves.len() == 0 {
                "SimulatedAnnealing"@ + factor_text(time_factor_tenths as nat)
            } else {
                "SimulatedAnnealing"@ + factor_text(time_factor_tenths as nat) + seq!['-'] + opening_name@
            }),
    {
        let mut name = "SimulatedAnnealing".to_owned();
        name.append(write_factor(time_factor_tenths).as_str());
        SimulatedAnnealingStrategy {
            base: QuoridorStrategy::new(name.as_str(), opening_name, opening_moves),
            weights: standard_weights(),
            accept,
        }
    }

    /// The value of `game` for `player`.
    pub fn evaluate_position(&self, game: &Quoridor, player: Player) -> (score: i128)
        requires
            game.wf(),
        ensures
            score == position_value(game@, self.weights(), player),
    {
        evaluate_position_with(game, self.weights, player)
    }
}

impl<A: Fn(i128, usize) -> bool> Strategy for SimulatedAnnealingStrategy<A> {
    open spec fn ready(&self) -> bool {
        self.accepts_any_question()
    }

    open spec fn title(&self) -> Seq<char> {
        self.base().title()
    }

    /// The name under which the strategy plays.
    fn name(&self) -> (text: String) {
        self.base.name()
    }

    /// The scripted move if one is due and legal; otherwise the annealing
    /// policy's answer.
    fn choose_move(&mut self, game: &Quoridor) -> (chosen: Option<String>)
        ensures
            final(self).base().book() == old(self).base().book(),
            match old(self).base().scripted(game@) {
                Some(text) => text_of(chosen) == Some(text),
                None => is_annealed_choice(game@, text_of(chosen)),
            },
    {
        proof {
            reveal(Position::names_legal);
        }
        if let Some(move_str) = self.base.try_opening_move(game) {
            return Some(move_str);
        }
        let chosen = anneal_move(game, self.weights, &self.accept);
        proof {
            if chosen is None {
                assert forall|text: Seq<char>| !game@.names_move(game@.active, text) by {
                    assert(!game@.names_legal(text));
                }
            }
        }
        chosen
    }
}

} // verus!
