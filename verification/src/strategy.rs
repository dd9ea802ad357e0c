//! Players: what every strategy promises, the opening book they share, and
//! the simple strategies.

use crate::chance::{random_chance, random_index, thread_rng};
use crate::game::Quoridor;
use crate::notation::{parse_cell, same_text};
use crate::position::{lemma_legal_move_played, lemma_names_legal, listed, Position};
use crate::text::texts;
use vstd::prelude::*;
use vstd::string::*;

verus! {

/// The capability of choosing a move.
pub trait Strategy {
    /// The strategy can be asked for a move.
    spec fn ready(&self) -> bool;

    /// The name under which the strategy plays.
    spec fn title(&self) -> Seq<char>;

    /// The name under which the strategy plays.
    fn name(&self) -> (text: String)
        ensures
            text@ == self.title(),
    ;

    /// Chooses a move for the player whose turn it is. Every strategy
    /// answers with a move that the rules allow, and answers with nothing
    /// only when the pawn cannot move.
    fn choose_move(&mut self, game: &Quoridor) -> (chosen: Option<String>)
        requires
            old(self).ready(),
            game.wf(),
        ensures
            final(self).ready(),
            final(self).title() == old(self).title(),
            chosen is Some ==> game@.names_legal(chosen->0@),
            chosen is None ==> forall|text: Seq<char>| !game@.names_move(game@.active, text),
    ;
}

/// A strategy in a box is the strategy.
impl<T: Strategy + ?Sized> Strategy for Box<T> {
    open spec fn ready(&self) -> bool {
        (**self).ready()
    }

    open spec fn title(&self) -> Seq<char> {
        (**self).title()
    }

    /// The name under which the strategy plays.
    fn name(&self) -> (text: String) {
        (**self).name()
    }

    /// What the strategy in the box chooses.
    fn choose_move(&mut self, game: &Quoridor) -> (chosen: Option<String>) {
        (**self).choose_move(game)
    }
}

/// The move that wins the game on the spot: it takes the active player's pawn
/// to its goal row.
pub open spec fn wins(pos: Position, text: Seq<char>) -> bool {
    match parse_cell(pos.size, text) {
        Ok(cell) => cell.0 == pos.goal_row(pos.active),
        Err(_) => false,
    }
}

/// How far the mover is from its goal row once it has made the move `text`.
pub open spec fn own_steps_after(pos: Position, text: Seq<char>) -> nat {
    pos.played(text, false).steps_to_goal(pos.active)
}

/// How far the mover's opponent is from its goal row once the mover has made
/// the move `text`.
pub open spec fn rival_steps_after(pos: Position, text: Seq<char>) -> nat {
    pos.played(text, false).steps_to_goal(pos.active.other())
}

/// `text` is a pawn move that races for the goal: a winning move if the
/// pawn has one, and otherwise a move after which the pawn is as close to
/// its goal row as any pawn move can bring it.
pub open spec fn is_race_move(pos: Position, text: Seq<char>) -> bool {
    &&& pos.names_move(pos.active, text)
    &&& wins(pos, text) || forall|other: Seq<char>| #[trigger]
        pos.names_move(pos.active, other) ==> !wins(pos, other) && own_steps_after(pos, text) <= own_steps_after(
            pos,
            other,
        )
}

/// What a racing player answers: a racing pawn move, or nothing when the
/// pawn cannot move.
pub open spec fn is_race_choice(pos: Position, chosen: Option<Seq<char>>) -> bool {
    match chosen {
        Some(text) => is_race_move(pos, text),
        None => forall|text: Seq<char>| !pos.names_move(pos.active, text),
    }
}

/// `text` is a wall that the active player may place and that lengthens the
/// opponent's shortest way to its goal row.
pub open spec fn is_blocking_wall(pos: Position, text: Seq<char>) -> bool {
    pos.names_wall(pos.active, text) && rival_steps_after(pos, text) > pos.steps_to_goal(pos.active.other())
}

/// What a defending player answers: a blocking wall, or else what a racing
/// player answers.
pub open spec fn is_defence_choice(pos: Position, chosen: Option<Seq<char>>) -> bool {
    ||| chosen is Some && is_blocking_wall(pos, chosen->0)
    ||| is_race_choice(pos, chosen)
}

/// The view of an optional text.
pub open spec fn text_of(chosen: Option<String>) -> Option<Seq<char>> {
    match chosen {
        Some(text) => Some(text@),
        None => None,
    }
}

/// Whether `text` is one of `list`.
pub fn is_listed(list: &Vec<String>, text: &str) -> (found: bool)
    ensures
        found == listed(list@, text@),
{
    let mut i: usize = 0;
    while i < list.len()
        invariant
            i <= list.len(),
            forall|j: int| 0 <= j < i ==> (#[trigger] list[j])@ != text@,
        decreases list.len() - i,
    {
        if same_text(list[i].as_str(), text) {
            return true;
        }
        i = i + 1;
    }
    false
}

/// What the strategies share: a name and a scripted opening.
pub struct QuoridorStrategy {
    name: String,
    opening_moves: Vec<String>,
    move_counter: usize,
}

impl QuoridorStrategy {
    /// The name under which the strategy plays.
    pub closed spec fn title(&self) -> Seq<char> {
        self.name@
    }

    /// The scripted opening moves, in the order they are to be played.
    pub closed spec fn book(&self) -> Seq<Seq<char>> {
        texts(self.opening_moves@)
    }

    /// How many scripted moves have been used up.
    pub closed spec fn used(&self) -> nat {
        self.move_counter as nat
    }

    /// The scripted move that is played in `pos`: the next one of the book,
    /// if there is one left and the rules allow it.
    pub open spec fn scripted(&self, pos: Position) -> Option<Seq<char>> {
        if self.used() < self.book().len() && pos.names_legal(self.book()[self.used() as int]) {
            Some(self.book()[self.used() as int])
        } else {
            None
        }
    }

    /// A strategy called `name`, or `name-opening_name` when it plays a
    /// scripted opening.
    pub fn new(name: &str, opening_name: &str, opening_moves: Vec<String>) -> (base: QuoridorStrategy)
        ensures
            base.book() == texts(opening_moves@),
            base.used() == 0,
            base.title() == (if opening_moves.len() == 0 {
                name@
            } else {
                name@ + seq!['-'] + opening_name@
            }),
    {
        let mut full_name = name.to_owned();
        if opening_moves.len() > 0 {
            full_name.push('-');
            full_name.append(opening_name);
            assert(full_name@ =~= name@ + seq!['-'] + opening_name@);
        }
        QuoridorStrategy { name: full_name, opening_moves, move_counter: 0 }
    }

    /// The name under which the strategy plays.
    pub fn name(&self) -> (text: String)
        ensures
            text@ == self.title(),
    {
        self.name.clone()
    }

    /// Takes the next scripted move off the book and answers with it if the
    /// rules allow it now. A scripted move is used up whether it is played or
    /// not.
    pub fn try_opening_move(&mut self, game: &Quoridor) -> (chosen: Option<String>)
        requires
            game.wf(),
        ensures
            final(self).title() == old(self).title(),
            final(self).book() == old(self).book(),
            final(self).used() == (if old(self).used() < old(self).book().len() {
                old(self).used() + 1
            } else {
                old(self).used()
            }),
            text_of(chosen) == old(self).scripted(game@),
    {
        if self.move_counter < self.opening_moves.len() {
            let move_str = self.opening_moves[self.move_counter].clone();
            self.move_counter = self.move_counter + 1;
            let legal = game.get_all_legal_moves();
            if is_listed(&legal, move_str.as_str()) {
                return Some(move_str);
            }
        }
        None
    }
}

/// A copy of the entry `index` of `list`.
pub fn pick(list: &Vec<String>, index: usize) -> (text: String)
    requires
        index < list.len(),
    ensures
        text@ == list[index as int]@,
        listed(list@, text@),
{
    list[index].clone()
}

/// The racing policy: the winning pawn move if there is one, else the pawn
/// move that brings the pawn closest to its goal row.
pub fn race_move(game: &Quoridor) -> (chosen: Option<String>)
    requires
        game.wf(),
    ensures
        is_race_choice(game@, text_of(chosen)),
{
    let ghost pos = game@;
    let moves = game.get_legal_moves(game.active_player());
    let player = game.active_player();
    let mut best: Option<String> = None;
    let mut best_distance: usize = usize::MAX;
    let mut i: usize = 0;
    while i < moves.len()
        invariant
            i <= moves.len(),
            game.wf(),
            pos == game@,
            player == pos.active,
            forall|text: Seq<char>| listed(moves@, text) <==> pos.names_move(pos.active, text),
            forall|j: int| 0 <= j < i ==> !wins(pos, (#[trigger] moves[j])@),
            forall|j: int| 0 <= j < i ==> best_distance <= own_steps_after(pos, (#[trigger] moves[j])@),
            i > 0 ==> best is Some,
            best is Some ==> listed(moves@, best->0@) && best_distance == own_steps_after(pos, best->0@),
        decreases moves.len() - i,
    {
        let text = pick(&moves, i);
        if game.win_check(text.as_str()) {
            return Some(text);
        }
        let mut trial = game.clone();
        let _ = trial.play(text.as_str(), false);
        let distance = trial.distance_to_goal(player);
        if distance < best_distance || best.is_none() {
            best_distance = distance;
            best = Some(text);
        }
        i = i + 1;
    }
    proof {
        if best is Some {
            let text = best->0@;
            assert forall|other: Seq<char>| #[trigger] pos.names_move(pos.active, other) implies !wins(pos, other)
                && own_steps_after(pos, text) <= own_steps_after(pos, other) by {
                assert(listed(moves@, other));
                let j = choose|j: int| 0 <= j < moves.len() && (#[trigger] moves[j])@ == other;
                assert(!wins(pos, moves[j]@));
            }
        } else {
            assert forall|text: Seq<char>| !pos.names_move(pos.active, text) by {
                if pos.names_move(pos.active, text) {
                    assert(listed(moves@, text));
                }
            }
        }
    }
    best
}

/// The defending policy: with a chance of `wall_preference` in a hundred,
/// and if any wall may be placed, one of the walls that lengthen the
/// opponent's way, chosen at random; otherwise, or when no wall does, the
/// racing policy.
pub fn defence_move(game: &Quoridor, wall_preference: u32) -> (chosen: Option<String>)
    requires
        game.wf(),
        wall_preference <= 100,
    ensures
        is_defence_choice(game@, text_of(chosen)),
        wall_preference == 0 ==> is_race_choice(game@, text_of(chosen)),
        wall_preference == 100 && (exists|text: Seq<char>| is_blocking_wall(game@, text)) ==> chosen is Some
            && is_blocking_wall(game@, chosen->0@),
{
    let ghost pos = game@;
    let player = game.active_player();
    let opponent = player.opponent();
    let walls = game.get_legal_walls(player);
    let mut rng = thread_rng();
    if walls.len() > 0 && random_chance(&mut rng, wall_preference, 100) {
        let rival_distance = game.distance_to_goal(opponent);
        let mut blocking: Vec<String> = Vec::new();
        let mut i: usize = 0;
        while i < walls.len()
            invariant
                i <= walls.len(),
                game.wf(),
                pos == game@,
                player == pos.active,
                opponent == player.other(),
                rival_distance == pos.steps_to_goal(opponent),
                forall|text: Seq<char>| listed(walls@, text) <==> pos.names_wall(pos.active, text),
                forall|j: int| 0 <= j < blocking.len() ==> is_blocking_wall(pos, (#[trigger] blocking[j])@),
                blocking.len() == 0 ==> forall|j: int| 0 <= j < i ==> !is_blocking_wall(pos, (#[trigger] walls[j])@),
            decreases walls.len() - i,
        {
            let text = pick(&walls, i);
            proof {
                lemma_names_legal(pos, text@);
                lemma_legal_move_played(pos, text@, false);
            }
            let mut trial = game.clone();
            let _ = trial.play(text.as_str(), false);
            let distance = trial.distance_to_goal(opponent);
            if distance > rival_distance {
                blocking.push(text);
            }
            i = i + 1;
        }
        if blocking.len() > 0 {
            let k = random_index(&mut rng, blocking.len());
            return Some(blocking[k].clone());
        }
        proof {
            assert forall|text: Seq<char>| !is_blocking_wall(pos, text) by {
                if is_blocking_wall(pos, text) {
                    assert(listed(walls@, text));
                    let j = choose|j: int| 0 <= j < walls.len() && (#[trigger] walls[j])@ == text;
                    assert(!is_blocking_wall(pos, walls[j]@));
                }
            }
        }
    } else {
        proof {
            if walls.len() == 0 {
                assert forall|text: Seq<char>| !is_blocking_wall(pos, text) by {
                    if is_blocking_wall(pos, text) {
                        assert(listed(walls@, text));
                    }
                }
            }
        }
    }
    race_move(game)
}

/// A chance in a hundred, capped at certainty.
pub fn percent(value: u32) -> (capped: u32)
    ensures
        capped == (if value > 100 {
            100
        } else {
            value as int
        }),
{
    if value > 100 {
        100
    } else {
        value
    }
}

/// Plays a scripted opening, then a move chosen at random among all that the
/// rules allow.
pub struct RandomStrategy {
    base: QuoridorStrategy,
}

impl RandomStrategy {
    /// The name and the scripted opening.
    pub closed spec fn base(&self) -> QuoridorStrategy {
        self.base
    }

    /// A player with the scripted opening `opening_moves`.
    pub fn new(opening_name: &str, opening_moves: Vec<String>) -> (strategy: RandomStrategy)
        ensures
            strategy.base().book() == texts(opening_moves@),
            strategy.base().used() == 0,
            strategy.base().title() == (if opening_moves.len() == 0 {
                "Random"@
            } else {
                "Random"@ + seq!['-'] + opening_name@
            }),
    {
        RandomStrategy { base: QuoridorStrategy::new("Random", opening_name, opening_moves) }
    }
}

impl Strategy for RandomStrategy {
    open spec fn ready(&self) -> bool {
        true
    }

    open spec fn title(&self) -> Seq<char> {
        self.base().title()
    }

    /// The name under which the strategy plays.
    fn name(&self) -> (text: String) {
        self.base.name()
    }

    /// The scripted move if one is due and legal; otherwise any legal move,
    /// and nothing only when there is no legal move at all.
    fn choose_move(&mut self, game: &Quoridor) -> (chosen: Option<String>)
        ensures
            final(self).base().book() == old(self).base().book(),
            old(self).base().scripted(game@) is Some ==> text_of(chosen) == old(self).base().scripted(game@),
            chosen is None <==> forall|text: Seq<char>| !game@.names_legal(text),
    {
        proof {
            reveal(Position::names_legal);
        }
        if let Some(move_str) = self.base.try_opening_move(game) {
            return Some(move_str);
        }
        let moves = game.get_all_legal_moves();
        if moves.len() == 0 {
            assert forall|text: Seq<char>| !game@.names_legal(text) by {
                if game@.names_legal(text) {
                    assert(listed(moves@, text));
                }
            }
            assert forall|text: Seq<char>| !game@.names_move(game@.active, text) by {
                assert(!game@.names_legal(text));
            }
            None
        } else {
            let mut rng = thread_rng();
            let k = random_index(&mut rng, moves.len());
            let text = pick(&moves, k);
            Some(text)
        }
    }
}

/// Plays a scripted opening, then races for the goal.
pub struct ShortestPathStrategy {
    base: QuoridorStrategy,
}

impl ShortestPathStrategy {
    /// The name and the scripted opening.
    pub closed spec fn base(&self) -> QuoridorStrategy {
        self.base
    }

    /// A player with the scripted opening `opening_moves`.
    pub fn new(opening_name: &str, opening_moves: Vec<String>) -> (strategy: ShortestPathStrategy)
        ensures
            strategy.base().book() == texts(opening_moves@),
            strategy.base().used() == 0,
            strategy.base().title() == (if opening_moves.len() == 0 {
                "ShortestPath"@
            } else {
                "ShortestPath"@ + seq!['-'] + opening_name@
            }),
    {
        ShortestPathStrategy { base: QuoridorStrategy::new("ShortestPath", opening_name, opening_moves) }
    }
}

impl Strategy for ShortestPathStrategy {
    open spec fn ready(&self) -> bool {
        true
    }

    open spec fn title(&self) -> Seq<char> {
        self.base().title()
    }

    /// The name under which the strategy plays.
    fn name(&self) -> (text: String) {
        self.base.name()
    }

    /// The scripted move if one is due and legal; otherwise the racing
    /// policy's answer.
    fn choose_move(&mut self, game: &Quoridor) -> (chosen: Option<String>)
        ensures
            final(self).base().book() == old(self).base().book(),
            match old(self).base().scripted(game@) {
                Some(text) => text_of(chosen) == Some(text),
                None => is_race_choice(game@, text_of(chosen)),
            },
    {
        proof {
            reveal(Position::names_legal);
        }
        if let Some(move_str) = self.base.try_opening_move(game) {
            return Some(move_str);
        }
        race_move(game)
    }
}

/// Plays a scripted opening, then defends with walls as often as its wall
/// preference says, and races otherwise.
pub struct DefensiveStrategy {
    base: QuoridorStrategy,
    wall_preference: u32,
}

impl DefensiveStrategy {
    /// The name and the scripted opening.
    pub closed spec fn base(&self) -> QuoridorStrategy {
        self.base
    }

    /// The chance in a hundred of looking for a wall first.
    pub closed spec fn preference(&self) -> u32 {
        self.wall_preference
    }

    /// `wall_preference` is a chance in a hundred; more than a hundred counts
    /// as certainty.
    pub fn new(opening_name: &str, opening_moves: Vec<String>, wall_preference: u32) -> (strategy: DefensiveStrategy)
        ensures
            strategy.preference() <= 100,
            strategy.preference() == (if wall_preference > 100 {
                100
            } else {
                wall_preference as int
            }),
            strategy.base().book() == texts(opening_moves@),
            strategy.base().used() == 0,
            strategy.base().title() == (if opening_moves.len() == 0 {
                "Defensive"@
            } else {
                "Defensive"@ + seq!['-'] + opening_name@
            }),
    {
        DefensiveStrategy {
            base: QuoridorStrategy::new("Defensive", opening_name, opening_moves),
            wall_preference: percent(wall_preference),
        }
    }
}

impl Strategy for DefensiveStrategy {
    open spec fn ready(&self) -> bool {
        self.preference() <= 100
    }

    open spec fn title(&self) -> Seq<char> {
        self.base().title()
    }

    /// The name under which the strategy plays.
    fn name(&self) -> (text: String) {
        self.base.name()
    }

    /// The scripted move if one is due and legal; otherwise the defending
    /// policy's answer.
    fn choose_move(&mut self, game: &Quoridor) -> (chosen: Option<String>)
        ensures
            final(self).base().book() == old(self).base().book(),
            final(self).preference() == old(self).preference(),
            match old(self).base().scripted(game@) {
                Some(text) => text_of(chosen) == Some(text),
                None => is_defence_choice(game@, text_of(chosen)),
            },
    {
        proof {
            reveal(Position::names_legal);
        }
        if let Some(move_str) = self.base.try_opening_move(game) {
            return Some(move_str);
        }
        defence_move(game, self.wall_preference)
    }
}

/// Plays a scripted opening, then defends or races by the toss of a weighted
/// coin.
pub struct BalancedStrategy {
    base: QuoridorStrategy,
    defense_weight: u32,
}

impl BalancedStrategy {
    /// The name and the scripted opening.
    pub closed spec fn base(&self) -> QuoridorStrategy {
        self.base
    }

    /// The chance in a hundred of defending.
    pub closed spec fn weight(&self) -> u32 {
        self.defense_weight
    }

    /// `defense_weight` is a chance in a hundred; more than a hundred counts
    /// as certainty.
    pub fn new(opening_name: &str, opening_moves: Vec<String>, defense_weight: u32) -> (strategy: BalancedStrategy)
        ensures
            strategy.weight() == (if defense_weight > 100 {
                100
            } else {
                defense_weight as int
            }),
            strategy.base().book() == texts(opening_moves@),
            strategy.base().used() == 0,
            strategy.base().title() == (if opening_moves.len() == 0 {
                "Balanced"@
            } else {
                "Balanced"@ + seq!['-'] + opening_name@
            }),
    {
        BalancedStrategy {
            base: QuoridorStrategy::new("Balanced", opening_name, opening_moves),
            defense_weight: percent(defense_weight),
        }
    }
}

impl Strategy for BalancedStrategy {
    open spec fn ready(&self) -> bool {
        self.weight() <= 100
    }

    open spec fn title(&self) -> Seq<char> {
        self.base().title()
    }

    /// The name under which the strategy plays.
    fn name(&self) -> (text: String) {
        self.base.name()
    }

    /// The scripted move if one is due and legal; otherwise, with a chance of
    /// the defence weight and if the player has a wall left, a blocking wall
    /// if there is one; in every other case the racing policy's answer.
    fn choose_move(&mut self, game: &Quoridor) -> (chosen: Option<String>)
        ensures
            final(self).base().book() == old(self).base().book(),
            final(self).weight() == old(self).weight(),
            match old(self).base().scripted(game@) {
                Some(text) => text_of(chosen) == Some(text),
                None => is_defence_choice(game@, text_of(chosen)) && (old(self).weight() == 0 || game@.stock(
                    game@.active,
                ) == 0 ==> is_race_choice(game@, text_of(chosen))),
            },
    {
        proof {
            reveal(Position::names_legal);
        }
        if let Some(move_str) = self.base.try_opening_move(game) {
            return Some(move_str);
        }
        let player = game.active_player();
        let mut rng = thread_rng();
        if random_chance(&mut rng, self.defense_weight, 100) && game.walls_available(player) > 0 {
            defence_move(game, 100)
        } else {
            race_move(game)
        }
    }
}

/// Plays a scripted opening, then races when it is ahead and defends when it
/// is not.
pub struct AdaptiveStrategy {
    base: QuoridorStrategy,
}

/// The wall preference, in a hundred, of a player that defends because it
/// is not ahead.
pub const ADAPTIVE_WALL_PREFERENCE: u32 = 70;

/// What an adapting player answers: the racing policy's answer when its pawn
/// is closer to its goal row than the opponent's, and the defending policy's
/// answer otherwise.
pub open spec fn is_adaptive_choice(pos: Position, chosen: Option<Seq<char>>) -> bool {
    if pos.steps_to_goal(pos.active) < pos.steps_to_goal(pos.active.other()) {
        is_race_choice(pos, chosen)
    } else {
        is_defence_choice(pos, chosen)
    }
}

/// The adapting policy.
pub fn adaptive_move(game: &Quoridor) -> (chosen: Option<String>)
    requires
        game.wf(),
    ensures
        is_adaptive_choice(game@, text_of(chosen)),
{
    let player = game.active_player();
    let own = game.distance_to_goal(player);
    let rival = game.distance_to_goal(player.opponent());
    if own < rival {
        race_move(game)
    } else {
        defence_move(game, ADAPTIVE_WALL_PREFERENCE)
    }
}

impl AdaptiveStrategy {
    /// The name and the scripted opening.
    pub closed spec fn base(&self) -> QuoridorStrategy {
        self.base
    }

    /// A player with the scripted opening `opening_moves`.
    pub fn new(opening_name: &str, opening_moves: Vec<String>) -> (strategy: AdaptiveStrategy)
        ensures
            strategy.base().book() == texts(opening_moves@),
            strategy.base().used() == 0,
            strategy.base().title() == (if opening_moves.len() == 0 {
                "Adaptive"@
            } else {
                "Adaptive"@ + seq!['-'] + opening_name@
            }),
    {
        AdaptiveStrategy { base: QuoridorStrategy::new("Adaptive", opening_name, opening_moves) }
    }
}

impl Strategy for AdaptiveStrategy {
    open spec fn ready(&self) -> bool {
        true
    }

    open spec fn title(&self) -> Seq<char> {
        self.base().title()
    }

    /// The name under which the strategy plays.
    fn name(&self) -> (text: String) {
        self.base.name()
    }

    /// The scripted move if one is due and legal; otherwise the adapting
    /// policy's answer.
    fn choose_move(&mut self, game: &Quoridor) -> (chosen: Option<String>)
        ensures
            final(self).base().book() == old(self).base().book(),
            match old(self).base().scripted(game@) {
                Some(text) => text_of(chosen) == Some(text),
                None => is_adaptive_choice(game@, text_of(chosen)),
            },
    {
        proof {
            reveal(Position::names_legal);
        }
        if let Some(move_str) = self.base.try_opening_move(game) {
            return Some(move_str);
        }
        adaptive_move(game)
    }
}

} // verus!
