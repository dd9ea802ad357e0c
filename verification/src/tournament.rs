//! Matches between strategies: games played out move by move, and the
//! count of who won them.
//!
//! A strategy is made from its name by a factory that the tournament is
//! handed, once for every game and seat.

use crate::game::Quoridor;
use crate::laws::position_after;
use crate::notation::{same_text, ParseError, MAX_SIZE};
use crate::openings::views;
use crate::player::Player;
use crate::position::Position;
use crate::roster::{
    fixtures, lemma_schedule_len, match_list, opening_names, schedule, strategy_names, tournament_openings,
    tournament_strategies,
};
use crate::strategy::{wins, Strategy};
use vstd::prelude::*;
use vstd::string::*;

verus! {

/// After how many moves a game that nobody has won is called a draw.
pub const MATCH_MOVES: usize = 150;

/// One of the two seats at the board.
#[derive(Debug, Clone, Copy, PartialEq, Eq, Structural)]
pub enum Seat {
    /// The seat of the player who moves first.
    First,
    /// The seat of the player who moves second.
    Second,
}

/// How a game ended.
#[derive(Debug, Clone, Copy, PartialEq, Eq, Structural)]
pub enum GameEnd {
    /// The player in this seat answered with a winning move.
    Won(Seat),
    /// The player in this seat was to move and had no answer, which loses
    /// the game.
    Stuck(Seat),
    /// Nobody had won when the game was called off.
    Drawn,
}

/// The outcome of a match between two strategies.
#[derive(Debug, Clone)]
pub struct TournamentResult {
    /// The name of the first strategy.
    pub strategy1: String,
    /// The name of the second strategy.
    pub strategy2: String,
    /// The name of the opening that both played.
    pub opening: String,
    /// Games that the first strategy won.
    pub strategy1_wins: usize,
    /// Games that the second strategy won.
    pub strategy2_wins: usize,
    /// Games that nobody won.
    pub draws: usize,
}

/// What came of one turn.
pub enum Turn {
    /// The player to move had no answer.
    NoAnswer,
    /// The player to move answered with a move that wins the game; the move
    /// was not made.
    Won(String),
    /// The answer was made on the board.
    Played(String),
    /// The game turned the answer down and stays as it was.
    TurnedDown(String),
}

/// Lets the player to move take its turn: `first` if `first_player` is to
/// move, `second` otherwise. A winning answer ends the game and is not made
/// on the board; any other answer is handed to the game with the rules
/// consulted. The game turns down no answer of a strategy that keeps the
/// contract of `choose_move`.
pub fn play_turn<A: Strategy, B: Strategy>(
    first: &mut A,
    second: &mut B,
    game: &mut Quoridor,
    first_player: Player,
) -> (turn: Turn)
    requires
        old(first).ready(),
        old(second).ready(),
        old(game).wf(),
    ensures
        final(first).ready(),
        final(second).ready(),
        final(game).wf(),
        final(game)@.size == old(game)@.size,
        old(game)@.both_reach_goal() ==> final(game)@.both_reach_goal(),
        match turn {
            Turn::NoAnswer => final(game)@ == old(game)@ && forall|text: Seq<char>|
                !old(game)@.names_move(old(game)@.active, text),
            Turn::Won(text) => final(game)@ == old(game)@ && old(game)@.names_legal(text@) && wins(old(game)@, text@),
            Turn::Played(text) => old(game)@.names_legal(text@) && !wins(old(game)@, text@) && final(game)@ == old(
                game,
            )@.played(text@, true) && final(game)@ != old(game)@,
            Turn::TurnedDown(_) => false,
        },
{
    let answer = if game.active_player() == first_player {
        first.choose_move(game)
    } else {
        second.choose_move(game)
    };
    let move_str = match answer {
        Some(move_str) => move_str,
        None => {
            return Turn::NoAnswer;
        },
    };
    if game.win_check(move_str.as_str()) {
        return Turn::Won(move_str);
    }
    match game.play(move_str.as_str(), true) {
        Ok(true) => Turn::Played(move_str),
        _ => Turn::TurnedDown(move_str),
    }
}

/// The seat of `player` in a game in which `first_player` moves first.
pub open spec fn seat_of(player: Player, first_player: Player) -> Seat {
    if player == first_player {
        Seat::First
    } else {
        Seat::Second
    }
}

/// Whether the moves of `line` can be made in turn from `pos` in a game
/// that goes on: each is legal where it is made, and none would have won
/// there.
pub open spec fn is_play(pos: Position, line: Seq<Seq<char>>) -> bool
    decreases line.len(),
{
    line.len() == 0 || {
        let before = position_after(pos, line.drop_last());
        &&& is_play(pos, line.drop_last())
        &&& before.names_legal(line.last())
        &&& !wins(before, line.last())
    }
}

/// Whether the game that `line` records, from `start` to `last`, ended with
/// `end`. A game is won or lost within `MATCH_MOVES` moves, by the player
/// who is to move in the last position: it wins if it has a winning move
/// there, and is stuck if it has no pawn move. A game in which more moves
/// than that were made is a draw.
pub open spec fn is_game(start: Position, line: Seq<Seq<char>>, last: Position, end: GameEnd) -> bool {
    &&& is_play(start, line)
    &&& last == position_after(start, line)
    &&& match end {
        GameEnd::Won(seat) => {
            &&& line.len() <= MATCH_MOVES
            &&& seat == seat_of(last.active, start.active)
            &&& exists|text: Seq<char>| #[trigger] last.names_legal(text) && wins(last, text)
        },
        GameEnd::Stuck(seat) => {
            &&& line.len() <= MATCH_MOVES
            &&& seat == seat_of(last.active, start.active)
            &&& forall|text: Seq<char>| !last.names_move(last.active, text)
        },
        GameEnd::Drawn => line.len() == MATCH_MOVES + 1,
    }
}

/// Plays one game to its end. A player who is to move and has no answer
/// is stuck and loses; a player whose answer is a winning move wins; a game
/// that lasts longer than `MATCH_MOVES` moves is a draw. An answer that the
/// game turns down counts as a move all the same. The player who is to move
/// when the game starts sits in the first seat.
pub fn play_game<A: Strategy, B: Strategy>(first: &mut A, second: &mut B, game: &mut Quoridor) -> (end: GameEnd)
    requires
        old(first).ready(),
        old(second).ready(),
        old(game).wf(),
    ensures
        final(first).ready(),
        final(second).ready(),
        final(game).wf(),
        final(game)@.size == old(game)@.size,
        old(game)@.both_reach_goal() ==> final(game)@.both_reach_goal(),
        exists|line: Seq<Seq<char>>| #[trigger] is_game(old(game)@, line, final(game)@, end),
{
    let ghost start = game@;
    let ghost line = Seq::<Seq<char>>::empty();
    let first_player = game.active_player();
    let mut move_count: usize = 0;
    while move_count <= MATCH_MOVES
        invariant
            move_count <= MATCH_MOVES + 1,
            first.ready(),
            second.ready(),
            game.wf(),
            start == old(game)@,
            first_player == start.active,
            game@.size == start.size,
            start.both_reach_goal() ==> game@.both_reach_goal(),
            line.len() == move_count,
            is_play(start, line),
            game@ == position_after(start, line),
        decreases MATCH_MOVES + 1 - move_count,
    {
        let seat = if game.active_player() == first_player {
            Seat::First
        } else {
            Seat::Second
        };
        match play_turn(first, second, game, first_player) {
            Turn::NoAnswer => {
                assert(is_game(start, line, game@, GameEnd::Stuck(seat)));
                return GameEnd::Stuck(seat);
            },
            Turn::Won(_) => {
                assert(is_game(start, line, game@, GameEnd::Won(seat)));
                return GameEnd::Won(seat);
            },
            Turn::Played(text) => {
                proof {
                    assert(line.push(text@).drop_last() =~= line);
                    line = line.push(text@);
                }
            },
            Turn::TurnedDown(_) => {},
        }
        move_count = move_count + 1;
    }
    assert(is_game(start, line, game@, GameEnd::Drawn));
    GameEnd::Drawn
}

/// Whether `outcome` records a match of `games` games between the
/// strategies and with the opening of `fixture`: it carries the three names,
/// and every game is counted once, as a win of either or as a draw.
pub open spec fn is_outcome_of(
    outcome: TournamentResult,
    fixture: (Seq<char>, Seq<char>, Seq<char>),
    games: nat,
) -> bool {
    &&& outcome.strategy1@ == fixture.0
    &&& outcome.strategy2@ == fixture.1
    &&& outcome.opening@ == fixture.2
    &&& outcome.strategy1_wins + outcome.strategy2_wins + outcome.draws == games
}

/// Whether `after` is `before` with an outcome added for each match of
/// `played`, in their order.
pub open spec fn records(
    before: Seq<TournamentResult>,
    after: Seq<TournamentResult>,
    played: Seq<(Seq<char>, Seq<char>, Seq<char>)>,
    games: nat,
) -> bool {
    &&& after.len() == before.len() + played.len()
    &&& after.subrange(0, before.len() as int) == before
    &&& forall|k: int| 0 <= k < played.len() ==> is_outcome_of(#[trigger] after[before.len() + k], played[k], games)
}

/// A series of matches on one kind of board.
pub struct Tournament {
    board_size: usize,
    walls: usize,
    games_per_match: usize,
    results: Vec<TournamentResult>,
}

impl Tournament {
    /// Rows and columns of the boards.
    pub closed spec fn board_size(&self) -> nat {
        self.board_size as nat
    }

    /// Walls that each player starts a game with.
    pub closed spec fn walls(&self) -> nat {
        self.walls as nat
    }

    /// How many games make a match.
    pub closed spec fn games_per_match(&self) -> nat {
        self.games_per_match as nat
    }

    /// The outcomes of the matches played so far.
    pub closed spec fn outcomes(&self) -> Seq<TournamentResult> {
        self.results@
    }

    /// A tournament in which no match has been played.
    pub fn new(board_size: usize, walls: usize, games_per_match: usize) -> (tournament: Tournament)
        ensures
            tournament.board_size() == board_size,
            tournament.walls() == walls,
            tournament.games_per_match() == games_per_match,
            tournament.outcomes().len() == 0,
    {
        Tournament { board_size, walls, games_per_match, results: Vec::new() }
    }

    /// The outcomes of the matches played so far.
    pub fn results(&self) -> (results: &Vec<TournamentResult>)
        ensures
            results@ == self.outcomes(),
    {
        &self.results
    }

    /// Hands the outcomes over.
    pub fn into_results(self) -> (results: Vec<TournamentResult>)
        ensures
            results@ == self.outcomes(),
    {
        self.results
    }

    /// Takes over outcomes of matches that were played elsewhere.
    pub fn set_results(&mut self, results: Vec<TournamentResult>)
        ensures
            final(self).outcomes() == results@,
            final(self).board_size() == old(self).board_size(),
            final(self).walls() == old(self).walls(),
            final(self).games_per_match() == old(self).games_per_match(),
    {
        self.results = results;
    }

    /// Plays a match of `games_per_match` games between two strategies and
    /// records its outcome. The strategies take turns at moving first, and
    /// each game starts on a fresh board with fresh strategies from
    /// `create_strategy`, which is told the strategy's name, the opening's
    /// name and the player. Every game is won by one of the two or drawn:
    /// a winning move counts for the strategy that goes by the mover's name,
    /// and a player that is stuck counts for the strategy that does not go
    /// by its name.
    ///
    /// Nothing is played or recorded on a board of a size that the engine
    /// does not play on.
    pub fn run_match<S: Strategy, F: Fn(String, String, Player) -> S>(
        &mut self,
        strategy1_name: &str,
        strategy2_name: &str,
        opening_name: &str,
        create_strategy: &F,
    ) -> (played: Result<(), ParseError>)
        requires
            forall|name: String, opening: String, seat: Player| #[trigger]
                create_strategy.requires((name, opening, seat)),
            forall|name: String, opening: String, seat: Player, made: S|
                #[trigger] create_strategy.ensures((name, opening, seat), made) ==> made.ready(),
        ensures
            final(self).board_size() == old(self).board_size(),
            final(self).walls() == old(self).walls(),
            final(self).games_per_match() == old(self).games_per_match(),
            played is Ok <==> 1 <= old(self).board_size() <= MAX_SIZE,
            played is Err ==> played == Err::<(), ParseError>(ParseError::BoardSize) && final(self).outcomes() == old(
                self,
            ).outcomes(),
            played is Ok ==> records(
                old(self).outcomes(),
                final(self).outcomes(),
                seq![(strategy1_name@, strategy2_name@, opening_name@)],
                old(self).games_per_match(),
            ),
    {
        if self.board_size < 1 || self.board_size > MAX_SIZE {
            return Err(ParseError::BoardSize);
        }
        let mut s1_wins: usize = 0;
        let mut s2_wins: usize = 0;
        let mut draws: usize = 0;
        let mut game_num: usize = 0;
        while game_num < self.games_per_match
            invariant
                game_num <= self.games_per_match,
                1 <= self.board_size <= MAX_SIZE,
                s1_wins + s2_wins + draws == game_num,
                forall|name: String, opening: String, seat: Player| #[trigger]
                    create_strategy.requires((name, opening, seat)),
                forall|name: String, opening: String, seat: Player, made: S|
                    #[trigger] create_strategy.ensures((name, opening, seat), made) ==> made.ready(),
            decreases self.games_per_match - game_num,
        {
            let first_name = if game_num % 2 == 0 { strategy1_name } else { strategy2_name };
            let second_name = if game_num % 2 == 0 { strategy2_name } else { strategy1_name };
            let name1 = first_name.to_owned();
            let name2 = second_name.to_owned();
            let opening1 = opening_name.to_owned();
            let opening2 = opening_name.to_owned();
            let mut first = create_strategy(name1, opening1, Player::Player1);
            let mut second = create_strategy(name2, opening2, Player::Player2);
            let mut game = Quoridor::fresh(self.board_size, self.walls);
            let end = play_game(&mut first, &mut second, &mut game);
            match end {
                GameEnd::Won(seat) => {
                    let winner = match seat {
                        Seat::First => first_name,
                        Seat::Second => second_name,
                    };
                    if same_text(winner, strategy1_name) {
                        s1_wins = s1_wins + 1;
                    } else {
                        s2_wins = s2_wins + 1;
                    }
                },
                GameEnd::Stuck(seat) => {
                    let loser = match seat {
                        Seat::First => first_name,
                        Seat::Second => second_name,
                    };
                    if same_text(loser, strategy1_name) {
                        s2_wins = s2_wins + 1;
                    } else {
                        s1_wins = s1_wins + 1;
                    }
                },
                GameEnd::Drawn => {
                    draws = draws + 1;
                },
            }
            game_num = game_num + 1;
        }
        let ghost before = self.results@;
        self.results.push(
            TournamentResult {
                strategy1: strategy1_name.to_owned(),
                strategy2: strategy2_name.to_owned(),
                opening: opening_name.to_owned(),
                strategy1_wins: s1_wins,
                strategy2_wins: s2_wins,
                draws,
            },
        );
        assert(self.results@.subrange(0, before.len() as int) =~= before);
        Ok(())
    }

    /// Plays the tournament: a match between every two of the strategies of
    /// `strategy_names()` with every one of the openings of
    /// `opening_names()`, a hundred and eight matches in all.
    pub fn run_tournament<S: Strategy, F: Fn(String, String, Player) -> S>(
        &mut self,
        create_strategy: &F,
    ) -> (played: Result<(), ParseError>)
        requires
            forall|name: String, opening: String, seat: Player| #[trigger]
                create_strategy.requires((name, opening, seat)),
            forall|name: String, opening: String, seat: Player, made: S|
                #[trigger] create_strategy.ensures((name, opening, seat), made) ==> made.ready(),
        ensures
            final(self).board_size() == old(self).board_size(),
            final(self).walls() == old(self).walls(),
            final(self).games_per_match() == old(self).games_per_match(),
            played is Ok <==> 1 <= old(self).board_size() <= MAX_SIZE,
            played is Err ==> played == Err::<(), ParseError>(ParseError::BoardSize) && final(self).outcomes() == old(
                self,
            ).outcomes(),
            played is Ok ==> records(
                old(self).outcomes(),
                final(self).outcomes(),
                schedule(tournament_strategies(), tournament_openings()),
                old(self).games_per_match(),
            ),
            played is Ok ==> final(self).outcomes().len() == old(self).outcomes().len() + 108,
    {
        let strategies = strategy_names();
        let openings = opening_names();
        proof {
            lemma_schedule_len(tournament_strategies(), tournament_openings());
            assert(tournament_strategies().len() == 9);
            assert(tournament_openings().len() == 3);
        }
        self.run_series(&strategies, &openings, create_strategy)
    }

    /// Plays a match between every two of `strategy_names` with every one
    /// of `opening_names`, and records the outcomes: the openings in turn,
    /// and with each opening every strategy against all that come after it
    /// in the list.
    pub fn run_series<S: Strategy, F: Fn(String, String, Player) -> S>(
        &mut self,
        strategy_names: &Vec<&'static str>,
        opening_names: &Vec<&'static str>,
        create_strategy: &F,
    ) -> (played: Result<(), ParseError>)
        requires
            forall|name: String, opening: String, seat: Player| #[trigger]
                create_strategy.requires((name, opening, seat)),
            forall|name: String, opening: String, seat: Player, made: S|
                #[trigger] create_strategy.ensures((name, opening, seat), made) ==> made.ready(),
        ensures
            final(self).board_size() == old(self).board_size(),
            final(self).walls() == old(self).walls(),
            final(self).games_per_match() == old(self).games_per_match(),
            played is Ok <==> 1 <= old(self).board_size() <= MAX_SIZE,
            played is Err ==> played == Err::<(), ParseError>(ParseError::BoardSize) && final(self).outcomes() == old(
                self,
            ).outcomes(),
            played is Ok ==> records(
                old(self).outcomes(),
                final(self).outcomes(),
                schedule(views(strategy_names@), views(opening_names@)),
                old(self).games_per_match(),
            ),
    {
        if self.board_size < 1 || self.board_size > MAX_SIZE {
            return Err(ParseError::BoardSize);
        }
        let list = match_list(strategy_names, opening_names);
        let ghost start = self.results@;
        let ghost games = self.games_per_match as nat;
        assert(self.results@.subrange(0, start.len() as int) =~= start);
        let mut done: usize = 0;
        while done < list.len()
            invariant
                done <= list.len(),
                1 <= self.board_size <= MAX_SIZE,
                self.board_size() == old(self).board_size(),
                self.walls() == old(self).walls(),
                self.games_per_match() == games,
                games == old(self).games_per_match(),
                start == old(self).outcomes(),
                records(start, self.results@, fixtures(list@).take(done as int), games),
                forall|name: String, opening: String, seat: Player| #[trigger]
                    create_strategy.requires((name, opening, seat)),
                forall|name: String, opening: String, seat: Player, made: S|
                    #[trigger] create_strategy.ensures((name, opening, seat), made) ==> made.ready(),
            decreases list.len() - done,
        {
            let ghost before = self.results@;
            let fixture = list[done];
            let _ = self.run_match(fixture.strategy1, fixture.strategy2, fixture.opening, create_strategy);
            proof {
                let after = self.results@;
                let played = fixtures(list@).take(done + 1);
                assert(after.subrange(0, before.len() as int) == before);
                assert(after.subrange(0, start.len() as int) =~= before.subrange(0, start.len() as int));
                assert forall|k: int| 0 <= k < played.len() implies is_outcome_of(
                    #[trigger] after[start.len() + k],
                    played[k],
                    games,
                ) by {
                    if k < done {
                        assert(after[start.len() + k] == after.subrange(0, before.len() as int)[start.len() + k]);
                        assert(played[k] == fixtures(list@).take(done as int)[k]);
                    } else {
                        assert(after[start.len() + k] == after[before.len() + 0int]);
                        assert(played[k] == fixture@);
                    }
                }
            }
            done = done + 1;
        }
        assert(fixtures(list@).take(done as int) =~= fixtures(list@));
        Ok(())
    }
}

} // verus!
