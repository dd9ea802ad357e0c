//! Who plays in a tournament: the strategies and the openings by name,
//! what a strategy's name asks for, and the list of the matches.

use crate::notation::same_text;
use crate::openings::views;
use crate::text::{has_prefix, number_or, read_number_or, rest, rest_of, starts_with, thousands, write_thousands};
use vstd::prelude::*;
use vstd::string::*;

verus! {

/// How much the defending player likes a wall, in percent.
pub const DEFENSIVE_WALL_PREFERENCE: u32 = 70;

/// How much weight the balanced player gives to defence, in percent.
pub const BALANCED_DEFENSE_WEIGHT: u32 = 50;

/// How deep a minimax player looks when its name does not say.
pub const MINIMAX_DEPTH: usize = 1;

/// How many games a Monte Carlo player simulates when its name does not
/// say.
pub const MONTE_CARLO_SIMULATIONS: usize = 10000;

/// What a strategy's name asks for.
#[derive(Debug, PartialEq, Eq)]
pub enum StrategyKind {
    /// A player that picks any legal move.
    Random,
    /// A player that runs for its goal.
    ShortestPath,
    /// A player that likes walls, by `DEFENSIVE_WALL_PREFERENCE`.
    Defensive,
    /// A player between running and blocking, by `BALANCED_DEFENSE_WEIGHT`.
    Balanced,
    /// A player that blocks when it is behind.
    Adaptive,
    /// A player that mirrors its opponent.
    Mirror,
    /// An annealing player; the text is what the name says of its time
    /// factor.
    SimulatedAnnealing(String),
    /// A minimax player that looks this deep.
    Minimax(usize),
    /// A Monte Carlo player that simulates this many games.
    MonteCarlo(usize),
}

/// What a strategy's name asks for, as plain values.
pub enum Plan {
    /// The random player.
    Random,
    /// The player that runs for its goal.
    ShortestPath,
    /// The player that likes walls.
    Defensive,
    /// The player between running and blocking.
    Balanced,
    /// The player that blocks when it is behind.
    Adaptive,
    /// The player that mirrors its opponent.
    Mirror,
    /// An annealing player, with what the name says of its time factor.
    SimulatedAnnealing(Seq<char>),
    /// A minimax player, with its depth.
    Minimax(usize),
    /// A Monte Carlo player, with its number of simulations.
    MonteCarlo(usize),
}

impl View for StrategyKind {
    type V = Plan;

    open spec fn view(&self) -> Plan {
        match self {
            StrategyKind::Random => Plan::Random,
            StrategyKind::ShortestPath => Plan::ShortestPath,
            StrategyKind::Defensive => Plan::Defensive,
            StrategyKind::Balanced => Plan::Balanced,
            StrategyKind::Adaptive => Plan::Adaptive,
            StrategyKind::Mirror => Plan::Mirror,
            StrategyKind::SimulatedAnnealing(factor) => Plan::SimulatedAnnealing(factor@),
            StrategyKind::Minimax(depth) => Plan::Minimax(*depth),
            StrategyKind::MonteCarlo(simulations) => Plan::MonteCarlo(*simulations),
        }
    }
}

/// What the name of a strategy asks for. Six players go by their full
/// name. An annealing, a minimax and a Monte Carlo player are known by how
/// their name begins, and the rest of the name is their setting: a time
/// factor, a depth, and a number of simulations in which `k` stands for a
/// thousand. Any other name asks for the random player.
pub open spec fn plan(name: Seq<char>) -> Plan {
    if name == "Random"@ {
        Plan::Random
    } else if name == "ShortestPath"@ {
        Plan::ShortestPath
    } else if name == "Defensive"@ {
        Plan::Defensive
    } else if name == "Balanced"@ {
        Plan::Balanced
    } else if name == "Adaptive"@ {
        Plan::Adaptive
    } else if name == "Mirror"@ {
        Plan::Mirror
    } else if has_prefix(name, "SimulatedAnnealing"@) {
        Plan::SimulatedAnnealing(rest(name, "SimulatedAnnealing"@.len()))
    } else if has_prefix(name, "Minimax"@) {
        Plan::Minimax(number_or(rest(name, "Minimax"@.len()), MINIMAX_DEPTH))
    } else if has_prefix(name, "MCTS"@) {
        Plan::MonteCarlo(number_or(thousands(rest(name, "MCTS"@.len())), MONTE_CARLO_SIMULATIONS))
    } else {
        Plan::Random
    }
}

/// Reads what the name of a strategy asks for.
pub fn strategy_kind(name: &str) -> (kind: StrategyKind)
    ensures
        kind@ == plan(name@),
{
    if same_text(name, "Random") {
        StrategyKind::Random
    } else if same_text(name, "ShortestPath") {
        StrategyKind::ShortestPath
    } else if same_text(name, "Defensive") {
        StrategyKind::Defensive
    } else if same_text(name, "Balanced") {
        StrategyKind::Balanced
    } else if same_text(name, "Adaptive") {
        StrategyKind::Adaptive
    } else if same_text(name, "Mirror") {
        StrategyKind::Mirror
    } else if starts_with(name, "SimulatedAnnealing") {
        StrategyKind::SimulatedAnnealing(rest_of(name, "SimulatedAnnealing".unicode_len()))
    } else if starts_with(name, "Minimax") {
        let depth = rest_of(name, "Minimax".unicode_len());
        StrategyKind::Minimax(read_number_or(depth.as_str(), MINIMAX_DEPTH))
    } else if starts_with(name, "MCTS") {
        let count = rest_of(name, "MCTS".unicode_len());
        let digits = write_thousands(count.as_str());
        StrategyKind::MonteCarlo(read_number_or(digits.as_str(), MONTE_CARLO_SIMULATIONS))
    } else {
        StrategyKind::Random
    }
}

/// The names of the strategies that a tournament sets against each other.
pub open spec fn tournament_strategies() -> Seq<Seq<char>> {
    seq![
        "Adaptive"@,
        "Minimax2"@,
        "Minimax3"@,
        "SimulatedAnnealing0.5"@,
        "SimulatedAnnealing1.0"@,
        "SimulatedAnnealing1.5"@,
        "SimulatedAnnealing2.0"@,
        "ProgressiveDeepening2"@,
        "ProgressiveDeepening3"@,
    ]
}

/// The names of the openings that a tournament is played with.
pub open spec fn tournament_openings() -> Seq<Seq<char>> {
    seq!["No Opening"@, "Sidewall Opening"@, "Standard Opening"@]
}

/// The strategies that a tournament sets against each other, by name.
pub fn strategy_names() -> (names: Vec<&'static str>)
    ensures
        views(names@) == tournament_strategies(),
{
    let names = vec![
        "Adaptive",
        "Minimax2",
        "Minimax3",
        "SimulatedAnnealing0.5",
        "SimulatedAnnealing1.0",
        "SimulatedAnnealing1.5",
        "SimulatedAnnealing2.0",
        "ProgressiveDeepening2",
        "ProgressiveDeepening3",
    ];
    assert(views(names@) =~= tournament_strategies());
    names
}

/// The openings that a tournament is played with, by name.
pub fn opening_names() -> (names: Vec<&'static str>)
    ensures
        views(names@) == tournament_openings(),
{
    let names = vec!["No Opening", "Sidewall Opening", "Standard Opening"];
    assert(views(names@) =~= tournament_openings());
    names
}

/// A match that is to be played: two strategies and an opening, by name.
#[derive(Debug, Clone, Copy)]
pub struct Fixture {
    /// The name of the first strategy.
    pub strategy1: &'static str,
    /// The name of the second strategy.
    pub strategy2: &'static str,
    /// The name of the opening that both play.
    pub opening: &'static str,
}

impl View for Fixture {
    type V = (Seq<char>, Seq<char>, Seq<char>);

    open spec fn view(&self) -> (Seq<char>, Seq<char>, Seq<char>) {
        (self.strategy1@, self.strategy2@, self.opening@)
    }
}

/// The view of each match in a list.
pub open spec fn fixtures(list: Seq<Fixture>) -> Seq<(Seq<char>, Seq<char>, Seq<char>)> {
    Seq::new(list.len(), |i: int| list[i]@)
}

/// The matches of the strategy at `i` against those that come after it in
/// `names`, in their order.
pub open spec fn rivals(names: Seq<Seq<char>>, opening: Seq<char>, i: int) -> Seq<(Seq<char>, Seq<char>, Seq<char>)> {
    if 0 <= i < names.len() {
        Seq::new((names.len() - i - 1) as nat, |k: int| (names[i], names[i + 1 + k], opening))
    } else {
        Seq::empty()
    }
}

/// The matches of the first `n` strategies, each against those that come
/// after it in `names`.
pub open spec fn pairings(names: Seq<Seq<char>>, opening: Seq<char>, n: nat) -> Seq<(Seq<char>, Seq<char>, Seq<char>)>
    decreases n,
{
    if n == 0 {
        Seq::empty()
    } else {
        pairings(names, opening, (n - 1) as nat) + rivals(names, opening, n - 1)
    }
}

/// The matches with the first `n` openings: for each opening in turn, every
/// strategy against all that come after it.
pub open spec fn rounds(names: Seq<Seq<char>>, openings: Seq<Seq<char>>, n: nat) -> Seq<
    (Seq<char>, Seq<char>, Seq<char>),
>
    decreases n,
{
    if n == 0 {
        Seq::empty()
    } else {
        rounds(names, openings, (n - 1) as nat) + pairings(names, openings[n - 1], names.len())
    }
}

/// All matches of a tournament: every two strategies meet once with every
/// opening.
pub open spec fn schedule(names: Seq<Seq<char>>, openings: Seq<Seq<char>>) -> Seq<(Seq<char>, Seq<char>, Seq<char>)> {
    rounds(names, openings, openings.len())
}

/// Lists the matches of a tournament between `strategy_names` with
/// `opening_names`.
pub fn match_list(strategy_names: &Vec<&'static str>, opening_names: &Vec<&'static str>) -> (list: Vec<Fixture>)
    ensures
        fixtures(list@) == schedule(views(strategy_names@), views(opening_names@)),
{
    let ghost names = views(strategy_names@);
    let ghost openings = views(opening_names@);
    let mut list: Vec<Fixture> = Vec::new();
    let mut o: usize = 0;
    assert(fixtures(list@) =~= rounds(names, openings, 0));
    while o < opening_names.len()
        invariant
            o <= opening_names.len(),
            names == views(strategy_names@),
            openings == views(opening_names@),
            fixtures(list@) == rounds(names, openings, o as nat),
        decreases opening_names.len() - o,
    {
        let ghost round = rounds(names, openings, o as nat);
        let ghost opening = openings[o as int];
        let mut i: usize = 0;
        assert(fixtures(list@) =~= round + pairings(names, opening, 0));
        while i < strategy_names.len()
            invariant
                i <= strategy_names.len(),
                o < opening_names.len(),
                names == views(strategy_names@),
                openings == views(opening_names@),
                opening == openings[o as int],
                fixtures(list@) == round + pairings(names, opening, i as nat),
            decreases strategy_names.len() - i,
        {
            let ghost done = round + pairings(names, opening, i as nat);
            let mut j: usize = i + 1;
            assert(fixtures(list@) =~= done + rivals(names, opening, i as int).take(0));
            while j < strategy_names.len()
                invariant
                    i < strategy_names.len(),
                    i < j <= strategy_names.len(),
                    o < opening_names.len(),
                    names == views(strategy_names@),
                    openings == views(opening_names@),
                    opening == openings[o as int],
                    fixtures(list@) == done + rivals(names, opening, i as int).take(j - i - 1),
                decreases strategy_names.len() - j,
            {
                let ghost before = fixtures(list@);
                list.push(
                    Fixture { strategy1: strategy_names[i], strategy2: strategy_names[j], opening: opening_names[o] },
                );
                assert(fixtures(list@) =~= before.push((names[i as int], names[j as int], opening)));
                assert(fixtures(list@) =~= done + rivals(names, opening, i as int).take(j - i));
                j = j + 1;
            }
            assert(rivals(names, opening, i as int).take(j - i - 1) =~= rivals(names, opening, i as int));
            assert(fixtures(list@) =~= round + pairings(names, opening, (i + 1) as nat));
            i = i + 1;
        }
        o = o + 1;
    }
    list
}

/// Every two of `n` strategies meet once with every opening: the schedule
/// has as many matches as there are openings times pairs of strategies.
pub proof fn lemma_schedule_len(names: Seq<Seq<char>>, openings: Seq<Seq<char>>)
    ensures
        2 * schedule(names, openings).len() == openings.len() * (names.len() * (names.len() - 1)),
{
    lemma_rounds_len(names, openings, openings.len());
}

/// The first `n` strategies have half of `n * (2 * names.len() - n - 1)`
/// matches against strategies that come after them.
proof fn lemma_pairings_len(names: Seq<Seq<char>>, opening: Seq<char>, n: nat)
    requires
        n <= names.len(),
    ensures
        2 * pairings(names, opening, n).len() == n * (2 * names.len() - n - 1),
    decreases n,
{
    let len = names.len() as int;
    if n > 0 {
        let m = n as int - 1;
        let before = pairings(names, opening, m as nat).len() as int;
        lemma_pairings_len(names, opening, m as nat);
        assert(pairings(names, opening, n).len() == before + (len - m - 1));
        assert((m + 1) * (2 * len - (m + 1) - 1) == 2 * (before + (len - m - 1))) by (nonlinear_arith)
            requires
                2 * before == m * (2 * len - m - 1),
        ;
    } else {
        assert(0 * (2 * len - 0 - 1) == 0) by (nonlinear_arith);
    }
}

/// The first `n` openings are played by every pair of strategies.
proof fn lemma_rounds_len(names: Seq<Seq<char>>, openings: Seq<Seq<char>>, n: nat)
    requires
        n <= openings.len(),
    ensures
        2 * rounds(names, openings, n).len() == n * (names.len() * (names.len() - 1)),
    decreases n,
{
    let len = names.len() as int;
    if n > 0 {
        let m = n as int - 1;
        let before = rounds(names, openings, m as nat).len() as int;
        let added = pairings(names, openings[m], names.len()).len() as int;
        lemma_rounds_len(names, openings, m as nat);
        lemma_pairings_len(names, openings[m], names.len());
        assert(rounds(names, openings, n).len() == before + added);
        assert((m + 1) * (len * (len - 1)) == 2 * (before + added)) by (nonlinear_arith)
            requires
                2 * before == m * (len * (len - 1)),
                2 * added == len * (2 * len - len - 1),
        ;
    } else {
        assert(0 * (len * (len - 1)) == 0) by (nonlinear_arith);
    }
}

} // verus!
