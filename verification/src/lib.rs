//! Quoridor: a rules engine for the two-player board game and a set of
//! automated players built on it.
//!
//! Two pawns race across a square grid toward opposite edges. A player may
//! spend a turn placing a wall instead of moving, as long as the wall leaves
//! both pawns a way to reach their goal rows.
//!
//! The rules are stated once, over plain values, in [`position`]; the
//! engine in [`game`] is proved to follow them, and [`laws`] and
//! [`snapshot`] hold what follows from them for every game. The players
//! are in [`strategy`], [`mirror`], [`minimax`], [`annealing`] and
//! [`mcts`]; each is proved to answer with a move that the rules allow.
//! [`roster`] knows them by name and [`tournament`] sets them against each
//! other. What is taken on trust is the graph library behind the board
//! ([`graph`]), the random number generator ([`chance`]) and the clock
//! ([`clock`]).

pub mod annealing;
pub mod board;
pub mod chance;
pub mod clock;
pub mod game;
pub mod graph;
pub mod laws;
pub mod mcts;
pub mod minimax;
pub mod mirror;
pub mod notation;
pub mod openings;
pub mod player;
pub mod position;
pub mod roster;
pub mod snapshot;
pub mod strategy;
pub mod text;
pub mod tournament;

pub use player::Player;
