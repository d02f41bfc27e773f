//! A Monte Carlo tree search engine for two-player zero-sum games.
//!
//! - `tree`: the flat node arena, its well-formedness and the statistics laws;
//! - `select`: the UCB1 and PUCT selection rules in fixed point (`fixed`);
//! - `rollout`: the simulation policies;
//! - `mcts`: the search driver and its configuration, read by `config`;
//! - `game`: the interface a game offers, with `tictactoe`, `connectfour` and
//!   `gomoku` built on the board helpers of `grid`;
//! - `outside`: the random sources and the clock.
//!
//! Values are integers throughout: an outcome of `+1` is `tree::Q_ONE`, a won
//! simulation adds `tree::VALUE_ONE` to a node, and scores are in units of
//! `1 / fixed::SCORE_ONE`.
use vstd::prelude::*;

pub mod fixed;
pub mod game;
pub mod error;
pub mod tree;
pub mod select;
pub mod outside;
pub mod rollout;
pub mod mcts;
pub mod config;
pub mod grid;
pub mod tictactoe;
pub mod connectfour;
pub mod gomoku;
pub mod iterbits;
pub mod matchplay;
