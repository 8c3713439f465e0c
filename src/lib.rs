//! A Monte Carlo Tree Search engine over an arena of nodes, with UCB1
//! selection on a fixed-point scale, and tic-tac-toe as a searchable domain.
pub mod fixed;
pub mod mcts;
pub mod tictactoe;
