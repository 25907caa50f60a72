//! A number guessing game, a solver that plays it by bisection, and the
//! tallies used to report on repeated runs of the solver.
pub mod auto_guesser;
pub mod histogram;
pub mod number_game;
pub mod statistics;

pub use auto_guesser::AutoNumberGuesser;
pub use number_game::NumberGuessingGame;
