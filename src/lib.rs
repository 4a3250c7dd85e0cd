//! Solvers for a series of small puzzles, each a verified function from the
//! parsed puzzle input to its answers.

pub mod bingo;
pub mod caves;
pub mod chiton;
pub mod crabs;
pub mod diagnostic;
pub mod dive;
pub mod input_read;
pub mod lanternfish;
pub mod octopus;
pub mod origami;
pub mod packets;
pub mod polymer;
pub mod segments;
pub mod smoke;
pub mod sonar;
pub mod syntax;
pub mod text;
mod tools;
pub mod trick_shot;
pub mod vents;
