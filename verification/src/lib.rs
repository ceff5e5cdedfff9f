//! `lifers` is a cellular-automata creation framework.
//!
//! It consists of the following parts:
//! - **Engine:** logic and algorithms behind the automata;
//! - **API:** an interface for creating and interacting with created automata;
//! - **Frontend(-s):** external interfaces that represent simulation data
//!   in a different way (graphical, ASCII, etc.).

pub mod engine;
pub mod frontend;
pub mod prelude;
