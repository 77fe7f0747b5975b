//! Board logic, card battles and a move adviser for the Tetra Master card game.

pub mod card;
pub mod text;
pub mod board;
pub mod capture;
pub mod solver;
pub mod notation;
pub mod state;
pub mod history;
pub mod tui;
