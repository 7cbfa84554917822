//! A solver for a grid puzzle in which snowballs are pushed across a board,
//! growing on snow, until every ball rests on one cell.
pub mod types;
pub mod state;
pub mod reach;
pub mod search;
pub mod level;
