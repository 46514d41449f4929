//! Readers, writers and checks for LS-DYNA decks and result databases.

pub mod d3plot;
pub mod deck;
pub mod element;
pub mod element_law;
pub mod ieee;
pub mod injury;
pub mod le;
pub mod lsda;
pub mod signal;
pub mod testgen;
pub mod text;
pub mod validate;
