//! Keyword decks: their blocks, cards and fields.

pub mod agree;
pub mod body_law;
pub mod card_law;
pub mod chunks;
pub mod column;
pub mod field;
pub mod field_law;
pub mod file;
pub mod hooks;
pub mod inplace;
pub mod lines;
pub mod parse;
pub mod rows;
pub mod schema;
pub mod typed;
