//! Rules that a keyword deck must keep.

pub mod entities;
pub mod expr;
pub mod fields;
pub mod finding_law;
pub mod ids;
pub mod model;
pub mod names;
pub mod primary;
pub mod report;
pub mod rule_law;
pub mod rules;
pub mod value;
