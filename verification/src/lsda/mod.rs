//! The LSDA container: a tree of named, typed datasets in one or more files.

pub mod arena;
pub mod binout;
pub mod chain_law;
pub mod data;
pub mod diskfile;
pub mod edit;
pub mod endian;
pub mod family;
pub mod graft;
pub mod format_law;
pub mod load;
pub mod naming;
pub mod order;
pub mod paths;
pub mod reading;
pub mod reopen;
pub mod roundtrip;
pub mod series;
pub mod states_law;
pub mod symbol;
pub mod table;
pub mod tree;
pub mod walk_law;
pub mod write;

use vstd::prelude::*;

verus! {

/// What can be wrong with an LSDA file, or with a request.
#[derive(Debug)]
pub enum LsdaError {
    Io(String),
    InvalidDataTypeSize,
    FileNotFound,
    SymbolNotFound(String),
    InvalidPath(String),
    Conversion(String),
    Utf8(String),
}

/// An error, with the text it carries.
pub enum LsdaFault {
    Io(Seq<char>),
    InvalidDataTypeSize,
    FileNotFound,
    SymbolNotFound(Seq<char>),
    InvalidPath(Seq<char>),
    Conversion(Seq<char>),
    Utf8(Seq<char>),
}

impl View for LsdaError {
    type V = LsdaFault;

    open spec fn view(&self) -> LsdaFault {
        match *self {
            LsdaError::Io(s) => LsdaFault::Io(s@),
            LsdaError::InvalidDataTypeSize => LsdaFault::InvalidDataTypeSize,
            LsdaError::FileNotFound => LsdaFault::FileNotFound,
            LsdaError::SymbolNotFound(s) => LsdaFault::SymbolNotFound(s@),
            LsdaError::InvalidPath(s) => LsdaFault::InvalidPath(s@),
            LsdaError::Conversion(s) => LsdaFault::Conversion(s@),
            LsdaError::Utf8(s) => LsdaFault::Utf8(s@),
        }
    }
}

/// How to make one number of a time series.
#[derive(Debug, Clone, Copy, PartialEq, Eq, Structural)]
pub enum ScalarExtract {
    Last,
    First,
    Max,
    Min,
    AbsMax,
    Mean,
    /// Trapezoidal integration.
    Integral,
}

} // verus!
