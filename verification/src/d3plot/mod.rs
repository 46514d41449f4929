//! The d3plot state database and its interface-force variant.

pub mod block;
pub mod block_law;
pub mod control;
pub mod editor;
pub mod editor_law;
pub mod extract;
pub mod family;
pub mod header;
pub mod header_law;
pub mod image;
pub mod intfor;
pub mod intfor_law;
pub mod layout;
pub mod mesh;
pub mod mesh_law;
pub mod narbs;
pub mod part_law;
pub mod precision_law;
pub mod query;
pub mod reader;
pub mod recovery;
pub mod reduce_law;
pub mod roundtrip;
pub mod state_law;
pub mod validate;
pub mod words;
pub mod write_law;
pub mod writer;

use vstd::prelude::*;

verus! {

/// Why a database could not be read or written.
#[derive(Debug)]
pub enum D3plotError {
    /// A file could not be read or written.
    Io(String),
    /// The header is not that of a d3plot: the word size could not be determined.
    BadHeader,
    /// The request or the contents cannot be handled, for the reason given.
    Unsupported(String),
}

impl D3plotError {
    /// `self` is `Unsupported` with the message `m`.
    pub open spec fn says(self, m: Seq<char>) -> bool {
        self matches D3plotError::Unsupported(s) && s@ == m
    }
}

/// A per-entity result block of a state. Node blocks have three values per node;
/// element blocks have the solver's packed record per element.
#[derive(Debug, Clone, Copy, PartialEq, Eq, Structural)]
pub enum StateBlock {
    Displacement,
    Velocity,
    Acceleration,
    Solid,
    ThickShell,
    Beam,
    Shell,
}

/// A whole-model scalar of a state, in the global variables after the time word.
#[derive(Debug, Clone, Copy, PartialEq, Eq, Structural)]
pub enum GlobalField {
    /// Total kinetic energy.
    KineticEnergy,
    /// Total internal energy.
    InternalEnergy,
    /// Total energy.
    TotalEnergy,
    /// Global velocity, X.
    VelocityX,
    /// Global velocity, Y.
    VelocityY,
    /// Global velocity, Z.
    VelocityZ,
}

/// A per-part scalar of a state, in the global variables after the scalars.
#[derive(Debug, Clone, Copy, PartialEq, Eq, Structural)]
pub enum PartField {
    /// Internal energy per part.
    InternalEnergy,
    /// Kinetic energy per part.
    KineticEnergy,
    /// Mass per part.
    Mass,
    /// Hourglass energy per part.
    HourglassEnergy,
}

/// A per-node thermal or auxiliary field of a state, present as the IT and IDTDT
/// header flags say.
#[derive(Debug, Clone, Copy, PartialEq, Eq, Structural)]
pub enum NodeField {
    /// Nodal temperature: one value, or three layers when the ones digit of IT is 3.
    Temperature,
    /// Nodal heat flux (three values).
    HeatFlux,
    /// Nodal mass scaling.
    MassScaling,
    /// Nodal temperature gradient.
    TemperatureGradient,
    /// Nodal residual force (three values).
    ResidualForce,
    /// Nodal residual moment (three values).
    ResidualMoment,
}

/// A per-segment field of an interface-force file. The fields split the segment
/// record in this order and sum to its width.
#[derive(Debug, Clone, Copy, PartialEq, Eq, Structural)]
pub enum InterfaceField {
    Wear,
    Pressure,
    Shear,
    Force,
    Gap,
}

/// A per-segment field of a fluid-structure interface-force file: single values
/// in this order, as many as the record is wide.
#[derive(Debug, Clone, Copy, PartialEq, Eq, Structural)]
pub enum FsiforField {
    Pressure,
    ForceX,
    ForceY,
    ForceZ,
    RelativeVelocity,
    VelocityX,
    VelocityY,
    VelocityZ,
}

} // verus!
