//! The error taxonomy of the conversion core.
//!
//! Structural integrity errors (a duplicate path or id among the declared
//! signals, a change event for an unknown id or before any timestep, a
//! path-prefix collision while building the output tree) abort the whole
//! conversion: they indicate an inconsistent declaration or event stream.

use vstd::prelude::*;

verus! {

/// Why a conversion step failed.
#[derive(Clone, Copy, Debug, PartialEq, Eq, Structural)]
pub enum Error {
    /// A change event named an unknown id, or arrived before any
    /// "advance time" event gave its signal a history slot.
    ChangeValue,
    /// A bit vector could not be decoded into a fixed-width integer:
    /// it was empty or its numeric value does not fit.
    ParseIntError,
    /// Two declared signals resolve to the same hierarchical path.
    DuplicatePath,
    /// Two declared signals carry the same compact id.
    DuplicateId,
    /// A signal's path runs through another signal's leaf in the output tree.
    PrefixCollision,
}

} // verus!
