//! The error type shared by every fallible operation of the library.
use vstd::prelude::*;

verus! {

/// Failures reported by the library's fallible operations.
#[derive(Clone, Debug, PartialEq, Eq)]
pub enum CatgraphError {
    /// Two interfaces that must agree in length do not.
    CompositionSizeMismatch { expected: usize, actual: usize },
    /// Two interfaces agree in length but not in content.
    Composition { message: String },
    /// A rig law failed on a sample.
    RigAxiomViolation { law: String, witness: String },
    /// A presentation could not be processed.
    Presentation { message: String },
}

/// A `Composition` error carrying `text`.
pub fn composition_error(text: &str) -> (r: CatgraphError)
    ensures
        r matches CatgraphError::Composition { message } && message@ == text@,
{
    CatgraphError::Composition { message: text.to_owned() }
}

/// A `Presentation` error carrying `text`.
pub fn presentation_error(text: &str) -> (r: CatgraphError)
    ensures
        r matches CatgraphError::Presentation { message } && message@ == text@,
{
    CatgraphError::Presentation { message: text.to_owned() }
}

} // verus!
