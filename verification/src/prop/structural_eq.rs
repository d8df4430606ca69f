//! Field-by-field equality for the monochromatic palette and its
//! primitives, so that `==` on them is equality of values.
use vstd::prelude::*;
use vstd::std_specs::cmp::PartialEqSpecImpl;
use vstd::laws_eq::obeys_concrete_eq;
use super::{Dot, Primitive, gens_are_structural};
use super::colored::{colors_are_structural, single_color};

verus! {

impl PartialEq for Dot {
    fn eq(&self, other: &Self) -> (r: bool) {
        true
    }
}

impl PartialEqSpecImpl for Dot {
    open spec fn obeys_eq_spec() -> bool {
        true
    }

    open spec fn eq_spec(&self, other: &Self) -> bool {
        true
    }
}

impl PartialEq for Primitive {
    fn eq(&self, other: &Self) -> (r: bool) {
        self.label == other.label && self.source == other.source && self.target == other.target
    }
}

impl PartialEqSpecImpl for Primitive {
    open spec fn obeys_eq_spec() -> bool {
        true
    }

    open spec fn eq_spec(&self, other: &Self) -> bool {
        self.label == other.label && self.source == other.source && self.target == other.target
    }
}

/// `==` on [`Primitive`] and on its color [`Dot`] is equality of values, so
/// every operation that asks for structural generators and colors accepts
/// the monochromatic signature.
pub proof fn lemma_primitive_eq_is_structural()
    ensures
        gens_are_structural::<Primitive>(),
        colors_are_structural::<Primitive>(),
        single_color::<Dot>(),
{
    reveal(obeys_concrete_eq);
}

} // verus!
