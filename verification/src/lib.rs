//! Applied category theory over free props: rigs, free-prop expressions,
//! Λ-colored well-formedness, presentations and their normal forms.
pub mod error;
pub mod forest;
pub mod rig;
pub mod prop;
pub mod temperley_lieb;
