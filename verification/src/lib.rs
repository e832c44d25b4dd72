//! An evaluator for the untyped lambda calculus.
//!
//! Terms are trees of applications, lambda abstractions and names. The
//! library validates variable scoping, performs capture-prone substitution,
//! and drives leftmost-outermost beta-reduction to weak head normal form,
//! with a renderer that prints terms in a minimally parenthesized form.

pub mod eval;
pub mod scope;
pub mod term;
