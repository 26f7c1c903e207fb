//! Core value types for a recurrence-rule evaluation library.
//!
//! Two pieces live here:
//!
//! * [`RangeOrValue`], a container for a rule field that is either a single
//!   scalar or an inclusive range of scalars, together with its parsing,
//!   equality and membership operations (module [`range`]);
//! * the validation type-state markers [`Validated`] and [`Unvalidated`],
//!   zero-sized tags with which a surrounding rule model parameterizes its
//!   rule-holder types so that "has this rule been checked?" is a question
//!   the type system answers at compile time, not a runtime flag.

use vstd::prelude::*;

pub mod int_text;
pub mod range;

pub use range::RangeOrValue;

verus! {

/// An empty struct to keep the validated stage.
///
/// A rule holder tagged with `Validated` may only be produced by a validation
/// step that inspected the corresponding `Unvalidated` value; no implicit
/// conversion between the two tags exists, so a function whose parameter is
/// tagged `Validated` cannot receive unchecked data.
#[derive(Debug, PartialEq, Eq, PartialOrd, Ord, Clone, Copy)]
pub struct Validated;

/// An empty struct to keep the unvalidated (or not-yet-validated) stage.
#[derive(Debug, PartialEq, Eq, PartialOrd, Ord, Clone, Copy)]
pub struct Unvalidated;

} // verus!
