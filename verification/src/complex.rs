//! Declaration of the complex-number type used for plane coordinates.

use vstd::prelude::*;

verus! {

/// Relies on num::Complex (re-exported from num-complex): a plain pair of
/// public fields `re` and `im` with no invariant of its own. The declaration
/// is transparent, so verified code can build a value and read both fields;
/// no method of the outside crate is given a contract here.
#[verifier::external_type_specification]
#[verifier::reject_recursive_types(T)]
pub struct ExComplex<T>(num::Complex<T>);

} // verus!
