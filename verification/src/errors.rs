//! Failure taxonomy: build-time failures abort code generation; the runtime
//! dispatch failure is an ordinary recoverable error at the call site.
use vstd::prelude::*;

verus! {

/// A fatal build-time failure: no output is produced when one of these arises.
#[derive(Clone, Copy, Debug, PartialEq, Eq, Structural)]
pub enum BuildError {
    /// A declaration carried zero candidate bodies.
    EmptyVariantSet,
    /// A declaration does not match the declaration grammar.
    MalformedDeclaration,
    /// The synthesizer was handed an index at or past the variant count;
    /// this signals a selection-policy bug and never arises in correct use.
    IndexOutOfRange,
}

/// A runtime dispatch failure, recoverable by the caller.
#[derive(Clone, Copy, Debug, PartialEq, Eq, Structural)]
pub enum DispatchError {
    /// Dispatch was invoked on a catalog with no registered capabilities.
    EmptyCatalog,
}

} // verus!
