//! The error taxonomy of the bridge.

use vstd::prelude::*;

verus! {

/// What can go wrong while building or consuming a tree.
///
/// `EndOfStream` reports exhausted or arity-mismatched input on the consume
/// side. `TypeMismatch` reports a mapping key that did not serialize to a
/// string on the build side. `Defect` reports a protocol driven out of
/// contract (a composite end without its start, a value pulled before its
/// key): a bug in a source or sink, kept distinct from input errors.
#[derive(Clone, Copy, PartialEq, Eq, Structural, Debug)]
pub enum Error {
    EndOfStream,
    TypeMismatch,
    Defect,
}

} // verus!
