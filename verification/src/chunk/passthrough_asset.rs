//! Modules that pass their references on without being placed themselves.

use crate::module::Module;
use vstd::prelude::*;

verus! {

/// A module that is never placed into a chunk, but whose references are
/// still followed.
pub trait PassthroughAsset: Module {

}

} // verus!
