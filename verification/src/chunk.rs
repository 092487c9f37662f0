//! Chunking: how references are classified, and which modules a chunk group
//! can rely on.

pub mod availability_info;
pub mod available_assets;
pub mod chunkable_assets;
pub mod chunking_context;
pub mod passthrough_asset;

use crate::module::ModuleVc;
use vstd::prelude::*;

verus! {

/// How the target of a reference is placed relative to the referencing
/// chunk.
#[derive(Debug, Clone, Copy, PartialEq, Eq, Structural, Hash)]
pub enum ChunkingType {
    /// The target always goes into a separate chunk that is loaded in
    /// parallel.
    Parallel,
    /// A heuristic decides between the referencing chunk and a parallel one.
    PlacedOrParallel,
    /// The target always goes into the referencing chunk.
    Placed,
    /// Any other placement; such a target is not loaded with the referencing
    /// chunk.
    Other,
}

impl ChunkingType {
    /// Whether targets of this type are loaded together with the referencing
    /// module, and so count towards what its chunk group provides.
    pub open spec fn qualifies(self) -> bool {
        self is Parallel || self is PlacedOrParallel || self is Placed
    }

    /// Whether targets of this type count towards what the referencing
    /// module's chunk group provides.
    pub fn is_qualifying(&self) -> (result: bool)
        ensures
            result == self.qualifies(),
    {
        match self {
            ChunkingType::Parallel | ChunkingType::PlacedOrParallel | ChunkingType::Placed => true,
            ChunkingType::Other => false,
        }
    }
}

/// What a reference that takes part in chunking offers: its chunking type and
/// the modules that it resolves to.
pub struct ChunkableModuleReference {
    pub chunking_type: ChunkingType,
    /// The primary target modules, or `None` where resolving them fails.
    pub targets: Option<Vec<ModuleVc>>,
}

} // verus!
