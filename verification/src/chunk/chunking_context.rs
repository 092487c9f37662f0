//! The context that chunk group construction runs in.

use crate::module::ModuleVc;
use crate::output::OutputAssetVc;
use crate::output::OutputAssetsVc;
use vstd::prelude::*;

verus! {

/// A handle to a path in a file system.
#[derive(Clone, Copy, Debug, PartialEq, Eq, Structural, PartialOrd, Ord, Hash)]
pub struct FileSystemPathVc {
    pub id: u64,
}

/// A handle to the environment that chunks run in.
#[derive(Clone, Copy, Debug, PartialEq, Eq, Structural, PartialOrd, Ord, Hash)]
pub struct EnvironmentVc {
    pub id: u64,
}

/// A handle to the identity of an asset.
#[derive(Clone, Copy, Debug, PartialEq, Eq, Structural, PartialOrd, Ord, Hash)]
pub struct AssetIdentVc {
    pub id: u64,
}

/// A handle to a chunk.
#[derive(Clone, Copy, Debug, PartialEq, Eq, Structural, PartialOrd, Ord, Hash)]
pub struct ChunkVc {
    pub id: u64,
}

/// A handle to a list of assets that are evaluated when a chunk is loaded.
#[derive(Clone, Copy, Debug, PartialEq, Eq, Structural, PartialOrd, Ord, Hash)]
pub struct EvaluatableAssetsVc {
    pub id: u64,
}

/// A context for the chunking that influences the way chunks are created.
pub trait ChunkingContext: Sized {
    fn context_path(&self) -> FileSystemPathVc;

    fn output_root(&self) -> FileSystemPathVc;

    fn environment(&self) -> EnvironmentVc;

    fn chunk_path(&self, ident: AssetIdentVc, extension: &str) -> FileSystemPathVc;

    /// Whether source map assets are referenced for the chunk.
    fn reference_chunk_source_maps(&self, chunk: OutputAssetVc) -> bool;

    fn can_be_in_same_chunk(&self, asset_a: ModuleVc, asset_b: ModuleVc) -> bool;

    fn asset_path(&self, content_hash: &str, source_asset_ident: AssetIdentVc) -> FileSystemPathVc;

    /// Whether modules are replaced while the program runs. A context that
    /// does not say otherwise answers `false`.
    fn is_hot_module_replacement_enabled(&self) -> (result: bool)
        default_ensures
            !result,
    {
        false
    }

    /// The layer of the context. A context that does not say otherwise is in
    /// the layer with the empty name.
    fn layer(&self) -> (result: String)
        default_ensures
            result@ == Seq::<char>::empty(),
    {
        String::new()
    }

    fn with_layer(&self, layer: &str) -> Self;

    fn chunk_group(&self, entry: ChunkVc) -> OutputAssetsVc;

    fn evaluated_chunk_group(
        &self,
        entry: ChunkVc,
        evaluatable_assets: EvaluatableAssetsVc,
    ) -> OutputAssetsVc;
}

} // verus!
