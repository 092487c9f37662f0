//! Handles to the collaborators that this library only passes on.

use crate::module::ModuleVc;
use crate::output::OutputAssetVc;
use vstd::prelude::*;

verus! {

/// A handle to an asset of any kind.
#[derive(Clone, Copy, Debug, PartialEq, Eq, Structural, PartialOrd, Ord, Hash)]
pub struct AssetVc {
    pub id: u64,
}

/// A handle to a source file.
#[derive(Clone, Copy, Debug, PartialEq, Eq, Structural, PartialOrd, Ord, Hash)]
pub struct SourceVc {
    pub id: u64,
}

/// A handle to the context in which an asset is resolved.
#[derive(Clone, Copy, Debug, PartialEq, Eq, Structural, PartialOrd, Ord, Hash)]
pub struct AssetContextVc {
    pub id: u64,
}

/// A handle to the compile-time information of an environment.
#[derive(Clone, Copy, Debug, PartialEq, Eq, Structural, PartialOrd, Ord, Hash)]
pub struct CompileTimeInfoVc {
    pub id: u64,
}

/// A handle to a map from names to inner assets.
#[derive(Clone, Copy, Debug, PartialEq, Eq, Structural, PartialOrd, Ord, Hash)]
pub struct InnerAssetsVc {
    pub id: u64,
}

/// A handle to the part of a module that an import selects.
#[derive(Clone, Copy, Debug, PartialEq, Eq, Structural, PartialOrd, Ord, Hash)]
pub struct ModulePartVc {
    pub id: u64,
}

/// A handle to the list of references of an asset.
#[derive(Clone, Copy, Debug, PartialEq, Eq, Structural, PartialOrd, Ord, Hash)]
pub struct AssetReferencesVc {
    pub id: u64,
}

/// A handle to a computation of the surrounding engine.
#[derive(Clone, Copy, Debug, PartialEq, Eq, Structural, PartialOrd, Ord, Hash)]
pub struct OperationVc {
    pub id: u64,
}

/// A handle to the content of an asset.
#[derive(Clone, Copy, Debug, PartialEq, Eq, Structural, PartialOrd, Ord, Hash)]
pub struct AssetContentVc {
    pub id: u64,
}

/// What an asset turned out to be when it was asked for each of its
/// capabilities; an asset can have several.
#[derive(Clone, Copy, Debug, PartialEq, Eq, Structural)]
pub struct ResolvedAsset {
    /// The asset as a module, where it is one.
    pub module: Option<ModuleVc>,
    /// The asset as a source, where it is one.
    pub source: Option<SourceVc>,
    /// The asset as an output asset, where it is one.
    pub output_asset: Option<OutputAssetVc>,
}

/// An asset lacks the capability that was asked of it.
#[derive(Clone, Copy, Debug, PartialEq, Eq, Structural)]
pub enum AssetKindError {
    /// The asset is neither a module nor a source.
    NotAModuleOrSource,
    /// The asset is no output asset.
    NotAnOutputAsset,
}

impl AssetKindError {
    /// The message of the error.
    pub fn message(&self) -> (result: &'static str)
        ensures
            result@ == match *self {
                AssetKindError::NotAModuleOrSource => "Asset must be a Module or a Source"@,
                AssetKindError::NotAnOutputAsset => "Asset must be a OutputAsset"@,
            },
    {
        match self {
            AssetKindError::NotAModuleOrSource => "Asset must be a Module or a Source",
            AssetKindError::NotAnOutputAsset => "Asset must be a OutputAsset",
        }
    }
}

} // verus!
