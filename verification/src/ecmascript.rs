//! ECMAScript module assets and the builder that assembles them.

use crate::asset::AssetContextVc;
use crate::asset::AssetReferencesVc;
use crate::asset::CompileTimeInfoVc;
use crate::asset::InnerAssetsVc;
use crate::asset::ModulePartVc;
use crate::asset::OperationVc;
use crate::asset::SourceVc;
use std::rc::Rc;
use vstd::prelude::*;
use vstd::string::StringExecFns;

verus! {

/// The module type that a file is forced to, for example by its extension.
#[derive(PartialEq, Eq, Structural, PartialOrd, Ord, Hash, Debug, Clone, Copy)]
pub enum SpecifiedModuleType {
    Automatic,
    CommonJs,
    EcmaScript,
}

impl Default for SpecifiedModuleType {
    fn default() -> (result: Self)
        ensures
            result == SpecifiedModuleType::Automatic,
    {
        SpecifiedModuleType::Automatic
    }
}

/// Options for an ECMAScript module.
#[derive(PartialEq, Eq, Structural, PartialOrd, Ord, Hash, Debug, Clone, Copy)]
pub struct EcmascriptOptions {
    /// The module is split into smaller parts that can be imported
    /// selectively.
    pub split_into_parts: bool,
    /// Imports import parts of modules.
    pub import_parts: bool,
    /// The module is forced to a specific type.
    pub specified_module_type: SpecifiedModuleType,
}

impl Default for EcmascriptOptions {
    fn default() -> (result: Self)
        ensures
            result == (EcmascriptOptions {
                split_into_parts: false,
                import_parts: false,
                specified_module_type: SpecifiedModuleType::Automatic,
            }),
    {
        EcmascriptOptions {
            split_into_parts: false,
            import_parts: false,
            specified_module_type: SpecifiedModuleType::Automatic,
        }
    }
}

/// The language of an ECMAScript module.
#[derive(PartialEq, Eq, Structural, PartialOrd, Ord, Hash, Debug, Clone, Copy)]
pub enum EcmascriptModuleAssetType {
    /// Module with EcmaScript code.
    Ecmascript,
    /// Module with TypeScript code without types.
    Typescript,
    /// Module with TypeScript code with references to imported types.
    TypescriptWithTypes,
    /// Module with TypeScript declaration code.
    TypescriptDeclaration,
}

/// A handle to a list of input transforms.
#[derive(Clone, Copy, Debug, PartialEq, Eq, Structural, PartialOrd, Ord, Hash)]
pub struct EcmascriptInputTransformsVc {
    pub id: u64,
}

/// A handle to the chunking context of ECMAScript chunks.
#[derive(Clone, Copy, Debug, PartialEq, Eq, Structural, PartialOrd, Ord, Hash)]
pub struct EcmascriptChunkingContextVc {
    pub id: u64,
}

/// A handle to a list of modules that can be placed in ECMAScript chunks.
#[derive(Clone, Copy, Debug, PartialEq, Eq, Structural, PartialOrd, Ord, Hash)]
pub struct EcmascriptChunkPlaceablesVc {
    pub id: u64,
}

/// The modifier that marks the identity of an ECMAScript module.
pub fn modifier() -> (result: String)
    ensures
        result@ == "ecmascript"@,
{
    String::from_str("ecmascript")
}

/// An ECMAScript module.
#[derive(PartialEq, Eq, Structural, Debug, Clone, Copy)]
pub struct EcmascriptModuleAsset {
    pub source: SourceVc,
    pub context: AssetContextVc,
    pub ty: EcmascriptModuleAssetType,
    pub transforms: EcmascriptInputTransformsVc,
    pub options: EcmascriptOptions,
    pub compile_time_info: CompileTimeInfoVc,
    pub inner_assets: Option<InnerAssetsVc>,
}

/// A shared, immutable cell that holds an ECMAScript module.
#[derive(Clone, Debug)]
pub struct EcmascriptModuleAssetVc {
    cell: Rc<EcmascriptModuleAsset>,
}

/// An ECMAScript module that may be absent.
pub struct OptionEcmascriptModuleAsset(pub Option<EcmascriptModuleAssetVc>);

/// One part of an ECMAScript module that was split into parts.
#[derive(Clone, Debug)]
pub struct EcmascriptModulePartAsset {
    pub full_module: EcmascriptModuleAssetVc,
    pub part: ModulePartVc,
}

/// The module that a builder yields: a whole module, or one part of it.
#[derive(Clone, Debug)]
pub enum EcmascriptModule {
    Whole(EcmascriptModuleAssetVc),
    Part(EcmascriptModulePartAsset),
}

/// A root chunk: the entry that it is built around, and the entries that are
/// placed beside it.
#[derive(Clone, Debug)]
pub struct RootChunk {
    pub context: EcmascriptChunkingContextVc,
    pub main_entry: EcmascriptModuleAssetVc,
    pub other_entries: EcmascriptChunkPlaceablesVc,
}

/// Collects what an ECMAScript module is made of.
#[derive(PartialEq, Eq, Structural, Debug, Clone, Copy)]
pub struct EcmascriptModuleAssetBuilder {
    pub source: SourceVc,
    pub context: AssetContextVc,
    pub ty: EcmascriptModuleAssetType,
    pub transforms: EcmascriptInputTransformsVc,
    pub options: EcmascriptOptions,
    pub compile_time_info: CompileTimeInfoVc,
    pub inner_assets: Option<InnerAssetsVc>,
    pub part: Option<ModulePartVc>,
}

impl EcmascriptModuleAssetBuilder {
    /// The module that this builder describes, without regard to a part.
    pub open spec fn asset(self) -> EcmascriptModuleAsset {
        EcmascriptModuleAsset {
            source: self.source,
            context: self.context,
            ty: self.ty,
            transforms: self.transforms,
            options: self.options,
            compile_time_info: self.compile_time_info,
            inner_assets: self.inner_assets,
        }
    }

    /// Sets the inner assets.
    pub fn with_inner_assets(self, inner_assets: InnerAssetsVc) -> (result: Self)
        ensures
            result == (EcmascriptModuleAssetBuilder { inner_assets: Some(inner_assets), ..self }),
    {
        let mut builder = self;
        builder.inner_assets = Some(inner_assets);
        builder
    }

    /// Sets the language.
    pub fn with_type(self, ty: EcmascriptModuleAssetType) -> (result: Self)
        ensures
            result == (EcmascriptModuleAssetBuilder { ty, ..self }),
    {
        let mut builder = self;
        builder.ty = ty;
        builder
    }

    /// Selects a part of the module.
    pub fn with_part(self, part: ModulePartVc) -> (result: Self)
        ensures
            result == (EcmascriptModuleAssetBuilder { part: Some(part), ..self }),
    {
        let mut builder = self;
        builder.part = Some(part);
        builder
    }

    /// The module that was described: the whole module, or the selected part
    /// of it.
    pub fn build(self) -> (result: EcmascriptModule)
        ensures
            match result {
                EcmascriptModule::Whole(module) => self.part is None && module@ == self.asset(),
                EcmascriptModule::Part(part) => self.part == Some(part.part) && part.full_module@
                    == self.asset(),
            },
    {
        let base = if let Some(inner_assets) = self.inner_assets {
            EcmascriptModuleAssetVc::new_with_inner_assets(
                self.source,
                self.context,
                self.ty,
                self.transforms,
                self.options,
                self.compile_time_info,
                inner_assets,
            )
        } else {
            EcmascriptModuleAssetVc::new(
                self.source,
                self.context,
                self.ty,
                self.transforms,
                self.options,
                self.compile_time_info,
            )
        };
        if let Some(part) = self.part {
            EcmascriptModule::Part(EcmascriptModulePartAsset { full_module: base, part })
        } else {
            EcmascriptModule::Whole(base)
        }
    }
}

impl View for EcmascriptModuleAssetVc {
    type V = EcmascriptModuleAsset;

    closed spec fn view(&self) -> EcmascriptModuleAsset {
        *self.cell
    }
}

impl EcmascriptModuleAssetVc {
    /// A builder for a module with ECMAScript code, without inner assets and
    /// without a part.
    pub fn builder(
        source: SourceVc,
        context: AssetContextVc,
        transforms: EcmascriptInputTransformsVc,
        options: EcmascriptOptions,
        compile_time_info: CompileTimeInfoVc,
    ) -> (result: EcmascriptModuleAssetBuilder)
        ensures
            result == (EcmascriptModuleAssetBuilder {
                source,
                context,
                ty: EcmascriptModuleAssetType::Ecmascript,
                transforms,
                options,
                compile_time_info,
                inner_assets: None,
                part: None,
            }),
    {
        EcmascriptModuleAssetBuilder {
            source,
            context,
            ty: EcmascriptModuleAssetType::Ecmascript,
            transforms,
            options,
            compile_time_info,
            inner_assets: None,
            part: None,
        }
    }

    /// A module without inner assets.
    pub fn new(
        source: SourceVc,
        context: AssetContextVc,
        ty: EcmascriptModuleAssetType,
        transforms: EcmascriptInputTransformsVc,
        options: EcmascriptOptions,
        compile_time_info: CompileTimeInfoVc,
    ) -> (result: Self)
        ensures
            result@ == (EcmascriptModuleAsset {
                source,
                context,
                ty,
                transforms,
                options,
                compile_time_info,
                inner_assets: None,
            }),
    {
        EcmascriptModuleAssetVc {
            cell: Rc::new(
                EcmascriptModuleAsset {
                    source,
                    context,
                    ty,
                    transforms,
                    options,
                    compile_time_info,
                    inner_assets: None,
                },
            ),
        }
    }

    /// A module with inner assets.
    pub fn new_with_inner_assets(
        source: SourceVc,
        context: AssetContextVc,
        ty: EcmascriptModuleAssetType,
        transforms: EcmascriptInputTransformsVc,
        options: EcmascriptOptions,
        compile_time_info: CompileTimeInfoVc,
        inner_assets: InnerAssetsVc,
    ) -> (result: Self)
        ensures
            result@ == (EcmascriptModuleAsset {
                source,
                context,
                ty,
                transforms,
                options,
                compile_time_info,
                inner_assets: Some(inner_assets),
            }),
    {
        EcmascriptModuleAssetVc {
            cell: Rc::new(
                EcmascriptModuleAsset {
                    source,
                    context,
                    ty,
                    transforms,
                    options,
                    compile_time_info,
                    inner_assets: Some(inner_assets),
                },
            ),
        }
    }

    /// The module in the cell.
    pub fn get(&self) -> (result: &EcmascriptModuleAsset)
        ensures
            *result == self@,
    {
        &self.cell
    }

    /// The root chunk that is built around this module, with the given
    /// entries beside it.
    pub fn as_root_chunk_with_entries(
        self,
        context: EcmascriptChunkingContextVc,
        other_entries: EcmascriptChunkPlaceablesVc,
    ) -> (result: RootChunk)
        ensures
            result.context == context,
            result.main_entry == self,
            result.other_entries == other_entries,
    {
        RootChunk { context, main_entry: self, other_entries }
    }
}

/// A handle to the exports of an ECMAScript module.
#[derive(Clone, Copy, Debug, PartialEq, Eq, Structural, PartialOrd, Ord, Hash)]
pub struct EcmascriptExportsVc {
    pub id: u64,
}

/// A handle to the code generation steps of an ECMAScript module.
#[derive(Clone, Copy, Debug, PartialEq, Eq, Structural, PartialOrd, Ord, Hash)]
pub struct CodeGenerateablesVc {
    pub id: u64,
}

/// What the analysis of an ECMAScript module found.
#[derive(Clone, Copy, Debug, PartialEq, Eq, Structural)]
pub struct AnalyzeEcmascriptModuleResult {
    pub references: AssetReferencesVc,
    pub exports: EcmascriptExportsVc,
    pub code_generation: CodeGenerateablesVc,
    pub has_top_level_await: bool,
    pub successful: bool,
}

/// What is kept of the last analysis that succeeded.
#[derive(Clone, Copy, Debug, PartialEq, Eq, Structural)]
pub struct MemoizedSuccessfulAnalysis {
    /// The computation that produced the analysis; it has to be kept alive
    /// for as long as its result is handed out.
    pub operation: OperationVc,
    pub references: AssetReferencesVc,
    pub exports: EcmascriptExportsVc,
    pub has_top_level_await: bool,
}

impl MemoizedSuccessfulAnalysis {
    /// What is kept of a successful analysis that `operation` produced.
    pub open spec fn of(operation: OperationVc, result: AnalyzeEcmascriptModuleResult) -> Self {
        MemoizedSuccessfulAnalysis {
            operation,
            references: result.references,
            exports: result.exports,
            has_top_level_await: result.has_top_level_await,
        }
    }

    /// The result that stands in for a failed analysis: the references and
    /// exports of the last success, with the code generation of the failed
    /// analysis, marked as unsuccessful.
    pub open spec fn stand_in(self, failed: AnalyzeEcmascriptModuleResult) -> AnalyzeEcmascriptModuleResult {
        AnalyzeEcmascriptModuleResult {
            references: self.references,
            exports: self.exports,
            code_generation: failed.code_generation,
            has_top_level_await: self.has_top_level_await,
            successful: false,
        }
    }
}

/// The analysis to hand out for a module, given what its analysis just
/// returned: a successful analysis is remembered and handed out; a failed one
/// is replaced by the last success where there is one, and handed out as it
/// is otherwise.
pub fn failsafe_analyze(
    last_successful_analysis: &mut Option<MemoizedSuccessfulAnalysis>,
    operation: OperationVc,
    result: AnalyzeEcmascriptModuleResult,
) -> (handed_out: AnalyzeEcmascriptModuleResult)
    ensures
        result.successful ==> handed_out == result && *final(last_successful_analysis) == Some(
            MemoizedSuccessfulAnalysis::of(operation, result),
        ),
        !result.successful ==> *final(last_successful_analysis) == *old(last_successful_analysis)
            && handed_out == match *old(last_successful_analysis) {
            Some(memo) => memo.stand_in(result),
            None => result,
        },
{
    if result.successful {
        *last_successful_analysis = Some(
            MemoizedSuccessfulAnalysis {
                operation,
                references: result.references,
                exports: result.exports,
                has_top_level_await: result.has_top_level_await,
            },
        );
    } else if let Some(memo) = last_successful_analysis {
        return AnalyzeEcmascriptModuleResult {
            references: memo.references,
            exports: memo.exports,
            code_generation: result.code_generation,
            has_top_level_await: memo.has_top_level_await,
            successful: false,
        };
    }
    result
}

} // verus!
