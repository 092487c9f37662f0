use chunk_availability::asset::AssetContextVc;
use chunk_availability::asset::AssetVc;
use chunk_availability::asset::CompileTimeInfoVc;
use chunk_availability::asset::InnerAssetsVc;
use chunk_availability::asset::ModulePartVc;
use chunk_availability::asset::SourceVc;
use chunk_availability::ecmascript::modifier;
use chunk_availability::ecmascript::EcmascriptChunkPlaceablesVc;
use chunk_availability::ecmascript::EcmascriptChunkingContextVc;
use chunk_availability::ecmascript::EcmascriptInputTransformsVc;
use chunk_availability::ecmascript::EcmascriptModule;
use chunk_availability::ecmascript::EcmascriptModuleAsset;
use chunk_availability::ecmascript::EcmascriptModuleAssetBuilder;
use chunk_availability::ecmascript::EcmascriptModuleAssetType;
use chunk_availability::ecmascript::EcmascriptModuleAssetVc;
use chunk_availability::ecmascript::EcmascriptOptions;
use chunk_availability::ecmascript::SpecifiedModuleType;
use chunk_availability::module::Module;
use chunk_availability::module::ModuleEntry;
use chunk_availability::module::ModuleVc;
use chunk_availability::module::Modules;
use chunk_availability::module::ModulesVc;
use chunk_availability::nft_json::NftJsonAssetVc;
use chunk_availability::output::OutputAsset;
use chunk_availability::output::OutputAssetVc;
use chunk_availability::output::OutputAssets;
use chunk_availability::output::OutputAssetsSet;
use chunk_availability::output::OutputAssetsVc;

fn builder() -> EcmascriptModuleAssetBuilder {
    EcmascriptModuleAssetVc::builder(
        SourceVc { id: 1 },
        AssetContextVc { id: 2 },
        EcmascriptInputTransformsVc { id: 3 },
        EcmascriptOptions::default(),
        CompileTimeInfoVc { id: 4 },
    )
}

fn expected(ty: EcmascriptModuleAssetType, inner_assets: Option<InnerAssetsVc>) -> EcmascriptModuleAsset {
    EcmascriptModuleAsset {
        source: SourceVc { id: 1 },
        context: AssetContextVc { id: 2 },
        ty,
        transforms: EcmascriptInputTransformsVc { id: 3 },
        options: EcmascriptOptions::default(),
        compile_time_info: CompileTimeInfoVc { id: 4 },
        inner_assets,
    }
}

#[test]
fn defaults() {
    assert_eq!(SpecifiedModuleType::default(), SpecifiedModuleType::Automatic);
    let options = EcmascriptOptions::default();
    assert!(!options.split_into_parts);
    assert!(!options.import_parts);
    assert_eq!(options.specified_module_type, SpecifiedModuleType::Automatic);
    assert_eq!(modifier(), "ecmascript");
}

#[test]
fn builder_starts_with_ecmascript_and_nothing_optional() {
    let builder = builder();
    assert_eq!(builder.ty, EcmascriptModuleAssetType::Ecmascript);
    assert_eq!(builder.inner_assets, None);
    assert_eq!(builder.part, None);
    assert_eq!(builder.source, SourceVc { id: 1 });
}

#[test]
fn builder_setters_change_one_field() {
    let base = builder();
    let typed = base.with_type(EcmascriptModuleAssetType::Typescript);
    assert_eq!(typed, EcmascriptModuleAssetBuilder { ty: EcmascriptModuleAssetType::Typescript, ..base });
    let inner = base.with_inner_assets(InnerAssetsVc { id: 9 });
    assert_eq!(inner, EcmascriptModuleAssetBuilder { inner_assets: Some(InnerAssetsVc { id: 9 }), ..base });
    let part = base.with_part(ModulePartVc { id: 8 });
    assert_eq!(part, EcmascriptModuleAssetBuilder { part: Some(ModulePartVc { id: 8 }), ..base });
}

#[test]
fn build_yields_the_whole_module_without_a_part() {
    match builder().with_type(EcmascriptModuleAssetType::TypescriptDeclaration).build() {
        EcmascriptModule::Whole(module) => {
            assert_eq!(*module.get(), expected(EcmascriptModuleAssetType::TypescriptDeclaration, None));
        }
        EcmascriptModule::Part(_) => panic!("no part was selected"),
    }
}

#[test]
fn build_yields_the_selected_part() {
    let built = builder()
        .with_inner_assets(InnerAssetsVc { id: 9 })
        .with_part(ModulePartVc { id: 8 })
        .build();
    match built {
        EcmascriptModule::Part(part) => {
            assert_eq!(part.part, ModulePartVc { id: 8 });
            assert_eq!(
                *part.full_module.get(),
                expected(EcmascriptModuleAssetType::Ecmascript, Some(InnerAssetsVc { id: 9 }))
            );
        }
        EcmascriptModule::Whole(_) => panic!("a part was selected"),
    }
}

#[test]
fn module_constructors_store_their_arguments() {
    let plain = EcmascriptModuleAssetVc::new(
        SourceVc { id: 1 },
        AssetContextVc { id: 2 },
        EcmascriptModuleAssetType::TypescriptWithTypes,
        EcmascriptInputTransformsVc { id: 3 },
        EcmascriptOptions::default(),
        CompileTimeInfoVc { id: 4 },
    );
    assert_eq!(*plain.get(), expected(EcmascriptModuleAssetType::TypescriptWithTypes, None));
    let with_inner = EcmascriptModuleAssetVc::new_with_inner_assets(
        SourceVc { id: 1 },
        AssetContextVc { id: 2 },
        EcmascriptModuleAssetType::Ecmascript,
        EcmascriptInputTransformsVc { id: 3 },
        EcmascriptOptions::default(),
        CompileTimeInfoVc { id: 4 },
        InnerAssetsVc { id: 5 },
    );
    assert_eq!(
        *with_inner.get(),
        expected(EcmascriptModuleAssetType::Ecmascript, Some(InnerAssetsVc { id: 5 }))
    );
}

#[test]
fn root_chunk_is_built_around_the_module() {
    let module = EcmascriptModuleAssetVc::new(
        SourceVc { id: 1 },
        AssetContextVc { id: 2 },
        EcmascriptModuleAssetType::Ecmascript,
        EcmascriptInputTransformsVc { id: 3 },
        EcmascriptOptions::default(),
        CompileTimeInfoVc { id: 4 },
    );
    let chunk = module.as_root_chunk_with_entries(
        EcmascriptChunkingContextVc { id: 6 },
        EcmascriptChunkPlaceablesVc { id: 7 },
    );
    assert_eq!(chunk.context, EcmascriptChunkingContextVc { id: 6 });
    assert_eq!(chunk.other_entries, EcmascriptChunkPlaceablesVc { id: 7 });
    assert_eq!(*chunk.main_entry.get(), expected(EcmascriptModuleAssetType::Ecmascript, None));
}

#[test]
fn empty_cells_hold_nothing() {
    assert!(ModulesVc::empty().modules().is_empty());
    assert!(OutputAssetsVc::empty().assets().is_empty());
    let modules = ModulesVc::cell(Modules(vec![ModuleVc { id: 2 }, ModuleVc { id: 1 }]));
    assert_eq!(modules.modules(), &vec![ModuleVc { id: 2 }, ModuleVc { id: 1 }]);
    let assets = OutputAssetsVc::cell(OutputAssets(vec![OutputAssetVc { id: 5 }]));
    assert_eq!(assets.assets(), &vec![OutputAssetVc { id: 5 }]);
}

#[test]
fn output_assets_set_keeps_first_insertions() {
    let mut set = OutputAssetsSet::new();
    assert_eq!(set.len(), 0);
    assert!(set.insert(OutputAssetVc { id: 3 }));
    assert!(!set.insert(OutputAssetVc { id: 3 }));
    assert!(set.insert(OutputAssetVc { id: 1 }));
    assert_eq!(set.len(), 2);
    assert!(set.contains(&OutputAssetVc { id: 1 }));
    assert!(!set.contains(&OutputAssetVc { id: 2 }));
}

#[test]
fn identities() {
    let entry = ModuleEntry { ident: "src/index.js".to_string(), references: None };
    assert_eq!(entry.ident(), "src/index.js");
    let trace = NftJsonAssetVc::new(AssetVc { id: 1 }, "dist/server.js".to_string());
    assert_eq!(trace.get().ident(), "dist/server.js.nft.json");
}
