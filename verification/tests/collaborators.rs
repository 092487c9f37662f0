use chunk_availability::asset::AssetReferencesVc;
use chunk_availability::asset::OperationVc;
use chunk_availability::ecmascript::failsafe_analyze;
use chunk_availability::ecmascript::AnalyzeEcmascriptModuleResult;
use chunk_availability::ecmascript::CodeGenerateablesVc;
use chunk_availability::ecmascript::EcmascriptExportsVc;
use chunk_availability::ecmascript::MemoizedSuccessfulAnalysis;
use chunk_availability::http::get_duration_from_response;
use chunk_availability::http::CacheError;
use chunk_availability::nft_json::insert_sorted;
use chunk_availability::nft_json::is_path_less;
use chunk_availability::nft_json::nft_json_files;

fn analysis(id: u64, has_top_level_await: bool, successful: bool) -> AnalyzeEcmascriptModuleResult {
    AnalyzeEcmascriptModuleResult {
        references: AssetReferencesVc { id },
        exports: EcmascriptExportsVc { id: id + 1 },
        code_generation: CodeGenerateablesVc { id: id + 2 },
        has_top_level_await,
        successful,
    }
}

fn std_parse(text: &[u8]) -> Option<u32> {
    std::str::from_utf8(text).ok().and_then(|text| text.parse::<u32>().ok())
}

fn paths(list: &[&str]) -> Vec<String> {
    list.iter().map(|path| path.to_string()).collect()
}

#[test]
fn absent_duration_header_means_zero() {
    assert_eq!(get_duration_from_response(None), Ok(0));
}

#[test]
fn duration_header_is_read_as_a_number() {
    assert_eq!(get_duration_from_response(Some(b"58")), Ok(58));
    assert_eq!(get_duration_from_response(Some(b"1284")), Ok(1284));
    assert_eq!(get_duration_from_response(Some(b"12845")), Ok(12845));
    assert_eq!(get_duration_from_response(Some(b"0")), Ok(0));
    assert_eq!(get_duration_from_response(Some(b"007")), Ok(7));
    assert_eq!(get_duration_from_response(Some(b"+5")), Ok(5));
    assert_eq!(get_duration_from_response(Some(b"4294967295")), Ok(u32::MAX));
}

#[test]
fn malformed_duration_header_is_an_error() {
    for text in [
        &b""[..],
        b"+",
        b"-",
        b"-1",
        b"++1",
        b" 5",
        b"5 ",
        b"1_000",
        b"12a",
        b"0x10",
        b"4294967296",
        b"99999999999999999999999999",
        b"\xff1",
    ] {
        assert_eq!(get_duration_from_response(Some(text)), Err(CacheError::InvalidDuration));
    }
}

#[test]
fn duration_header_agrees_with_the_standard_parser() {
    let samples: [&[u8]; 14] = [
        b"",
        b"+",
        b"+0",
        b"-0",
        b"1",
        b"+42",
        b"042",
        b"4294967295",
        b"4294967296",
        b"42949672950",
        b"12 ",
        b"1+2",
        b"\t7",
        b"9",
    ];
    for text in samples {
        assert_eq!(get_duration_from_response(Some(text)).ok(), std_parse(text));
    }
}

#[test]
fn successful_analysis_is_remembered_and_handed_out() {
    let mut last = None;
    let fresh = analysis(10, true, true);
    assert_eq!(failsafe_analyze(&mut last, OperationVc { id: 1 }, fresh), fresh);
    assert_eq!(
        last,
        Some(MemoizedSuccessfulAnalysis {
            operation: OperationVc { id: 1 },
            references: AssetReferencesVc { id: 10 },
            exports: EcmascriptExportsVc { id: 11 },
            has_top_level_await: true,
        })
    );
    let newer = analysis(20, false, true);
    assert_eq!(failsafe_analyze(&mut last, OperationVc { id: 2 }, newer), newer);
    assert_eq!(last.unwrap().operation, OperationVc { id: 2 });
    assert_eq!(last.unwrap().references, AssetReferencesVc { id: 20 });
}

#[test]
fn failed_analysis_without_a_success_is_handed_out() {
    let mut last = None;
    let failed = analysis(10, false, false);
    assert_eq!(failsafe_analyze(&mut last, OperationVc { id: 1 }, failed), failed);
    assert_eq!(last, None);
}

#[test]
fn failed_analysis_falls_back_to_the_last_success() {
    let mut last = None;
    failsafe_analyze(&mut last, OperationVc { id: 1 }, analysis(10, true, true));
    let remembered = last;
    let handed_out = failsafe_analyze(&mut last, OperationVc { id: 2 }, analysis(30, false, false));
    assert_eq!(
        handed_out,
        AnalyzeEcmascriptModuleResult {
            references: AssetReferencesVc { id: 10 },
            exports: EcmascriptExportsVc { id: 11 },
            code_generation: CodeGenerateablesVc { id: 32 },
            has_top_level_await: true,
            successful: false,
        }
    );
    assert_eq!(last, remembered);
}

#[test]
fn paths_are_ordered_by_their_bytes() {
    assert!(is_path_less("a", "b"));
    assert!(!is_path_less("b", "a"));
    assert!(!is_path_less("a", "a"));
    assert!(is_path_less("", "a"));
    assert!(!is_path_less("", ""));
    assert!(is_path_less("a", "aa"));
    assert!(is_path_less("B", "a"));
    assert!(is_path_less("a/b", "a0"));
    assert!(is_path_less("z", "é"));
    for (first, second) in [("src/a.js", "src/b.js"), ("x", "x"), ("é", "e"), ("ab", "a")] {
        assert_eq!(is_path_less(first, second), first < second);
    }
}

#[test]
fn sorted_insertion_keeps_order_and_skips_duplicates() {
    let mut files = Vec::new();
    for path in ["m", "c", "x", "c", "a", "m", "b"] {
        insert_sorted(&mut files, path.to_string());
    }
    assert_eq!(files, paths(&["a", "b", "c", "m", "x"]));
}

#[test]
fn trace_lists_sorted_paths_without_the_entry() {
    let own = "server.js".to_string();
    let relative_paths = vec![
        Some("node_modules/b/index.js".to_string()),
        Some("server.js".to_string()),
        None,
        Some("lib/util.js".to_string()),
        Some("node_modules/b/index.js".to_string()),
        Some("node_modules/a/index.js".to_string()),
    ];
    let files = nft_json_files(Some(&own), &relative_paths);
    assert_eq!(
        files,
        paths(&["lib/util.js", "node_modules/a/index.js", "node_modules/b/index.js"])
    );
    let mut expected: Vec<String> =
        relative_paths.iter().flatten().filter(|path| **path != own).cloned().collect();
    expected.sort();
    expected.dedup();
    assert_eq!(files, expected);
}

#[test]
fn trace_of_an_entry_without_a_relative_path_is_empty() {
    let relative_paths = vec![Some("a.js".to_string()), None];
    assert_eq!(nft_json_files(None, &relative_paths), Vec::<String>::new());
    assert_eq!(nft_json_files(Some(&"a.js".to_string()), &relative_paths), Vec::<String>::new());
    assert_eq!(nft_json_files(Some(&"b.js".to_string()), &Vec::new()), Vec::<String>::new());
}
