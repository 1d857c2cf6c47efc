use skin_builder::scheduler::{Lane, Scheduler};
use skin_builder::aapt2::{Aapt2, LinkRequest, ToolError};
use skin_builder::aar::AarExtractor;
use skin_builder::builder::{
    empty_build_result, flat_file_name, link_outcome, no_resources_message, sort_dedup_paths, CompiledSource,
    ResourceFilter, SkinBuilder,
    SourceState,
};
use skin_builder::priority::{classify, find_matching_flat_file, normalize_resource_path, PathError};
use skin_builder::text::decimal_string;
use skin_builder::{group_configs_by_dependencies, AarInfo, BuildConfig, LinkResult, ResourcePriority};

fn s(x: &str) -> String {
    x.to_string()
}

fn strings(xs: &[&str]) -> Vec<String> {
    xs.iter().map(|x| x.to_string()).collect()
}

fn config(res: &str, package: &str, incremental: bool) -> BuildConfig {
    BuildConfig {
        resource_dir: s(res),
        manifest_path: s("AndroidManifest.xml"),
        output_dir: s("output"),
        output_file: None,
        package_name: s(package),
        aapt2_path: None,
        android_jar: s("/fake/android.jar"),
        aar_files: None,
        incremental: Some(incremental),
        cache_dir: None,
        version_code: None,
        version_name: None,
        additional_resource_dirs: None,
        compiled_dir: None,
        stable_ids_file: None,
        parallel_workers: None,
        package_id: None,
    }
}

fn tool() -> Aapt2 {
    Aapt2::new(Some(s("/sdk/aapt2")), None).unwrap()
}

#[test]
fn test_ignore_files_directly_under_resource_dir() {
    let filter = ResourceFilter::standard();
    let found = filter.select(&strings(&[
        "values/colors.xml",
        "values/strings.xml",
        "invalid.txt",
        "readme.md",
    ]));
    assert_eq!(found.len(), 1, "Should only find 1 valid resource file (colors.xml)");
    assert!(found.iter().any(|f| f.ends_with("colors.xml")), "Should find the colors.xml file");
    assert!(!found.iter().any(|f| f.ends_with("strings.xml")), "Should not include strings.xml (filtered out)");
    assert!(!found.iter().any(|f| f.ends_with("invalid.txt")), "Should not include invalid.txt");
    assert!(!found.iter().any(|f| f.ends_with("readme.md")), "Should not include readme.md");
}

#[test]
fn test_valid_nested_resources_are_included() {
    let filter = ResourceFilter::standard();
    let found = filter.select(&strings(&[
        "values/strings.xml",
        "values/colors.xml",
        "drawable/icon.png",
        "layout/activity_main.xml",
    ]));
    assert_eq!(found.len(), 2, "Should find 2 valid resource files (colors.xml and icon.png)");
    assert!(!found.iter().any(|f| f.ends_with("strings.xml")), "Should NOT include strings.xml (filtered)");
    assert!(found.iter().any(|f| f.ends_with("colors.xml")), "Should include colors.xml");
    assert!(found.iter().any(|f| f.ends_with("icon.png")), "Should include icon.png");
    assert!(!found.iter().any(|f| f.contains("layout")), "Should NOT include layout files (filtered)");
}

#[test]
fn filter_skips_hidden_and_system_files_and_layout_variants() {
    let filter = ResourceFilter::standard();
    assert!(!filter.accepts(&s("drawable/.DS_Store")));
    assert!(!filter.accepts(&s("drawable/Thumbs.db")));
    assert!(!filter.accepts(&s("layout-land/main.xml")));
    assert!(!filter.accepts(&s("values/attrs.xml")));
    assert!(filter.accepts(&s("values-night/colors.xml")));
    let custom = ResourceFilter { excluded_dir_prefixes: vec![], excluded_file_names: vec![] };
    assert!(custom.accepts(&s("layout/main.xml")));
    assert!(custom.accepts(&s("values/strings.xml")));
    assert!(!custom.accepts(&s("top.xml")));
}

#[test]
fn artifact_names_follow_the_compiler_convention() {
    assert_eq!(flat_file_name("res/values/strings.xml"), Some(s("values_strings.arsc.flat")));
    assert_eq!(flat_file_name("res/values-en/strings.xml"), Some(s("values-en_strings.arsc.flat")));
    assert_eq!(flat_file_name("res/layout/activity_main.xml"), Some(s("layout_activity_main.xml.flat")));
    assert_eq!(flat_file_name("drawable/icon.png"), Some(s("drawable_icon.png.flat")));
    assert_eq!(flat_file_name("icon.png"), None);
}

#[test]
fn matching_artifact_is_found_by_exact_name() {
    let flats = strings(&["/o/drawable_icon.png.flat", "/o/values_colors.arsc.flat"]);
    assert_eq!(find_matching_flat_file(&s("/r/res/values/colors.xml"), &flats), Some(s("/o/values_colors.arsc.flat")));
    assert_eq!(find_matching_flat_file(&s("/r/res/drawable/icon.png"), &flats), Some(s("/o/drawable_icon.png.flat")));
    assert_eq!(find_matching_flat_file(&s("/r/res/drawable/icon2.png"), &flats), None);
}

#[test]
fn resource_paths_are_normalized_below_the_directory() {
    assert_eq!(
        normalize_resource_path(&s("/path/to/res/drawable-hdpi/icon.png"), &s("/path/to/res")),
        Ok(s("res/drawable-hdpi/icon.png"))
    );
    assert_eq!(normalize_resource_path(&s("/p/res/values\\a.xml"), &s("/p/res/")), Ok(s("res/values/a.xml")));
    assert_eq!(normalize_resource_path(&s("/p/resources/a.xml"), &s("/p/res")), Err(PathError::NotUnderResourceDir));
}

#[test]
fn artifacts_are_sorted_and_deduplicated() {
    let out = sort_dedup_paths(strings(&["b.flat", "a.flat", "b.flat", "c.flat", "a.flat"]));
    assert_eq!(out, strings(&["a.flat", "b.flat", "c.flat"]));
    assert!(sort_dedup_paths(vec![]).is_empty());
}

#[test]
fn decimal_strings() {
    assert_eq!(decimal_string(0), "0");
    assert_eq!(decimal_string(26), "26");
    assert_eq!(decimal_string(4294967295), "4294967295");
}

#[test]
fn builder_paths_and_cache_scope() {
    let b = SkinBuilder::new(config("res", "com.test", true), tool());
    assert_eq!(b.compiled_dir(), "output/com.test");
    assert_eq!(b.output_apk(), "output/com.test.skin");
    assert_eq!(b.cache().as_ref().unwrap().cache_dir(), "output/.build-cache/com.test");
    let mut c = config("res", "com.test", false);
    c.output_file = Some(s("custom.apk"));
    c.cache_dir = Some(s("/cache"));
    let b = SkinBuilder::new(c, tool());
    assert!(b.cache().is_none());
    assert_eq!(b.output_apk(), "output/custom.apk");
}

#[test]
fn resource_dirs_come_in_priority_order() {
    let mut c = config("main/res", "com.test", false);
    c.additional_resource_dirs = Some(strings(&["flavor/res", "debug/res"]));
    let b = SkinBuilder::new(c, tool());
    let dirs = b.resource_dirs(&strings(&["aar0/res", "aar1/res"]));
    let order: Vec<(ResourcePriority, String)> = vec![
        (ResourcePriority::Library(0), s("aar0/res")),
        (ResourcePriority::Library(1), s("aar1/res")),
        (ResourcePriority::Main, s("main/res")),
        (ResourcePriority::Additional(0), s("flavor/res")),
        (ResourcePriority::Additional(1), s("debug/res")),
    ];
    assert_eq!(dirs, order);
}

#[test]
fn incremental_plan_reuses_fresh_files() {
    let mut b = SkinBuilder::new(config("res", "com.test", true), tool());
    let state = |p: &str, exists: bool, c: &[u8]| SourceState { path: s(p), artifact_exists: exists, content: c.to_vec() };
    let first = b.plan_compilation(&vec![state("res/values/a.xml", false, b"a"), state("res/drawable/b.png", false, b"b")]);
    assert_eq!(first.to_compile, strings(&["res/values/a.xml", "res/drawable/b.png"]));
    assert!(first.cached.is_empty());
    let kept = b.record_compilation(
        vec![
            CompiledSource { path: s("res/values/a.xml"), artifact: s("o/values_a.arsc.flat"), artifact_exists: true, content: b"a".to_vec() },
            CompiledSource { path: s("res/drawable/b.png"), artifact: s("o/drawable_b.png.flat"), artifact_exists: true, content: b"b".to_vec() },
        ],
        10,
    );
    assert_eq!(kept, strings(&["o/drawable_b.png.flat", "o/values_a.arsc.flat"]));
    let second = b.plan_compilation(&vec![state("res/values/a.xml", true, b"a"), state("res/drawable/b.png", true, b"changed")]);
    assert_eq!(second.to_compile, strings(&["res/drawable/b.png"]));
    assert_eq!(second.cached, vec![(s("res/values/a.xml"), s("o/values_a.arsc.flat"))]);
}

#[test]
fn link_arguments_put_overlays_after_base() {
    let request = LinkRequest {
        manifest_path: s("m.xml"),
        android_jar: s("a.jar"),
        output_apk: s("out.skin"),
        package_name: Some(s("com.p")),
        version_code: Some(3),
        version_name: None,
        stable_ids_file: None,
        package_id: None,
        min_sdk_version: Some(26),
    };
    let args = Aapt2::link_arguments(&request, &strings(&["lib.flat"]), &strings(&["main.flat", "flavor.flat"]));
    let expected = strings(&[
        "link", "--manifest", "m.xml", "-I", "a.jar", "-o", "out.skin", "--auto-add-overlay",
        "--no-version-vectors", "--keep-raw-values", "--allow-reserved-package-id", "--no-resource-removal",
        "--rename-manifest-package", "com.p", "--rename-resources-package", "com.p", "--version-code", "3",
        "--min-sdk-version", "26", "--package-id", "0x7f", "lib.flat", "-R", "main.flat", "-R", "flavor.flat",
    ]);
    assert_eq!(args, expected);
}

#[test]
fn archives_are_used_above_the_threshold() {
    let hundred: Vec<String> = (0..100).map(|i| format!("{}.flat", i)).collect();
    assert!(!Aapt2::uses_archives(&hundred, &vec![]));
    assert!(Aapt2::uses_archives(&hundred, &vec![strings(&["x.flat"])]));
    assert!(!Aapt2::uses_archives(&vec![], &vec![hundred.clone()]));
}

#[test]
fn tool_location_prefers_configured_path() {
    assert_eq!(Aapt2::new(Some(s("/a")), Some(s("/b"))).unwrap().into_path(), "/a");
    assert_eq!(Aapt2::new(None, Some(s("/b"))).unwrap().into_path(), "/b");
    assert_eq!(Aapt2::new(None, None).unwrap_err(), ToolError::NotFound);
}

#[test]
fn archive_extraction_dirs_are_distinct() {
    let dirs = AarExtractor::extraction_dirs(&strings(&["libs/ui.aar", "libs/ui.aar", "/x/"]), &s("out/.temp"));
    assert_eq!(dirs, strings(&["out/.temp/aar_0_ui", "out/.temp/aar_1_ui", "out/.temp/aar_2_unknown"]));
    let infos = vec![
        AarInfo { path: s("a.aar"), resource_dir: Some(s("t/a/res")), manifest_path: None, extracted_dir: s("t/a") },
        AarInfo { path: s("b.aar"), resource_dir: None, manifest_path: None, extracted_dir: s("t/b") },
    ];
    assert_eq!(AarExtractor::library_dirs(&infos), strings(&["t/a/res"]));
}

#[test]
fn scenario_single_config_one_file_not_incremental() {
    let b = SkinBuilder::new(config("res", "com.test", false), tool());
    let files = ResourceFilter::standard().select(&strings(&["values/colors.xml"]));
    let plan = b.plan_compilation(&vec![SourceState { path: files[0].clone(), artifact_exists: false, content: vec![] }]);
    // One compile call covering the one file.
    assert_eq!(plan.to_compile, strings(&["values/colors.xml"]));
    let (base, overlays) = classify(vec![(ResourcePriority::Main, strings(&["values_colors.arsc.flat"]))]);
    assert_eq!(base, strings(&["values_colors.arsc.flat"]));
    assert!(overlays.is_empty());
    assert!(empty_build_result(&base, &overlays, &vec![]).is_none(), "there is something to link");
    let request = b.link_request(s("m.xml"), false);
    let args = Aapt2::link_arguments(&request, &base, &vec![]);
    assert_eq!(args.last().unwrap(), "values_colors.arsc.flat");
    let result = link_outcome(LinkResult { success: true, apk_path: Some(request.output_apk.clone()), errors: vec![] });
    assert!(result.success);
    assert_eq!(result.apk_path, Some(s("output/com.test.skin")));
}

#[test]
fn scenario_two_independent_configs_run_in_parallel() {
    let (independent, dependent) =
        group_configs_by_dependencies(vec![config("a/res", "com.a", false), config("b/res", "com.b", false)]).unwrap();
    assert_eq!(independent.len(), 2);
    assert!(dependent.is_empty());
}

#[test]
fn scenario_missing_directory_is_reported() {
    let (base, overlays) = classify(vec![]);
    let result = empty_build_result(&base, &overlays, &strings(&["./missing/res"])).unwrap();
    assert!(!result.success);
    assert_eq!(result.apk_path, None);
    assert_eq!(result.errors.len(), 1);
    assert!(result.errors[0].starts_with(
        "No resources found to compile.\n\nThe following resource directories do not exist:\n  - ./missing/res\n\n"
    ));
    assert!(result.errors[0].ends_with("valid Android resources\n"));
    let none = no_resources_message(&vec![]);
    assert!(none.starts_with("No resources found to compile.\n\nPossible solutions:\n"));
    // Empty overlay sets still count as nothing to link.
    assert!(empty_build_result(&vec![], &vec![vec![]], &vec![]).is_some());
    assert!(empty_build_result(&vec![], &vec![vec![s("x.flat")]], &vec![]).is_none());
}

#[test]
fn failed_link_keeps_linker_errors() {
    let result = link_outcome(LinkResult { success: false, apk_path: Some(s("x")), errors: vec![s("aapt2 said no")] });
    assert!(!result.success);
    assert_eq!(result.apk_path, None);
    assert_eq!(result.errors, vec![s("aapt2 said no")]);
}

#[test]
fn scheduler_respects_limit_and_group_order() {
    let mut s = Scheduler::new(2, vec![0, 3], vec![vec![1, 2]]);
    let a = s.next_start().unwrap();
    let b = s.next_start().unwrap();
    assert_eq!((a.config, b.config), (0, 3));
    assert_eq!(a.lane, Lane::Independent);
    assert!(s.next_start().is_none(), "limit of two reached");
    s.complete(a, true);
    let c = s.next_start().unwrap();
    assert_eq!((c.config, c.lane), (1, Lane::Group(0)));
    assert!(s.next_start().is_none(), "group members run one at a time");
    s.complete(b, false);
    assert!(s.next_start().is_none(), "next member waits for the running one");
    s.complete(c, true);
    let d = s.next_start().unwrap();
    assert_eq!(d.config, 2);
    assert!(!s.is_done());
    s.complete(d, true);
    assert!(s.is_done());
    assert_eq!(s.summary(), (3, 1));
}

#[test]
fn adaptive_icons_are_detected() {
    let icon = s("<?xml version=\"1.0\"?><adaptive-icon xmlns:android=\"x\"/>");
    assert!(skin_builder::builder::declares_adaptive_icon(&s("res/mipmap-anydpi-v26/ic.xml"), &icon));
    assert!(!skin_builder::builder::declares_adaptive_icon(&s("res/mipmap-hdpi/ic.xml"), &icon));
    assert!(!skin_builder::builder::declares_adaptive_icon(&s("res/mipmap-anydpi/ic.xml"), &s("<vector/>")));
    assert!(skin_builder::text::contains_text("abc", ""));
    assert!(!skin_builder::text::contains_text("ab", "abc"));
}
