use skin_builder::types::{parallel_limit, select_packages, BuildOverrides};
use skin_builder::{
    extract_common_dependencies, group_configs_by_dependencies, AppConfig, BuildConfig,
    DependencyError, FlavorConfig, MultiAppConfig,
};

fn test_config(
    resource_dir: &str,
    package_name: &str,
    additional_resource_dirs: Option<Vec<String>>,
) -> BuildConfig {
    BuildConfig {
        resource_dir: resource_dir.to_string(),
        manifest_path: "./AndroidManifest.xml".to_string(),
        output_file: None,
        output_dir: "./build".to_string(),
        package_name: package_name.to_string(),
        android_jar: "android.jar".to_string(),
        aar_files: None,
        aapt2_path: None,
        incremental: None,
        cache_dir: None,
        version_code: None,
        version_name: None,
        additional_resource_dirs,
        compiled_dir: None,
        stable_ids_file: None,
        parallel_workers: None,
        package_id: None,
    }
}

fn plain_app(base_dir: Option<&str>, resource_dir: Option<&str>, manifest: Option<&str>, package: &str) -> AppConfig {
    AppConfig {
        base_dir: base_dir.map(|s| s.to_string()),
        resource_dir: resource_dir.map(|s| s.to_string()),
        manifest_path: manifest.map(|s| s.to_string()),
        package_name: package.to_string(),
        additional_resource_dirs: None,
        output_dir: None,
        output_file: None,
        version_code: None,
        version_name: None,
        flavors: None,
        package_id: None,
    }
}

fn flavor(name: &str, resource_dir: Option<&str>, package: Option<&str>, additional: &str) -> FlavorConfig {
    FlavorConfig {
        name: name.to_string(),
        base_dir: None,
        resource_dir: resource_dir.map(|s| s.to_string()),
        manifest_path: None,
        package_name: package.map(|s| s.to_string()),
        additional_resource_dirs: Some(vec![additional.to_string()]),
        output_dir: None,
        output_file: None,
        version_code: None,
        version_name: None,
        package_id: None,
    }
}

fn multi(apps: Vec<AppConfig>) -> MultiAppConfig {
    MultiAppConfig {
        base_dir: None,
        output_dir: "./build".to_string(),
        output_file: None,
        android_jar: "android.jar".to_string(),
        aapt2_path: None,
        aar_files: None,
        incremental: None,
        cache_dir: None,
        version_code: None,
        version_name: None,
        stable_ids_file: None,
        parallel_workers: None,
        package_id: None,
        apps,
    }
}

#[test]
fn test_single_config() {
    let configs = vec![BuildConfig::default_config(None)];
    let (independent, dependent) = group_configs_by_dependencies(configs).unwrap();
    assert_eq!(independent.len(), 1);
    assert_eq!(dependent.len(), 0);
}

#[test]
fn test_independent_configs() {
    let config1 = test_config("./res1", "com.example.app1", None);
    let config2 = test_config("./res2", "com.example.app2", None);

    let configs = vec![config1, config2];
    let (independent, dependent) = group_configs_by_dependencies(configs).unwrap();

    assert_eq!(independent.len(), 2);
    assert_eq!(dependent.len(), 0);
}

#[test]
fn test_dependent_configs() {
    let base_config = test_config("./base/res", "com.example.base", None);
    let feature_config = test_config(
        "./feature/res",
        "com.example.feature",
        Some(vec!["./base/res".to_string()]),
    );

    let configs = vec![base_config, feature_config];
    let (independent, dependent) = group_configs_by_dependencies(configs).unwrap();

    assert_eq!(independent.len(), 0);
    assert_eq!(dependent.len(), 1);
    assert_eq!(dependent[0].len(), 2);

    let sorted_indices: Vec<usize> = dependent[0].iter().map(|c| c.index).collect();
    let base_idx = sorted_indices.iter().position(|&i| i == 0).unwrap();
    let feature_idx = sorted_indices.iter().position(|&i| i == 1).unwrap();
    assert!(base_idx < feature_idx, "Base should be built before feature");
}

#[test]
fn test_multiple_features_depending_on_base() {
    let base_config = test_config("./base/res", "com.example.base", None);
    let feature1_config = test_config(
        "./feature1/res",
        "com.example.feature1",
        Some(vec!["./base/res".to_string()]),
    );
    let feature2_config = test_config(
        "./feature2/res",
        "com.example.feature2",
        Some(vec!["./base/res".to_string()]),
    );

    let configs = vec![base_config, feature1_config, feature2_config];
    let (independent, dependent) = group_configs_by_dependencies(configs).unwrap();

    assert_eq!(independent.len(), 0);
    assert_eq!(dependent.len(), 1);
    assert_eq!(dependent[0].len(), 3);

    let sorted_indices: Vec<usize> = dependent[0].iter().map(|c| c.index).collect();
    assert_eq!(sorted_indices[0], 0, "Base should be built first");
}

#[test]
fn test_mixed_independent_and_dependent_configs() {
    let independent_config = test_config("./independent/res", "com.example.independent", None);
    let base_config = test_config("./base/res", "com.example.base", None);
    let feature_config = test_config(
        "./feature/res",
        "com.example.feature",
        Some(vec!["./base/res".to_string()]),
    );

    let configs = vec![independent_config, base_config, feature_config];
    let (independent, dependent) = group_configs_by_dependencies(configs).unwrap();

    assert_eq!(independent.len(), 1);
    assert_eq!(dependent.len(), 1);
    assert_eq!(dependent[0].len(), 2);

    assert_eq!(independent[0].index, 0);
    assert_eq!(independent[0].config.package_name, "com.example.independent");
}

#[test]
fn test_extract_common_dependencies_none() {
    let config = BuildConfig::default_config(None);
    let common_deps = extract_common_dependencies(&vec![config]);
    assert_eq!(common_deps.len(), 0);
}

#[test]
fn test_extract_common_dependencies_single_shared() {
    let base_config = test_config("./base/res", "com.example.base", None);
    let feature1_config = test_config(
        "./feature1/res",
        "com.example.feature1",
        Some(vec!["./base/res".to_string()]),
    );
    let feature2_config = test_config(
        "./feature2/res",
        "com.example.feature2",
        Some(vec!["./base/res".to_string()]),
    );

    let configs = vec![base_config, feature1_config, feature2_config];
    let common_deps = extract_common_dependencies(&configs);

    assert_eq!(common_deps.len(), 1);
    assert_eq!(common_deps[0].resource_dir, "./base/res");
    assert_eq!(common_deps[0].dependent_configs.len(), 2);
    assert!(common_deps[0].dependent_configs.contains(&1));
    assert!(common_deps[0].dependent_configs.contains(&2));
}

#[test]
fn test_extract_common_dependencies_multiple_shared() {
    let core_config = test_config("./core/res", "com.example.core", None);
    let shared_config = test_config("./shared/res", "com.example.shared", None);
    let app1_config = test_config(
        "./app1/res",
        "com.example.app1",
        Some(vec!["./core/res".to_string(), "./shared/res".to_string()]),
    );
    let app2_config = test_config(
        "./app2/res",
        "com.example.app2",
        Some(vec!["./core/res".to_string(), "./shared/res".to_string()]),
    );

    let configs = vec![core_config, shared_config, app1_config, app2_config];
    let common_deps = extract_common_dependencies(&configs);

    assert_eq!(common_deps.len(), 2);

    let core_dep = common_deps.iter().find(|d| d.resource_dir == "./core/res");
    let shared_dep = common_deps.iter().find(|d| d.resource_dir == "./shared/res");

    assert!(core_dep.is_some());
    assert!(shared_dep.is_some());

    assert_eq!(core_dep.unwrap().dependent_configs.len(), 2);
    assert_eq!(shared_dep.unwrap().dependent_configs.len(), 2);
}

#[test]
fn test_extract_common_dependencies_from_flavors() {
    let base_app = plain_app(None, Some("./base/res"), Some("./base/AndroidManifest.xml"), "com.example.base");
    let mut app_with_flavors =
        plain_app(None, Some("./app/res"), Some("./app/AndroidManifest.xml"), "com.example.app");
    app_with_flavors.flavors = Some(vec![
        flavor("flavor1", None, None, "./base/res"),
        flavor("flavor2", None, None, "./base/res"),
    ]);

    let multi_config = multi(vec![base_app, app_with_flavors]);
    let configs = multi_config.into_build_configs().unwrap();

    assert_eq!(configs.len(), 3);

    let common_deps = extract_common_dependencies(&configs);

    assert_eq!(common_deps.len(), 1);
    assert_eq!(common_deps[0].resource_dir, "./base/res");
    assert_eq!(common_deps[0].dependent_configs.len(), 2);

    assert!(common_deps[0].dependent_configs.contains(&1));
    assert!(common_deps[0].dependent_configs.contains(&2));
}

#[test]
fn test_extract_common_dependencies_across_app_flavors() {
    let mut app_a = plain_app(Some("./a/src/main"), None, None, "com.a");
    app_a.flavors = Some(vec![
        flavor("night", Some("./a/src/main/res-night"), Some("com.a.night"), "./night/src/main/res"),
        flavor("day", Some("./a/src/main/res-day"), Some("com.a.day"), "./day/src/main/res"),
    ]);
    let mut app_b = plain_app(Some("./b/src/main"), None, None, "com.b");
    app_b.flavors = Some(vec![
        flavor("night", Some("./b/src/main/res-night"), Some("com.b.night"), "./night/src/main/res"),
        flavor("day", Some("./b/src/main/res-day"), Some("com.b.day"), "./day/src/main/res"),
    ]);

    let multi_config = multi(vec![app_a, app_b]);
    let configs = multi_config.into_build_configs().unwrap();

    assert_eq!(configs.len(), 4);

    let common_deps = extract_common_dependencies(&configs);

    assert_eq!(common_deps.len(), 2);

    let night_dep = common_deps.iter().find(|d| d.resource_dir == "./night/src/main/res");
    let day_dep = common_deps.iter().find(|d| d.resource_dir == "./day/src/main/res");

    assert!(night_dep.is_some(), "Should find ./night/src/main/res as common dependency");
    assert!(day_dep.is_some(), "Should find ./day/src/main/res as common dependency");

    assert_eq!(night_dep.unwrap().dependent_configs.len(), 2);
    assert_eq!(day_dep.unwrap().dependent_configs.len(), 2);
}

#[test]
fn chain_of_three_builds_in_dependency_order() {
    let a = test_config("./a/res", "com.a", None);
    let b = test_config("./b/res", "com.b", Some(vec!["./a/res".to_string()]));
    let c = test_config("./c/res", "com.c", Some(vec!["./b/res".to_string()]));
    // Listed out of order on purpose.
    let (independent, dependent) = group_configs_by_dependencies(vec![c, b, a]).unwrap();
    assert_eq!(independent.len(), 0);
    assert_eq!(dependent.len(), 1);
    let order: Vec<usize> = dependent[0].iter().map(|c| c.index).collect();
    assert_eq!(order, vec![2, 1, 0]);
    assert_eq!(dependent[0][0].config.package_name, "com.a");
}

#[test]
fn mutual_dependency_is_a_cycle() {
    let a = test_config("./a/res", "com.a", Some(vec!["./b/res".to_string()]));
    let b = test_config("./b/res", "com.b", Some(vec!["./a/res".to_string()]));
    let result = group_configs_by_dependencies(vec![a, b]);
    match result {
        Err(DependencyError::Cycle(rest)) => assert_eq!(rest, vec![0, 1]),
        Ok(_) => panic!("a cycle must be reported"),
    }
}

#[test]
fn no_configs_give_empty_groups() {
    let (independent, dependent) = group_configs_by_dependencies(vec![]).unwrap();
    assert!(independent.is_empty());
    assert!(dependent.is_empty());
    assert!(extract_common_dependencies(&vec![]).is_empty());
}

#[test]
fn backslash_paths_match_forward_slash_paths() {
    let base = test_config("./base/res", "com.base", None);
    let feature = test_config("./feature/res", "com.feature", Some(vec![".\\base\\res".to_string()]));
    let (independent, dependent) = group_configs_by_dependencies(vec![base, feature]).unwrap();
    assert_eq!(independent.len(), 0);
    assert_eq!(dependent[0].len(), 2);
}

#[test]
fn additional_dir_matching_no_main_dir_stays_independent() {
    let a = test_config("./a/res", "com.a", Some(vec!["./shared/res".to_string()]));
    let b = test_config("./b/res", "com.b", Some(vec!["./shared/res".to_string()]));
    let c = test_config("./c/res", "com.c", None);
    let (independent, dependent) = group_configs_by_dependencies(vec![a, b, c]).unwrap();
    let order: Vec<usize> = independent.iter().map(|c| c.index).collect();
    assert_eq!(order, vec![0, 1, 2]);
    assert!(dependent.is_empty());
    // Three configurations, two of which share one directory.
    let a = test_config("./a/res", "com.a", Some(vec!["./shared/res".to_string()]));
    let b = test_config("./b/res", "com.b", Some(vec!["./shared/res".to_string()]));
    let c = test_config("./c/res", "com.c", None);
    let common = extract_common_dependencies(&vec![a, b, c]);
    assert_eq!(common.len(), 1);
    assert_eq!(common[0].resource_dir, "./shared/res");
    assert_eq!(common[0].dependent_configs, vec![0, 1]);
}

#[test]
fn scenario_two_features_share_first_config_directory() {
    let first = test_config("./one/res", "com.one", None);
    let second = test_config("./two/res", "com.two", Some(vec!["./one/res".to_string()]));
    let third = test_config("./three/res", "com.three", Some(vec!["./one/res".to_string()]));
    let common = extract_common_dependencies(&vec![first, second, third]);
    assert_eq!(common.len(), 1);
    assert_eq!(common[0].dependent_configs, vec![1, 2]);
    assert_eq!(common[0].resource_dir, "./one/res");
}

#[test]
fn flavor_inherits_and_derives_fields() {
    let mut app = plain_app(Some("./app/src/main/"), None, None, "com.app");
    app.version_code = Some(7);
    app.flavors = Some(vec![flavor("free", None, None, "./extra/res")]);
    let mut m = multi(vec![app]);
    m.version_name = Some("2.0".to_string());
    let configs = m.into_build_configs().unwrap();
    assert_eq!(configs.len(), 1);
    assert_eq!(configs[0].resource_dir, "./app/src/main/res");
    assert_eq!(configs[0].manifest_path, "./app/src/main/AndroidManifest.xml");
    assert_eq!(configs[0].package_name, "com.app.free");
    assert_eq!(configs[0].version_code, Some(7));
    assert_eq!(configs[0].version_name, Some("2.0".to_string()));
    assert_eq!(configs[0].additional_resource_dirs, Some(vec!["./extra/res".to_string()]));
}

#[test]
fn app_without_paths_is_a_config_error() {
    let app = plain_app(None, None, None, "com.nopath");
    let result = multi(vec![app]).into_build_configs();
    assert!(matches!(result, Err(skin_builder::ConfigError::MissingResourceDir(ref p)) if p == "com.nopath"));
    let app = plain_app(None, Some("./res"), None, "com.nomanifest");
    let result = multi(vec![app]).into_build_configs();
    assert!(matches!(result, Err(skin_builder::ConfigError::MissingManifestPath(_))));
}

#[test]
fn default_config_uses_android_home() {
    let c = BuildConfig::default_config(Some("/sdk".to_string()));
    assert_eq!(c.android_jar, "/sdk/platforms/android-34/android.jar");
    let d = BuildConfig::default_config(None);
    assert_eq!(d.android_jar, "${ANDROID_HOME}/platforms/android-34/android.jar");
    assert_eq!(d.package_id, Some("0x7f".to_string()));
}

#[test]
fn expand_paths_replaces_known_variables() {
    let vars = vec![("HOME_DIR".to_string(), "/home/u".to_string()), ("SDK".to_string(), "/sdk".to_string())];
    let mut c = test_config("${HOME_DIR}/app/res", "com.x", Some(vec!["${SDK}/extra/res".to_string()]));
    c.android_jar = "${SDK}/platforms/android.jar".to_string();
    c.cache_dir = Some("${UNSET}/cache/${SDK}".to_string());
    c.manifest_path = "${HOME_DIR}/a/${SDK".to_string();
    c.expand_paths(&vars);
    assert_eq!(c.resource_dir, "/home/u/app/res");
    assert_eq!(c.android_jar, "/sdk/platforms/android.jar");
    assert_eq!(c.additional_resource_dirs, Some(vec!["/sdk/extra/res".to_string()]));
    // An unset variable stops expansion there.
    assert_eq!(c.cache_dir, Some("${UNSET}/cache/${SDK}".to_string()));
    // A reference without a closing brace is left as written.
    assert_eq!(c.manifest_path, "/home/u/a/${SDK");
    assert_eq!(c.package_name, "com.x");
}

#[test]
fn command_line_overrides_replace_set_fields() {
    let mut c = test_config("./res", "com.x", Some(vec!["./extra".to_string()]));
    c.version_code = Some(1);
    let o = BuildOverrides {
        resource_dir: Some("./other/res".to_string()),
        manifest_path: None,
        output_dir: None,
        package_name: Some("com.y".to_string()),
        android_jar: None,
        aar_files: vec!["lib.aar".to_string()],
        aapt2_path: None,
        incremental: true,
        version_code: None,
        version_name: Some("9".to_string()),
        stable_ids_file: None,
        package_id: Some("0x80".to_string()),
    };
    o.apply(&mut c);
    assert_eq!(c.resource_dir, "./other/res");
    assert_eq!(c.manifest_path, "./AndroidManifest.xml");
    assert_eq!(c.package_name, "com.y");
    assert_eq!(c.aar_files, Some(vec!["lib.aar".to_string()]));
    assert_eq!(c.incremental, Some(true));
    assert_eq!(c.version_code, Some(1));
    assert_eq!(c.version_name, Some("9".to_string()));
    assert_eq!(c.package_id, Some("0x80".to_string()));
    assert_eq!(c.additional_resource_dirs, Some(vec!["./extra".to_string()]));
}

#[test]
fn package_selection_and_parallel_limit() {
    let all = || vec![test_config("./a", "com.a", None), test_config("./b", "com.b", None), test_config("./c", "com.c", None)];
    assert_eq!(select_packages(all(), &vec![]).len(), 3);
    let picked = select_packages(all(), &vec!["com.c".to_string(), "com.a".to_string()]);
    let names: Vec<&str> = picked.iter().map(|c| c.package_name.as_str()).collect();
    assert_eq!(names, vec!["com.a", "com.c"]);
    assert!(select_packages(all(), &vec!["com.z".to_string()]).is_empty());
    assert_eq!(parallel_limit(Some(3), Some(5), 8), 3);
    assert_eq!(parallel_limit(None, Some(5), 8), 5);
    assert_eq!(parallel_limit(None, None, 8), 8);
    assert_eq!(parallel_limit(Some(0), None, 8), 1);
}

#[test]
fn cycle_report_names_configs_kept_out_of_the_order() {
    let a = test_config("./a/res", "com.a", Some(vec!["./b/res".to_string()]));
    let b = test_config("./b/res", "com.b", Some(vec!["./a/res".to_string()]));
    let free = test_config("./free/res", "com.free", None);
    let c = test_config("./c/res", "com.c", Some(vec!["./a/res".to_string()]));
    match group_configs_by_dependencies(vec![a, free, b, c]) {
        Err(DependencyError::Cycle(rest)) => assert_eq!(rest, vec![0, 2, 3]),
        Ok(_) => panic!("a cycle must be reported"),
    }
}
