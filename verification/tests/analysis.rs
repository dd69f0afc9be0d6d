use platform_features::catalog::Package;
use platform_features::catalog::find_package_id;
use platform_features::consolidate::Features;
use platform_features::consolidate::TargetedFeatures;
use platform_features::consolidate::consolidate_features;
use platform_features::error::FeatureError;
use platform_features::features::configured_triples;
use platform_features::features::get_per_platform_features;
use platform_features::line::process_line;
use platform_features::runner::filter_lines;
use platform_features::runner::make_package_map;
use platform_features::transpose::transpose_keys;
use platform_features::version::Version;
use platform_features::version::parse_version;

fn s(x: &str) -> String {
    x.to_string()
}

fn strs(xs: &[&str]) -> Vec<String> {
    xs.iter().map(|x| x.to_string()).collect()
}

fn ver(major: u64, minor: u64, patch: u64) -> Version {
    Version { major, minor, patch, pre: String::new(), build: String::new() }
}

fn demo_catalog() -> Vec<Package> {
    vec![
        Package { name: s("demo"), version: ver(1, 2, 3), id: s("demo 1.2.3 (registry)") },
        Package { name: s("other"), version: ver(0, 1, 0), id: s("other 0.1.0 (registry)") },
    ]
}

#[test]
fn parses_name_version_and_features() {
    let (name, version, feats) = process_line("demo 1.2.3|alpha,beta|").unwrap();
    assert_eq!(name, "demo");
    assert_eq!(version, ver(1, 2, 3));
    assert_eq!(feats, strs(&["alpha", "beta"]));
}

#[test]
fn feature_sets_are_sorted_and_deduplicated() {
    let (_, _, feats) = process_line("demo 1.2.3|beta,alpha,beta,,alpha|").unwrap();
    assert_eq!(feats, strs(&["alpha", "beta"]));
}

#[test]
fn line_without_delimiter_is_a_format_error() {
    assert_eq!(process_line("demo 1.2.3").unwrap_err(), FeatureError::LineFormatError);
}

#[test]
fn line_without_space_is_a_format_error() {
    assert_eq!(process_line("demo|alpha|").unwrap_err(), FeatureError::LineFormatError);
}

#[test]
fn non_numeric_version_is_a_version_parse_error() {
    assert_eq!(process_line("demo vX.Y.Z|a|").unwrap_err(), FeatureError::VersionParseError);
}

#[test]
fn version_prefix_marker_is_stripped() {
    let (_, version, _) = process_line("demo v1.2.3|a|").unwrap();
    assert_eq!(version, ver(1, 2, 3));
}

#[test]
fn parse_version_reads_all_components() {
    let v = parse_version("1.2.3-alpha.1+build5").unwrap();
    assert_eq!(v.major, 1);
    assert_eq!(v.minor, 2);
    assert_eq!(v.patch, 3);
    assert_eq!(v.pre, "alpha.1");
    assert_eq!(v.build, "build5");
}

#[test]
fn parse_version_rejects_garbage() {
    assert_eq!(parse_version("one.two.three").unwrap_err(), FeatureError::VersionParseError);
}

#[test]
fn lookup_finds_the_matching_package() {
    let id = find_package_id(&s("demo"), &ver(1, 2, 3), &demo_catalog()).unwrap();
    assert_eq!(id, "demo 1.2.3 (registry)");
}

#[test]
fn lookup_miss_is_a_lookup_error() {
    let err = find_package_id(&s("demo"), &ver(9, 9, 9), &demo_catalog()).unwrap_err();
    assert_eq!(err, FeatureError::LookupError);
}

#[test]
fn filter_drops_markers_blanks_and_repeats() {
    let lines = strs(&[
        "demo 1.2.3|a|",
        "",
        "demo 1.2.3|a| (*)",
        "other 0.1.0||",
        "demo 1.2.3|a|",
        "other 0.1.0|b|",
    ]);
    let kept = filter_lines(&lines);
    assert_eq!(kept, strs(&["demo 1.2.3|a|", "other 0.1.0|b|"]));
}

#[test]
fn repeated_identity_unions_feature_sets() {
    let lines = strs(&["demo 1.2.3|a,b|", "demo 1.2.3|b,c|"]);
    let map = make_package_map(&lines, &demo_catalog()).unwrap();
    assert_eq!(map.len(), 1);
    assert_eq!(map[0].0, "demo 1.2.3 (registry)");
    let mut got = map[0].1.clone();
    got.sort();
    got.dedup();
    assert_eq!(got, strs(&["a", "b", "c"]));
}

#[test]
fn unknown_package_aborts_the_map() {
    let lines = strs(&["ghost 7.7.7|a|"]);
    let err = make_package_map(&lines, &demo_catalog()).unwrap_err();
    assert_eq!(err, FeatureError::LookupError);
}

#[test]
fn empty_features_value_is_empty() {
    let f = Features::empty();
    assert!(f.features.is_empty());
    assert!(f.targeted_features.is_empty());
}

fn entry(t: &str, feats: &[&str]) -> (String, Vec<String>) {
    (s(t), strs(feats))
}

#[test]
fn uniform_feature_sets_yield_no_groups() {
    let f = consolidate_features(&vec![
        entry("linux", &["x", "y"]),
        entry("windows", &["y", "x"]),
    ]);
    assert_eq!(f.features, strs(&["x", "y"]));
    assert!(f.targeted_features.is_empty());
}

#[test]
fn single_platform_keeps_its_set_unsplit() {
    let f = consolidate_features(&vec![entry("linux", &["b", "a"])]);
    assert_eq!(f.features, strs(&["a", "b"]));
    assert!(f.targeted_features.is_empty());
}

#[test]
fn split_sets_group_by_platform_in_descending_order() {
    let f = consolidate_features(&vec![
        entry("linux", &["shared", "onlyLinux"]),
        entry("windows", &["shared", "onlyWindows"]),
    ]);
    assert_eq!(f.features, strs(&["shared"]));
    assert_eq!(
        f.targeted_features,
        vec![
            TargetedFeatures { platforms: strs(&["windows"]), features: strs(&["onlyWindows"]) },
            TargetedFeatures { platforms: strs(&["linux"]), features: strs(&["onlyLinux"]) },
        ]
    );
}

#[test]
fn wider_platform_groups_come_first() {
    let f = consolidate_features(&vec![
        entry("a", &["common", "wide", "narrow"]),
        entry("b", &["common", "wide"]),
        entry("c", &["common"]),
    ]);
    assert_eq!(f.features, strs(&["common"]));
    assert_eq!(
        f.targeted_features,
        vec![
            TargetedFeatures { platforms: strs(&["a", "b"]), features: strs(&["wide"]) },
            TargetedFeatures { platforms: strs(&["a"]), features: strs(&["narrow"]) },
        ]
    );
}

#[test]
fn consolidation_is_idempotent() {
    let entries = vec![
        entry("linux", &["shared", "onlyLinux"]),
        entry("windows", &["shared", "onlyWindows"]),
    ];
    let first = consolidate_features(&entries);
    let second = consolidate_features(&entries);
    assert_eq!(first, second);
}

#[test]
fn consolidation_ignores_entry_order() {
    let forward = consolidate_features(&vec![
        entry("linux", &["shared", "onlyLinux"]),
        entry("windows", &["shared", "onlyWindows"]),
    ]);
    let backward = consolidate_features(&vec![
        entry("windows", &["onlyWindows", "shared"]),
        entry("linux", &["onlyLinux", "shared"]),
    ]);
    assert_eq!(forward, backward);
}

#[test]
fn transpose_swaps_the_nesting() {
    let out = transpose_keys(&vec![
        (s("linux"), vec![entry("p1", &["a"]), entry("p2", &["b"])]),
        (s("windows"), vec![entry("p1", &["c"])]),
    ]);
    assert_eq!(out.len(), 2);
    assert_eq!(out[0].0, "p1");
    assert_eq!(out[0].1, vec![entry("linux", &["a"]), entry("windows", &["c"])]);
    assert_eq!(out[1].0, "p2");
    assert_eq!(out[1].1, vec![entry("linux", &["b"])]);
}

#[test]
fn configured_triples_deduplicates() {
    let r = configured_triples(
        &Some(s("linux")),
        &Some(strs(&["windows", "linux", "mac", "windows"])),
    );
    assert_eq!(r, strs(&["linux", "windows", "mac"]));
}

#[test]
fn configured_triples_handles_absent_settings() {
    let r = configured_triples(&None, &None);
    assert!(r.is_empty());
}

#[test]
fn whole_analysis_consolidates_each_package() {
    let catalog = demo_catalog();
    let outputs = vec![
        (
            s("linux"),
            strs(&["demo 1.2.3|shared,onlyLinux|", "other 0.1.0|o|", "demo 1.2.3|shared| (*)"]),
        ),
        (s("windows"), strs(&["demo 1.2.3|shared,onlyWindows|"])),
    ];
    let out = get_per_platform_features(&outputs, &catalog).unwrap();
    assert_eq!(out.len(), 2);
    let demo = out.iter().find(|e| e.0 == "demo 1.2.3 (registry)").unwrap();
    assert_eq!(demo.1.features, strs(&["shared"]));
    assert_eq!(
        demo.1.targeted_features,
        vec![
            TargetedFeatures { platforms: strs(&["windows"]), features: strs(&["onlyWindows"]) },
            TargetedFeatures { platforms: strs(&["linux"]), features: strs(&["onlyLinux"]) },
        ]
    );
    let other = out.iter().find(|e| e.0 == "other 0.1.0 (registry)").unwrap();
    assert_eq!(other.1.features, strs(&["o"]));
    assert!(other.1.targeted_features.is_empty());
}

#[test]
fn whole_analysis_fails_on_any_unresolvable_line() {
    let catalog = demo_catalog();
    let outputs = vec![
        (s("linux"), strs(&["demo 1.2.3|shared|"])),
        (s("windows"), strs(&["ghost 7.7.7|x|"])),
    ];
    let err = get_per_platform_features(&outputs, &catalog).unwrap_err();
    assert_eq!(err, FeatureError::LookupError);
}
