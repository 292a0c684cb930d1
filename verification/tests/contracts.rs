use versions_le::cli::{parse, summarise};
use versions_le::discover::{descend, keep, DiscoverOptions};
use versions_le::heuristics::{Excludes, ManifestKind};
use versions_le::scan::{exit_code, scan, FailOn, Found, Report};

fn found(kind: ManifestKind, label: &str, content: &str) -> Found {
    let name = label.rsplit('/').next().unwrap_or(label).to_string();
    Found { kind, label: label.to_string(), name, content: Ok(content.to_string()) }
}

fn codes(report: &Report) -> Vec<&str> {
    report.findings.iter().map(|f| f.code.as_str()).collect()
}

fn stderr(report: &Report) -> String {
    summarise(report).join("\n")
}

const API: &str =
    "[package]\nname = \"api\"\nrust-version = \"1.88\"\n\n[dependencies]\nserde = \"1.0.200\"\n";
const WEB: &str = "[package]\nname = \"web\"\n\n[dependencies]\nserde = \"1\"\n";
const CI: &str = "jobs:\n  test:\n    steps:\n      - uses: dtolnay/rust-toolchain@1.80\n";

/// What the walk finds in the drifted tree: two crates that disagree
/// about `serde`, and a workflow older than the declared minimum.
fn drifted() -> Vec<Found> {
    vec![
        found(ManifestKind::Workflow, ".github/workflows/ci.yml", CI),
        found(ManifestKind::CargoToml, "api/Cargo.toml", API),
        found(ManifestKind::CargoToml, "web/Cargo.toml", WEB),
    ]
}

#[test]
fn a_drifted_constraint_exits_one_and_names_both_sites() {
    let report = scan(drifted());
    assert_eq!(exit_code(&report, FailOn::Conflict, false), 1);
    assert!(codes(&report).contains(&"constraint-conflict"));
    let text = stderr(&report);
    assert!(text.contains("api/Cargo.toml"), "{text}");
    assert!(text.contains("web/Cargo.toml"), "{text}");
}

#[test]
fn an_unsatisfiable_pair_is_reported_as_disjoint_and_not_as_a_conflict() {
    let report = scan(vec![
        found(ManifestKind::CargoToml, "a/Cargo.toml", "[dependencies]\nserde = \"1\"\n"),
        found(ManifestKind::CargoToml, "b/Cargo.toml", "[dependencies]\nserde = \"2\"\n"),
    ]);
    assert_eq!(exit_code(&report, FailOn::Conflict, false), 1);
    assert_eq!(codes(&report), ["disjoint-constraint"]);
    assert!(stderr(&report).contains("error"));
}

#[test]
fn an_unmodelled_grammar_is_a_refusal_and_never_a_finding() {
    let report = scan(vec![
        found(ManifestKind::CargoToml, "a/Cargo.toml", "[dependencies]\nserde = \"1.0.200\"\n"),
        found(ManifestKind::CargoToml, "b/Cargo.toml", "[dependencies]\nserde = { workspace = true }\n"),
    ]);
    assert_eq!(exit_code(&report, FailOn::Conflict, false), 0);
    assert!(codes(&report).is_empty(), "{:?}", codes(&report));
    assert_eq!(report.refusals[0].reason, "unknown_grammar");
    assert!(stderr(&report).contains("refused"));
}

#[test]
fn a_name_in_two_ecosystems_is_refused_rather_than_compared() {
    let report = scan(vec![
        found(ManifestKind::CargoToml, "Cargo.toml", "[dependencies]\nsemver = \"1.0.28\"\n"),
        found(ManifestKind::PackageJson, "package.json", r#"{ "dependencies": { "semver": "^7.6.0" } }"#),
    ]);
    assert_eq!(exit_code(&report, FailOn::Conflict, false), 0);
    assert!(codes(&report).is_empty());
    assert_eq!(report.refusals[0].reason, "cross_ecosystem");
    assert_eq!(exit_code(&report, FailOn::Conflict, true), 0);
}

#[test]
fn a_matrix_expression_is_an_ambiguous_version_string() {
    let report = scan(vec![found(
        ManifestKind::Workflow,
        ".github/workflows/ci.yml",
        "jobs:\n  test:\n    steps:\n      - uses: actions/setup-node@v4\n        with:\n          node-version: ${{ matrix.node }}\n",
    )]);
    assert_eq!(report.refusals[0].reason, "ambiguous_version_string");
    assert_eq!(exit_code(&report, FailOn::Conflict, false), 0);
    assert_eq!(exit_code(&report, FailOn::Conflict, true), 2);
}

#[test]
fn contracts_a_floating_pin_fails_only_under_fail_on_any() {
    let report = scan(vec![found(
        ManifestKind::PackageJson,
        "package.json",
        r#"{ "dependencies": { "left-pad": "latest" } }"#,
    )]);
    assert_eq!(exit_code(&report, FailOn::Conflict, false), 0);
    assert_eq!(codes(&report), ["floating-pin"]);
    let options = parse(&vec!["--fail-on".to_string(), "any".to_string(), ".".to_string()])
        .expect("options");
    assert_eq!(exit_code(&report, options.fail_on, options.strict), 1);
}

#[test]
fn a_ci_toolchain_below_the_declared_msrv_is_a_finding() {
    let report = scan(drifted());
    assert!(codes(&report).contains(&"msrv-mismatch"));
    assert!(stderr(&report).contains("1.80"), "{}", stderr(&report));
}

#[test]
fn several_roots_are_analysed_together() {
    let report = scan(vec![
        found(ManifestKind::CargoToml, "/tmp/roots/api/Cargo.toml", API),
        found(ManifestKind::CargoToml, "/tmp/roots/web/Cargo.toml", WEB),
    ]);
    assert_eq!(report.summary.manifests, 2);
    assert_eq!(exit_code(&report, FailOn::Conflict, false), 1);
}

#[test]
fn a_named_manifest_is_the_whole_walk() {
    let report = scan(vec![found(ManifestKind::CargoToml, "/tmp/named/api/Cargo.toml", API)]);
    assert_eq!(report.summary.manifests, 1);
    assert_eq!(exit_code(&report, FailOn::Conflict, false), 0);
}

#[test]
fn a_manifest_that_does_not_parse_is_named_and_the_rest_still_answer() {
    let report = scan(vec![
        found(ManifestKind::CargoToml, "a/Cargo.toml", "[dependencies]\nserde = \"1\"\n"),
        found(ManifestKind::CargoToml, "b/Cargo.toml", "[dependencies]\nserde = \"2\"\n"),
        found(ManifestKind::PackageJson, "package.json", "{ not json"),
    ]);
    assert_eq!(exit_code(&report, FailOn::Conflict, false), 1, "the Cargo answer still stands");
    assert!(stderr(&report).contains("package.json"));
    assert_eq!(report.diagnostics[0].code, "parse-error");
    assert_eq!(exit_code(&report, FailOn::Conflict, true), 2);
}

#[test]
fn an_unknown_flag_exits_two_and_names_itself() {
    let error = parse(&vec!["--stict".to_string(), ".".to_string()]).expect_err("a refusal");
    assert!(error.contains("--stict"), "{error}");
}

#[test]
fn an_unknown_ecosystem_exits_two_rather_than_widening_the_walk() {
    let error = parse(&vec!["--ecosystem".to_string(), "maven".to_string(), ".".to_string()])
        .expect_err("a refusal");
    assert!(error.contains("maven"), "{error}");
}

#[test]
fn no_flag_offers_to_change_a_manifest() {
    for attempt in ["--fix", "--write", "--update", "--pin", "--json"] {
        assert!(parse(&vec![attempt.to_string(), ".".to_string()]).is_err(), "{attempt} was accepted");
    }
}

#[test]
fn stdout_is_one_report_with_no_timestamp_and_is_byte_stable() {
    let first = scan(drifted());
    let again = scan(drifted());
    assert_eq!(first, again, "two runs, two reports");
    assert_eq!(first.schema, 1);
    assert!(!stderr(&first).contains('{'), "{}", stderr(&first));
}

#[test]
fn manifests_that_agree_exit_zero() {
    let report = scan(vec![
        found(ManifestKind::CargoToml, "a/Cargo.toml", "[dependencies]\nserde = \"1.0.200\"\n"),
        found(ManifestKind::CargoToml, "b/Cargo.toml", "[dependencies]\nserde = \"1.0.200\"\n"),
    ]);
    assert_eq!(exit_code(&report, FailOn::Conflict, false), 0);
    assert_eq!(report.summary.findings, 0);
    assert!(stderr(&report).contains("consistent"));
}

#[test]
fn no_manifests_exits_zero() {
    let report = scan(Vec::new());
    assert_eq!(exit_code(&report, FailOn::Conflict, false), 0);
    assert_eq!(report.summary.manifests, 0);
    assert!(stderr(&report).contains("no manifests"));
}

/// What the walk keeps under one root, decided by the library.
fn walked(options: &DiscoverOptions, tree: &[(&str, &str)]) -> Vec<Found> {
    let excludes = Excludes::new(&options.exclude);
    tree.iter()
        .filter(|(path, _)| {
            let dirs: Vec<&str> = path.split('/').collect();
            dirs[..dirs.len() - 1].iter().all(|d| descend(d, options.hidden))
        })
        .filter_map(|(path, content)| {
            keep(path, &excludes, &options.ecosystems).map(|kind| found(kind, path, content))
        })
        .collect()
}

fn options(args: &[&str]) -> DiscoverOptions {
    let args: Vec<String> = args.iter().map(|a| a.to_string()).collect();
    parse(&args).expect("options").discover
}

#[test]
fn contracts_an_ecosystem_filter_narrows_the_walk() {
    let tree = [
        ("Cargo.toml", "[dependencies]\nserde = \"1\"\n"),
        ("package.json", r#"{ "dependencies": { "a": "1" } }"#),
    ];
    assert_eq!(scan(walked(&options(&["."]), &tree)).summary.manifests, 2);
    assert_eq!(scan(walked(&options(&["--ecosystem", "cargo", "."]), &tree)).summary.manifests, 1);
}

#[test]
fn an_exclude_pattern_removes_a_manifest_from_the_comparison() {
    let tree = [
        ("Cargo.toml", "[dependencies]\nserde = \"1\"\n"),
        ("examples/demo/Cargo.toml", "[dependencies]\nserde = \"2\"\n"),
    ];
    let all = scan(walked(&options(&["."]), &tree));
    assert_eq!(exit_code(&all, FailOn::Conflict, false), 1);
    let excluded = scan(walked(&options(&["--exclude", "examples/**", "."]), &tree));
    assert_eq!(exit_code(&excluded, FailOn::Conflict, false), 0);
}

#[test]
fn the_workflow_directory_is_walked_but_other_hidden_directories_are_not() {
    let tree = [
        (".github/workflows/ci.yml", "steps:\n  - uses: actions/checkout@v4\n"),
        (".cache/Cargo.toml", "[dependencies]\nserde = \"1\"\n"),
    ];
    assert_eq!(scan(walked(&options(&["."]), &tree)).summary.manifests, 1);
    assert_eq!(scan(walked(&options(&["--hidden", "."]), &tree)).summary.manifests, 2);
}
