use versions_le::compare::{analyse, rank, Finding, ERROR, INFO, WARNING};
use versions_le::heuristics::{Ecosystem, ManifestKind};
use versions_le::parser::{parse, Entry, ParseError, Refusal};

fn entries(files: &[(ManifestKind, &str, &str)]) -> (Vec<Entry>, Vec<ParseError>) {
    let mut all = Vec::new();
    let mut errors = Vec::new();
    for (kind, file, content) in files {
        let parsed = parse(*kind, file, content);
        all.extend(parsed.entries);
        errors.extend(parsed.errors);
    }
    (all, errors)
}

fn findings(files: &[(ManifestKind, &str, &str)]) -> Vec<Finding> {
    let (entries, errors) = entries(files);
    assert!(errors.is_empty(), "{errors:?}");
    analyse(&entries).0
}

fn coded<'a>(findings: &'a [Finding], code: &str) -> Vec<&'a Finding> {
    findings.iter().filter(|f| f.code == code).collect()
}

const CARGO_A: (ManifestKind, &str, &str) =
    (ManifestKind::CargoToml, "a/Cargo.toml", "[dependencies]\nserde = \"1.0.200\"\n");

#[test]
fn the_same_dependency_constrained_two_ways_is_a_conflict() {
    let found = findings(&[
        CARGO_A,
        (ManifestKind::CargoToml, "b/Cargo.toml", "[dependencies]\nserde = \"1\"\n"),
    ]);
    let conflicts = coded(&found, "constraint-conflict");
    assert_eq!(conflicts.len(), 1);
    assert_eq!(conflicts[0].name, "serde");
    assert_eq!(conflicts[0].severity, WARNING);
    assert_eq!(conflicts[0].sites.len(), 2);
}

#[test]
fn two_constraints_no_version_satisfies_are_disjoint_not_merely_different() {
    let found = findings(&[
        CARGO_A,
        (ManifestKind::CargoToml, "b/Cargo.toml", "[dependencies]\nserde = \"2.0\"\n"),
    ]);
    assert!(coded(&found, "constraint-conflict").is_empty());
    let disjoint = coded(&found, "disjoint-constraint");
    assert_eq!(disjoint.len(), 1);
    assert_eq!(disjoint[0].severity, ERROR);
    assert!(disjoint[0].message.contains("cannot both be satisfied"));
}

#[test]
fn the_same_constraint_in_two_files_is_not_a_finding() {
    let found = findings(&[
        CARGO_A,
        (ManifestKind::CargoToml, "b/Cargo.toml", "[dependencies]\nserde = \"1.0.200\"\n"),
    ]);
    assert!(coded(&found, "constraint-conflict").is_empty());
    assert!(coded(&found, "disjoint-constraint").is_empty());
}

#[test]
fn two_spellings_of_one_requirement_are_not_a_conflict() {
    let found = findings(&[
        (ManifestKind::PackageJson, "package.json", r#"{ "engines": { "node": ">=20.0.0" } }"#),
        (ManifestKind::PackageJson, "mcp/package.json", r#"{ "engines": { "node": ">=20" } }"#),
    ]);
    assert!(found.is_empty(), "{found:?}");
}

#[test]
fn a_name_in_two_ecosystems_is_never_compared() {
    let (entries, _) = entries(&[
        (ManifestKind::CargoToml, "Cargo.toml", "[dependencies]\nsemver = \"1.0.28\"\n"),
        (
            ManifestKind::PackageJson,
            "package.json",
            r#"{ "dependencies": { "semver": "^7.6.0" } }"#,
        ),
    ]);
    let (found, refusals) = analyse(&entries);
    assert!(coded(&found, "constraint-conflict").is_empty());
    assert!(coded(&found, "disjoint-constraint").is_empty());
    assert_eq!(refusals.len(), 1);
    assert_eq!(refusals[0].reason, "cross_ecosystem");
    assert_eq!(refusals[0].name, "semver");
    assert!(refusals[0].ecosystem.is_none());
}

#[test]
fn an_unknown_grammar_never_manufactures_a_conflict() {
    let found = findings(&[
        CARGO_A,
        (ManifestKind::CargoToml, "b/Cargo.toml", "[dependencies]\nserde = { workspace = true }\n"),
    ]);
    assert!(coded(&found, "constraint-conflict").is_empty());
    assert!(coded(&found, "disjoint-constraint").is_empty());
}

#[test]
fn two_jobs_pinning_one_tool_differently_is_refused_not_a_conflict() {
    let (entries, _) = entries(&[
        (
            ManifestKind::Workflow,
            ".github/workflows/ci.yml",
            "      - uses: actions/setup-python@v5\n        with:\n          python-version: 3.9\n",
        ),
        (
            ManifestKind::Workflow,
            ".github/workflows/publish.yml",
            "      - uses: actions/setup-python@v5\n        with:\n          python-version: 3.12\n",
        ),
    ]);
    let (found, refusals) = analyse(&entries);
    assert!(coded(&found, "disjoint-constraint").is_empty(), "{found:?}");
    assert!(coded(&found, "constraint-conflict").is_empty(), "{found:?}");

    let refused: Vec<&Refusal> =
        refusals.iter().filter(|refusal| refusal.reason == "per_job_tool_version").collect();
    assert_eq!(refused.len(), 1, "{refusals:?}");
    assert_eq!(refused[0].name, "python");
    assert_eq!(refused[0].sites.len(), 2);
    assert!(refused[0].message.contains("3.9"), "{}", refused[0].message);
}

#[test]
fn an_action_pinned_two_ways_is_still_a_conflict() {
    let found = findings(&[
        (ManifestKind::Workflow, ".github/workflows/ci.yml", "      - uses: actions/checkout@v4\n"),
        (
            ManifestKind::Workflow,
            ".github/workflows/publish.yml",
            "      - uses: actions/checkout@v5\n",
        ),
    ]);
    assert_eq!(coded(&found, "disjoint-constraint").len(), 1, "{found:?}");
}

#[test]
fn a_package_manager_pinned_two_ways_is_still_a_conflict() {
    let found = findings(&[
        (ManifestKind::PackageJson, "package.json", r#"{ "packageManager": "bun@1.1.0" }"#),
        (ManifestKind::PackageJson, "app/package.json", r#"{ "packageManager": "bun@1.2.0" }"#),
    ]);
    assert_eq!(coded(&found, "disjoint-constraint").len(), 1, "{found:?}");
}

#[test]
fn a_floating_pin_is_informational() {
    let found = findings(&[(
        ManifestKind::PackageJson,
        "package.json",
        r#"{ "dependencies": { "left-pad": "latest" } }"#,
    )]);
    let floating = coded(&found, "floating-pin");
    assert_eq!(floating.len(), 1);
    assert_eq!(floating[0].severity, INFO);
}

#[test]
fn a_declared_msrv_that_differs_across_manifests_is_a_mismatch() {
    let found = findings(&[
        (ManifestKind::CargoToml, "a/Cargo.toml", "[package]\nrust-version = \"1.88\"\n"),
        (ManifestKind::CargoToml, "b/Cargo.toml", "[package]\nrust-version = \"1.82\"\n"),
    ]);
    let msrv = coded(&found, "msrv-mismatch");
    assert_eq!(msrv.len(), 1);
    assert!(msrv[0].message.contains("1.88"));
}

#[test]
fn a_ci_toolchain_below_the_declared_msrv_is_a_mismatch() {
    let found = findings(&[
        (ManifestKind::CargoToml, "Cargo.toml", "[package]\nrust-version = \"1.88\"\n"),
        (
            ManifestKind::Workflow,
            ".github/workflows/ci.yml",
            "      - uses: dtolnay/rust-toolchain@1.85\n",
        ),
    ]);
    let msrv = coded(&found, "msrv-mismatch");
    assert_eq!(msrv.len(), 1);
    assert_eq!(msrv[0].ecosystem, Ecosystem::Ci);
    assert!(msrv[0].message.contains("1.85"), "{}", msrv[0].message);
}

#[test]
fn a_ci_toolchain_at_or_above_the_declared_msrv_is_silent() {
    let found = findings(&[
        (ManifestKind::CargoToml, "Cargo.toml", "[package]\nrust-version = \"1.88\"\n"),
        (
            ManifestKind::Workflow,
            ".github/workflows/ci.yml",
            "      - uses: dtolnay/rust-toolchain@1.88\n",
        ),
    ]);
    assert!(coded(&found, "msrv-mismatch").is_empty());
}

#[test]
fn a_prerelease_is_a_finding_in_production_and_not_in_dev() {
    let found = findings(&[(
        ManifestKind::PackageJson,
        "package.json",
        r#"{
          "dependencies": { "shipped": "^2.0.0-rc.1" },
          "devDependencies": { "harness": "^3.0.0-beta.2" }
        }"#,
    )]);
    let pre = coded(&found, "prerelease-in-production");
    assert_eq!(pre.len(), 1);
    assert_eq!(pre[0].name, "shipped");
}

#[test]
fn a_constraint_that_does_not_parse_is_a_finding_against_the_manifest() {
    let found = findings(&[(
        ManifestKind::PackageJson,
        "package.json",
        r#"{ "dependencies": { "broken": "^^1.0.0" } }"#,
    )]);
    let malformed = coded(&found, "malformed-constraint");
    assert_eq!(malformed.len(), 1);
    assert_eq!(malformed[0].severity, ERROR);
}

#[test]
fn findings_come_back_worst_first_and_in_a_stable_order() {
    let found = findings(&[
        (
            ManifestKind::PackageJson,
            "package.json",
            r#"{ "dependencies": { "a": "1.0.0", "b": "latest", "c": "^^1" } }"#,
        ),
        (ManifestKind::PackageJson, "app/package.json", r#"{ "dependencies": { "a": "2.0.0" } }"#),
    ]);
    let codes: Vec<&str> = found.iter().map(|f| f.code.as_str()).collect();
    assert_eq!(codes, ["disjoint-constraint", "malformed-constraint", "floating-pin"]);
}

#[test]
fn nothing_to_compare_is_no_findings() {
    assert!(analyse(&Vec::new()).0.is_empty());
    assert!(analyse(&Vec::new()).1.is_empty());
}

#[test]
fn the_severities_rank_error_warning_info() {
    assert!(rank(ERROR) < rank(WARNING));
    assert!(rank(WARNING) < rank(INFO));
}

#[test]
fn a_disjoint_finding_names_both_constraints() {
    let found = findings(&[
        CARGO_A,
        (ManifestKind::CargoToml, "b/Cargo.toml", "[dependencies]\nserde = \"2.0\"\n"),
    ]);
    let disjoint = coded(&found, "disjoint-constraint");
    assert_eq!(disjoint[0].ecosystem, Ecosystem::Cargo);
    assert!(disjoint[0].message.contains("1.0.200"), "{}", disjoint[0].message);
    assert!(disjoint[0].message.contains("2.0"), "{}", disjoint[0].message);
    let files: Vec<&str> = disjoint[0].sites.iter().map(|s| s.file.as_str()).collect();
    assert_eq!(files, ["a/Cargo.toml", "b/Cargo.toml"]);
}

#[test]
fn a_dev_only_entry_still_takes_part_in_the_comparison() {
    let found = findings(&[
        CARGO_A,
        (ManifestKind::CargoToml, "b/Cargo.toml", "[dev-dependencies]\nserde = \"2\"\n"),
    ]);
    assert_eq!(coded(&found, "disjoint-constraint").len(), 1, "{found:?}");
}

#[test]
fn a_dependency_called_rust_is_no_toolchain_claim() {
    let base = [
        (ManifestKind::CargoToml, "Cargo.toml", "[package]\nrust-version = \"1.88\"\n"),
        (ManifestKind::Workflow, ".github/workflows/ci.yml", "      - uses: dtolnay/rust-toolchain@1.90\n"),
    ];
    let with_name = [
        base[0],
        base[1],
        (ManifestKind::CargoToml, "b/Cargo.toml", "[dependencies]\nrust = \"1.0\"\n"),
    ];
    assert!(coded(&findings(&base), "msrv-mismatch").is_empty());
    assert!(coded(&findings(&with_name), "msrv-mismatch").is_empty());
}
