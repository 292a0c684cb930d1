use versions_le::cli::summarise;
use versions_le::heuristics::ManifestKind;
use versions_le::scan::{exit_code, scan, FailOn, Found};

fn found(kind: ManifestKind, label: &str, content: &str) -> Found {
    let name = label.rsplit('/').next().unwrap_or(label).to_string();
    Found { kind, label: label.to_string(), name, content: Ok(content.to_string()) }
}

/// The repository the README opens with, and the summary it prints.
#[test]
fn the_readme_example_reads_as_documented() {
    let report = scan(vec![
        found(
            ManifestKind::Workflow,
            ".github/workflows/ci.yml",
            "jobs:\n  test:\n    steps:\n      - uses: dtolnay/rust-toolchain@1.80\n      - uses: actions/setup-node@v4\n        with:\n          node-version: lts/*\n",
        ),
        found(
            ManifestKind::CargoToml,
            "api/Cargo.toml",
            "[package]\nrust-version = \"1.88\"\n\n[dependencies]\nregex = \"1\"\nserde = \"1\"\n",
        ),
        found(ManifestKind::PackageJson, "package.json", r#"{ "dependencies": { "regex": "^1.0.0", "left-pad": "latest" } }"#),
        found(
            ManifestKind::CargoToml,
            "web/Cargo.toml",
            "[dependencies]\nregex = \"2\"\nserde = \"1.0.200\"\nshared = { workspace = true }\n",
        ),
    ]);
    let lines = summarise(&report);
    assert_eq!(
        lines,
        [
            "error cargo: regex (\"1\" (api/Cargo.toml) and \"2\" (web/Cargo.toml) cannot both be satisfied by one version) [api/Cargo.toml, web/Cargo.toml]",
            "warning cargo: serde (constrained 2 different ways across 2 files: 1, 1.0.200) [api/Cargo.toml, web/Cargo.toml]",
            "warning ci: rust (CI builds on 1.80.0, below the declared minimum 1.88.0 in api/Cargo.toml) [.github/workflows/ci.yml, api/Cargo.toml]",
            "info ci: node (an unpinned tool version installs whatever is newest that day) [.github/workflows/ci.yml]",
            "info npm: left-pad (a dist tag resolves to whatever is newest at install time) [package.json]",
            "refused cross_ecosystem regex: appears in cargo and npm; different ecosystems name different things, so these were not compared [api/Cargo.toml, package.json]",
            "refused unknown_grammar left-pad: a dist tag is a moving target, not a version range; excluded from comparison [package.json]",
            "refused unknown_grammar node: a channel name is a moving target, not a version; excluded from comparison [.github/workflows/ci.yml]",
            "refused unknown_grammar shared: an inherited workspace dependency carries its version elsewhere; excluded from comparison [web/Cargo.toml]",
            "5 findings across 4 manifests — 1 error, 2 warning, 2 info",
        ]
    );
    assert_eq!(exit_code(&report, FailOn::Conflict, false), 1);
}

#[test]
fn no_manifests_prints_one_line_and_exits_zero() {
    let report = scan(Vec::new());
    assert_eq!(summarise(&report), ["no manifests found"]);
    assert_eq!(exit_code(&report, FailOn::Conflict, false), 0);
}

#[test]
fn a_consistent_tree_says_so_with_its_counts() {
    let report = scan(vec![
        found(ManifestKind::CargoToml, "a/Cargo.toml", "[dependencies]\nserde = \"1\"\n"),
        found(ManifestKind::CargoToml, "b/Cargo.toml", "[dependencies]\nserde = \"1\"\nregex = \"1\"\n"),
    ]);
    assert_eq!(summarise(&report), ["consistent — 3 constraints across 2 manifests"]);
}

#[test]
fn a_diagnostic_line_names_its_file() {
    let report = scan(vec![found(ManifestKind::PackageJson, "package.json", "{ not json")]);
    let lines = summarise(&report);
    assert_eq!(lines.len(), 2, "{lines:?}");
    assert!(lines[0].starts_with("package.json: "), "{lines:?}");
    assert_eq!(lines[1], "consistent — 0 constraints across 1 manifest");
}
