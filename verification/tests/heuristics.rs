use versions_le::heuristics::{
    basename, forward_slashed, is_vendored, is_workflow, looks_like_a_version, manifest_kind,
    Ecosystem, Excludes, ManifestKind,
};

#[test]
fn the_manifest_names_are_recognised() {
    for (path, kind) in [
        ("package.json", ManifestKind::PackageJson),
        ("crates/api/Cargo.toml", ManifestKind::CargoToml),
        ("pyproject.toml", ManifestKind::PyprojectToml),
        ("services/go.mod", ManifestKind::GoMod),
        (".github/workflows/ci.yml", ManifestKind::Workflow),
        ("repo/.github/workflows/release.yaml", ManifestKind::Workflow),
    ] {
        assert_eq!(manifest_kind(path), Some(kind), "{path}");
    }
}

#[test]
fn yaml_outside_the_workflow_directory_is_not_a_manifest() {
    for path in [
        "deploy/k8s.yml",
        "docker-compose.yaml",
        ".github/dependabot.yml",
        "Cargo.lock",
        "package-lock.json",
        "requirements.txt",
    ] {
        assert_eq!(manifest_kind(path), None, "{path}");
    }
}

#[test]
fn a_manifest_name_is_matched_exactly() {
    for path in ["package.json.bak", "my-package.json", "Cargo.toml.orig"] {
        assert_eq!(manifest_kind(path), None, "{path}");
    }
}

#[test]
fn every_ecosystem_round_trips_through_its_name() {
    for ecosystem in [
        Ecosystem::Cargo,
        Ecosystem::Ci,
        Ecosystem::Go,
        Ecosystem::Npm,
        Ecosystem::Python,
    ] {
        assert_eq!(Ecosystem::parse(ecosystem.name()), Some(ecosystem));
    }
    assert_eq!(Ecosystem::parse("maven"), None);
}

#[test]
fn the_resolver_output_directories_are_never_walked() {
    assert!(is_vendored("node_modules"));
    assert!(!is_vendored("packages"));
}

fn excludes(patterns: &[&str], filepath: &str) -> bool {
    let patterns: Vec<String> = patterns.iter().map(|p| (*p).to_string()).collect();
    Excludes::new(&patterns).matches(filepath)
}

#[test]
fn a_bare_pattern_matches_the_basename_anywhere() {
    assert!(excludes(&["package.json"], "examples/package.json"));
    assert!(!excludes(&["package.json"], "Cargo.toml"));
}

#[test]
fn a_pattern_with_a_slash_matches_the_path() {
    assert!(excludes(&["examples/**"], "examples/a/package.json"));
    assert!(!excludes(&["examples/**"], "src/package.json"));
}

#[test]
fn an_uncompilable_pattern_excludes_nothing() {
    assert!(!excludes(&["["], "package.json"));
    assert!(!excludes(&["["], "["));
    assert!(excludes(&["[", "Cargo.toml"], "Cargo.toml"));
}

#[test]
fn the_glob_syntax_is_the_one_ripgrep_uses() {
    assert!(excludes(&["*.json"], "a/package.json"));
    assert!(!excludes(&["src/*.json"], "src/a/package.json"));
    assert!(excludes(&["src/**/*.json"], "src/a/b/package.json"));
    assert!(excludes(&["**/vendor/**"], "a/vendor/b/Cargo.toml"));
    assert!(excludes(&["Cargo.???l"], "Cargo.toml"));
    assert!(!excludes(&["Cargo.?"], "Cargo.toml"));
    assert!(excludes(&["[Cc]argo.toml"], "Cargo.toml"));
    assert!(excludes(&["{examples,fixtures}/**"], "fixtures/a/Cargo.toml"));
    assert!(!excludes(&["{examples,fixtures}/**"], "src/a/Cargo.toml"));
}

#[test]
fn a_version_shaped_string_passes_the_evidence_gate() {
    for text in ["20", "1.1.0", "v4", ">=18", "^1.2.3", "*", "stable", "lts/*"] {
        assert!(looks_like_a_version(text), "{text}");
    }
}

#[test]
fn anything_else_is_not_evidence_of_a_version() {
    for text in ["${{ matrix.node }}", ".nvmrc", "[18, 20, 22]", "18, 20", "", "file"] {
        assert!(!looks_like_a_version(text), "{text}");
    }
}

#[test]
fn no_pattern_excludes_nothing() {
    assert!(!excludes(&[], "package.json"));
    assert!(!excludes(&[], "a/b/Cargo.toml"));
}

#[test]
fn a_backslashed_path_is_matched_as_if_forward_slashed() {
    assert!(excludes(&["examples/**"], "examples\\a\\package.json"));
    assert_eq!(forward_slashed("a\\b\\c"), "a/b/c");
    assert_eq!(forward_slashed("a/b"), "a/b");
}

#[test]
fn the_basename_is_the_text_after_the_last_slash_of_either_kind() {
    assert_eq!(basename("a/b/package.json"), "package.json");
    assert_eq!(basename("a\\b\\Cargo.toml"), "Cargo.toml");
    assert_eq!(basename("go.mod"), "go.mod");
    assert_eq!(basename("dir/"), "");
}

#[test]
fn the_workflow_directory_is_recognised_at_any_depth() {
    assert!(is_workflow(".github/workflows/ci.yml"));
    assert!(is_workflow("a/b/.github/workflows/x.yaml"));
    assert!(!is_workflow(".github/workflows/ci.json"));
    assert!(!is_workflow("github/workflows/ci.yml"));
}

#[test]
fn each_manifest_kind_belongs_to_one_ecosystem() {
    assert_eq!(ManifestKind::PackageJson.ecosystem(), Ecosystem::Npm);
    assert_eq!(ManifestKind::CargoToml.ecosystem(), Ecosystem::Cargo);
    assert_eq!(ManifestKind::PyprojectToml.ecosystem(), Ecosystem::Python);
    assert_eq!(ManifestKind::GoMod.ecosystem(), Ecosystem::Go);
    assert_eq!(ManifestKind::Workflow.ecosystem(), Ecosystem::Ci);
}

#[test]
fn the_ecosystem_names_are_the_ones_the_report_uses() {
    assert_eq!(Ecosystem::Cargo.name(), "cargo");
    assert_eq!(Ecosystem::Ci.name(), "ci");
    assert_eq!(Ecosystem::Go.name(), "go");
    assert_eq!(Ecosystem::Npm.name(), "npm");
    assert_eq!(Ecosystem::Python.name(), "python");
}

#[test]
fn every_compiled_pattern_takes_part() {
    assert!(excludes(&["[", "a/**", "b.json"], "a/x/Cargo.toml"));
    assert!(excludes(&["[", "a/**", "b.json"], "c/b.json"));
    assert!(!excludes(&["[", "a/**", "b.json"], "c/Cargo.toml"));
}
