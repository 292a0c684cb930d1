use versions_le::cli::summarise;
use versions_le::discover::{keep, label, name_of, Part, PrefixKind};
use versions_le::heuristics::{Excludes, ManifestKind};
use versions_le::scan::{exit_code, scan, FailOn, Found, Report};

/// The parts Windows parses out of `\\?\C:\Users\runner\tree\<rest>`.
fn windows(rest: &[&str]) -> Vec<Part> {
    let mut parts = vec![Part::Prefix(PrefixKind::VerbatimDisk(b'C')), Part::RootDir];
    for name in ["Users", "runner", "tree"].iter().chain(rest.iter()) {
        parts.push(Part::Normal(name.to_string()));
    }
    parts
}

/// One tree carrying all four kinds of path the report can hold: a
/// manifest that is merely listed, two that contradict each other, one
/// that is refused, and one that will not parse; labelled as the walk
/// labels them, from Windows-parsed paths.
fn every_kind_of_path(roots: &[&[&str]]) -> Vec<Found> {
    let files: [(&[&str], ManifestKind, &str); 4] = [
        (&["api", "Cargo.toml"], ManifestKind::CargoToml, "[dependencies]\nserde = \"1\"\n"),
        (&["bad", "package.json"], ManifestKind::PackageJson, "{ not json"),
        (&["lib", "Cargo.toml"], ManifestKind::CargoToml, "[dependencies]\nshared = { workspace = true }\n"),
        (&["web", "nested", "Cargo.toml"], ManifestKind::CargoToml, "[dependencies]\nserde = \"2\"\n"),
    ];
    let qualify = roots.len() > 1;
    let mut found = Vec::new();
    for root in roots {
        for (rest, kind, content) in files.iter() {
            if !rest.starts_with(root) {
                continue;
            }
            let path = windows(rest);
            found.push(Found {
                kind: *kind,
                label: label(&path, &windows(root), false, qualify),
                name: name_of(&path),
                content: Ok(content.to_string()),
            });
        }
    }
    found
}

/// Every string the report uses as a manifest's identity.
fn identities(report: &Report) -> Vec<String> {
    let mut found: Vec<String> = Vec::new();
    found.extend(report.manifests.iter().map(|m| m.path.clone()));
    for finding in &report.findings {
        found.extend(finding.sites.iter().map(|s| s.file.clone()));
    }
    for refusal in &report.refusals {
        found.extend(refusal.sites.iter().map(|s| s.file.clone()));
    }
    found.extend(report.diagnostics.iter().map(|d| d.file.clone()));
    found.sort();
    found.dedup();
    found
}

const EVERY_LABEL: [&str; 4] =
    ["api/Cargo.toml", "bad/package.json", "lib/Cargo.toml", "web/nested/Cargo.toml"];

#[test]
fn every_path_in_the_report_is_written_with_forward_slashes() {
    let report = scan(every_kind_of_path(&[&[]]));
    assert_eq!(exit_code(&report, FailOn::Conflict, false), 1);
    let found = identities(&report);
    assert_eq!(found, EVERY_LABEL, "the report does not name the manifests it read");
    for label in &found {
        assert!(!label.contains('\\'), "{label} carries this machine's separator");
        assert!(label.contains('/'), "{label} lost the separator it should have");
    }
}

#[test]
fn the_human_summary_names_the_same_paths_as_the_report() {
    let report = scan(every_kind_of_path(&[&[]]));
    let text = summarise(&report).join("\n");
    for label in EVERY_LABEL {
        assert!(text.contains(label), "stderr never names {label}\n{text}");
    }
}

#[test]
fn an_absolute_file_root_is_labelled_without_a_platform_prefix() {
    let file = windows(&["Cargo.toml"]);
    let labelled = label(&file, &file, true, false);
    assert!(!labelled.contains('\\'), "{labelled} carries a backslash");
    assert!(!labelled.contains('?'), "{labelled} carries an extended-length marker");
    assert!(labelled.ends_with("/Cargo.toml"), "{labelled}");
    assert_eq!(labelled, "C:/Users/runner/tree/Cargo.toml");
}

#[test]
fn qualified_labels_keep_forward_slashes_too() {
    let report = scan(every_kind_of_path(&[&["api"], &["web"]]));
    let found = identities(&report);
    assert_eq!(found.len(), 2, "{found:?}");
    for label in found {
        assert!(!label.contains('\\'), "{label} carries a backslash");
        assert!(label.starts_with("C:/Users/runner/tree/"), "{label}");
    }
}

#[test]
fn a_case_folding_filesystem_gives_a_consistent_answer() {
    let none = Excludes::new(&Vec::new());
    assert_eq!(keep("Cargo.toml", &none, &Vec::new()), Some(ManifestKind::CargoToml));
    assert_eq!(keep("cargo.toml", &none, &Vec::new()), None);
}

#[test]
fn the_answer_does_not_depend_on_the_time_zone() {
    let first = scan(every_kind_of_path(&[&[]]));
    let again = scan(every_kind_of_path(&[&[]]));
    assert_eq!(first, again);
    assert_eq!(summarise(&first), summarise(&again));
}
