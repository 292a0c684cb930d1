use versions_le::heuristics::ManifestKind;
use versions_le::scan::{exit_code, scan, FailOn, Found};

fn found(kind: ManifestKind, label: String, content: String) -> Found {
    let name = label.rsplit('/').next().unwrap_or(&label).to_string();
    Found { kind, label, name, content: Ok(content) }
}

#[test]
fn a_monorepo_of_crates_completes() {
    let mut all = Vec::new();
    for crate_index in 0..400 {
        let mut manifest = String::from("[dependencies]\n");
        for dependency in 0..50 {
            let version = if crate_index % 20 == 0 && dependency == 7 { "1.1" } else { "1.0" };
            manifest.push_str(&format!("dep_{dependency} = \"{version}\"\n"));
        }
        all.push(found(ManifestKind::CargoToml, format!("crates/c{crate_index}/Cargo.toml"), manifest));
    }
    let report = scan(all);
    assert_eq!(exit_code(&report, FailOn::Conflict, false), 1);
    assert_eq!(report.summary.manifests, 400);
    assert_eq!(report.summary.findings, 1, "one name drifted");
    assert_eq!(report.findings[0].name, "dep_7");
}

#[test]
fn a_manifest_with_many_dependencies_completes() {
    let mut lines = Vec::new();
    for index in 0..20_000 {
        lines.push(format!("\"pkg-{index}\": \"^1.0.0\""));
    }
    let report = scan(vec![found(
        ManifestKind::PackageJson,
        "package.json".to_string(),
        format!("{{ \"dependencies\": {{ {} }} }}", lines.join(", ")),
    )]);
    assert_eq!(exit_code(&report, FailOn::Conflict, false), 0);
    assert_eq!(report.summary.entries, 20_000);
}

#[test]
fn a_tree_of_nothing_but_refusals_completes_in_one_merged_row() {
    let mut all = Vec::new();
    for index in 0..500 {
        all.push(found(
            ManifestKind::CargoToml,
            format!("crates/c{index}/Cargo.toml"),
            "[dependencies]\nshared = { workspace = true }\n".to_string(),
        ));
    }
    let report = scan(all);
    assert_eq!(exit_code(&report, FailOn::Conflict, false), 0);
    assert_eq!(report.summary.findings, 0);
    assert_eq!(report.refusals.len(), 1);
    assert_eq!(report.refusals[0].sites.len(), 500);
}
