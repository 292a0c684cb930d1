use versions_le::heuristics::{Ecosystem, ManifestKind};
use versions_le::parser::{Refusal, Site};
use versions_le::scan::{
    exit_code, merge_refusals, report_for, scan, summarise, Document, FailOn, Found, Report,
    SCHEMA,
};

fn found(kind: ManifestKind, label: &str, content: &str) -> Found {
    let name = label.rsplit('/').next().unwrap_or(label).to_string();
    Found { kind, label: label.to_string(), name, content: Ok(content.to_string()) }
}

fn codes(report: &Report) -> Vec<&str> {
    report.findings.iter().map(|finding| finding.code.as_str()).collect()
}

#[test]
fn a_tree_that_agrees_is_clean_and_exits_zero() {
    let report = scan(vec![
        found(ManifestKind::CargoToml, "a/Cargo.toml", "[dependencies]\nserde = \"1.0.200\"\n"),
        found(ManifestKind::CargoToml, "b/Cargo.toml", "[dependencies]\nserde = \"1.0.200\"\n"),
    ]);
    assert!(report.findings.is_empty(), "{:?}", report.findings);
    assert_eq!(report.summary.manifests, 2);
    assert_eq!(exit_code(&report, FailOn::Conflict, false), 0);
}

#[test]
fn a_drifted_dependency_exits_one() {
    let report = scan(vec![
        found(ManifestKind::CargoToml, "a/Cargo.toml", "[dependencies]\nserde = \"1.0.200\"\n"),
        found(ManifestKind::CargoToml, "b/Cargo.toml", "[dependencies]\nserde = \"1\"\n"),
    ]);
    assert_eq!(codes(&report), ["constraint-conflict"]);
    assert_eq!(exit_code(&report, FailOn::Conflict, false), 1);
}

#[test]
fn no_manifests_is_clean() {
    let report = scan(Vec::new());
    assert_eq!(report.summary.manifests, 0);
    assert_eq!(exit_code(&report, FailOn::Conflict, false), 0);
    assert_eq!(exit_code(&report, FailOn::Any, true), 0);
}

#[test]
fn scan_a_floating_pin_fails_only_under_fail_on_any() {
    let report = scan(vec![found(
        ManifestKind::PackageJson,
        "package.json",
        r#"{ "dependencies": { "a": "latest" } }"#,
    )]);
    assert_eq!(codes(&report), ["floating-pin"]);
    assert_eq!(exit_code(&report, FailOn::Conflict, false), 0);
    assert_eq!(exit_code(&report, FailOn::Any, false), 1);
}

#[test]
fn a_refusal_is_carried_and_only_strict_makes_it_fatal() {
    let report = scan(vec![found(
        ManifestKind::CargoToml,
        "Cargo.toml",
        "[dependencies]\nshared = { workspace = true }\n",
    )]);
    assert_eq!(report.refusals.len(), 1);
    assert_eq!(report.refusals[0].reason, "unknown_grammar");
    assert_eq!(exit_code(&report, FailOn::Conflict, false), 0);
    assert_eq!(exit_code(&report, FailOn::Conflict, true), 2);
}

#[test]
fn refusals_for_one_name_merge_into_one_row_with_every_site() {
    let report = scan(vec![
        found(
            ManifestKind::Workflow,
            ".github/workflows/a.yml",
            "  - uses: actions/checkout@11bd71901bbe5b1630ceea73d27597364c9af683\n",
        ),
        found(
            ManifestKind::Workflow,
            ".github/workflows/b.yml",
            "  - uses: actions/checkout@11bd71901bbe5b1630ceea73d27597364c9af683\n",
        ),
    ]);
    assert_eq!(report.refusals.len(), 1);
    assert_eq!(report.refusals[0].name, "actions/checkout");
    assert_eq!(report.refusals[0].sites.len(), 2);
}

#[test]
fn a_cross_ecosystem_refusal_never_fails_the_run() {
    let report = scan(vec![
        found(ManifestKind::CargoToml, "Cargo.toml", "[dependencies]\nsemver = \"1.0.28\"\n"),
        found(ManifestKind::PackageJson, "package.json", r#"{ "dependencies": { "semver": "7" } }"#),
    ]);
    assert_eq!(report.refusals.len(), 1);
    assert_eq!(report.refusals[0].reason, "cross_ecosystem");
    assert_eq!(exit_code(&report, FailOn::Conflict, true), 0);
}

#[test]
fn a_manifest_that_does_not_parse_is_a_diagnostic_naming_it() {
    let report = scan(vec![
        found(ManifestKind::CargoToml, "Cargo.toml", "[dependencies]\nserde = \"1\"\n"),
        found(ManifestKind::PackageJson, "package.json", "{ not json"),
    ]);
    assert_eq!(report.diagnostics.len(), 1);
    assert_eq!(report.diagnostics[0].file, "package.json");
    assert_eq!(exit_code(&report, FailOn::Conflict, true), 2);
}

#[test]
fn the_report_carries_its_schema_and_no_timestamp() {
    let report =
        scan(vec![found(ManifestKind::CargoToml, "Cargo.toml", "[dependencies]\nserde = \"1\"\n")]);
    assert_eq!(report.schema, 1);
    assert_eq!(SCHEMA, 1);
}

#[test]
fn two_roots_are_analysed_together_with_distinct_labels() {
    let report = scan(vec![
        found(ManifestKind::CargoToml, "api/Cargo.toml", "[dependencies]\nserde = \"1\"\n"),
        found(ManifestKind::CargoToml, "web/Cargo.toml", "[dependencies]\nserde = \"2\"\n"),
    ]);
    assert_eq!(codes(&report), ["disjoint-constraint"]);
    let labels: Vec<&str> = report.manifests.iter().map(|m| m.path.as_str()).collect();
    assert_ne!(labels[0], labels[1], "{labels:?}");
}

#[test]
fn an_unreadable_manifest_is_named_and_the_rest_still_answer() {
    let report = scan(vec![
        Found {
            kind: ManifestKind::PackageJson,
            label: "a/package.json".to_string(),
            name: "package.json".to_string(),
            content: Err("a/package.json: not UTF-8 text".to_string()),
        },
        found(ManifestKind::CargoToml, "Cargo.toml", "[dependencies]\nserde = \"1\"\n"),
    ]);
    assert_eq!(report.summary.manifests, 1);
    assert_eq!(report.diagnostics.len(), 1);
    assert_eq!(report.diagnostics[0].severity, "error");
    assert!(report.diagnostics[0].message.contains("not UTF-8"), "{:?}", report.diagnostics);
    assert_eq!(exit_code(&report, FailOn::Conflict, false), 0);
    assert_eq!(exit_code(&report, FailOn::Conflict, true), 2);
}

#[test]
fn the_summary_counts_what_the_report_lists() {
    let report = scan(vec![
        found(
            ManifestKind::PackageJson,
            "package.json",
            r#"{ "dependencies": { "a": "1.0.0", "b": "latest", "c": "^^1" } }"#,
        ),
        found(ManifestKind::PackageJson, "app/package.json", r#"{ "dependencies": { "a": "2.0.0" } }"#),
    ]);
    let summary = summarise(&report);
    assert_eq!(summary, report.summary);
    assert_eq!(summary.manifests, 2);
    assert_eq!(summary.entries, 4);
    assert_eq!(summary.findings, 3);
    assert_eq!(summary.errors, 2);
    assert_eq!(summary.warnings, 0);
    assert_eq!(summary.infos, 1);
    assert_eq!(report.manifests[0].ecosystem, Ecosystem::Npm);
    assert_eq!(report.manifests[0].entries, 3);
}

#[test]
fn a_document_list_is_analysed_in_the_order_given() {
    let documents = vec![
        Document {
            kind: ManifestKind::GoMod,
            label: "go.mod".to_string(),
            content: "module a\n\ngo 1.22\n".to_string(),
        },
        Document {
            kind: ManifestKind::CargoToml,
            label: "Cargo.toml".to_string(),
            content: String::new(),
        },
    ];
    let report = report_for(&documents);
    let labels: Vec<&str> = report.manifests.iter().map(|m| m.path.as_str()).collect();
    assert_eq!(labels, ["go.mod", "Cargo.toml"]);
    assert_eq!(report.manifests[1].entries, 0);
}

fn site(file: &str) -> Site {
    Site { file: file.to_string(), key: "k".to_string(), constraint: "c".to_string(), line: None }
}

fn refusal(reason: &str, name: &str, file: &str) -> Refusal {
    Refusal {
        reason: reason.to_string(),
        ecosystem: Some(Ecosystem::Npm),
        name: name.to_string(),
        message: "m".to_string(),
        sites: vec![site(file)],
    }
}

#[test]
fn merging_keeps_every_site_and_one_row_per_name() {
    let merged = merge_refusals(vec![
        refusal("unknown_grammar", "b", "x"),
        refusal("unknown_grammar", "a", "y"),
        refusal("unknown_grammar", "b", "z"),
    ]);
    assert_eq!(merged.len(), 2);
    let total: usize = merged.iter().map(|r| r.sites.len()).sum();
    assert_eq!(total, 3);
    let b = merged.iter().find(|r| r.name == "b").expect("b");
    let files: Vec<&str> = b.sites.iter().map(|s| s.file.as_str()).collect();
    assert_eq!(files, ["x", "z"]);
}

#[test]
fn refusals_of_one_reason_and_name_merge_whatever_their_messages() {
    let mut first = refusal("unknown_grammar", "pkg", "x");
    first.message = "first".to_string();
    let mut second = refusal("unknown_grammar", "pkg", "y");
    second.message = "second".to_string();
    second.ecosystem = Some(Ecosystem::Cargo);
    let merged = merge_refusals(vec![first, second, refusal("cross_ecosystem", "pkg", "z")]);
    assert_eq!(merged.len(), 2);
    assert_eq!(merged[0].reason, "cross_ecosystem");
    assert_eq!(merged[1].message, "first");
    assert_eq!(merged[1].ecosystem, Some(Ecosystem::Npm));
    let files: Vec<&str> = merged[1].sites.iter().map(|s| s.file.as_str()).collect();
    assert_eq!(files, ["x", "y"]);
}
