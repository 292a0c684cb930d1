use versions_le::cli::summarise as human_lines;
use versions_le::discover::{label, strip_bom, Part};
use versions_le::heuristics::ManifestKind;
use versions_le::scan::{exit_code, scan, FailOn, Found};

fn readable(kind: ManifestKind, label: &str, content: &str) -> Found {
    let name = label.rsplit('/').next().unwrap_or(label).to_string();
    Found { kind, label: label.to_string(), name, content: Ok(content.to_string()) }
}

/// The walk that meets a named pipe runs outside the library; what the
/// library is handed is the one regular manifest, and it answers for it.
#[test]
fn hazards_a_fifo_named_like_a_manifest_does_not_block_the_walk() {
    println!("SKIPPED fifo: the walk that meets a named pipe is not part of the library");
    let report = scan(vec![readable(
        ManifestKind::CargoToml,
        "real/Cargo.toml",
        "[dependencies]\nserde = \"1\"\n",
    )]);
    let labels: Vec<&str> = report.manifests.iter().map(|m| m.path.as_str()).collect();
    assert_eq!(labels, ["real/Cargo.toml"]);
    assert_eq!(exit_code(&report, FailOn::Conflict, false), 0);
}

/// A manifest that could not be opened is a diagnostic naming it; the
/// rest still answer, and only strict turns it into exit 2.
#[test]
fn hazards_a_permission_denied_manifest_is_named_and_only_strict_makes_it_fatal() {
    let report = scan(vec![
        readable(ManifestKind::CargoToml, "a/Cargo.toml", "[dependencies]\nserde = \"1\"\n"),
        Found {
            kind: ManifestKind::CargoToml,
            label: "locked/Cargo.toml".to_string(),
            name: "Cargo.toml".to_string(),
            content: Err("locked/Cargo.toml: Permission denied (os error 13)".to_string()),
        },
    ]);
    assert_eq!(exit_code(&report, FailOn::Conflict, false), 0);
    assert_eq!(report.diagnostics[0].code, "unreadable");
    assert_eq!(report.diagnostics[0].file, "Cargo.toml");
    let lines = human_lines(&report);
    assert!(
        lines.iter().any(|line| line.contains("Cargo.toml")),
        "the diagnostic names no file — {lines:?}"
    );
    assert_eq!(exit_code(&report, FailOn::Conflict, true), 2);
}

#[test]
fn a_byte_order_mark_changes_no_manifest_of_any_kind() {
    for (kind, label, content) in [
        (ManifestKind::PackageJson, "package.json", r#"{ "dependencies": { "a": "^1.0.0" } }"#),
        (ManifestKind::CargoToml, "Cargo.toml", "[dependencies]\nserde = \"1\"\n"),
        (ManifestKind::PyprojectToml, "pyproject.toml", "[project]\ndependencies = [\"a>=1\"]\n"),
        (ManifestKind::GoMod, "go.mod", "module a\n\ngo 1.22\n"),
        (ManifestKind::Workflow, ".github/workflows/ci.yml", "      - uses: actions/checkout@v4\n"),
    ] {
        let plain = scan(vec![readable(kind, label, content)]);
        let marked = scan(vec![readable(kind, label, &strip_bom(format!("\u{feff}{content}")))]);
        assert_eq!(plain, marked, "{label}");
        assert!(plain.diagnostics.is_empty(), "{label}: {:?}", plain.diagnostics);
    }
}

#[test]
fn an_empty_manifest_is_still_a_manifest_in_the_report() {
    let report = scan(vec![
        readable(ManifestKind::CargoToml, "Cargo.toml", ""),
        readable(ManifestKind::GoMod, "go.mod", ""),
    ]);
    assert_eq!(report.summary.manifests, 2);
    assert_eq!(report.summary.entries, 0);
    assert!(report.diagnostics.is_empty(), "{:?}", report.diagnostics);
}

#[test]
fn a_document_that_parses_but_is_not_a_manifest_yields_nothing_and_fails_nothing() {
    let report = scan(vec![
        readable(
            ManifestKind::CargoToml,
            "svc/Cargo.toml",
            "[server]\nport = 8080\nhost = \"0.0.0.0\"\n\n[logging]\nlevel = \"debug\"\n",
        ),
        readable(
            ManifestKind::PyprojectToml,
            "svc/pyproject.toml",
            "[tool.poetry.dependencies]\nrequests = \"^2.31\"\n",
        ),
    ]);
    assert_eq!(exit_code(&report, FailOn::Conflict, false), 0);
    assert_eq!(report.summary.manifests, 2);
    assert_eq!(report.summary.entries, 0);
    assert!(report.diagnostics.is_empty(), "{:?}", report.diagnostics);
    assert!(report.findings.is_empty());
}

#[test]
fn an_undecodable_manifest_is_named_and_the_rest_still_answer() {
    for case in ["invalid-utf8", "utf16le"] {
        let report = scan(vec![
            readable(ManifestKind::CargoToml, "a/Cargo.toml", "[dependencies]\nserde = \"1\"\n"),
            readable(ManifestKind::CargoToml, "b/Cargo.toml", "[dependencies]\nserde = \"2\"\n"),
            Found {
                kind: ManifestKind::CargoToml,
                label: "broken/Cargo.toml".to_string(),
                name: "Cargo.toml".to_string(),
                content: Err("/tmp/tree/broken/Cargo.toml: not UTF-8 text".to_string()),
            },
        ]);
        assert_eq!(exit_code(&report, FailOn::Conflict, false), 1, "{case}: the readable pair still answers");
        let codes: Vec<&str> = report.findings.iter().map(|f| f.code.as_str()).collect();
        assert_eq!(codes, ["disjoint-constraint"], "{case}");
        assert_eq!(report.diagnostics[0].code, "unreadable", "{case}");
        assert!(human_lines(&report).iter().any(|l| l.contains("Cargo.toml")), "{case}");
        assert_eq!(exit_code(&report, FailOn::Conflict, true), 2, "{case}");
    }
}

#[test]
fn a_workspace_pointing_outside_the_root_stays_outside_it() {
    let report = scan(vec![
        readable(
            ManifestKind::CargoToml,
            "Cargo.toml",
            "[workspace]\nmembers = [\"../outside/*\", \"crates/*\"]\n\n[workspace.dependencies]\nserde = \"1\"\n",
        ),
        readable(ManifestKind::CargoToml, "crates/api/Cargo.toml", "[dependencies]\nserde = \"1\"\n"),
    ]);
    assert_eq!(exit_code(&report, FailOn::Conflict, false), 0, "a neighbour was pulled in");
    let labels: Vec<&str> = report.manifests.iter().map(|m| m.path.as_str()).collect();
    assert_eq!(labels, ["Cargo.toml", "crates/api/Cargo.toml"]);
    assert!(!human_lines(&report).join("\n").contains("worker"));
}

#[test]
fn line_endings_do_not_change_any_manifest() {
    for (kind, label, content) in [
        (ManifestKind::CargoToml, "Cargo.toml", "[dependencies]\nserde = \"1\"\n"),
        (ManifestKind::GoMod, "go.mod", "module a\n\ngo 1.22\n\nrequire x.org/y v1.0.0\n"),
        (ManifestKind::Workflow, ".github/workflows/ci.yml", "jobs:\n  a:\n    steps:\n      - uses: actions/checkout@v4\n"),
    ] {
        let unix = scan(vec![readable(kind, label, content)]);
        let dos = scan(vec![readable(kind, label, &content.replace('\n', "\r\n"))]);
        assert_eq!(unix.summary, dos.summary, "{label}");
        let names = |r: &versions_le::scan::Report| -> Vec<String> {
            r.findings.iter().map(|f| f.name.clone()).collect()
        };
        assert_eq!(names(&unix), names(&dos), "{label}");
    }
}

#[test]
fn a_path_over_260_characters_is_walked_and_labelled_whole() {
    let mut deep = String::new();
    while deep.len() < 300 {
        deep.push_str("a-directory-with-a-long-name/");
    }
    let relative = format!("{deep}Cargo.toml");
    let root: Vec<Part> = vec![Part::RootDir, Part::Normal("tmp".into()), Part::Normal("tree".into())];
    let mut path = root.clone();
    path.extend(relative.split('/').map(|n| Part::Normal(n.to_string())));
    let labelled = label(&path, &root, false, false);
    assert_eq!(labelled, relative);
    let report = scan(vec![readable(ManifestKind::CargoToml, &labelled, "[dependencies]\nserde = \"1\"\n")]);
    assert_eq!(exit_code(&report, FailOn::Conflict, false), 0);
    let labels: Vec<&str> = report.manifests.iter().map(|m| m.path.as_str()).collect();
    assert_eq!(labels, [relative.as_str()]);
}
