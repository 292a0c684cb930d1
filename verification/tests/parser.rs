use versions_le::grammar::Constraint;
use versions_le::heuristics::{Ecosystem, ManifestKind};
use versions_le::document::Tree;
use versions_le::parser::{
    cargo_toml_tree, package_json_tree, pyproject_toml_tree,
    npm_floats, parse, pep508, strip_comment, unquote, workflow_tool, Kind, Parsed, MARKER,
    UNBOUNDED, ZERO_CARET,
};

fn read(kind: ManifestKind, content: &str) -> Parsed {
    parse(kind, "manifest", content)
}

fn constraint_of(parsed: &Parsed, key: &str) -> String {
    parsed
        .entries
        .iter()
        .find(|entry| entry.site.key == key)
        .map_or_else(|| panic!("no entry at {key}"), |entry| entry.site.constraint.clone())
}

#[test]
fn every_package_json_section_is_read() {
    let parsed = read(
        ManifestKind::PackageJson,
        r#"{
          "dependencies": { "react": "^18.2.0" },
          "devDependencies": { "vitest": "1.0.0" },
          "peerDependencies": { "react": ">=18" },
          "optionalDependencies": { "fsevents": "~2.3.0" },
          "engines": { "node": ">=20" },
          "packageManager": "bun@1.1.0"
        }"#,
    );
    assert_eq!(parsed.entries.len(), 6);
    assert_eq!(constraint_of(&parsed, "engines.node"), ">=20");
    assert_eq!(constraint_of(&parsed, "packageManager"), "1.1.0");
    assert!(parsed.errors.is_empty(), "{:?}", parsed.errors);
}

#[test]
fn a_corepack_integrity_hash_is_not_part_of_the_version() {
    let parsed =
        read(ManifestKind::PackageJson, r#"{ "packageManager": "pnpm@9.0.0+sha512.abc" }"#);
    assert_eq!(constraint_of(&parsed, "packageManager"), "9.0.0");
}

#[test]
fn an_npm_specifier_outside_the_registry_is_refused_by_name() {
    let parsed = read(
        ManifestKind::PackageJson,
        r#"{ "dependencies": { "shared": "workspace:*", "ok": "^1.0.0" } }"#,
    );
    assert_eq!(parsed.refusals.len(), 1);
    assert_eq!(parsed.refusals[0].reason, "unknown_grammar");
    assert_eq!(parsed.refusals[0].name, "shared");
    assert_eq!(parsed.entries.len(), 2);
}

#[test]
fn every_cargo_section_is_read_including_workspace_and_target() {
    let parsed = read(
        ManifestKind::CargoToml,
        r#"
        [package]
        rust-version = "1.88"
        [dependencies]
        serde = "1.0.200"
        [dev-dependencies]
        tempfile = "3"
        [build-dependencies]
        cc = "1"
        [workspace.dependencies]
        regex = "1"
        [target.'cfg(windows)'.dependencies]
        winapi = "0.3"
        "#,
    );
    assert_eq!(constraint_of(&parsed, "dependencies.serde"), "1.0.200");
    assert_eq!(constraint_of(&parsed, "workspace.dependencies.regex"), "1");
    assert_eq!(constraint_of(&parsed, "target.cfg(windows).dependencies.winapi"), "0.3");
    assert_eq!(constraint_of(&parsed, "package.rust-version"), "1.88");
}

#[test]
fn a_path_dependency_that_carries_a_version_keeps_it() {
    let parsed = read(
        ManifestKind::CargoToml,
        r#"
        [dependencies]
        core = { path = "../core", version = "=0.3.1" }
        "#,
    );
    assert_eq!(constraint_of(&parsed, "dependencies.core"), "=0.3.1");
    assert!(parsed.refusals.is_empty(), "{:?}", parsed.refusals);
}

#[test]
fn a_bare_version_in_a_path_dependency_floats_and_an_equals_pin_does_not() {
    let floating = read(
        ManifestKind::CargoToml,
        "[dependencies]\ncore = { path = \"../core\", version = \"0.7.7\" }\n",
    );
    assert_eq!(
        floating.entries[0].floats,
        Some("a caret on a 0.x version, which promises no stability"),
        "a bare 0.x version beside a path was read as a pin"
    );

    let pinned = read(
        ManifestKind::CargoToml,
        "[dependencies]\ncore = { path = \"../core\", version = \"=0.7.7\" }\n",
    );
    assert_eq!(pinned.entries[0].floats, None, "an = pin was read as float");
}

#[test]
fn a_dependency_table_with_no_version_is_refused() {
    let parsed = read(
        ManifestKind::CargoToml,
        r#"
        [dependencies]
        inherited = { workspace = true }
        local = { path = "../local" }
        remote = { git = "https://example.com/a.git" }
        "#,
    );
    assert_eq!(parsed.refusals.len(), 3);
    for refusal in &parsed.refusals {
        assert_eq!(refusal.reason, "unknown_grammar");
    }
}

#[test]
fn a_renamed_cargo_dependency_reports_its_real_name() {
    let parsed = read(
        ManifestKind::CargoToml,
        r#"
        [dependencies]
        rand_old = { package = "rand", version = "0.8" }
        "#,
    );
    assert_eq!(parsed.entries[0].name, "rand");
}

#[test]
fn pep621_dependencies_and_requires_python_are_read() {
    let parsed = read(
        ManifestKind::PyprojectToml,
        r#"
        [project]
        requires-python = ">=3.11"
        dependencies = ["requests>=2.31", "pydantic[email]>=2,<3"]
        [project.optional-dependencies]
        dev = ["pytest>=8"]
        "#,
    );
    assert_eq!(parsed.entries.len(), 4);
    let names: Vec<&str> = parsed.entries.iter().map(|e| e.name.as_str()).collect();
    assert!(names.contains(&"python"));
    assert!(names.contains(&"pydantic"));
    let pytest = parsed.entries.iter().find(|e| e.name == "pytest").expect("pytest");
    assert_eq!(pytest.kind, Kind::Dev);
}

#[test]
fn an_environment_marker_is_refused_rather_than_stripped() {
    let parsed = read(
        ManifestKind::PyprojectToml,
        r#"
        [project]
        dependencies = ["tomli>=2 ; python_version < '3.11'"]
        "#,
    );
    assert_eq!(parsed.refusals.len(), 1);
    assert!(parsed.refusals[0].message.contains("marker"));
}

#[test]
fn go_mod_reads_the_require_block_and_the_language_version() {
    let parsed = read(
        ManifestKind::GoMod,
        "module example.com/a\n\ngo 1.22\n\nrequire (\n\tgithub.com/x/y v1.4.0\n\tgithub.com/z/w v0.9.1 // indirect\n)\n\nrequire github.com/single/dep v2.0.0\n",
    );
    let names: Vec<&str> = parsed.entries.iter().map(|e| e.name.as_str()).collect();
    assert_eq!(names, ["go", "github.com/x/y", "github.com/single/dep"]);
    assert_eq!(parsed.entries[1].site.line, Some(6));
}

#[test]
fn a_workflow_yields_action_pins_and_tool_versions() {
    let parsed = read(
        ManifestKind::Workflow,
        "jobs:\n  test:\n    steps:\n      - uses: actions/checkout@v4\n      - uses: oven-sh/setup-bun@v2\n        with:\n          bun-version: 1.1.0\n      - uses: dtolnay/rust-toolchain@1.88\n",
    );
    let names: Vec<&str> = parsed.entries.iter().map(|e| e.name.as_str()).collect();
    assert_eq!(names, ["actions/checkout", "oven-sh/setup-bun", "bun", "rust"]);
    assert_eq!(parsed.entries[3].kind, Kind::Msrv);
    assert_eq!(parsed.entries[2].site.line, Some(7));
}

#[test]
fn a_sha_pinned_rust_toolchain_is_an_action_pin_not_a_toolchain() {
    let parsed = read(
        ManifestKind::Workflow,
        "      - uses: dtolnay/rust-toolchain@11bd71901bbe5b1630ceea73d27597364c9af683\n        with:\n          toolchain: 1.88\n",
    );
    let names: Vec<&str> = parsed.entries.iter().map(|e| e.name.as_str()).collect();
    assert_eq!(names, ["dtolnay/rust-toolchain", "rust"]);
    assert_eq!(parsed.entries[0].kind, Kind::Action);
    assert_eq!(parsed.entries[1].kind, Kind::Msrv);
    assert!(
        !matches!(parsed.entries[0].constraint, Constraint::Malformed(_)),
        "{:?}",
        parsed.entries[0].constraint
    );
}

#[test]
fn a_workflow_value_that_is_not_evidently_a_version_is_refused() {
    let parsed = read(
        ManifestKind::Workflow,
        "        node-version: ${{ matrix.node }}\n        python-version: [3.11, 3.12]\n",
    );
    assert!(parsed.entries.is_empty(), "{:?}", parsed.entries);
    assert_eq!(parsed.refusals.len(), 2);
    for refusal in &parsed.refusals {
        assert_eq!(refusal.reason, "ambiguous_version_string");
    }
}

#[test]
fn a_quoted_workflow_value_loses_its_quotes_and_its_comment() {
    let parsed = read(
        ManifestKind::Workflow,
        "        node-version: '20'\n        bun-version: 1.1.0 # pinned\n",
    );
    assert_eq!(constraint_of(&parsed, "node-version"), "20");
    assert_eq!(constraint_of(&parsed, "bun-version"), "1.1.0");
}

#[test]
fn a_floating_pin_is_named_where_it_floats() {
    let npm = read(
        ManifestKind::PackageJson,
        r#"{ "dependencies": { "a": "latest", "b": "*", "c": "^0.4.1", "d": "^1.0.0" } }"#,
    );
    let floating: Vec<&str> =
        npm.entries.iter().filter(|e| e.floats.is_some()).map(|e| e.name.as_str()).collect();
    assert_eq!(floating, ["a", "b", "c"]);

    let cargo = read(ManifestKind::CargoToml, "[dependencies]\nignore = \"0.4\"\nserde = \"1\"\n");
    let floating: Vec<&str> =
        cargo.entries.iter().filter(|e| e.floats.is_some()).map(|e| e.name.as_str()).collect();
    assert_eq!(floating, ["ignore"]);
}

#[test]
fn a_manifest_that_does_not_parse_is_one_error_and_no_entries() {
    let parsed = read(ManifestKind::PackageJson, "{ not json");
    assert!(parsed.entries.is_empty());
    assert_eq!(parsed.errors.len(), 1);
}

#[test]
fn unmodelled_keys_are_skipped_not_failed() {
    let parsed = read(
        ManifestKind::CargoToml,
        "[package]\nname = \"a\"\n[features]\ndefault = []\n[profile.release]\nlto = true\n",
    );
    assert!(parsed.entries.is_empty());
    assert!(parsed.errors.is_empty());
}

#[test]
fn each_entry_carries_the_file_and_ecosystem_it_came_from() {
    let parsed = parse(
        ManifestKind::CargoToml,
        "crates/a/Cargo.toml",
        "[dependencies]\nserde = \"1\"\n",
    );
    assert_eq!(parsed.entries.len(), 1);
    assert_eq!(parsed.entries[0].site.file, "crates/a/Cargo.toml");
    assert_eq!(parsed.entries[0].ecosystem, Ecosystem::Cargo);
    assert_eq!(parsed.entries[0].kind, Kind::Runtime);
    assert_eq!(parsed.entries[0].site.key, "dependencies.serde");
}

#[test]
fn a_toml_manifest_that_does_not_parse_is_one_error() {
    let parsed = read(ManifestKind::CargoToml, "[dependencies\nserde = 1");
    assert!(parsed.entries.is_empty());
    assert_eq!(parsed.errors.len(), 1);
    let parsed = read(ManifestKind::PyprojectToml, "not = [toml");
    assert_eq!(parsed.errors.len(), 1);
}

#[test]
fn a_quote_pair_is_removed_and_nothing_else() {
    assert_eq!(unquote("'20'"), "20");
    assert_eq!(unquote("\"1.1.0\""), "1.1.0");
    assert_eq!(unquote("20"), "20");
    assert_eq!(unquote("1.1.0 # pinned"), "1.1.0");
    assert_eq!(unquote("'1.1.0 # kept'"), "1.1.0 # kept");
}

#[test]
fn a_go_comment_is_cut_at_its_slashes() {
    let line: Vec<char> = "\tgithub.com/z/w v0.9.1 // indirect".chars().collect();
    let kept: String = strip_comment(&line).into_iter().collect();
    assert_eq!(kept, "\tgithub.com/z/w v0.9.1 ");
    let bare: Vec<char> = "go 1.22".chars().collect();
    assert_eq!(strip_comment(&bare), bare);
}

#[test]
fn the_workflow_keys_name_their_tools() {
    let tool = |key: &str| -> Option<String> {
        let key: Vec<char> = key.chars().collect();
        workflow_tool(&key).map(|t| t.into_iter().collect())
    };
    assert_eq!(tool("node-version").as_deref(), Some("node"));
    assert_eq!(tool("bun-version").as_deref(), Some("bun"));
    assert_eq!(tool("toolchain").as_deref(), Some("rust"));
    assert_eq!(tool("steps"), None);
}

#[test]
fn a_pep508_requirement_splits_into_name_and_specifier() {
    let parsed = pep508("requests>=2.31");
    assert_eq!(parsed, ("requests".to_string(), ">=2.31".to_string(), None));
    let extra = pep508("pydantic[email]>=2,<3");
    assert_eq!(extra, ("pydantic".to_string(), ">=2,<3".to_string(), None));
    let marked = pep508("tomli>=2 ; python_version < '3.11'");
    assert_eq!(marked, ("tomli".to_string(), String::new(), Some(MARKER)));
    let bare = pep508("click");
    assert_eq!(bare, ("click".to_string(), String::new(), None));
}

#[test]
fn an_npm_pin_floats_for_the_reason_its_shape_gives() {
    assert_eq!(npm_floats("*"), Some(UNBOUNDED));
    assert_eq!(npm_floats("^0.4.1"), Some(ZERO_CARET));
    assert_eq!(npm_floats("1.2.3"), None);
}

fn table(entries: Vec<(&str, Tree)>) -> Tree {
    Tree::Table(entries.into_iter().map(|(k, v)| (k.to_string(), v)).collect())
}

fn text(s: &str) -> Tree {
    Tree::Text(s.to_string())
}

#[test]
fn a_json_tree_is_read_as_the_package_json_it_holds() {
    let mut parsed = Parsed::new();
    let doc = table(vec![
        ("dependencies", table(vec![("a", text("^1.0.0")), ("b", Tree::Unsigned(1))])),
        ("engines", table(vec![("node", text(">=20"))])),
        ("packageManager", text("pnpm@9.0.0+sha512.abc")),
    ]);
    package_json_tree(&mut parsed, "package.json", Some(doc));
    let keys: Vec<&str> = parsed.entries.iter().map(|e| e.site.key.as_str()).collect();
    assert_eq!(keys, ["dependencies.a", "engines.node", "packageManager"]);
    assert_eq!(parsed.entries[2].site.constraint, "9.0.0");
    assert!(parsed.refusals.is_empty());
    assert_eq!(parsed.errors.len(), 1);
    assert_eq!(parsed.errors[0].message, "dependencies.b is not a version string");

    let mut failed = Parsed::new();
    package_json_tree(&mut failed, "package.json", None);
    assert_eq!(failed.errors.len(), 1);
    assert_eq!(failed.errors[0].message, "not valid JSON");
}

#[test]
fn a_toml_tree_is_read_as_the_cargo_toml_it_holds() {
    let mut parsed = Parsed::new();
    let doc = table(vec![
        ("package", table(vec![("rust-version", text("1.88"))])),
        ("dependencies", table(vec![
            ("serde", text("1")),
            ("core", table(vec![("path", text("../core")), ("version", text("=0.3.1"))])),
            ("shared", table(vec![("workspace", Tree::Other)])),
        ])),
    ]);
    cargo_toml_tree(&mut parsed, "Cargo.toml", Some(doc));
    let keys: Vec<&str> = parsed.entries.iter().map(|e| e.site.key.as_str()).collect();
    assert!(keys.contains(&"dependencies.serde"), "{keys:?}");
    assert!(keys.contains(&"package.rust-version"), "{keys:?}");
    let core = parsed.entries.iter().find(|e| e.name == "core").expect("core");
    assert_eq!(core.site.constraint, "=0.3.1");
    assert_eq!(parsed.refusals.len(), 1);

    let mut failed = Parsed::new();
    cargo_toml_tree(&mut failed, "Cargo.toml", None);
    assert_eq!(failed.errors[0].message, "not valid TOML");
}

#[test]
fn a_toml_tree_is_read_as_the_pyproject_it_holds() {
    let mut parsed = Parsed::new();
    let doc = table(vec![(
        "project",
        table(vec![
            ("requires-python", text(">=3.11")),
            ("dependencies", Tree::List(vec![text("requests>=2.31"), text("tomli>=2 ; python_version < '3.11'")])),
        ]),
    )]);
    pyproject_toml_tree(&mut parsed, "pyproject.toml", Some(doc));
    let names: Vec<&str> = parsed.entries.iter().map(|e| e.name.as_str()).collect();
    assert_eq!(names, ["python", "requests", "tomli"]);
    assert_eq!(parsed.entries[0].kind, Kind::Engine);
    assert_eq!(parsed.refusals.len(), 1);
    assert!(parsed.refusals[0].message.contains("marker"));
}
