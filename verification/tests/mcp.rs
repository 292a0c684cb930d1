use versions_le::document::{parse_json, Tree};
use versions_le::heuristics::{Ecosystem, ManifestKind};
use versions_le::mcp::{
    check_ran, check_request, compare_versions, read_files, read_max_results, route, tool_named,
    unix_parts, Method, Tool, DEFAULT_MAX_RESULTS, FILES_INVALID, INVALID_PARAMS,
    MAX_MAX_RESULTS, MAX_RESULTS_INVALID, METHOD_NOT_FOUND, NO_DIRECTORY,
};
use versions_le::discover::Part;

fn json(text: &str) -> Tree {
    parse_json(text).expect("valid JSON")
}

#[test]
fn a_path_that_is_not_a_manifest_is_refused_by_name() {
    let error = compare_versions(&json(
        r#"{ "files": [{ "path": "config/settings.json", "content": "{}" }] }"#,
    ))
    .expect_err("a refusal");
    assert!(error.contains("settings.json"), "{error}");
    assert!(error.contains("package.json"), "{error}");
}

#[test]
fn a_missing_files_argument_is_refused() {
    let error = compare_versions(&json("{}")).expect_err("a refusal");
    assert!(error.contains("files is required"), "{error}");
    assert!(compare_versions(&json(r#"{ "files": [] }"#)).is_err());
}

#[test]
fn a_fractional_cap_is_refused() {
    let error = compare_versions(&json(
        r#"{ "files": [{ "path": "Cargo.toml", "content": "" }], "maxResults": 1.5 }"#,
    ))
    .expect_err("a refusal");
    assert_eq!(error, "maxResults must be a positive integer");
}

#[test]
fn the_shared_tool_finds_a_disjoint_pair() {
    let (report, truncated) = compare_versions(&json(
        r#"{ "files": [
            { "path": "a/Cargo.toml", "content": "[dependencies]\nserde = \"1\"\n" },
            { "path": "b/Cargo.toml", "content": "[dependencies]\nserde = \"2\"\n" }
        ]}"#,
    ))
    .expect("an answer");
    assert!(!truncated);
    assert_eq!(report.findings[0].code, "disjoint-constraint");
    assert_eq!(report.findings[0].severity, "error");
    assert!(check_ran(&report));
}

#[test]
fn the_shared_tool_needs_no_filesystem() {
    let (report, _) = compare_versions(&json(
        r#"{ "files": [{
            "path": "/definitely/not/here/Cargo.toml",
            "content": "[dependencies]\nserde = \"1\"\n"
        }]}"#,
    ))
    .expect("an answer");
    assert_eq!(report.summary.manifests, 1);
    assert_eq!(report.manifests[0].path, "/definitely/not/here/Cargo.toml");
}

#[test]
fn agreeing_manifests_are_an_ordinary_result() {
    let (report, _) = compare_versions(&json(
        r#"{ "files": [
            { "path": "a/Cargo.toml", "content": "[dependencies]\nserde = \"1\"\n" },
            { "path": "b/Cargo.toml", "content": "[dependencies]\nserde = \"1\"\n" }
        ]}"#,
    ))
    .expect("an answer");
    assert!(check_ran(&report));
    assert_eq!(report.summary.findings, 0);
}

#[test]
fn a_grammar_the_tool_does_not_model_comes_back_as_a_refusal() {
    let (report, _) = compare_versions(&json(
        r#"{ "files": [
            { "path": "a/Cargo.toml", "content": "[dependencies]\nserde = \"1\"\n" },
            { "path": "b/Cargo.toml", "content": "[dependencies]\nserde = { workspace = true }\n" }
        ]}"#,
    ))
    .expect("an answer");
    assert_eq!(report.summary.findings, 0);
    assert_eq!(report.refusals[0].reason, "unknown_grammar");
}

#[test]
fn a_manifest_that_does_not_parse_means_the_check_did_not_fully_run() {
    let (report, _) = compare_versions(&json(
        r#"{ "files": [{ "path": "package.json", "content": "{ not json" }] }"#,
    ))
    .expect("an answer");
    assert_eq!(report.diagnostics.len(), 1);
    assert!(!check_ran(&report));
}

#[test]
fn the_cap_truncates_and_says_so() {
    let (report, truncated) = compare_versions(&json(
        r#"{ "files": [
            { "path": "package.json", "content": "{ \"dependencies\": { \"a\": \"latest\", \"b\": \"*\" } }" }
        ], "maxResults": 1 }"#,
    ))
    .expect("an answer");
    assert!(truncated);
    assert_eq!(report.findings.len(), 1);
}

#[test]
fn an_unknown_argument_is_refused_by_name() {
    let error = compare_versions(&json(
        r#"{ "files": [{ "path": "Cargo.toml", "content": "" }], "fix": true }"#,
    ))
    .expect_err("a refusal");
    assert_eq!(error, "fix is not an argument this tool takes");
}

#[test]
fn the_cap_defaults_and_clamps() {
    assert_eq!(read_max_results(&json("{}")), Ok(DEFAULT_MAX_RESULTS));
    assert_eq!(read_max_results(&json(r#"{ "maxResults": 7 }"#)), Ok(7));
    assert_eq!(read_max_results(&json(r#"{ "maxResults": 999999 }"#)), Ok(MAX_MAX_RESULTS));
    assert_eq!(
        read_max_results(&json(r#"{ "maxResults": 0 }"#)),
        Err(MAX_RESULTS_INVALID.to_string())
    );
    assert_eq!(
        read_max_results(&json(r#"{ "maxResults": -3 }"#)),
        Err(MAX_RESULTS_INVALID.to_string())
    );
    assert_eq!(
        read_max_results(&json(r#"{ "maxResults": "9" }"#)),
        Err(MAX_RESULTS_INVALID.to_string())
    );
}

#[test]
fn each_file_is_read_with_the_grammar_its_path_names() {
    let documents = read_files(&json(
        r#"{ "files": [
            { "path": "a/package.json", "content": "{}" },
            { "path": ".github/workflows/ci.yml", "content": "jobs:" }
        ]}"#,
    ))
    .expect("documents");
    assert_eq!(documents.len(), 2);
    assert_eq!(documents[0].kind, ManifestKind::PackageJson);
    assert_eq!(documents[0].label, "a/package.json");
    assert_eq!(documents[1].kind, ManifestKind::Workflow);
    assert_eq!(documents[1].content, "jobs:");
}

#[test]
fn a_file_without_content_is_refused() {
    assert_eq!(
        read_files(&json(r#"{ "files": [{ "path": "Cargo.toml" }] }"#)).map(|d| d.len()),
        Err(FILES_INVALID.to_string())
    );
    assert_eq!(
        read_files(&json(r#"{ "files": "Cargo.toml" }"#)).map(|d| d.len()),
        Err(FILES_INVALID.to_string())
    );
}

#[test]
fn a_missing_argument_is_a_tool_failure_not_a_protocol_error() {
    let error = check_request(&json("{}")).map(|_| ()).expect_err("a refusal");
    assert_eq!(error, NO_DIRECTORY);
    assert!(error.contains("no directory"));
}

#[test]
fn the_check_tool_honours_an_ecosystem_filter_and_refuses_an_unknown_one() {
    let request = check_request(&json(r#"{ "path": "tree", "ecosystems": ["cargo"] }"#))
        .expect("a request");
    assert_eq!(request.path, "tree");
    assert_eq!(request.options.ecosystems, [Ecosystem::Cargo]);

    let refused =
        check_request(&json(r#"{ "path": "tree", "ecosystems": ["maven"] }"#)).map(|_| ());
    assert_eq!(refused, Err("maven is not one of npm, cargo, python, go or ci".to_string()));
}

#[test]
fn the_check_tool_reads_its_flags() {
    let request = check_request(&json(
        r#"{ "path": ".", "hidden": true, "ignored": true, "exclude": ["examples/**"] }"#,
    ))
    .expect("a request");
    assert!(request.options.hidden);
    assert!(!request.options.respect_ignore);
    assert_eq!(request.options.exclude, ["examples/**"]);
    let plain = check_request(&json(r#"{ "path": "." }"#)).expect("a request");
    assert!(!plain.options.hidden);
    assert!(plain.options.respect_ignore);
    assert!(plain.options.exclude.is_empty());
    assert!(plain.options.ecosystems.is_empty());
}

#[test]
fn no_message_mentions_a_command_line_flag() {
    for arguments in [
        "{}",
        r#"{ "paths": [] }"#,
        r#"{ "path": 3 }"#,
        r#"{ "path": ".", "ecosystems": ["maven"] }"#,
        r#"{ "path": ".", "hidden": "yes" }"#,
        r#"{ "path": ".", "exclude": [1] }"#,
    ] {
        let error = check_request(&json(arguments)).map(|_| ()).expect_err(arguments);
        assert!(!error.contains("--"), "{error}");
    }
}

#[test]
fn a_wrongly_typed_argument_is_refused_by_name() {
    let refused = |text: &str| check_request(&json(text)).map(|_| ()).expect_err(text);
    assert_eq!(refused(r#"{ "path": 3 }"#), "path must be a string");
    assert_eq!(refused(r#"{ "path": ".", "hidden": "yes" }"#), "hidden must be true or false");
    assert_eq!(
        refused(r#"{ "path": ".", "exclude": "x" }"#),
        "exclude must be a list of strings"
    );
    assert_eq!(refused(r#"{ "paths": [] }"#), "paths is not an argument this tool takes");
}

#[test]
fn a_null_argument_is_an_absent_one() {
    let request =
        check_request(&json(r#"{ "path": ".", "hidden": null, "exclude": null }"#)).expect("ok");
    assert!(!request.options.hidden);
    assert_eq!(check_request(&json(r#"{ "path": null }"#)).map(|_| ()), Err(NO_DIRECTORY.into()));
}

#[test]
fn a_unix_path_is_split_into_its_parts() {
    assert_eq!(
        unix_parts("/a/./b//Cargo.toml"),
        vec![
            Part::RootDir,
            Part::Normal("a".into()),
            Part::Normal("b".into()),
            Part::Normal("Cargo.toml".into())
        ]
    );
    assert_eq!(unix_parts("./x"), vec![Part::CurDir, Part::Normal("x".into())]);
    assert_eq!(unix_parts("../x"), vec![Part::ParentDir, Part::Normal("x".into())]);
    assert!(unix_parts("").is_empty());
}

#[test]
fn a_notification_gets_no_reply() {
    assert_eq!(route(Some("initialized"), false), None);
    assert_eq!(route(Some("tools/call"), false), None);
    assert_eq!(route(None, true), None);
}

#[test]
fn an_unknown_method_is_a_protocol_error() {
    assert_eq!(
        route(Some("does/not/exist"), true),
        Some(Err((METHOD_NOT_FOUND, "this server does not implement does/not/exist".to_string())))
    );
}

#[test]
fn each_method_the_server_implements_is_routed() {
    assert_eq!(route(Some("initialize"), true), Some(Ok(Method::Initialize)));
    assert_eq!(route(Some("tools/list"), true), Some(Ok(Method::ToolsList)));
    assert_eq!(route(Some("tools/call"), true), Some(Ok(Method::ToolsCall)));
    assert_eq!(route(Some("ping"), true), Some(Ok(Method::Ping)));
}

#[test]
fn an_unknown_tool_is_a_protocol_error() {
    assert_eq!(
        tool_named(true, Some("versions_le_translate")),
        Err((INVALID_PARAMS, "this server offers no tool named versions_le_translate".to_string()))
    );
    assert_eq!(
        tool_named(true, None),
        Err((INVALID_PARAMS, "the tool call named no tool".to_string()))
    );
    assert_eq!(
        tool_named(false, None),
        Err((INVALID_PARAMS, "no tool call was supplied".to_string()))
    );
}

#[test]
fn both_tools_are_offered_by_name() {
    assert_eq!(tool_named(true, Some("compare_versions")), Ok(Tool::CompareVersions));
    assert_eq!(tool_named(true, Some("versions_le_check")), Ok(Tool::Check));
}
