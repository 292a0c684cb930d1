use versions_le::cli::{flags, parse, plural, USAGE};
use versions_le::heuristics::Ecosystem;
use versions_le::scan::FailOn;

fn args(words: &[&str]) -> Vec<String> {
    words.iter().map(|w| w.to_string()).collect()
}

#[test]
fn every_documented_flag_is_parsed_and_the_reverse() {
    let mut documented: Vec<&str> = USAGE
        .split_whitespace()
        .filter(|word| word.starts_with("--"))
        .map(|word| word.trim_end_matches([',', '.', ':', ';']))
        .filter(|word| !matches!(*word, "--version" | "--help"))
        .collect();
    documented.sort_unstable();
    documented.dedup();

    let mut implemented = flags();
    implemented.sort_unstable();
    assert_eq!(documented, implemented);
}

#[test]
fn the_parser_accepts_every_flag_it_lists() {
    for flag in flags() {
        let args: Vec<String> = match flag {
            "--ecosystem" => vec![flag.into(), "npm".into()],
            "--fail-on" => vec![flag.into(), "any".into()],
            "--exclude" => vec![flag.into(), "x".into()],
            _ => vec![flag.into()],
        };
        assert!(parse(&args).is_ok(), "{flag}");
    }
}

#[test]
fn an_unknown_flag_is_refused_rather_than_ignored() {
    let error = parse(&args(&["--stict"])).expect_err("a refusal");
    assert!(error.contains("--stict"), "{error}");
}

#[test]
fn a_flag_with_no_value_is_refused() {
    for flag in ["--ecosystem", "--fail-on", "--exclude"] {
        assert!(parse(&args(&[flag])).is_err(), "{flag}");
    }
}

#[test]
fn an_unknown_ecosystem_is_refused_and_names_the_alternatives() {
    let error = parse(&args(&["--ecosystem", "maven"])).expect_err("a refusal");
    assert!(error.contains("maven"), "{error}");
    assert!(error.contains("cargo"), "{error}");
}

#[test]
fn an_unknown_fail_on_value_is_refused() {
    assert!(parse(&args(&["--fail-on", "sometimes"])).is_err());
}

#[test]
fn the_working_directory_is_the_default_root() {
    assert_eq!(parse(&args(&[])).expect("options").roots, ["."]);
}

#[test]
fn several_roots_are_allowed_because_the_question_spans_trees() {
    let options = parse(&args(&["api", "web"])).expect("options");
    assert_eq!(options.roots, ["api", "web"]);
}

#[test]
fn the_repeatable_flags_accumulate() {
    let options = parse(&args(&[
        "--ecosystem",
        "npm",
        "--ecosystem",
        "cargo",
        "--exclude",
        "a",
        "--exclude",
        "b",
    ]))
    .expect("options");
    assert_eq!(options.discover.ecosystems, [Ecosystem::Npm, Ecosystem::Cargo]);
    assert_eq!(options.discover.exclude, ["a", "b"]);
}

#[test]
fn there_is_no_json_flag_and_nothing_that_writes() {
    for attempt in ["--json", "--fix", "--write", "--update", "--pin"] {
        assert!(parse(&args(&[attempt])).is_err(), "{attempt} was accepted");
    }
}

#[test]
fn the_usage_text_states_the_exit_codes_and_the_scoping_rule() {
    for code in ["0", "1", "2"] {
        assert!(USAGE.contains(code), "exit code {code} is undocumented");
    }
    assert!(USAGE.contains("never crosses an ecosystem"));
    assert!(USAGE.contains("refusals"));
}

#[test]
fn the_defaults_are_walk_honouring_ignores_and_fail_on_conflict() {
    let options = parse(&args(&[])).expect("options");
    assert!(!options.discover.hidden);
    assert!(options.discover.respect_ignore);
    assert!(options.discover.exclude.is_empty());
    assert!(options.discover.ecosystems.is_empty());
    assert_eq!(options.fail_on, FailOn::Conflict);
    assert!(!options.strict);
}

#[test]
fn every_boolean_flag_sets_its_option() {
    let options =
        parse(&args(&["--strict", "--hidden", "--no-ignore", "--fail-on", "any", "root"]))
            .expect("options");
    assert!(options.strict);
    assert!(options.discover.hidden);
    assert!(!options.discover.respect_ignore);
    assert_eq!(options.fail_on, FailOn::Any);
    assert_eq!(options.roots, ["root"]);
}

#[test]
fn an_unknown_flag_is_refused_with_the_exact_words() {
    assert_eq!(
        parse(&args(&["--json"])).expect_err("a refusal"),
        "--json is not an option. Try --help."
    );
}

#[test]
fn a_count_is_written_with_its_noun() {
    assert_eq!(plural(1, "file", "files"), "1 file");
    assert_eq!(plural(0, "file", "files"), "0 files");
    assert_eq!(plural(12, "finding", "findings"), "12 findings");
}
