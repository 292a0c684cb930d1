use versions_le::grammar::{
    cargo_requirement, go_version, Comparator, Op, NOT_CARGO, CARGO_COMPARATOR, CARGO_UNSATISFIABLE,
    action_ref, cargo, ci_tool, go, is_commit_sha, is_wildcard, minimum, npm, python,
    Constraint, CHANNEL, COMMIT_SHA, COMPATIBLE_RELEASE, DIST_TAG, EMPTY_REQUIREMENT, EXCLUSION,
    MOVING_REF, NOT_GO,
};
use versions_le::interval::{are_disjoint, Range};
use versions_le::version::version_display;

fn range(constraint: Constraint) -> Range {
    match constraint {
        Constraint::Range(range) => range,
        other => panic!("expected a modelled range, got {other:?}"),
    }
}

fn disjoint(left: &Range, right: &Range) -> bool {
    are_disjoint(left, right)
}

fn overlap(left: Constraint, right: Constraint) -> bool {
    !disjoint(&range(left), &range(right))
}

#[test]
fn a_bare_cargo_version_is_a_caret_and_a_bare_npm_version_is_exact() {
    assert!(overlap(cargo("1.0.200"), cargo("1.9.0")));
    assert!(!overlap(npm("1.0.200"), npm("1.9.0")));
}

#[test]
fn a_caret_stops_at_the_next_major() {
    assert!(overlap(cargo("^1.2.3"), cargo("1.9.9")));
    assert!(!overlap(cargo("^1.2.3"), cargo("2.0.0")));
}

#[test]
fn a_zero_x_caret_moves_the_breaking_axis_left() {
    assert!(!overlap(npm("^0.2.3"), npm("0.3.0")));
    assert!(!overlap(npm("^0.0.3"), npm("0.0.4")));
    assert!(overlap(npm("^0.2.3"), npm("0.2.9")));
}

#[test]
fn a_tilde_stops_at_the_next_minor() {
    assert!(overlap(npm("~1.2.3"), npm("1.2.9")));
    assert!(!overlap(npm("~1.2.3"), npm("1.3.0")));
}

#[test]
fn two_pinned_majors_are_disjoint() {
    assert!(disjoint(&range(cargo("^1.0")), &range(cargo("^2.0"))));
    assert!(disjoint(&range(npm("1.x")), &range(npm("2.x"))));
}

#[test]
fn a_narrower_pin_inside_a_wider_one_is_not_disjoint() {
    assert!(overlap(cargo("1"), cargo("1.0.200")));
    assert!(overlap(npm(">=1.0.0"), npm("1.4.2")));
}

#[test]
fn an_npm_union_takes_either_side() {
    assert!(overlap(npm("^1.0.0 || ^2.0.0"), npm("2.1.0")));
    assert!(!overlap(npm("^1.0.0 || ^2.0.0"), npm("3.1.0")));
}

#[test]
fn npm_ands_a_space_separated_pair() {
    assert!(overlap(npm(">=1.2.0 <2.0.0"), npm("1.5.0")));
    assert!(!overlap(npm(">=1.2.0 <2.0.0"), npm("1.1.0")));
}

#[test]
fn an_npm_hyphen_range_is_inclusive_at_both_ends() {
    assert!(overlap(npm("1.2.3 - 2.3.4"), npm("2.3.4")));
    assert!(!overlap(npm("1.2.3 - 2.3.4"), npm("2.3.5")));
}

#[test]
fn a_partial_bound_covers_its_whole_line() {
    assert!(!overlap(npm(">1.2"), npm("1.2.9")));
    assert!(overlap(npm("<=1.2"), npm("1.2.9")));
}

#[test]
fn a_star_matches_everything() {
    assert!(overlap(npm("*"), npm("0.0.1")));
    assert!(overlap(npm("*"), npm("9999.0.0")));
    assert!(range(npm("*")).floor().is_none());
}

#[test]
fn an_npm_specifier_that_is_not_a_range_is_refused_not_guessed() {
    for spec in [
        "workspace:*",
        "file:../local",
        "git+https://example.com/a.git",
        "github:owner/repo",
        "owner/repo",
        "npm:other@^1.0.0",
        "https://example.com/a.tgz",
    ] {
        assert!(matches!(npm(spec), Constraint::Unknown(_)), "{spec} was not refused");
    }
}

#[test]
fn a_dist_tag_is_unknown_and_not_malformed() {
    assert!(matches!(npm("latest"), Constraint::Unknown(_)));
    assert!(matches!(npm("next"), Constraint::Unknown(_)));
}

#[test]
fn a_broken_range_is_malformed() {
    for spec in ["^^1.0.0", "1.0.0.0.0", ">=", "1.2.beta"] {
        assert!(
            matches!(npm(spec), Constraint::Malformed(_)),
            "{spec} was read as {:?}",
            npm(spec)
        );
    }
    assert!(matches!(cargo(""), Constraint::Malformed(_)));
}

#[test]
fn pep440_models_the_comparison_clauses() {
    assert!(overlap(python(">=3.9"), python("==3.12")));
    assert!(!overlap(python(">=3.9"), python("==3.8")));
    assert!(overlap(python(">=1.0,<2.0"), python("==1.5")));
    assert!(!overlap(python(">=1.0,<2.0"), python("==2.0")));
}

#[test]
fn pep440_equality_is_a_point_not_a_line() {
    assert!(!overlap(python("==1.2"), python("==1.2.9")));
}

#[test]
fn the_pep440_clauses_this_tool_does_not_model_are_refused() {
    for spec in ["~=1.4.2", "!=1.5.0", "===1.0", "==1.2.*", ">=1.0.post1"] {
        assert!(
            matches!(python(spec), Constraint::Unknown(_)),
            "{spec} was read as {:?}",
            python(spec)
        );
    }
}

#[test]
fn a_pep440_prerelease_reads_as_a_prerelease() {
    let parsed = range(python("==2.0.0rc1"));
    assert!(parsed.mentions_prerelease());
    assert!(!range(python("==2.0.0")).mentions_prerelease());
}

#[test]
fn a_go_version_is_a_single_point() {
    assert!(overlap(go("v1.2.3"), go("v1.2.3")));
    assert!(!overlap(go("v1.2.3"), go("v1.2.4")));
    assert!(matches!(go("v1.2.3+incompatible"), Constraint::Range(_)));
    assert!(matches!(go("latest"), Constraint::Malformed(_)));
}

#[test]
fn an_action_major_tag_is_the_whole_major_line() {
    assert!(overlap(action_ref("v4"), action_ref("v4.1.1")));
    assert!(disjoint(&range(action_ref("v4")), &range(action_ref("v5"))));
}

#[test]
fn a_sha_pin_and_a_branch_are_both_refused_for_different_reasons() {
    let sha = action_ref("11bd71901bbe5b1630ceea73d27597364c9af683");
    assert!(matches!(sha, Constraint::Unknown(_)));
    assert!(matches!(action_ref("main"), Constraint::Unknown(_)));
    assert!(matches!(action_ref("v4.1.1"), Constraint::Range(_)));
}

#[test]
fn a_ci_channel_name_is_refused_and_a_number_is_a_line() {
    assert!(matches!(ci_tool("stable"), Constraint::Unknown(_)));
    assert!(matches!(ci_tool("lts/*"), Constraint::Unknown(_)));
    assert!(overlap(ci_tool("20"), ci_tool("20.11.0")));
    assert!(disjoint(&range(ci_tool("20")), &range(ci_tool("22"))));
}

#[test]
fn a_minimum_has_no_ceiling() {
    assert!(overlap(minimum("1.88"), minimum("1.99")));
    let floor = range(minimum("1.88"));
    let version = floor.floor().expect("a floor");
    let text: String = version_display(&version).into_iter().collect();
    assert_eq!(text, "1.88.0");
}

#[test]
fn a_prerelease_is_visible_in_the_range() {
    assert!(range(npm("^1.0.0-rc.1")).mentions_prerelease());
    assert!(!range(npm("^1.0.0")).mentions_prerelease());
}

#[test]
fn an_inclusive_and_an_exclusive_bound_meeting_at_a_point_do_not_overlap() {
    assert!(!overlap(npm("<2.0.0"), npm(">=2.0.0")));
    assert!(overlap(npm("<=2.0.0"), npm(">=2.0.0")));
}

#[test]
fn each_refusal_carries_its_reason() {
    assert!(matches!(npm("latest"), Constraint::Unknown(r) if r == DIST_TAG));
    assert!(matches!(python("~=1.4"), Constraint::Unknown(r) if r == COMPATIBLE_RELEASE));
    assert!(matches!(python("!=1.4"), Constraint::Unknown(r) if r == EXCLUSION));
    assert!(matches!(
        action_ref("11bd71901bbe5b1630ceea73d27597364c9af683"),
        Constraint::Unknown(r) if r == COMMIT_SHA
    ));
    assert!(matches!(action_ref("main"), Constraint::Unknown(r) if r == MOVING_REF));
    assert!(matches!(ci_tool("stable"), Constraint::Unknown(r) if r == CHANNEL));
    assert!(matches!(cargo(""), Constraint::Malformed(r) if r == EMPTY_REQUIREMENT));
    assert!(matches!(go("latest"), Constraint::Malformed(r) if r == NOT_GO));
}

#[test]
fn a_hex_string_is_a_commit_when_it_is_full_length_or_carries_a_letter() {
    let text = |s: &str| -> Vec<char> { s.chars().collect() };
    assert!(is_commit_sha(&text("11bd71901bbe5b1630ceea73d27597364c9af683")));
    assert!(is_commit_sha(&text("11BD71901BBE5B1630CEEA73D27597364C9AF683")));
    assert!(is_commit_sha(&text("11bd719")));
    assert!(!is_commit_sha(&text("1234567")));
    assert!(!is_commit_sha(&text("11bd71")));
    assert!(!is_commit_sha(&text("v4.1.1")));
}

#[test]
fn a_wildcard_segment_is_star_or_x() {
    for w in ["*", "x", "X"] {
        let seg: Vec<char> = w.chars().collect();
        assert!(is_wildcard(&seg), "{w}");
    }
    let seg: Vec<char> = "1".chars().collect();
    assert!(!is_wildcard(&seg));
}

#[test]
fn an_empty_npm_or_python_specifier_accepts_everything() {
    assert!(overlap(npm(""), npm("5.0.0")));
    assert!(overlap(python(""), python("==0.1")));
}

fn comparator(op: Op, major: u64, minor: Option<u64>, patch: Option<u64>) -> Comparator {
    Comparator { op, major, minor, patch, pre: String::new() }
}

#[test]
fn the_comparators_semver_parsed_are_met_one_by_one() {
    assert!(matches!(cargo_requirement(None), Constraint::Malformed(r) if r == NOT_CARGO));
    assert!(range(cargo_requirement(Some(Vec::new()))).floor().is_none());
    let caret = range(cargo_requirement(Some(vec![comparator(Op::Caret, 1, Some(2), None)])));
    assert!(!disjoint(&caret, &range(npm("1.9.0"))));
    assert!(disjoint(&caret, &range(npm("2.0.0"))));
    assert!(disjoint(&caret, &range(npm("1.1.9"))));
    let pair = vec![
        comparator(Op::GreaterEq, 2, Some(0), Some(0)),
        comparator(Op::Less, 1, Some(0), Some(0)),
    ];
    assert!(matches!(cargo_requirement(Some(pair)), Constraint::Malformed(r) if r == CARGO_UNSATISFIABLE));
    let other = vec![comparator(Op::Other, 1, None, None)];
    assert!(matches!(cargo_requirement(Some(other)), Constraint::Unknown(r) if r == CARGO_COMPARATOR));
}

#[test]
fn a_parsed_go_version_is_one_point() {
    assert!(matches!(go_version(None), Constraint::Malformed(r) if r == NOT_GO));
    let point = range(go_version(Some((1, 2, 3, "rc.1".to_string(), String::new()))));
    assert!(!disjoint(&point, &range(npm("1.2.3-rc.1"))));
    assert!(disjoint(&point, &range(npm("1.2.3"))));
    assert!(point.mentions_prerelease());
}

#[test]
fn ranges_open_at_both_ends_overlap_where_a_version_lies_between() {
    assert!(overlap(npm(">1.0.0 <2.0.0"), npm(">1.5.0")));
    assert!(overlap(npm(">1.0.0 <2.0.0"), npm("1.6.0")));
    assert!(overlap(npm(">1.5.0"), npm("1.6.0")));
    assert!(!overlap(npm(">1.0.0 <1.5.0"), npm(">=1.5.0")));
}
