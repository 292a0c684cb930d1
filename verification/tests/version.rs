use versions_le::grammar::{cargo, npm, Constraint};
use versions_le::interval::{are_disjoint, meet_of, same_range, Bound, Interval, Range};
use versions_le::version::{lex_compare, version_compare, version_display, Version};

fn v(major: u64, minor: u64, patch: u64, pre: &[&str]) -> Version {
    Version {
        major,
        minor,
        patch,
        pre: pre.iter().map(|p| p.chars().collect()).collect(),
        build: Vec::new(),
    }
}

fn text(version: &Version) -> String {
    version_display(version).into_iter().collect()
}

fn range(c: Constraint) -> Range {
    match c {
        Constraint::Range(r) => r,
        other => panic!("{other:?}"),
    }
}

#[test]
fn versions_order_by_their_numbers_then_their_prerelease() {
    assert_eq!(version_compare(&v(1, 2, 3, &[]), &v(1, 2, 4, &[])), -1);
    assert_eq!(version_compare(&v(2, 0, 0, &[]), &v(1, 9, 9, &[])), 1);
    assert_eq!(version_compare(&v(1, 0, 0, &[]), &v(1, 0, 0, &[])), 0);
    assert_eq!(version_compare(&v(1, 0, 0, &["rc", "1"]), &v(1, 0, 0, &[])), -1);
    assert_eq!(version_compare(&v(1, 0, 0, &["alpha"]), &v(1, 0, 0, &["beta"])), -1);
    assert_eq!(version_compare(&v(1, 0, 0, &["2"]), &v(1, 0, 0, &["10"])), -1);
    assert_eq!(version_compare(&v(1, 0, 0, &["1"]), &v(1, 0, 0, &["alpha"])), -1);
    assert_eq!(version_compare(&v(1, 0, 0, &["a"]), &v(1, 0, 0, &["a", "b"])), -1);
}

#[test]
fn text_compares_character_by_character() {
    let t = |s: &str| -> Vec<char> { s.chars().collect() };
    assert_eq!(lex_compare(&t("abc"), &t("abd")), -1);
    assert_eq!(lex_compare(&t("b"), &t("abc")), 1);
    assert_eq!(lex_compare(&t("ab"), &t("ab")), 0);
    assert_eq!(lex_compare(&t("ab"), &t("abc")), -1);
}

#[test]
fn a_version_is_written_the_way_semver_writes_it() {
    assert_eq!(text(&v(1, 88, 0, &[])), "1.88.0");
    assert_eq!(text(&v(2, 0, 0, &["rc", "1"])), "2.0.0-rc.1");
    let mut built = v(1, 2, 3, &[]);
    built.build = vec!["build".chars().collect(), "5".chars().collect()];
    assert_eq!(text(&built), "1.2.3+build.5");
}

fn bound(version: Version, inclusive: bool) -> Option<Bound> {
    Some(Bound { version, inclusive })
}

#[test]
fn two_intervals_meet_where_both_admit_a_version() {
    let a = Interval { lower: bound(v(1, 0, 0, &[]), true), upper: bound(v(2, 0, 0, &[]), false) };
    let b = Interval { lower: bound(v(1, 5, 0, &[]), true), upper: None };
    let met = meet_of(&a, &b).expect("they overlap");
    assert_eq!(text(&met.lower.expect("a floor").version), "1.5.0");
    assert_eq!(text(&met.upper.expect("a ceiling").version), "2.0.0");

    let c = Interval { lower: bound(v(2, 0, 0, &[]), true), upper: None };
    assert!(meet_of(&a, &c).is_none());
    let d = Interval { lower: None, upper: bound(v(1, 0, 0, &[]), true) };
    assert!(meet_of(&a, &d).is_some());
    assert!(meet_of(&Interval::any(), &a).is_some());
}

#[test]
fn disjointness_is_symmetric_on_concrete_ranges() {
    for (left, right) in [("^1.0.0", "^2.0.0"), ("^1.2.0", "1.4.0"), ("<2.0.0", ">=2.0.0")] {
        let l = range(npm(left));
        let r = range(npm(right));
        assert_eq!(are_disjoint(&l, &r), are_disjoint(&r, &l), "{left} {right}");
    }
}

#[test]
fn an_inhabited_range_is_never_disjoint_from_itself() {
    for spec in ["^1.2.3", "*", ">=1.0.0 <2.0.0 || 3.x", "1.2.3"] {
        let r = range(npm(spec));
        assert!(!are_disjoint(&r, &r), "{spec}");
    }
}

#[test]
fn two_spellings_of_one_range_are_the_same_range() {
    assert!(same_range(&range(npm(">=20")), &range(npm(">=20.0.0"))));
    assert!(same_range(&range(cargo("1")), &range(cargo("^1.0.0"))));
    assert!(!same_range(&range(cargo("1")), &range(cargo("~1.0.0"))));
}
