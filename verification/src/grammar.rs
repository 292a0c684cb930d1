//! The constraint grammars: text in, a modelled range (or the reason
//! there is none) out.
//!
//! A grammar this module does not model is `Unknown`, and no range is
//! made up for it. `Malformed` is the narrower answer: shaped like a
//! constraint of that ecosystem, and broken. The difference is who is at
//! fault, and the tool only blames the file when it is sure.
//!
//! One deliberate imprecision, in the safe direction: a prerelease is an
//! ordinary point on the line, so `^1` is `[1.0.0, 2.0.0)` and admits
//! `2.0.0-rc.1`. Modelled ranges are therefore very slightly wider than
//! the real ones, and a wider range can only hide a disjointness.

use vstd::prelude::*;
use crate::interval::{
    Bound, BoundView, Interval, IntervalView, Range, interval_opt_view, meet, meet_of,
};
use crate::text::{
    Class, all_in, all_of, any_in, any_of, chars_of, class_has, contains, contains_str,
    has_prefix_str, in_class, is_alpha, parse_u64, parsed_u64, position, slice, split,
    split_by, split_class, split_on, split_once_by, split_once_class, split_words, starts_with,
    string_of, trim, trim_end, trim_start, trimmed, trimmed_end, trimmed_start, views, words,
};
use crate::text::same_str;
use crate::version::{Version, VersionView, numeric};

verus! {

// ---------------------------------------------------------------------
// Reasons
// ---------------------------------------------------------------------

pub const EMPTY_REQUIREMENT: &'static str = "an empty version requirement";
pub const NOT_CARGO: &'static str = "not a Cargo version requirement";
pub const CARGO_COMPARATOR: &'static str = "a Cargo comparator this tool does not model";
pub const CARGO_UNSATISFIABLE: &'static str = "a requirement no version can satisfy";
pub const NOT_A_VERSION: &'static str = "not a version";
pub const WILDCARD_MINIMUM: &'static str = "a wildcard minimum version";
pub const NPM_UNSATISFIABLE: &'static str = "a range no version can satisfy";
pub const NOT_A_RANGE: &'static str = "not a version range";
pub const OPERATOR_ALONE: &'static str = "an operator with no version";
pub const DIST_TAG: &'static str = "a dist tag is a moving target, not a version range";
pub const NOT_NPM: &'static str = "not an npm version range";
pub const URL_SPEC: &'static str = "a URL or git specifier resolves outside the registry";
pub const PROTOCOL_SPEC: &'static str = "a protocol specifier resolves outside the registry";
pub const PATH_SPEC: &'static str = "a path or repository shorthand resolves outside the registry";
pub const EMPTY_CLAUSE: &'static str = "an empty version clause";
pub const PEP440_UNSATISFIABLE: &'static str = "a specifier no version can satisfy";
pub const COMPATIBLE_RELEASE: &'static str = "PEP 440 compatible-release (~=)";
pub const EXCLUSION: &'static str = "PEP 440 version exclusion (!=)";
pub const ARBITRARY_EQUALITY: &'static str = "PEP 440 arbitrary equality (===)";
pub const PEP440_WILDCARD: &'static str = "a PEP 440 wildcard release clause";
pub const PEP440_NO_OPERATOR: &'static str = "a PEP 440 clause with no operator";
pub const PEP440_FORM: &'static str = "a PEP 440 version form this tool does not model";
pub const NOT_PEP440: &'static str = "not a PEP 440 version";
pub const NOT_GO: &'static str = "not a go module version";
pub const COMMIT_SHA: &'static str = "a commit SHA is a pin, but not a version";
pub const MOVING_REF: &'static str = "a branch or tag name is a moving reference, not a version";
pub const WILDCARD_ACTION: &'static str = "a wildcard action reference";
pub const CHANNEL: &'static str = "a channel name is a moving target, not a version";

// ---------------------------------------------------------------------
// The constraint
// ---------------------------------------------------------------------

#[derive(Debug)]
pub enum Constraint {
    /// Modelled, and therefore comparable.
    Range(Range),
    /// In a syntax this tool does not model; excluded from every
    /// comparison.
    Unknown(&'static str),
    /// Shaped like a constraint of its ecosystem, and broken.
    Malformed(&'static str),
}

pub enum ConstraintView {
    Range(Seq<IntervalView>),
    Unknown(Seq<char>),
    Malformed(Seq<char>),
}

impl View for Constraint {
    type V = ConstraintView;

    open spec fn view(&self) -> ConstraintView {
        match self {
            Constraint::Range(r) => ConstraintView::Range(r@),
            Constraint::Unknown(s) => ConstraintView::Unknown(s@),
            Constraint::Malformed(s) => ConstraintView::Malformed(s@),
        }
    }
}

pub open spec fn range_view(c: ConstraintView) -> Option<Seq<IntervalView>> {
    match c {
        ConstraintView::Range(r) => Some(r),
        _ => None,
    }
}

impl Constraint {
    /// The modelled range, if this constraint has one.
    pub fn range(&self) -> (r: Option<&Range>)
        ensures
            match r {
                Some(x) => range_view(self@) == Some(x@),
                None => range_view(self@) is None,
            },
    {
        match self {
            Constraint::Range(range) => Some(range),
            _ => None,
        }
    }

    /// The reason a malformed constraint is malformed.
    pub fn malformed_reason(&self) -> (r: Option<&'static str>)
        ensures
            match r {
                Some(s) => self@ == ConstraintView::Malformed(s@),
                None => !(self@ is Malformed),
            },
    {
        match self {
            Constraint::Malformed(reason) => Some(*reason),
            _ => None,
        }
    }

    /// Whether the grammar is one this tool declines to model.
    pub fn is_unknown(&self) -> (r: bool)
        ensures
            r == self@ is Unknown,
    {
        match self {
            Constraint::Unknown(_) => true,
            _ => false,
        }
    }
}

// ---------------------------------------------------------------------
// semver, the crate Cargo's own grammar lives in
// ---------------------------------------------------------------------

/// A comparator's operator, as `semver::Op` spells it; `Other` stands for
/// any operator a later semver adds.
#[derive(Clone, Copy, Debug, PartialEq, Eq, Structural)]
pub enum Op {
    Exact,
    Greater,
    GreaterEq,
    Less,
    LessEq,
    Tilde,
    Caret,
    Wildcard,
    Other,
}

/// One comparator of a Cargo requirement, as plain values.
pub struct Comparator {
    pub op: Op,
    pub major: u64,
    pub minor: Option<u64>,
    pub patch: Option<u64>,
    pub pre: String,
}

pub struct ComparatorView {
    pub op: Op,
    pub major: u64,
    pub minor: Option<u64>,
    pub patch: Option<u64>,
    pub pre: Seq<char>,
}

impl View for Comparator {
    type V = ComparatorView;

    open spec fn view(&self) -> ComparatorView {
        ComparatorView {
            op: self.op,
            major: self.major,
            minor: self.minor,
            patch: self.patch,
            pre: self.pre@,
        }
    }
}

pub open spec fn comparators_view(r: Option<Vec<Comparator>>) -> Option<Seq<ComparatorView>> {
    match r {
        Some(v) => Some(v@.map_values(|c: Comparator| c@)),
        None => None,
    }
}

/// What `semver::VersionReq::parse` makes of a text: its comparators, or
/// `None` for a parse error.
pub uninterp spec fn semver_requirement(text: Seq<char>) -> Option<Seq<ComparatorView>>;

/// What `semver::Version::parse` makes of a text: major, minor, patch,
/// prerelease and build metadata, or `None` for a parse error.
pub uninterp spec fn semver_version(text: Seq<char>) -> Option<(u64, u64, u64, Seq<char>, Seq<char>)>;

/// Calls `semver::VersionReq::parse` and hands back each comparator's
/// operator, numbers and prerelease text unchanged. The parse itself is
/// named, not restated.
#[verifier::external_body]
fn parse_requirement(text: &str) -> (r: Option<Vec<Comparator>>)
    ensures
        comparators_view(r) == semver_requirement(text@),
{
    semver::VersionReq::parse(text).ok().map(|req| req.comparators.iter().map(|c| Comparator {
        op: match c.op {
            semver::Op::Exact => Op::Exact, semver::Op::Greater => Op::Greater,
            semver::Op::GreaterEq => Op::GreaterEq, semver::Op::Less => Op::Less,
            semver::Op::LessEq => Op::LessEq, semver::Op::Tilde => Op::Tilde,
            semver::Op::Caret => Op::Caret, semver::Op::Wildcard => Op::Wildcard,
            _ => Op::Other,
        },
        major: c.major, minor: c.minor, patch: c.patch, pre: c.pre.as_str().to_string(),
    }).collect())
}

pub open spec fn version_parts_view(r: Option<(u64, u64, u64, String, String)>) -> Option<(u64, u64, u64, Seq<char>, Seq<char>)> {
    match r {
        Some(v) => Some((v.0, v.1, v.2, v.3@, v.4@)),
        None => None,
    }
}

/// Calls `semver::Version::parse` and hands back its five parts, the
/// prerelease and build metadata as their texts. The parse is named, not
/// restated.
#[verifier::external_body]
fn parse_version(text: &str) -> (r: Option<(u64, u64, u64, String, String)>)
    ensures
        version_parts_view(r) == semver_version(text@),
{
    semver::Version::parse(text).ok().map(|v| (
        v.major, v.minor, v.patch, v.pre.as_str().to_string(), v.build.as_str().to_string(),
    ))
}

/// One prerelease identifier as semver accepts it: letters, digits and
/// `-`, not empty, and no leading zero on a number.
pub open spec fn valid_pre_ident(s: Seq<char>) -> bool {
    s.len() > 0 && all_in(s, Class::AlnumDash) && !(s.len() > 1 && numeric(s) && s[0] == '0')
}

/// The texts `semver::Prerelease::new` accepts: empty, or dot-separated
/// valid identifiers.
pub open spec fn valid_prerelease(s: Seq<char>) -> bool {
    s.len() == 0 || forall|i: int|
        0 <= i < split_by(s, Class::Is('.')).len() ==> valid_pre_ident(
            #[trigger] split_by(s, Class::Is('.'))[i],
        )
}

/// Calls `semver::Prerelease::new`: `Ok` exactly for a valid prerelease
/// text, which it keeps verbatim.
#[verifier::external_body]
fn new_prerelease(text: &str) -> (r: Option<String>)
    ensures
        r is Some <==> valid_prerelease(text@),
        r matches Some(s) ==> s@ == text@,
{
    semver::Prerelease::new(text).ok().map(|p| p.as_str().to_string())
}

/// Dot-separated identifiers; none for an empty text.
pub open spec fn idents_of(s: Seq<char>) -> Seq<Seq<char>> {
    if s.len() == 0 {
        Seq::empty()
    } else {
        split_by(s, Class::Is('.'))
    }
}

fn idents(s: &Vec<char>) -> (out: Vec<Vec<char>>)
    ensures
        views(out@) == idents_of(s@),
{
    if s.len() == 0 {
        let out: Vec<Vec<char>> = Vec::new();
        assert(views(out@) =~= Seq::<Seq<char>>::empty());
        out
    } else {
        split_class(s, Class::Is('.'))
    }
}

pub open spec fn prerelease_of(s: Seq<char>) -> Option<Seq<Seq<char>>> {
    if valid_prerelease(s) {
        Some(idents_of(s))
    } else {
        None
    }
}

pub open spec fn opt_idents_view(r: Option<Vec<Vec<char>>>) -> Option<Seq<Seq<char>>> {
    match r {
        Some(v) => Some(views(v@)),
        None => None,
    }
}

/// A prerelease text through semver's validation, split at its dots.
fn prerelease(s: &Vec<char>) -> (r: Option<Vec<Vec<char>>>)
    ensures
        opt_idents_view(r) == prerelease_of(s@),
{
    let text = string_of(s);
    match new_prerelease(text.as_str()) {
        None => None,
        Some(kept) => {
            let c = chars_of(kept.as_str());
            Some(idents(&c))
        },
    }
}

// ---------------------------------------------------------------------
// Partial versions, shared by every grammar
// ---------------------------------------------------------------------

/// `None` in a number is a wildcard: `*`, `x`, or nothing at all.
pub struct Partial {
    pub major: Option<u64>,
    pub minor: Option<u64>,
    pub patch: Option<u64>,
    pub pre: Vec<Vec<char>>,
}

pub struct PartialView {
    pub major: Option<u64>,
    pub minor: Option<u64>,
    pub patch: Option<u64>,
    pub pre: Seq<Seq<char>>,
}

impl View for Partial {
    type V = PartialView;

    open spec fn view(&self) -> PartialView {
        PartialView {
            major: self.major,
            minor: self.minor,
            patch: self.patch,
            pre: views(self.pre@),
        }
    }
}

pub open spec fn partial_view(r: Option<Partial>) -> Option<PartialView> {
    match r {
        Some(p) => Some(p@),
        None => None,
    }
}

pub open spec fn wild_segment(s: Seq<char>) -> bool {
    s == seq!['*'] || s == seq!['x'] || s == seq!['X']
}

pub fn is_wildcard(s: &Vec<char>) -> (b: bool)
    ensures
        b == wild_segment(s@),
{
    if s.len() == 1 && (s[0] == '*' || s[0] == 'x' || s[0] == 'X') {
        assert(s@ =~= seq![s@[0]]);
        true
    } else {
        false
    }
}

pub open spec fn wildcard_partial() -> PartialView {
    PartialView { major: None, minor: None, patch: None, pre: Seq::empty() }
}

/// Where the first wildcard segment is, or the count of segments.
pub open spec fn wild_index(segs: Seq<Seq<char>>) -> int
    decreases segs.len(),
{
    if segs.len() == 0 {
        0
    } else if wild_segment(segs[0]) {
        0
    } else {
        1 + wild_index(segs.drop_first())
    }
}

proof fn lemma_wild_index(segs: Seq<Seq<char>>)
    ensures
        0 <= wild_index(segs) <= segs.len(),
        forall|j: int| 0 <= j < wild_index(segs) ==> !wild_segment(#[trigger] segs[j]),
        wild_index(segs) < segs.len() ==> wild_segment(segs[wild_index(segs)]),
    decreases segs.len(),
{
    if segs.len() > 0 && !wild_segment(segs[0]) {
        lemma_wild_index(segs.drop_first());
        assert forall|j: int| 0 <= j < wild_index(segs) implies !wild_segment(#[trigger] segs[j]) by {
            if j > 0 {
                assert(segs[j] == segs.drop_first()[j - 1]);
            }
        }
    }
}

pub open spec fn min_int(a: int, b: int) -> int {
    if a < b {
        a
    } else {
        b
    }
}

/// How many numeric slots a release fills: at most three, and none past
/// the first wildcard.
pub open spec fn slots(segs: Seq<Seq<char>>) -> int {
    min_int(3, min_int(segs.len() as int, wild_index(segs)))
}

pub open spec fn slot(segs: Seq<Seq<char>>, j: int, m: int) -> Option<u64> {
    if j < m {
        parse_u64(segs[j])
    } else {
        None
    }
}

/// The numbers of `major[.minor[.patch]]`, a wildcard ending them early;
/// a fourth number is somebody else's versioning scheme.
pub open spec fn release_partial(release: Seq<char>, pre: Seq<Seq<char>>) -> Option<PartialView> {
    let segs = split_by(release, Class::Is('.'));
    let m = slots(segs);
    let consumed = if m < 3 && m < segs.len() {
        m + 1
    } else {
        m
    };
    if exists|j: int| 0 <= j < m && (#[trigger] parse_u64(segs[j])) is None {
        None
    } else if consumed < segs.len() && segs[consumed].len() > 0 {
        None
    } else if m == 0 {
        None
    } else {
        Some(
            PartialView {
                major: slot(segs, 0, m),
                minor: slot(segs, 1, m),
                patch: slot(segs, 2, m),
                pre,
            },
        )
    }
}

/// A version that may stop early or hold wildcards: `1`, `1.2`, `1.x`,
/// `v2.0.0-rc.1`, `*`. Build metadata is dropped.
pub open spec fn partial_of(text: Seq<char>) -> Option<PartialView> {
    let t0 = trim(text);
    let t = if t0.len() > 0 && in_class(t0[0], Class::Vee) {
        t0.drop_first()
    } else {
        t0
    };
    if t.len() == 0 || wild_segment(t) {
        Some(wildcard_partial())
    } else {
        let t2 = split_by(t, Class::Is('+'))[0];
        match split_once_by(t2, Class::Is('-')) {
            Some((release, tail)) => match prerelease_of(tail) {
                Some(pre) => release_partial(release, pre),
                None => None,
            },
            None => release_partial(t2, Seq::empty()),
        }
    }
}

fn release_numbers(release: &Vec<char>, pre: Vec<Vec<char>>) -> (r: Option<Partial>)
    ensures
        partial_view(r) == release_partial(release@, views(pre@)),
{
    let segs = split_class(release, Class::Is('.'));
    let ghost sv = views(segs@);
    proof {
        lemma_wild_index(sv);
    }
    let mut m: usize = 0;
    while m < 3 && m < segs.len() && !is_wildcard(&segs[m])
        invariant
            sv == views(segs@),
            0 <= m <= 3,
            m <= segs.len(),
            forall|j: int| 0 <= j < m ==> !wild_segment(#[trigger] sv[j]),
        decreases 3 - m,
    {
        m = m + 1;
    }
    proof {
        if m < 3 && m < segs.len() {
            assert(wild_segment(sv[m as int]));
            assert(wild_index(sv) == m) by {
                if wild_index(sv) < m {
                    assert(wild_segment(sv[wild_index(sv)]));
                }
            }
        } else if m < 3 {
            assert(wild_index(sv) == segs.len());
        } else if wild_index(sv) < 3 {
            assert(!wild_segment(sv[wild_index(sv)]));
        }
        assert(m == slots(sv));
    }
    let mut numbers: Vec<u64> = Vec::new();
    let mut j: usize = 0;
    while j < m
        invariant
            sv == views(segs@),
            sv == split_by(release@, Class::Is('.')),
            m == slots(sv),
            m <= segs.len(),
            0 <= j <= m,
            numbers@.len() == j,
            forall|k: int| 0 <= k < j ==> parse_u64(sv[k]) == Some(#[trigger] numbers@[k]),
        decreases m - j,
    {
        match parsed_u64(&segs[j]) {
            Some(x) => numbers.push(x),
            None => {
                assert(sv[j as int] == segs@[j as int]@);
                assert(parse_u64(sv[j as int]) is None);
                assert(sv == split_by(release@, Class::Is('.')));
                assert(exists|k: int| 0 <= k < m && (#[trigger] parse_u64(sv[k])) is None);
                assert(release_partial(release@, views(pre@)) is None);
                return None;
            },
        }
        j = j + 1;
    }
    assert forall|k: int| 0 <= k < m implies !((#[trigger] parse_u64(sv[k])) is None) by {
        assert(parse_u64(sv[k]) == Some(numbers@[k]));
    }
    let consumed = if m < 3 && m < segs.len() {
        m + 1
    } else {
        m
    };
    if consumed < segs.len() && segs[consumed].len() > 0 {
        return None;
    }
    if m == 0 {
        return None;
    }
    let major = Some(numbers[0]);
    let minor = if m > 1 {
        Some(numbers[1])
    } else {
        None
    };
    let patch = if m > 2 {
        Some(numbers[2])
    } else {
        None
    };
    Some(Partial { major, minor, patch, pre })
}

/// A partial version, or `None` when the text is not one.
pub fn partial(text: &Vec<char>) -> (r: Option<Partial>)
    ensures
        partial_view(r) == partial_of(text@),
{
    let t0 = trimmed(text);
    let t = if t0.len() > 0 && class_has(t0[0], Class::Vee) {
        slice(&t0, 1, t0.len())
    } else {
        t0
    };
    assert(t@ == (if trim(text@).len() > 0 && in_class(trim(text@)[0], Class::Vee) {
        trim(text@).drop_first()
    } else {
        trim(text@)
    }));
    if t.len() == 0 || is_wildcard(&t) {
        let none: Vec<Vec<char>> = Vec::new();
        assert(views(none@) =~= Seq::<Seq<char>>::empty());
        return Some(Partial { major: None, minor: None, patch: None, pre: none });
    }
    let pieces = split_class(&t, Class::Is('+'));
    let t2 = pieces[0].clone();
    assert(t2@ == split_by(t@, Class::Is('+'))[0]);
    match split_once_class(&t2, Class::Is('-')) {
        Some((release, tail)) => match prerelease(&tail) {
            Some(pre) => release_numbers(&release, pre),
            None => None,
        },
        None => {
            let none: Vec<Vec<char>> = Vec::new();
            assert(views(none@) =~= Seq::<Seq<char>>::empty());
            release_numbers(&t2, none)
        },
    }
}

// ---------------------------------------------------------------------
// Building versions and intervals
// ---------------------------------------------------------------------

pub open spec fn ver(major: u64, minor: u64, patch: u64, pre: Seq<Seq<char>>) -> VersionView {
    VersionView { major, minor, patch, pre, build: Seq::empty() }
}

pub open spec fn or_zero(x: Option<u64>) -> u64 {
    match x {
        Some(v) => v,
        None => 0,
    }
}

/// `u64::saturating_add(1)`.
pub open spec fn next_up(x: u64) -> u64 {
    if x < u64::MAX {
        (x + 1) as u64
    } else {
        x
    }
}

fn next_of(x: u64) -> (r: u64)
    ensures
        r == next_up(x),
{
    if x < u64::MAX {
        x + 1
    } else {
        x
    }
}

fn zero_or(x: Option<u64>) -> (r: u64)
    ensures
        r == or_zero(x),
{
    match x {
        Some(v) => v,
        None => 0,
    }
}

/// The lowest version a partial names: wildcards read as zero.
pub open spec fn floor_of(p: PartialView) -> VersionView {
    ver(or_zero(p.major), or_zero(p.minor), or_zero(p.patch), p.pre)
}

/// The first version above everything a partial names: `1` ceils to
/// `2.0.0`, `1.2` to `1.3.0`. A complete version has no ceiling.
pub open spec fn ceiling_of(p: PartialView) -> Option<VersionView> {
    match p.major {
        None => None,
        Some(major) => match p.minor {
            None => Some(ver(next_up(major), 0, 0, Seq::empty())),
            Some(minor) => if p.patch is None {
                Some(ver(major, next_up(minor), 0, Seq::empty()))
            } else {
                None
            },
        },
    }
}

pub open spec fn lb(v: VersionView, inclusive: bool) -> Option<BoundView> {
    Some(BoundView { version: v, inclusive })
}

pub open spec fn any_interval() -> IntervalView {
    IntervalView { lower: None, upper: None }
}

pub open spec fn point_of(v: VersionView) -> IntervalView {
    IntervalView { lower: lb(v, true), upper: lb(v, true) }
}

pub open spec fn bounded_of(lower: VersionView, upper: VersionView) -> IntervalView {
    IntervalView { lower: lb(lower, true), upper: lb(upper, false) }
}

pub open spec fn at_least_of(p: PartialView) -> IntervalView {
    IntervalView { lower: lb(floor_of(p), true), upper: None }
}

/// `>1.2` means `>=1.3.0`: a partial is a whole line, and being above it
/// means being above all of it.
pub open spec fn above_of(p: PartialView) -> IntervalView {
    match ceiling_of(p) {
        Some(c) => IntervalView { lower: lb(c, true), upper: None },
        None => IntervalView { lower: lb(floor_of(p), false), upper: None },
    }
}

pub open spec fn below_of(p: PartialView) -> IntervalView {
    IntervalView { lower: None, upper: lb(floor_of(p), false) }
}

pub open spec fn at_most_of(p: PartialView) -> IntervalView {
    match ceiling_of(p) {
        Some(c) => IntervalView { lower: None, upper: lb(c, false) },
        None => IntervalView { lower: None, upper: lb(floor_of(p), true) },
    }
}

pub open spec fn exactly_of(p: PartialView) -> IntervalView {
    match ceiling_of(p) {
        Some(c) => bounded_of(floor_of(p), c),
        None => point_of(floor_of(p)),
    }
}

/// PEP 440 zero-pads instead of treating a short release as a line:
/// `==1.2` is the single version `1.2`.
pub open spec fn exactly_release_of(p: PartialView) -> IntervalView {
    point_of(floor_of(p))
}

pub open spec fn above_release_of(p: PartialView) -> IntervalView {
    IntervalView { lower: lb(floor_of(p), false), upper: None }
}

pub open spec fn at_most_release_of(p: PartialView) -> IntervalView {
    IntervalView { lower: None, upper: lb(floor_of(p), true) }
}

pub open spec fn tilde_of(p: PartialView) -> IntervalView {
    let major = or_zero(p.major);
    let upper = match p.minor {
        Some(minor) => ver(major, next_up(minor), 0, Seq::empty()),
        None => ver(next_up(major), 0, 0, Seq::empty()),
    };
    bounded_of(floor_of(p), upper)
}

/// `^1.2.3` is `[1.2.3, 2.0.0)`, but below 1.0 the breaking axis moves
/// left: `^0.2.3` is `[0.2.3, 0.3.0)` and `^0.0.3` is `[0.0.3, 0.0.4)`.
pub open spec fn caret_of(p: PartialView) -> IntervalView {
    let major = or_zero(p.major);
    if major > 0 {
        bounded_of(floor_of(p), ver(next_up(major), 0, 0, Seq::empty()))
    } else {
        let upper = match (p.minor, p.patch) {
            (Some(minor), Some(patch)) => if minor == 0 {
                ver(0, 0, next_up(patch), Seq::empty())
            } else {
                ver(0, next_up(minor), 0, Seq::empty())
            },
            (Some(minor), None) => ver(0, next_up(minor), 0, Seq::empty()),
            (None, _) => ver(1, 0, 0, Seq::empty()),
        };
        bounded_of(floor_of(p), upper)
    }
}

fn make(major: u64, minor: u64, patch: u64, pre: Vec<Vec<char>>) -> (v: Version)
    ensures
        v@ == ver(major, minor, patch, views(pre@)),
{
    let build: Vec<Vec<char>> = Vec::new();
    assert(views(build@) =~= Seq::<Seq<char>>::empty());
    Version { major, minor, patch, pre, build }
}

fn release(major: u64, minor: u64, patch: u64) -> (v: Version)
    ensures
        v@ == ver(major, minor, patch, Seq::empty()),
{
    let pre: Vec<Vec<char>> = Vec::new();
    assert(views(pre@) =~= Seq::<Seq<char>>::empty());
    make(major, minor, patch, pre)
}

fn floor(p: &Partial) -> (v: Version)
    ensures
        v@ == floor_of(p@),
{
    make(zero_or(p.major), zero_or(p.minor), zero_or(p.patch), crate::text::copy_texts(&p.pre))
}

pub open spec fn version_opt_view(v: Option<Version>) -> Option<VersionView> {
    match v {
        Some(v) => Some(v@),
        None => None,
    }
}

fn ceiling(p: &Partial) -> (v: Option<Version>)
    ensures
        version_opt_view(v) == ceiling_of(p@),
{
    match p.major {
        None => None,
        Some(major) => match p.minor {
            None => Some(release(next_of(major), 0, 0)),
            Some(minor) => if p.patch.is_none() {
                Some(release(major, next_of(minor), 0))
            } else {
                None
            },
        },
    }
}

fn lower_bound(v: Version, inclusive: bool) -> (b: Option<Bound>)
    ensures
        crate::interval::bound_view(b) == lb(v@, inclusive),
{
    Some(Bound { version: v, inclusive })
}

fn point(v: Version) -> (i: Interval)
    ensures
        i@ == point_of(v@),
{
    let again = crate::interval::copy_version(&v);
    Interval { lower: lower_bound(v, true), upper: lower_bound(again, true) }
}

fn bounded(lower: Version, upper: Version) -> (i: Interval)
    ensures
        i@ == bounded_of(lower@, upper@),
{
    Interval { lower: lower_bound(lower, true), upper: lower_bound(upper, false) }
}

fn at_least(p: &Partial) -> (i: Interval)
    ensures
        i@ == at_least_of(p@),
{
    Interval { lower: lower_bound(floor(p), true), upper: None }
}

fn above(p: &Partial) -> (i: Interval)
    ensures
        i@ == above_of(p@),
{
    match ceiling(p) {
        Some(c) => Interval { lower: lower_bound(c, true), upper: None },
        None => Interval { lower: lower_bound(floor(p), false), upper: None },
    }
}

fn below(p: &Partial) -> (i: Interval)
    ensures
        i@ == below_of(p@),
{
    Interval { lower: None, upper: lower_bound(floor(p), false) }
}

fn at_most(p: &Partial) -> (i: Interval)
    ensures
        i@ == at_most_of(p@),
{
    match ceiling(p) {
        Some(c) => Interval { lower: None, upper: lower_bound(c, false) },
        None => Interval { lower: None, upper: lower_bound(floor(p), true) },
    }
}

fn exactly(p: &Partial) -> (i: Interval)
    ensures
        i@ == exactly_of(p@),
{
    match ceiling(p) {
        Some(c) => bounded(floor(p), c),
        None => point(floor(p)),
    }
}

fn above_release(p: &Partial) -> (i: Interval)
    ensures
        i@ == above_release_of(p@),
{
    Interval { lower: lower_bound(floor(p), false), upper: None }
}

fn at_most_release(p: &Partial) -> (i: Interval)
    ensures
        i@ == at_most_release_of(p@),
{
    Interval { lower: None, upper: lower_bound(floor(p), true) }
}

fn tilde(p: &Partial) -> (i: Interval)
    ensures
        i@ == tilde_of(p@),
{
    let major = zero_or(p.major);
    let upper = match p.minor {
        Some(minor) => release(major, next_of(minor), 0),
        None => release(next_of(major), 0, 0),
    };
    bounded(floor(p), upper)
}

fn caret(p: &Partial) -> (i: Interval)
    ensures
        i@ == caret_of(p@),
{
    let major = zero_or(p.major);
    if major > 0 {
        return bounded(floor(p), release(next_of(major), 0, 0));
    }
    let upper = match (p.minor, p.patch) {
        (Some(minor), Some(patch)) => if minor == 0 {
            release(0, 0, next_of(patch))
        } else {
            release(0, next_of(minor), 0)
        },
        (Some(minor), None) => release(0, next_of(minor), 0),
        (None, _) => release(1, 0, 0),
    };
    bounded(floor(p), upper)
}

} // verus!

verus! {

// ---------------------------------------------------------------------
// Operators
// ---------------------------------------------------------------------

/// The comparison operator a token opens with, if any.
#[derive(Clone, Copy, Debug, PartialEq, Eq, Structural)]
pub enum Operator {
    Plain,
    AtLeast,
    AtMost,
    Equals2,
    Caret,
    Tilde,
    Above,
    Below,
    Equals,
}

/// `>=`, `<=` and `==` before their one-character prefixes.
pub open spec fn operator_split(t: Seq<char>) -> (Operator, Seq<char>) {
    if starts_with(t, seq!['>', '=']) {
        (Operator::AtLeast, t.skip(2))
    } else if starts_with(t, seq!['<', '=']) {
        (Operator::AtMost, t.skip(2))
    } else if starts_with(t, seq!['=', '=']) {
        (Operator::Equals2, t.skip(2))
    } else if t.len() > 0 && t[0] == '^' {
        (Operator::Caret, t.skip(1))
    } else if t.len() > 0 && t[0] == '~' {
        (Operator::Tilde, t.skip(1))
    } else if t.len() > 0 && t[0] == '>' {
        (Operator::Above, t.skip(1))
    } else if t.len() > 0 && t[0] == '<' {
        (Operator::Below, t.skip(1))
    } else if t.len() > 0 && t[0] == '=' {
        (Operator::Equals, t.skip(1))
    } else {
        (Operator::Plain, t)
    }
}

pub fn split_operator(t: &Vec<char>) -> (r: (Operator, Vec<char>))
    ensures
        (r.0, r.1@) == operator_split(t@),
{
    let two = t.len() >= 2;
    if two && t[0] == '>' && t[1] == '=' {
        assert(t@.take(2) =~= seq!['>', '=']);
        (Operator::AtLeast, slice(t, 2, t.len()))
    } else if two && t[0] == '<' && t[1] == '=' {
        assert(t@.take(2) =~= seq!['<', '=']);
        (Operator::AtMost, slice(t, 2, t.len()))
    } else if two && t[0] == '=' && t[1] == '=' {
        assert(t@.take(2) =~= seq!['=', '=']);
        (Operator::Equals2, slice(t, 2, t.len()))
    } else {
        proof {
            if t@.len() >= 2 {
                assert(t@.take(2)[0] == t@[0] && t@.take(2)[1] == t@[1]);
            }
        }
        if t.len() > 0 && t[0] == '^' {
            (Operator::Caret, slice(t, 1, t.len()))
        } else if t.len() > 0 && t[0] == '~' {
            (Operator::Tilde, slice(t, 1, t.len()))
        } else if t.len() > 0 && t[0] == '>' {
            (Operator::Above, slice(t, 1, t.len()))
        } else if t.len() > 0 && t[0] == '<' {
            (Operator::Below, slice(t, 1, t.len()))
        } else if t.len() > 0 && t[0] == '=' {
            (Operator::Equals, slice(t, 1, t.len()))
        } else {
            (Operator::Plain, slice(t, 0, t.len()))
        }
    }
}

// ---------------------------------------------------------------------
// Cargo
// ---------------------------------------------------------------------

/// The interval one semver comparator admits; `None` for an operator
/// this tool does not model.
pub open spec fn comparator_interval(c: ComparatorView) -> Option<IntervalView> {
    let p = PartialView { major: Some(c.major), minor: c.minor, patch: c.patch, pre: idents_of(c.pre) };
    match c.op {
        Op::Exact => Some(exactly_of(p)),
        Op::Wildcard => Some(exactly_of(p)),
        Op::Greater => Some(above_of(p)),
        Op::GreaterEq => Some(at_least_of(p)),
        Op::Less => Some(below_of(p)),
        Op::LessEq => Some(at_most_of(p)),
        Op::Tilde => Some(tilde_of(p)),
        Op::Caret => Some(caret_of(p)),
        Op::Other => None,
    }
}

/// The comparators of a requirement, intersected in order.
pub open spec fn cargo_fold(acc: IntervalView, cs: Seq<ComparatorView>) -> ConstraintView
    decreases cs.len(),
{
    if cs.len() == 0 {
        ConstraintView::Range(seq![acc])
    } else {
        match comparator_interval(cs[0]) {
            None => ConstraintView::Unknown(CARGO_COMPARATOR@),
            Some(next) => match meet(acc, next) {
                None => ConstraintView::Malformed(CARGO_UNSATISFIABLE@),
                Some(merged) => cargo_fold(merged, cs.drop_first()),
            },
        }
    }
}

/// What a Cargo requirement's parsed comparators model: every comparator
/// met in turn, or the reason there is no range. `None` is a text semver
/// did not parse.
pub open spec fn cargo_requirement_of(cs: Option<Seq<ComparatorView>>) -> ConstraintView {
    match cs {
        None => ConstraintView::Malformed(NOT_CARGO@),
        Some(cs) => if cs.len() == 0 {
            ConstraintView::Range(seq![any_interval()])
        } else {
            cargo_fold(any_interval(), cs)
        },
    }
}

/// A `[dependencies]` version string. A bare `"1.0.200"` is a caret
/// requirement here, the opposite of npm.
pub open spec fn cargo_of(raw: Seq<char>) -> ConstraintView {
    let text = trim(raw);
    if text.len() == 0 {
        ConstraintView::Malformed(EMPTY_REQUIREMENT@)
    } else {
        cargo_requirement_of(semver_requirement(text))
    }
}

fn comparator_range(c: &Comparator) -> (r: Option<Interval>)
    ensures
        interval_opt_view(r) == comparator_interval(c@),
{
    let pre_text = chars_of(c.pre.as_str());
    let p = Partial { major: Some(c.major), minor: c.minor, patch: c.patch, pre: idents(&pre_text) };
    match c.op {
        Op::Exact => Some(exactly(&p)),
        Op::Wildcard => Some(exactly(&p)),
        Op::Greater => Some(above(&p)),
        Op::GreaterEq => Some(at_least(&p)),
        Op::Less => Some(below(&p)),
        Op::LessEq => Some(at_most(&p)),
        Op::Tilde => Some(tilde(&p)),
        Op::Caret => Some(caret(&p)),
        Op::Other => None,
    }
}

fn single(i: Interval) -> (r: Range)
    ensures
        r@ == seq![i@],
{
    let mut v: Vec<Interval> = Vec::new();
    v.push(i);
    assert(r_views(v@) =~= seq![i@]);
    Range { intervals: v }
}

pub open spec fn r_views(v: Seq<Interval>) -> Seq<IntervalView> {
    crate::interval::interval_views(v)
}

/// A Cargo requirement as a range.
pub fn cargo(raw: &str) -> (c: Constraint)
    ensures
        c@ == cargo_of(raw@),
{
    let text = trimmed(&chars_of(raw));
    if text.len() == 0 {
        return Constraint::Malformed(EMPTY_REQUIREMENT);
    }
    let spelled = string_of(&text);
    cargo_requirement(parse_requirement(spelled.as_str()))
}

/// The range a Cargo requirement's comparators model, as semver parsed
/// them: the comparators met one by one, `Unknown` at an operator this
/// tool does not model, `Malformed` when they leave nothing or when
/// there was no parse.
pub fn cargo_requirement(parsed: Option<Vec<Comparator>>) -> (c: Constraint)
    ensures
        c@ == cargo_requirement_of(comparators_view(parsed)),
{
    let ghost pv = comparators_view(parsed);
    let Some(cs) = parsed else {
        return Constraint::Malformed(NOT_CARGO);
    };
    let ghost cv = cs@.map_values(|c: Comparator| c@);
    assert(pv == Some(cv));
    if cs.len() == 0 {
        return Constraint::Range(single(Interval::any()));
    }
    let mut acc = Interval::any();
    let mut i: usize = 0;
    assert(cv.skip(0) == cv);
    while i < cs.len()
        invariant
            0 <= i <= cs.len(),
            cv == cs@.map_values(|c: Comparator| c@),
            cs.len() > 0,
            pv == comparators_view(parsed),
            cargo_requirement_of(pv) == cargo_fold(any_interval(), cv),
            cargo_fold(acc@, cv.skip(i as int)) == cargo_fold(any_interval(), cv),
        decreases cs.len() - i,
    {
        proof {
            assert(cv.skip(i as int)[0] == cs@[i as int]@);
            assert(cv.skip(i as int).drop_first() =~= cv.skip(i + 1));
        }
        let Some(next) = comparator_range(&cs[i]) else {
            return Constraint::Unknown(CARGO_COMPARATOR);
        };
        let Some(merged) = meet_of(&acc, &next) else {
            return Constraint::Malformed(CARGO_UNSATISFIABLE);
        };
        acc = merged;
        i = i + 1;
    }
    assert(cv.skip(cs.len() as int).len() == 0);
    Constraint::Range(single(acc))
}

/// A bare minimum-version declaration: `rust-version`, and go.mod's `go`
/// directive. Neither is a range; both say "not older than this".
pub open spec fn minimum_of(raw: Seq<char>) -> ConstraintView {
    match partial_of(trim(raw)) {
        None => ConstraintView::Malformed(NOT_A_VERSION@),
        Some(p) => if p.major is None {
            ConstraintView::Unknown(WILDCARD_MINIMUM@)
        } else {
            ConstraintView::Range(seq![at_least_of(p)])
        },
    }
}

pub fn minimum(raw: &str) -> (c: Constraint)
    ensures
        c@ == minimum_of(raw@),
{
    let text = trimmed(&chars_of(raw));
    match partial(&text) {
        None => Constraint::Malformed(NOT_A_VERSION),
        Some(p) => if p.major.is_none() {
            Constraint::Unknown(WILDCARD_MINIMUM)
        } else {
            Constraint::Range(single(at_least(&p)))
        },
    }
}

// ---------------------------------------------------------------------
// npm
// ---------------------------------------------------------------------

/// The npm specifiers that are not ranges at all.
pub open spec fn unmodelled_reason_of(text: Seq<char>) -> Option<Seq<char>> {
    if contains(text, "://"@) || starts_with(text, "git@"@) {
        Some(URL_SPEC@)
    } else if any_in(text, Class::Is(':')) {
        Some(PROTOCOL_SPEC@)
    } else if any_in(text, Class::Is('/')) || (text.len() > 0 && text[0] == '.') {
        Some(PATH_SPEC@)
    } else {
        None
    }
}

pub open spec fn static_view(r: Option<&'static str>) -> Option<Seq<char>> {
    match r {
        Some(s) => Some(s@),
        None => None,
    }
}

pub fn npm_unmodelled(text: &Vec<char>) -> (r: Option<&'static str>)
    ensures
        static_view(r) == unmodelled_reason_of(text@),
{
    if contains_str(text, "://") || has_prefix_str(text, "git@") {
        Some(URL_SPEC)
    } else if any_of(text, Class::Is(':')) {
        Some(PROTOCOL_SPEC)
    } else if any_of(text, Class::Is('/')) || (text.len() > 0 && text[0] == '.') {
        Some(PATH_SPEC)
    } else {
        None
    }
}

/// A token that did not parse is `Unknown` when it reads as a dist tag
/// and `Malformed` only when it reads as a broken version.
pub open spec fn npm_refusal(token: Seq<char>) -> ConstraintView {
    if token.len() > 0 && is_alpha(token[0]) && all_in(token, Class::AlnumDash) {
        ConstraintView::Unknown(DIST_TAG@)
    } else {
        ConstraintView::Malformed(NOT_NPM@)
    }
}

/// One whitespace-separated simple range.
pub open spec fn npm_simple(token: Seq<char>) -> Result<IntervalView, ConstraintView> {
    let (op, rest) = operator_split(token);
    if op != Operator::Plain && trim(rest).len() == 0 {
        Err(ConstraintView::Malformed(OPERATOR_ALONE@))
    } else {
        match partial_of(rest) {
            None => Err(npm_refusal(token)),
            Some(p) => if p.major is None {
                Ok(any_interval())
            } else {
                Ok(
                    match op {
                        Operator::Caret => caret_of(p),
                        Operator::Tilde => tilde_of(p),
                        Operator::AtLeast => at_least_of(p),
                        Operator::Above => above_of(p),
                        Operator::AtMost => at_most_of(p),
                        Operator::Below => below_of(p),
                        _ => exactly_of(p),
                    },
                )
            },
        }
    }
}

/// `low - high`, inclusive at both ends.
pub open spec fn hyphen_of(low: Seq<char>, high: Seq<char>) -> Result<IntervalView, ConstraintView> {
    match (partial_of(low), partial_of(high)) {
        (Some(l), Some(h)) => Ok(IntervalView { lower: at_least_of(l).lower, upper: at_most_of(h).upper }),
        _ => Err(ConstraintView::Malformed(NOT_A_RANGE@)),
    }
}

/// Simples intersected in order; an empty intersection stops early.
pub open spec fn npm_tokens(acc: IntervalView, toks: Seq<Seq<char>>) -> Result<Option<IntervalView>, ConstraintView>
    decreases toks.len(),
{
    if toks.len() == 0 {
        Ok(Some(acc))
    } else {
        match npm_simple(toks[0]) {
            Err(c) => Err(c),
            Ok(next) => match meet(acc, next) {
                None => Ok(None),
                Some(merged) => npm_tokens(merged, toks.drop_first()),
            },
        }
    }
}

/// One `||` alternative: simples intersected, or a hyphen range.
pub open spec fn npm_set(text: Seq<char>) -> Result<Option<IntervalView>, ConstraintView> {
    let tokens = words(text);
    if tokens.len() == 0 {
        Ok(Some(any_interval()))
    } else if tokens.len() == 3 && tokens[1] == seq!['-'] {
        match hyphen_of(tokens[0], tokens[2]) {
            Ok(i) => Ok(Some(i)),
            Err(c) => Err(c),
        }
    } else {
        npm_tokens(any_interval(), tokens)
    }
}

/// The alternatives, unioned; one that no version satisfies adds nothing.
pub open spec fn npm_union(alts: Seq<Seq<char>>, acc: Seq<IntervalView>) -> ConstraintView
    decreases alts.len(),
{
    if alts.len() == 0 {
        if acc.len() == 0 {
            ConstraintView::Malformed(NPM_UNSATISFIABLE@)
        } else {
            ConstraintView::Range(acc)
        }
    } else {
        match npm_set(trim(alts[0])) {
            Err(c) => c,
            Ok(None) => npm_union(alts.drop_first(), acc),
            Ok(Some(i)) => npm_union(alts.drop_first(), acc.push(i)),
        }
    }
}

/// An npm range: `^1.2.3`, `>=1 <2`, `1.2.3 - 2.0.0`, `1.x`, `~0.4`, and
/// alternatives joined by `||`.
pub open spec fn npm_of(raw: Seq<char>) -> ConstraintView {
    let text = trim(raw);
    if text.len() == 0 {
        ConstraintView::Range(seq![any_interval()])
    } else {
        match unmodelled_reason_of(text) {
            Some(reason) => ConstraintView::Unknown(reason),
            None => npm_union(split(text, "||"@), Seq::empty()),
        }
    }
}

fn npm_refused(token: &Vec<char>) -> (c: Constraint)
    ensures
        c@ == npm_refusal(token@),
{
    if token.len() > 0 && class_has(token[0], Class::Alpha) && all_of(token, Class::AlnumDash) {
        Constraint::Unknown(DIST_TAG)
    } else {
        Constraint::Malformed(NOT_NPM)
    }
}

pub open spec fn result_view(r: Result<Interval, Constraint>) -> Result<IntervalView, ConstraintView> {
    match r {
        Ok(i) => Ok(i@),
        Err(c) => Err(c@),
    }
}

pub open spec fn set_view(r: Result<Option<Interval>, Constraint>) -> Result<Option<IntervalView>, ConstraintView> {
    match r {
        Ok(Some(i)) => Ok(Some(i@)),
        Ok(None) => Ok(None),
        Err(c) => Err(c@),
    }
}

fn simple(token: &Vec<char>) -> (r: Result<Interval, Constraint>)
    ensures
        result_view(r) == npm_simple(token@),
{
    let (op, rest) = split_operator(token);
    if op != Operator::Plain && trimmed(&rest).len() == 0 {
        return Err(Constraint::Malformed(OPERATOR_ALONE));
    }
    let Some(p) = partial(&rest) else {
        return Err(npm_refused(token));
    };
    if p.major.is_none() {
        return Ok(Interval::any());
    }
    Ok(
        match op {
            Operator::Caret => caret(&p),
            Operator::Tilde => tilde(&p),
            Operator::AtLeast => at_least(&p),
            Operator::Above => above(&p),
            Operator::AtMost => at_most(&p),
            Operator::Below => below(&p),
            _ => exactly(&p),
        },
    )
}

fn hyphen(low: &Vec<char>, high: &Vec<char>) -> (r: Result<Interval, Constraint>)
    ensures
        result_view(r) == hyphen_of(low@, high@),
{
    let Some(l) = partial(low) else {
        return Err(Constraint::Malformed(NOT_A_RANGE));
    };
    let Some(h) = partial(high) else {
        return Err(Constraint::Malformed(NOT_A_RANGE));
    };
    let from = at_least(&l);
    let to = at_most(&h);
    Ok(Interval { lower: from.lower, upper: to.upper })
}

fn set(text: &Vec<char>) -> (r: Result<Option<Interval>, Constraint>)
    ensures
        set_view(r) == npm_set(text@),
{
    let tokens = split_words(text);
    let ghost tv = views(tokens@);
    if tokens.len() == 0 {
        return Ok(Some(Interval::any()));
    }
    if tokens.len() == 3 && tokens[1].len() == 1 && tokens[1][0] == '-' {
        assert(tv[1] =~= seq!['-']);
        return match hyphen(&tokens[0], &tokens[2]) {
            Ok(i) => Ok(Some(i)),
            Err(c) => Err(c),
        };
    }
    proof {
        if tv.len() == 3 && tv[1] == seq!['-'] {
            assert(tokens@[1]@.len() == 1);
        }
    }
    let mut acc = Interval::any();
    let mut i: usize = 0;
    assert(tv.skip(0) == tv);
    assert(npm_set(text@) == npm_tokens(any_interval(), tv));
    while i < tokens.len()
        invariant
            0 <= i <= tokens.len(),
            tv == views(tokens@),
            npm_set(text@) == npm_tokens(any_interval(), tv),
            npm_tokens(acc@, tv.skip(i as int)) == npm_tokens(any_interval(), tv),
        decreases tokens.len() - i,
    {
        proof {
            assert(tv.skip(i as int)[0] == tokens@[i as int]@);
            assert(tv.skip(i as int).drop_first() =~= tv.skip(i + 1));
        }
        let next = match simple(&tokens[i]) {
            Ok(next) => next,
            Err(c) => return Err(c),
        };
        let Some(merged) = meet_of(&acc, &next) else {
            return Ok(None);
        };
        acc = merged;
        i = i + 1;
    }
    assert(tv.skip(tokens.len() as int).len() == 0);
    Ok(Some(acc))
}

/// An npm range.
pub fn npm(raw: &str) -> (c: Constraint)
    ensures
        c@ == npm_of(raw@),
{
    npm_chars(&chars_of(raw))
}

pub fn npm_chars(raw: &Vec<char>) -> (c: Constraint)
    ensures
        c@ == npm_of(raw@),
{
    let text = trimmed(raw);
    if text.len() == 0 {
        return Constraint::Range(single(Interval::any()));
    }
    if let Some(reason) = npm_unmodelled(&text) {
        return Constraint::Unknown(reason);
    }
    let alts = split_on(&text, "||");
    let ghost av = views(alts@);
    let mut intervals: Vec<Interval> = Vec::new();
    let mut i: usize = 0;
    assert(av.skip(0) == av);
    assert(r_views(intervals@) =~= Seq::<IntervalView>::empty());
    assert(npm_of(raw@) == npm_union(av, Seq::empty()));
    while i < alts.len()
        invariant
            0 <= i <= alts.len(),
            av == views(alts@),
            npm_of(raw@) == npm_union(av, Seq::empty()),
            npm_union(av.skip(i as int), r_views(intervals@)) == npm_union(av, Seq::empty()),
        decreases alts.len() - i,
    {
        proof {
            assert(av.skip(i as int)[0] == alts@[i as int]@);
            assert(av.skip(i as int).drop_first() =~= av.skip(i + 1));
        }
        let piece = trimmed(&alts[i]);
        match set(&piece) {
            Ok(Some(interval)) => {
                let ghost before = intervals@;
                intervals.push(interval);
                assert(r_views(intervals@) =~= r_views(before).push(interval@));
            },
            Ok(None) => {},
            Err(c) => return c,
        }
        i = i + 1;
    }
    assert(av.skip(alts.len() as int).len() == 0);
    if intervals.len() == 0 {
        return Constraint::Malformed(NPM_UNSATISFIABLE);
    }
    Constraint::Range(Range { intervals })
}

} // verus!

verus! {

// ---------------------------------------------------------------------
// PEP 440
// ---------------------------------------------------------------------

/// A prerelease split off a PEP 440 release: `2.0.0rc1` is release
/// `2.0.0` with prerelease `rc.1`. Only `a`, `b` and `rc` are modelled.
pub open spec fn split_pep440_pre(text: Seq<char>) -> Option<(Seq<char>, Seq<Seq<char>>)> {
    match crate::text::first_in(text, Class::Alpha) {
        None => Some((text, Seq::empty())),
        Some(b) => {
            let release = text.take(b);
            let tail = text.skip(b);
            let d = match crate::text::first_in(tail, Class::Digit) {
                Some(d) => d,
                None => 0,
            };
            let label = tail.take(d);
            let number = tail.skip(d);
            if !(label == "a"@ || label == "b"@ || label == "rc"@) || number.len() == 0 {
                None
            } else {
                match prerelease_of(label.push('.') + number) {
                    None => None,
                    Some(pre) => Some((trim_end(release, Class::Is('.')), pre)),
                }
            }
        },
    }
}

/// The release-plus-prerelease subset of PEP 440 this tool models.
pub open spec fn pep440_of(text: Seq<char>) -> Option<PartialView> {
    match split_pep440_pre(text) {
        None => None,
        Some((release, pre)) => match partial_of(release) {
            None => None,
            Some(p) => Some(PartialView { major: p.major, minor: p.minor, patch: p.patch, pre }),
        },
    }
}

pub open spec fn python_refusal(text: Seq<char>) -> ConstraintView {
    if any_in(text, Class::Is('!')) || any_in(text, Class::Is('+')) || contains(text, "post"@)
        || contains(text, "dev"@) || any_in(text, Class::Is('*')) {
        ConstraintView::Unknown(PEP440_FORM@)
    } else {
        ConstraintView::Malformed(NOT_PEP440@)
    }
}

/// One comma-separated clause. `~=`, `!=`, `===` and wildcards are
/// refused, not approximated.
pub open spec fn python_clause(clause: Seq<char>) -> Result<IntervalView, ConstraintView> {
    if starts_with(clause, "~="@) {
        Err(ConstraintView::Unknown(COMPATIBLE_RELEASE@))
    } else if starts_with(clause, "!="@) {
        Err(ConstraintView::Unknown(EXCLUSION@))
    } else if starts_with(clause, "==="@) {
        Err(ConstraintView::Unknown(ARBITRARY_EQUALITY@))
    } else {
        let (op, rest0) = operator_split(clause);
        let rest = trim(rest0);
        if any_in(rest, Class::Is('*')) {
            Err(ConstraintView::Unknown(PEP440_WILDCARD@))
        } else {
            match pep440_of(rest) {
                None => Err(python_refusal(rest)),
                Some(p) => match op {
                    Operator::AtLeast => Ok(at_least_of(p)),
                    Operator::Above => Ok(above_release_of(p)),
                    Operator::AtMost => Ok(at_most_release_of(p)),
                    Operator::Below => Ok(below_of(p)),
                    Operator::Equals2 => Ok(exactly_release_of(p)),
                    _ => Err(ConstraintView::Unknown(PEP440_NO_OPERATOR@)),
                },
            }
        }
    }
}

/// Clauses intersected in order.
pub open spec fn python_fold(acc: IntervalView, clauses: Seq<Seq<char>>) -> ConstraintView
    decreases clauses.len(),
{
    if clauses.len() == 0 {
        ConstraintView::Range(seq![acc])
    } else {
        let clause = trim(clauses[0]);
        if clause.len() == 0 {
            ConstraintView::Malformed(EMPTY_CLAUSE@)
        } else {
            match python_clause(clause) {
                Err(c) => c,
                Ok(next) => match meet(acc, next) {
                    None => ConstraintView::Malformed(PEP440_UNSATISFIABLE@),
                    Some(merged) => python_fold(merged, clauses.drop_first()),
                },
            }
        }
    }
}

/// A PEP 440 version specifier: the part of a requirement after the name.
pub open spec fn python_of(raw: Seq<char>) -> ConstraintView {
    let text = trim(raw);
    if text.len() == 0 {
        ConstraintView::Range(seq![any_interval()])
    } else {
        python_fold(any_interval(), split_by(text, Class::Is(',')))
    }
}

fn pep440_pre(text: &Vec<char>) -> (r: Option<(Vec<char>, Vec<Vec<char>>)>)
    ensures
        match r {
            Some(x) => split_pep440_pre(text@) == Some((x.0@, views(x.1@))),
            None => split_pep440_pre(text@) is None,
        },
{
    let Some(b) = crate::text::find_class(text, Class::Alpha) else {
        let none: Vec<Vec<char>> = Vec::new();
        assert(views(none@) =~= Seq::<Seq<char>>::empty());
        return Some((slice(text, 0, text.len()), none));
    };
    let release = slice(text, 0, b);
    let tail = slice(text, b, text.len());
    assert(release@ == text@.take(b as int));
    assert(tail@ == text@.skip(b as int));
    let d = match crate::text::find_class(&tail, Class::Digit) {
        Some(d) => d,
        None => 0,
    };
    let label = slice(&tail, 0, d);
    let number = slice(&tail, d, tail.len());
    assert(label@ == tail@.take(d as int));
    assert(number@ == tail@.skip(d as int));
    let wanted = crate::text::same_str(&label, "a") || crate::text::same_str(&label, "b")
        || crate::text::same_str(&label, "rc");
    if !wanted || number.len() == 0 {
        return None;
    }
    let mut spelled = label.clone();
    spelled.push('.');
    let spelled = crate::text::concat(&spelled, &number);
    let Some(pre) = prerelease(&spelled) else {
        return None;
    };
    Some((trimmed_end(&release, Class::Is('.')), pre))
}

fn pep440(text: &Vec<char>) -> (r: Option<Partial>)
    ensures
        partial_view(r) == pep440_of(text@),
{
    let Some((release, pre)) = pep440_pre(text) else {
        return None;
    };
    let Some(p) = partial(&release) else {
        return None;
    };
    Some(Partial { major: p.major, minor: p.minor, patch: p.patch, pre })
}

fn python_refused(text: &Vec<char>) -> (c: Constraint)
    ensures
        c@ == python_refusal(text@),
{
    if any_of(text, Class::Is('!')) || any_of(text, Class::Is('+')) || contains_str(text, "post")
        || contains_str(text, "dev") || any_of(text, Class::Is('*')) {
        Constraint::Unknown(PEP440_FORM)
    } else {
        Constraint::Malformed(NOT_PEP440)
    }
}

fn clause_range(clause: &Vec<char>) -> (r: Result<Interval, Constraint>)
    ensures
        result_view(r) == python_clause(clause@),
{
    if has_prefix_str(clause, "~=") {
        return Err(Constraint::Unknown(COMPATIBLE_RELEASE));
    }
    if has_prefix_str(clause, "!=") {
        return Err(Constraint::Unknown(EXCLUSION));
    }
    if has_prefix_str(clause, "===") {
        return Err(Constraint::Unknown(ARBITRARY_EQUALITY));
    }
    let (op, rest0) = split_operator(clause);
    let rest = trimmed(&rest0);
    if any_of(&rest, Class::Is('*')) {
        return Err(Constraint::Unknown(PEP440_WILDCARD));
    }
    let Some(p) = pep440(&rest) else {
        return Err(python_refused(&rest));
    };
    match op {
        Operator::AtLeast => Ok(at_least(&p)),
        Operator::Above => Ok(above_release(&p)),
        Operator::AtMost => Ok(at_most_release(&p)),
        Operator::Below => Ok(below(&p)),
        Operator::Equals2 => Ok(point(floor(&p))),
        _ => Err(Constraint::Unknown(PEP440_NO_OPERATOR)),
    }
}

/// A PEP 440 version specifier as a range.
pub fn python(raw: &str) -> (c: Constraint)
    ensures
        c@ == python_of(raw@),
{
    python_chars(&chars_of(raw))
}

pub fn python_chars(raw: &Vec<char>) -> (c: Constraint)
    ensures
        c@ == python_of(raw@),
{
    let text = trimmed(raw);
    if text.len() == 0 {
        return Constraint::Range(single(Interval::any()));
    }
    let clauses = split_class(&text, Class::Is(','));
    let ghost cv = views(clauses@);
    let mut acc = Interval::any();
    let mut i: usize = 0;
    assert(cv.skip(0) == cv);
    assert(python_of(raw@) == python_fold(any_interval(), cv));
    while i < clauses.len()
        invariant
            0 <= i <= clauses.len(),
            cv == views(clauses@),
            python_of(raw@) == python_fold(any_interval(), cv),
            python_fold(acc@, cv.skip(i as int)) == python_fold(any_interval(), cv),
        decreases clauses.len() - i,
    {
        proof {
            assert(cv.skip(i as int)[0] == clauses@[i as int]@);
            assert(cv.skip(i as int).drop_first() =~= cv.skip(i + 1));
        }
        let clause = trimmed(&clauses[i]);
        if clause.len() == 0 {
            return Constraint::Malformed(EMPTY_CLAUSE);
        }
        let next = match clause_range(&clause) {
            Ok(next) => next,
            Err(c) => return c,
        };
        let Some(merged) = meet_of(&acc, &next) else {
            return Constraint::Malformed(PEP440_UNSATISFIABLE);
        };
        acc = merged;
        i = i + 1;
    }
    assert(cv.skip(clauses.len() as int).len() == 0);
    Constraint::Range(single(acc))
}

// ---------------------------------------------------------------------
// go.mod, CI action refs and CI tool versions
// ---------------------------------------------------------------------

/// The point a parsed go module version is; `None` is a text semver did
/// not parse.
pub open spec fn go_version_of(v: Option<(u64, u64, u64, Seq<char>, Seq<char>)>) -> ConstraintView {
    match v {
        None => ConstraintView::Malformed(NOT_GO@),
        Some((major, minor, patch, pre, build)) => ConstraintView::Range(
            seq![point_of(VersionView { major, minor, patch, pre: idents_of(pre), build: idents_of(build) })],
        ),
    }
}

/// A `require` version. Go module versions are exact: one point.
pub open spec fn go_of(raw: Seq<char>) -> ConstraintView {
    go_version_of(semver_version(trim_start(trim(raw), Class::Is('v'))))
}

pub fn go(raw: &str) -> (c: Constraint)
    ensures
        c@ == go_of(raw@),
{
    let text = trimmed_start(&trimmed(&chars_of(raw)), Class::Is('v'));
    let spelled = string_of(&text);
    go_version(parse_version(spelled.as_str()))
}

/// The one-point range of a go module version as semver parsed it: its
/// numbers, and its prerelease and build split into identifiers.
pub fn go_version(parsed: Option<(u64, u64, u64, String, String)>) -> (c: Constraint)
    ensures
        c@ == go_version_of(version_parts_view(parsed)),
{
    let Some((major, minor, patch, pre, build)) = parsed else {
        return Constraint::Malformed(NOT_GO);
    };
    let pre = idents(&chars_of(pre.as_str()));
    let build = idents(&chars_of(build.as_str()));
    Constraint::Range(single(point(Version { major, minor, patch, pre, build })))
}

/// A full 40-character SHA-1, or a shorter hex string that carries a
/// letter, so `1234567` stays a version.
pub open spec fn commit_sha_shape(text: Seq<char>) -> bool {
    all_in(text, Class::Hex) && (text.len() == 40 || (text.len() >= 7 && any_in(text, Class::Alpha)))
}

pub fn is_commit_sha(text: &Vec<char>) -> (b: bool)
    ensures
        b == commit_sha_shape(text@),
{
    all_of(text, Class::Hex) && (text.len() == 40 || (text.len() >= 7 && any_of(text, Class::Alpha)))
}

/// The `@ref` of a workflow `uses:`. `@v4` is the whole v4 line.
pub open spec fn action_ref_of(raw: Seq<char>) -> ConstraintView {
    let text = trim(raw);
    if commit_sha_shape(text) {
        ConstraintView::Unknown(COMMIT_SHA@)
    } else {
        match partial_of(text) {
            None => ConstraintView::Unknown(MOVING_REF@),
            Some(p) => if p.major is None {
                ConstraintView::Unknown(WILDCARD_ACTION@)
            } else {
                ConstraintView::Range(seq![exactly_of(p)])
            },
        }
    }
}

pub fn action_ref(raw: &str) -> (c: Constraint)
    ensures
        c@ == action_ref_of(raw@),
{
    action_ref_chars(&chars_of(raw))
}

pub fn action_ref_chars(raw: &Vec<char>) -> (c: Constraint)
    ensures
        c@ == action_ref_of(raw@),
{
    let text = trimmed(raw);
    if is_commit_sha(&text) {
        return Constraint::Unknown(COMMIT_SHA);
    }
    match partial(&text) {
        None => Constraint::Unknown(MOVING_REF),
        Some(p) => if p.major.is_none() {
            Constraint::Unknown(WILDCARD_ACTION)
        } else {
            Constraint::Range(single(exactly(&p)))
        },
    }
}

/// The moving channel names a setup action accepts.
pub open spec fn is_channel(t: Seq<char>) -> bool {
    t == "latest"@ || t == "stable"@ || t == "nightly"@ || t == "beta"@ || t == "current"@ || t
        == "node"@ || t == "lts"@ || starts_with(t, "lts/"@)
}

pub fn channel(t: &Vec<char>) -> (b: bool)
    ensures
        b == is_channel(t@),
{
    same_str(t, "latest") || same_str(t, "stable") || same_str(t, "nightly") || same_str(t, "beta")
        || same_str(t, "current") || same_str(t, "node") || same_str(t, "lts") || has_prefix_str(
        t,
        "lts/",
    )
}

/// A `node-version:`-style workflow input: npm's grammar with the moving
/// labels named.
pub open spec fn ci_tool_of(raw: Seq<char>) -> ConstraintView {
    let text = trim(raw);
    if is_channel(text) {
        ConstraintView::Unknown(CHANNEL@)
    } else {
        npm_of(text)
    }
}

pub fn ci_tool(raw: &str) -> (c: Constraint)
    ensures
        c@ == ci_tool_of(raw@),
{
    ci_tool_chars(&chars_of(raw))
}

pub fn ci_tool_chars(raw: &Vec<char>) -> (c: Constraint)
    ensures
        c@ == ci_tool_of(raw@),
{
    let text = trimmed(raw);
    if channel(&text) {
        return Constraint::Unknown(CHANNEL);
    }
    proof {
        crate::text::lemma_trim_idempotent(raw@);
    }
    npm_chars(&text)
}


// ---------------------------------------------------------------------
// What the translations promise
// ---------------------------------------------------------------------

/// **Below 1.0 a caret holds the minor line.** `^0.m` and `^0.m.p` with
/// `m > 0` admit, of the plain releases (no prerelease, no build), exactly
/// those at or above their floor whose major is 0 and whose minor is `m`:
/// `0.(m+1).0` is already out of range.
pub proof fn lemma_zero_major_caret_keeps_the_minor(p: PartialView, m: u64, v: VersionView)
    requires
        p.major == Some(0u64),
        p.minor == Some(m),
        m > 0 || p.patch is None,
        m < u64::MAX,
        v.pre.len() == 0,
        v.build.len() == 0,
    ensures
        crate::interval::admits(caret_of(p), v) <==> (v.major == 0 && v.minor == m
            && crate::version::version_order(floor_of(p), v) <= 0),
        !crate::interval::admits(caret_of(p), ver(0, (m + 1) as u64, 0, Seq::empty())),
{
    let i = caret_of(p);
    let u = ver(0, (m + 1) as u64, 0, Seq::empty());
    assert(i.upper == Some(BoundView { version: u, inclusive: false }));
    assert(i.lower == Some(BoundView { version: floor_of(p), inclusive: true }));
    assert(floor_of(p).major == 0 && floor_of(p).minor == m);
    crate::version::lemma_version_order(u, u, u);
    if v.major == 0 && v.minor == m {
        assert(crate::version::version_order(v, u) < 0);
    }
    if crate::interval::admits(i, v) {
        assert(crate::version::version_order(v, u) < 0);
        if v.major != 0 {
            assert(crate::version::version_order(floor_of(p), v) < 0);
        }
        assert(v.major == 0);
        if v.minor < m {
            assert(crate::version::version_order(floor_of(p), v) > 0);
        }
        if v.minor > m + 1 {
            assert(crate::version::version_order(v, u) > 0);
        }
        if v.minor == m + 1 {
            if v.patch != 0 {
                assert(crate::version::version_order(v, u) > 0);
            } else {
                assert(v == u);
            }
        }
    }
}

/// **`<=V` in PEP 440 admits `V` itself.** Whenever a `<=` clause reads
/// as a range, that range holds exactly the versions at or below the one
/// it names, that version included.
pub proof fn lemma_pep440_at_most_is_inclusive(clause: Seq<char>, v: VersionView)
    requires
        operator_split(clause).0 == Operator::AtMost,
        python_clause(clause) is Ok,
    ensures
        pep440_of(trim(operator_split(clause).1)) matches Some(p) && {
            let i = python_clause(clause)->Ok_0;
            &&& crate::interval::admits(i, floor_of(p))
            &&& crate::interval::admits(i, v) <==> crate::version::version_order(v, floor_of(p))
                <= 0
        },
{
    assert(starts_with(clause, seq!['<', '=']));
    reveal_strlit("~=");
    reveal_strlit("!=");
    reveal_strlit("===");
    assert(!starts_with(clause, "~="@));
    assert(!starts_with(clause, "!="@));
    assert(!starts_with(clause, "==="@));
    let p = pep440_of(trim(operator_split(clause).1))->Some_0;
    crate::version::lemma_version_order(floor_of(p), floor_of(p), v);
}


/// **A caret at or above 1.0 holds the major line.** `^M.m.p` with
/// `M > 0` admits, of the plain releases, exactly those at or above its
/// floor whose major is `M`.
pub proof fn lemma_caret_keeps_the_major(p: PartialView, major: u64, v: VersionView)
    requires
        p.major == Some(major),
        0 < major < u64::MAX,
        v.pre.len() == 0,
        v.build.len() == 0,
    ensures
        crate::interval::admits(caret_of(p), v) <==> (v.major == major
            && crate::version::version_order(floor_of(p), v) <= 0),
{
    let u = ver((major + 1) as u64, 0, 0, Seq::empty());
    crate::version::lemma_version_order(u, u, u);
    if crate::interval::admits(caret_of(p), v) {
        if v.major < major {
            assert(crate::version::version_order(floor_of(p), v) > 0);
        }
        if v.major == major + 1 {
            if v.minor != 0 || v.patch != 0 {
                assert(crate::version::version_order(v, u) > 0);
            } else {
                assert(v == u);
            }
        }
    }
}

/// **`^0.0.p` holds the one patch.** Of the plain releases it admits
/// exactly those at or above its floor numbered `0.0.p`.
pub proof fn lemma_zero_zero_caret_keeps_the_patch(p: PartialView, patch: u64, v: VersionView)
    requires
        p.major == Some(0u64),
        p.minor == Some(0u64),
        p.patch == Some(patch),
        patch < u64::MAX,
        v.pre.len() == 0,
        v.build.len() == 0,
    ensures
        crate::interval::admits(caret_of(p), v) <==> (v.major == 0 && v.minor == 0 && v.patch
            == patch && crate::version::version_order(floor_of(p), v) <= 0),
{
    let u = ver(0, 0, (patch + 1) as u64, Seq::empty());
    crate::version::lemma_version_order(u, u, u);
    if crate::interval::admits(caret_of(p), v) {
        if v.patch == patch + 1 && v.major == 0 && v.minor == 0 {
            assert(v == u);
        }
    }
}

/// **A tilde on `M.m` or `M.m.p` holds the minor line.** Of the plain
/// releases it admits exactly those at or above its floor numbered `M.m`.
pub proof fn lemma_tilde_keeps_the_minor(p: PartialView, major: u64, minor: u64, v: VersionView)
    requires
        p.major == Some(major),
        p.minor == Some(minor),
        minor < u64::MAX,
        v.pre.len() == 0,
        v.build.len() == 0,
    ensures
        crate::interval::admits(tilde_of(p), v) <==> (v.major == major && v.minor == minor
            && crate::version::version_order(floor_of(p), v) <= 0),
{
    let u = ver(major, (minor + 1) as u64, 0, Seq::empty());
    crate::version::lemma_version_order(u, u, u);
    if crate::interval::admits(tilde_of(p), v) {
        if v.major == major && v.minor == minor + 1 && v.patch == 0 {
            assert(v == u);
        }
    }
}

/// **Each PEP 440 comparison means what it says.** Whenever a clause
/// reads as a range, the versions it admits are those related to the
/// version it names as its operator says: `>=` at or above, `>` strictly
/// above, `<=` at or below, `<` strictly below, `==` that version.
pub proof fn lemma_pep440_clause_meaning(clause: Seq<char>, v: VersionView)
    requires
        python_clause(clause) is Ok,
    ensures
        pep440_of(trim(operator_split(clause).1)) matches Some(p) && {
            let i = python_clause(clause)->Ok_0;
            let named = floor_of(p);
            crate::interval::admits(i, v) <==> match operator_split(clause).0 {
                Operator::AtLeast => crate::version::version_order(named, v) <= 0,
                Operator::Above => crate::version::version_order(named, v) < 0,
                Operator::AtMost => crate::version::version_order(v, named) <= 0,
                Operator::Below => crate::version::version_order(v, named) < 0,
                _ => crate::version::version_order(v, named) == 0,
            }
        },
{
    let p = pep440_of(trim(operator_split(clause).1))->Some_0;
    crate::version::lemma_version_order(floor_of(p), v, v);
}

} // verus!
