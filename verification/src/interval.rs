//! Intervals over the version line, and the one question the checks ask
//! of them: **can a single version satisfy both?**
//!
//! Every modelled constraint becomes a union of intervals. Two
//! constraints are disjoint when no interval of one meets any interval
//! of the other. `meet` is proved to be exactly the intersection of two
//! intervals, which is what makes `disjoint` a claim rather than a guess.

use vstd::prelude::*;
use crate::text::{copy_texts, same, views};
use crate::version::{Version, VersionView, lemma_version_order, version_compare, version_order};

verus! {

#[derive(Debug)]
pub struct Bound {
    pub version: Version,
    pub inclusive: bool,
}

/// One contiguous stretch of the version line. `None` is unbounded.
#[derive(Debug)]
pub struct Interval {
    pub lower: Option<Bound>,
    pub upper: Option<Bound>,
}

/// A union of intervals: `||` in npm's grammar produces more than one.
#[derive(Debug)]
pub struct Range {
    pub intervals: Vec<Interval>,
}

pub struct BoundView {
    pub version: VersionView,
    pub inclusive: bool,
}

pub struct IntervalView {
    pub lower: Option<BoundView>,
    pub upper: Option<BoundView>,
}

impl View for Bound {
    type V = BoundView;

    open spec fn view(&self) -> BoundView {
        BoundView { version: self.version@, inclusive: self.inclusive }
    }
}

pub open spec fn bound_view(b: Option<Bound>) -> Option<BoundView> {
    match b {
        Some(b) => Some(b@),
        None => None,
    }
}

impl View for Interval {
    type V = IntervalView;

    open spec fn view(&self) -> IntervalView {
        IntervalView { lower: bound_view(self.lower), upper: bound_view(self.upper) }
    }
}

pub open spec fn interval_views(v: Seq<Interval>) -> Seq<IntervalView> {
    v.map_values(|i: Interval| i@)
}

impl View for Range {
    type V = Seq<IntervalView>;

    open spec fn view(&self) -> Seq<IntervalView> {
        interval_views(self.intervals@)
    }
}

impl Bound {
    pub fn copy(&self) -> (r: Bound)
        ensures
            r@ == self@,
    {
        Bound { version: copy_version(&self.version), inclusive: self.inclusive }
    }
}

/// A field-for-field copy of a version.
pub fn copy_version(v: &Version) -> (r: Version)
    ensures
        r@ == v@,
{
    Version {
        major: v.major,
        minor: v.minor,
        patch: v.patch,
        pre: copy_texts(&v.pre),
        build: copy_texts(&v.build),
    }
}

pub fn copy_bound(b: &Option<Bound>) -> (r: Option<Bound>)
    ensures
        bound_view(r) == bound_view(*b),
{
    match b {
        Some(b) => Some(b.copy()),
        None => None,
    }
}

impl Interval {
    pub fn copy(&self) -> (r: Interval)
        ensures
            r@ == self@,
    {
        Interval { lower: copy_bound(&self.lower), upper: copy_bound(&self.upper) }
    }

    /// The whole line.
    pub fn any() -> (r: Interval)
        ensures
            r@ == (IntervalView { lower: None, upper: None }),
    {
        Interval { lower: None, upper: None }
    }
}

// ---------------------------------------------------------------------
// What an interval admits
// ---------------------------------------------------------------------

/// Whether `v` is on the admitted side of a lower bound.
pub open spec fn above_lower(b: Option<BoundView>, v: VersionView) -> bool {
    match b {
        None => true,
        Some(b) => version_order(b.version, v) < 0 || (b.inclusive && version_order(b.version, v)
            == 0),
    }
}

/// Whether `v` is on the admitted side of an upper bound.
pub open spec fn below_upper(b: Option<BoundView>, v: VersionView) -> bool {
    match b {
        None => true,
        Some(b) => version_order(v, b.version) < 0 || (b.inclusive && version_order(v, b.version)
            == 0),
    }
}

pub open spec fn admits(i: IntervalView, v: VersionView) -> bool {
    above_lower(i.lower, v) && below_upper(i.upper, v)
}

pub open spec fn range_admits(r: Seq<IntervalView>, v: VersionView) -> bool {
    exists|k: int| 0 <= k < r.len() && admits(#[trigger] r[k], v)
}

// ---------------------------------------------------------------------
// Meeting two intervals
// ---------------------------------------------------------------------

/// The tighter of two lower bounds; at one version the tighter
/// inclusivity wins.
pub open spec fn max_bound(l: Option<BoundView>, r: Option<BoundView>) -> Option<BoundView> {
    match (l, r) {
        (Some(a), Some(b)) => if version_order(a.version, b.version) > 0 {
            Some(a)
        } else if version_order(a.version, b.version) < 0 {
            Some(b)
        } else {
            Some(BoundView { version: a.version, inclusive: a.inclusive && b.inclusive })
        },
        (Some(a), None) => Some(a),
        (None, r) => r,
    }
}

/// The tighter of two upper bounds.
pub open spec fn min_bound(l: Option<BoundView>, r: Option<BoundView>) -> Option<BoundView> {
    match (l, r) {
        (Some(a), Some(b)) => if version_order(a.version, b.version) < 0 {
            Some(a)
        } else if version_order(a.version, b.version) > 0 {
            Some(b)
        } else {
            Some(BoundView { version: a.version, inclusive: a.inclusive && b.inclusive })
        },
        (Some(a), None) => Some(a),
        (None, r) => r,
    }
}

/// Whether a lower and an upper bound leave anything between them.
pub open spec fn inhabited(lower: Option<BoundView>, upper: Option<BoundView>) -> bool {
    match (lower, upper) {
        (Some(low), Some(high)) => version_order(low.version, high.version) < 0 || (version_order(
            low.version,
            high.version,
        ) == 0 && low.inclusive && high.inclusive),
        _ => true,
    }
}

/// The intersection of two intervals, or `None` when they do not touch.
pub open spec fn meet(a: IntervalView, b: IntervalView) -> Option<IntervalView> {
    let lower = max_bound(a.lower, b.lower);
    let upper = min_bound(a.upper, b.upper);
    if inhabited(lower, upper) {
        Some(IntervalView { lower, upper })
    } else {
        None
    }
}

/// No interval of one range meets any interval of the other.
pub open spec fn disjoint(l: Seq<IntervalView>, r: Seq<IntervalView>) -> bool {
    forall|i: int, j: int| 0 <= i < l.len() && 0 <= j < r.len() ==> #[trigger] meet(l[i], r[j]) is None
}

fn max_bound_of(l: &Option<Bound>, r: &Option<Bound>) -> (out: Option<Bound>)
    ensures
        bound_view(out) == max_bound(bound_view(*l), bound_view(*r)),
{
    match (l, r) {
        (Some(a), Some(b)) => {
            let c = version_compare(&a.version, &b.version);
            if c > 0 {
                Some(a.copy())
            } else if c < 0 {
                Some(b.copy())
            } else {
                Some(Bound { version: copy_version(&a.version), inclusive: a.inclusive && b.inclusive })
            }
        },
        (Some(a), None) => Some(a.copy()),
        (None, r) => copy_bound(r),
    }
}

fn min_bound_of(l: &Option<Bound>, r: &Option<Bound>) -> (out: Option<Bound>)
    ensures
        bound_view(out) == min_bound(bound_view(*l), bound_view(*r)),
{
    match (l, r) {
        (Some(a), Some(b)) => {
            let c = version_compare(&a.version, &b.version);
            if c < 0 {
                Some(a.copy())
            } else if c > 0 {
                Some(b.copy())
            } else {
                Some(Bound { version: copy_version(&a.version), inclusive: a.inclusive && b.inclusive })
            }
        },
        (Some(a), None) => Some(a.copy()),
        (None, r) => copy_bound(r),
    }
}

pub open spec fn interval_opt_view(i: Option<Interval>) -> Option<IntervalView> {
    match i {
        Some(i) => Some(i@),
        None => None,
    }
}

/// The intersection of two intervals, or `None` when they do not touch.
pub fn meet_of(a: &Interval, b: &Interval) -> (out: Option<Interval>)
    ensures
        interval_opt_view(out) == meet(a@, b@),
{
    let lower = max_bound_of(&a.lower, &b.lower);
    let upper = min_bound_of(&a.upper, &b.upper);
    let inhabited = match (&lower, &upper) {
        (Some(low), Some(high)) => {
            let c = version_compare(&low.version, &high.version);
            c < 0 || (c == 0 && low.inclusive && high.inclusive)
        },
        _ => true,
    };
    if inhabited {
        Some(Interval { lower, upper })
    } else {
        None
    }
}

/// Whether no single version can satisfy both ranges.
pub fn are_disjoint(left: &Range, right: &Range) -> (r: bool)
    ensures
        r == disjoint(left@, right@),
{
    let mut i: usize = 0;
    while i < left.intervals.len()
        invariant
            0 <= i <= left.intervals.len(),
            forall|x: int, y: int|
                0 <= x < i && 0 <= y < right@.len() ==> #[trigger] meet(left@[x], right@[y]) is None,
        decreases left.intervals.len() - i,
    {
        let mut j: usize = 0;
        while j < right.intervals.len()
            invariant
                0 <= i < left.intervals.len(),
                0 <= j <= right.intervals.len(),
                forall|x: int, y: int|
                    0 <= x < i && 0 <= y < right@.len() ==> #[trigger] meet(left@[x], right@[y]) is None,
                forall|y: int| 0 <= y < j ==> #[trigger] meet(left@[i as int], right@[y]) is None,
            decreases right.intervals.len() - j,
        {
            if meet_of(&left.intervals[i], &right.intervals[j]).is_some() {
                assert(meet(left@[i as int], right@[j as int]) is Some);
                return false;
            }
            j = j + 1;
        }
        i = i + 1;
    }
    true
}

// ---------------------------------------------------------------------
// The laws
// ---------------------------------------------------------------------

/// `meet` is the intersection: an interval that admits exactly the
/// versions both intervals admit, and `None` only when no version is
/// admitted by both.
pub proof fn lemma_meet_is_intersection(a: IntervalView, b: IntervalView, v: VersionView)
    ensures
        meet(a, b) matches Some(m) ==> (admits(m, v) <==> admits(a, v) && admits(b, v)),
        meet(a, b) is None ==> !(admits(a, v) && admits(b, v)),
{
    let lower = max_bound(a.lower, b.lower);
    let upper = min_bound(a.upper, b.upper);
    match (a.lower, b.lower) {
        (Some(x), Some(y)) => {
            lemma_version_order(x.version, y.version, v);
            lemma_version_order(y.version, x.version, v);
        },
        _ => {},
    }
    match (a.upper, b.upper) {
        (Some(x), Some(y)) => {
            lemma_version_order(v, x.version, y.version);
            lemma_version_order(v, y.version, x.version);
            lemma_version_order(x.version, y.version, v);
        },
        _ => {},
    }
    match (lower, upper) {
        (Some(low), Some(high)) => {
            lemma_version_order(low.version, v, high.version);
            lemma_version_order(low.version, high.version, v);
        },
        _ => {},
    }
}

/// Meeting is symmetric in whether the result is inhabited.
pub proof fn lemma_meet_symmetric(a: IntervalView, b: IntervalView)
    ensures
        meet(a, b) is Some <==> meet(b, a) is Some,
{
    match (a.lower, b.lower) {
        (Some(x), Some(y)) => {
            lemma_version_order(x.version, y.version, x.version);
        },
        _ => {},
    }
    match (a.upper, b.upper) {
        (Some(x), Some(y)) => {
            lemma_version_order(x.version, y.version, x.version);
        },
        _ => {},
    }
    let l1 = max_bound(a.lower, b.lower);
    let u1 = min_bound(a.upper, b.upper);
    let l2 = max_bound(b.lower, a.lower);
    let u2 = min_bound(b.upper, a.upper);
    match (l1, u1, l2, u2) {
        (Some(p), Some(q), Some(r), Some(s)) => {
            lemma_version_order(p.version, q.version, r.version);
            lemma_version_order(r.version, s.version, p.version);
            lemma_version_order(p.version, r.version, q.version);
            lemma_version_order(q.version, s.version, p.version);
            lemma_version_order(p.version, s.version, q.version);
            lemma_version_order(r.version, q.version, s.version);
            lemma_version_order(p.version, q.version, s.version);
            lemma_version_order(r.version, s.version, q.version);
        },
        _ => {},
    }
}

/// Disjointness does not depend on which side is named first.
pub proof fn lemma_disjoint_symmetric(l: Seq<IntervalView>, r: Seq<IntervalView>)
    ensures
        disjoint(l, r) == disjoint(r, l),
{
    assert forall|i: int, j: int| 0 <= i < l.len() && 0 <= j < r.len() implies (#[trigger] meet(
        l[i],
        r[j],
    ) is None <==> meet(r[j], l[i]) is None) by {
        lemma_meet_symmetric(l[i], r[j]);
    }
    if disjoint(l, r) {
        assert forall|j: int, i: int| 0 <= j < r.len() && 0 <= i < l.len() implies #[trigger] meet(
            r[j],
            l[i],
        ) is None by {
            lemma_meet_symmetric(l[i], r[j]);
        }
    }
    if disjoint(r, l) {
        assert forall|i: int, j: int| 0 <= i < l.len() && 0 <= j < r.len() implies #[trigger] meet(
            l[i],
            r[j],
        ) is None by {
            lemma_meet_symmetric(l[i], r[j]);
        }
    }
}

/// An interval that starts at an inclusive floor, as a caret, a tilde, an
/// exact pin or a minimum does.
pub open spec fn inclusive_floor(i: IntervalView) -> bool {
    i.lower matches Some(b) && b.inclusive
}

/// **Disjointness is exact for ranges that start at inclusive floors.**
/// When two such ranges are not disjoint, some version is admitted by
/// both: the higher of the two floors where they meet.
pub proof fn lemma_overlap_is_inhabited(l: Seq<IntervalView>, r: Seq<IntervalView>)
    requires
        !disjoint(l, r),
        forall|k: int| 0 <= k < l.len() ==> inclusive_floor(#[trigger] l[k]),
        forall|k: int| 0 <= k < r.len() ==> inclusive_floor(#[trigger] r[k]),
    ensures
        exists|v: VersionView| range_admits(l, v) && range_admits(r, v),
{
    let (i, j) = choose|i: int, j: int|
        0 <= i < l.len() && 0 <= j < r.len() && !(#[trigger] meet(l[i], r[j]) is None);
    let a = l[i];
    let b = r[j];
    assert(inclusive_floor(a));
    assert(inclusive_floor(b));
    let m = meet(a, b)->Some_0;
    let low = max_bound(a.lower, b.lower)->Some_0;
    assert(m.lower == Some(low));
    assert(low.inclusive);
    let v = low.version;
    lemma_version_order(v, v, v);
    assert(above_lower(m.lower, v));
    match m.upper {
        None => {},
        Some(high) => {
            lemma_version_order(v, high.version, v);
        },
    }
    assert(admits(m, v));
    lemma_meet_is_intersection(a, b, v);
    assert(admits(l[i], v) && admits(r[j], v));
    assert(range_admits(l, v));
    assert(range_admits(r, v));
}

/// A meet bounded inclusively on one side, or not bounded above.
pub open spec fn closed_meet(m: IntervalView) -> bool {
    ||| (m.lower matches Some(b) && b.inclusive)
    ||| (m.upper matches Some(b) && b.inclusive)
    ||| m.upper is None
}

proof fn lemma_build_ident_reflexive(t: Seq<char>)
    ensures
        crate::version::build_ident_order(t, t) == 0,
{
    let z = crate::text::trim_start(t, crate::text::Class::Is('0'));
    crate::version::lemma_lex_antisymmetric(z, z);
    crate::version::lemma_lex_antisymmetric(t, t);
}

proof fn lemma_build_extends(a: Seq<Seq<char>>, t: Seq<char>)
    ensures
        crate::version::idents_order(a, a.push(t), true) == -1,
    decreases a.len(),
{
    if a.len() > 0 {
        lemma_build_ident_reflexive(a[0]);
        assert(a.push(t)[0] == a[0]);
        assert(a.push(t).drop_first() =~= a.drop_first().push(t));
        lemma_build_extends(a.drop_first(), t);
    }
}

/// Above every version whose numbers and prerelease it shares: the same
/// version with one more build identifier.
proof fn lemma_a_version_above(x: VersionView) -> (w: VersionView)
    ensures
        version_order(x, w) < 0,
        w == (VersionView { build: x.build.push(seq!['z']), ..x }),
{
    let z = seq!['z'];
    let w = VersionView { build: x.build.push(z), ..x };
    lemma_version_order(x, x, x);
    assert(crate::version::pre_order(x.pre, x.pre) == 0);
    if x.build.len() == 0 {
        assert(crate::version::build_key(x.build) == seq![Seq::<char>::empty()]);
        assert(crate::version::build_key(w.build) =~= seq![z]);
        assert(!crate::version::numeric(z)) by {
            assert(!crate::text::in_class(z[0], crate::text::Class::Digit));
        }
        assert(crate::version::numeric(Seq::<char>::empty()));
        assert(crate::version::build_ident_order(Seq::<char>::empty(), z) == -1);
    } else {
        lemma_build_extends(x.build, z);
    }
    w
}

/// **Two intervals that meet in a closed way share a version.** When the
/// meet of two intervals is bounded inclusively on one side, or not
/// bounded above, some version is admitted by both.
pub proof fn lemma_closed_meet_is_inhabited(a: IntervalView, b: IntervalView)
    requires
        meet(a, b) matches Some(m) && closed_meet(m),
    ensures
        exists|v: VersionView| admits(a, v) && admits(b, v),
{
    let m = meet(a, b)->Some_0;
    let v = if m.lower matches Some(low) && low.inclusive {
        m.lower->Some_0.version
    } else if m.upper matches Some(high) && high.inclusive {
        m.upper->Some_0.version
    } else {
        match m.lower {
            Some(low) => lemma_a_version_above(low.version),
            None => VersionView { major: 0, minor: 0, patch: 0, pre: Seq::empty(), build: Seq::empty() },
        }
    };
    lemma_version_order(v, v, v);
    match m.lower {
        Some(low) => lemma_version_order(low.version, v, v),
        None => {},
    }
    match m.upper {
        Some(high) => {
            lemma_version_order(v, high.version, v);
            match m.lower {
                Some(low) => lemma_version_order(low.version, high.version, v),
                None => {},
            }
        },
        None => {},
    }
    assert(admits(m, v));
    lemma_meet_is_intersection(a, b, v);
}

/// **Disjointness is exact wherever the ranges meet in a closed way.**
/// When two ranges are not disjoint and every meet of an interval of one
/// with an interval of the other is closed, some version is admitted by
/// both. Ranges whose intervals all start at an inclusive floor, or
/// have no ceiling, always meet in this way.
pub proof fn lemma_overlap_is_inhabited_when_closed(l: Seq<IntervalView>, r: Seq<IntervalView>)
    requires
        !disjoint(l, r),
        forall|i: int, j: int|
            0 <= i < l.len() && 0 <= j < r.len() ==> (#[trigger] meet(l[i], r[j]) matches Some(m)
                ==> closed_meet(m)),
    ensures
        exists|v: VersionView| range_admits(l, v) && range_admits(r, v),
{
    let (i, j) = choose|i: int, j: int|
        0 <= i < l.len() && 0 <= j < r.len() && !(#[trigger] meet(l[i], r[j]) is None);
    lemma_closed_meet_is_inhabited(l[i], r[j]);
    let v = choose|v: VersionView| admits(l[i], v) && admits(r[j], v);
    assert(range_admits(l, v));
    assert(range_admits(r, v));
}

/// The lowest version semver writes: `0.0.0-0`.
pub open spec fn lowest_version() -> VersionView {
    VersionView { major: 0, minor: 0, patch: 0, pre: seq![seq!['0']], build: Seq::empty() }
}

pub open spec fn build_free(b: Option<BoundView>) -> bool {
    b matches Some(x) ==> x.version.build.len() == 0
}

/// An interval as the grammars make one: no build metadata on a bound,
/// and a ceiling with no floor beneath it is not an exclusive one at or
/// below `0.0.0-0`, the lowest version there is.
pub open spec fn plain_interval(i: IntervalView) -> bool {
    &&& build_free(i.lower)
    &&& build_free(i.upper)
    &&& (i.lower is None && (i.upper matches Some(c) && !c.inclusive)) ==> version_order(
        lowest_version(),
        i.upper->Some_0.version,
    ) < 0
}

/// A version with no build metadata, and one above it with an added build
/// identifier, sit on the same side of any build-free version above the
/// first.
proof fn lemma_between(x: VersionView, w: VersionView, y: VersionView)
    requires
        x.build.len() == 0,
        y.build.len() == 0,
        w == (VersionView { build: x.build.push(seq!['z']), ..x }),
        version_order(x, y) < 0,
    ensures
        version_order(w, y) < 0,
{
    lemma_build_ident_reflexive(Seq::<char>::empty());
    assert(crate::version::build_key(x.build) =~= seq![Seq::<char>::empty()]);
    assert(crate::version::build_key(y.build) =~= seq![Seq::<char>::empty()]);
    assert(crate::version::idents_order(
        seq![Seq::<char>::empty()].drop_first(),
        seq![Seq::<char>::empty()].drop_first(),
        true,
    ) == 0);
    assert(crate::version::build_order(x.build, y.build) == 0);
}

/// Two plain intervals that meet share a version.
pub proof fn lemma_plain_meet_is_inhabited(a: IntervalView, b: IntervalView)
    requires
        meet(a, b) is Some,
        plain_interval(a),
        plain_interval(b),
    ensures
        exists|v: VersionView| admits(a, v) && admits(b, v),
{
    let m = meet(a, b)->Some_0;
    if closed_meet(m) {
        lemma_closed_meet_is_inhabited(a, b);
    } else {
        let high = m.upper->Some_0;
        assert(!high.inclusive);
        assert(high.version.build.len() == 0);
        let v = match m.lower {
            Some(low) => {
                assert(!low.inclusive);
                assert(low.version.build.len() == 0);
                let w = lemma_a_version_above(low.version);
                lemma_version_order(low.version, high.version, w);
                lemma_between(low.version, w, high.version);
                w
            },
            None => {
                assert(a.lower is None && b.lower is None);
                match (a.upper, b.upper) {
                    (Some(x), Some(y)) => {
                        lemma_version_order(x.version, y.version, high.version);
                        if !x.inclusive {
                            assert(version_order(lowest_version(), x.version) < 0);
                            lemma_version_order(lowest_version(), x.version, high.version);
                        } else {
                            assert(version_order(lowest_version(), y.version) < 0);
                            lemma_version_order(lowest_version(), y.version, high.version);
                        }
                        if version_order(x.version, y.version) < 0 {
                            assert(high == x);
                        } else if version_order(x.version, y.version) > 0 {
                            assert(high == y);
                        }
                    },
                    (Some(x), None) => {
                        assert(high == x);
                    },
                    (None, Some(y)) => {
                        assert(high == y);
                    },
                    (None, None) => {},
                }
                assert(version_order(lowest_version(), high.version) < 0);
                lowest_version()
            },
        };
        match m.lower {
            Some(low) => lemma_version_order(low.version, v, v),
            None => {},
        }
        lemma_version_order(v, high.version, v);
        assert(admits(m, v));
        lemma_meet_is_intersection(a, b, v);
    }
}

/// **Disjointness is exact for the ranges the grammars make.** For ranges
/// whose bounds carry no build metadata, and whose floorless exclusive
/// ceilings sit above `0.0.0-0`, two ranges are disjoint exactly when no
/// version is admitted by both.
pub proof fn lemma_disjoint_is_exact(l: Seq<IntervalView>, r: Seq<IntervalView>)
    requires
        forall|k: int| 0 <= k < l.len() ==> plain_interval(#[trigger] l[k]),
        forall|k: int| 0 <= k < r.len() ==> plain_interval(#[trigger] r[k]),
    ensures
        disjoint(l, r) <==> !exists|v: VersionView| range_admits(l, v) && range_admits(r, v),
{
    if disjoint(l, r) {
        assert forall|v: VersionView| !(range_admits(l, v) && range_admits(r, v)) by {
            lemma_disjoint_is_sound(l, r, v);
        }
    } else {
        let (i, j) = choose|i: int, j: int|
            0 <= i < l.len() && 0 <= j < r.len() && !(#[trigger] meet(l[i], r[j]) is None);
        assert(plain_interval(l[i]) && plain_interval(r[j]));
        lemma_plain_meet_is_inhabited(l[i], r[j]);
        let v = choose|v: VersionView| admits(l[i], v) && admits(r[j], v);
        assert(range_admits(l, v));
        assert(range_admits(r, v));
    }
}

/// **Disjointness is never fabricated**: when two ranges are disjoint, no
/// version is admitted by both.
pub proof fn lemma_disjoint_is_sound(l: Seq<IntervalView>, r: Seq<IntervalView>, v: VersionView)
    requires
        disjoint(l, r),
    ensures
        !(range_admits(l, v) && range_admits(r, v)),
{
    if range_admits(l, v) && range_admits(r, v) {
        let i = choose|i: int| 0 <= i < l.len() && admits(#[trigger] l[i], v);
        let j = choose|j: int| 0 <= j < r.len() && admits(#[trigger] r[j], v);
        lemma_meet_is_intersection(l[i], r[j], v);
        assert(meet(l[i], r[j]) is None);
    }
}

/// A range that admits some version is not disjoint from itself.
pub proof fn lemma_inhabited_range_meets_itself(r: Seq<IntervalView>, v: VersionView)
    requires
        range_admits(r, v),
    ensures
        !disjoint(r, r),
{
    if disjoint(r, r) {
        lemma_disjoint_is_sound(r, r, v);
    }
}

} // verus!

verus! {

/// The lowest lower bound among the intervals, the first of equals kept.
pub open spec fn lowest_from(r: Seq<IntervalView>, acc: Option<VersionView>) -> Option<VersionView>
    decreases r.len(),
{
    if r.len() == 0 {
        acc
    } else {
        let next = match r[0].lower {
            None => acc,
            Some(b) => match acc {
                None => Some(b.version),
                Some(m) => if version_order(b.version, m) < 0 {
                    Some(b.version)
                } else {
                    acc
                },
            },
        };
        lowest_from(r.drop_first(), next)
    }
}

/// The lowest version a range can admit, if it has a lower bound at all.
pub open spec fn floor_spec(r: Seq<IntervalView>) -> Option<VersionView> {
    lowest_from(r, None)
}

/// Whether any bound of the range is a prerelease.
pub open spec fn mentions_prerelease_spec(r: Seq<IntervalView>) -> bool {
    exists|k: int| 0 <= k < r.len() && interval_mentions_pre(#[trigger] r[k])
}

pub open spec fn bound_is_pre(b: Option<BoundView>) -> bool {
    match b {
        Some(b) => b.version.pre.len() > 0,
        None => false,
    }
}

pub open spec fn interval_mentions_pre(i: IntervalView) -> bool {
    bound_is_pre(i.lower) || bound_is_pre(i.upper)
}

pub open spec fn version_opt(v: Option<Version>) -> Option<VersionView> {
    match v {
        Some(v) => Some(v@),
        None => None,
    }
}

impl Range {
    /// The lowest version this range can admit, if it has one.
    pub fn floor(&self) -> (r: Option<Version>)
        ensures
            version_opt(r) == floor_spec(self@),
    {
        let mut best: Option<Version> = None;
        let mut i: usize = 0;
        assert(self@.skip(0) == self@);
        while i < self.intervals.len()
            invariant
                0 <= i <= self.intervals.len(),
                lowest_from(self@.skip(i as int), version_opt(best)) == floor_spec(self@),
            decreases self.intervals.len() - i,
        {
            proof {
                assert(self@.skip(i as int)[0] == self.intervals@[i as int]@);
                assert(self@.skip(i as int).drop_first() =~= self@.skip(i + 1));
            }
            match &self.intervals[i].lower {
                None => {},
                Some(b) => {
                    let replace = match &best {
                        None => true,
                        Some(m) => version_compare(&b.version, m) < 0,
                    };
                    if replace {
                        best = Some(copy_version(&b.version));
                    }
                },
            }
            i = i + 1;
        }
        assert(self@.skip(self.intervals.len() as int).len() == 0);
        best
    }

    /// Whether any bound is a prerelease.
    pub fn mentions_prerelease(&self) -> (r: bool)
        ensures
            r == mentions_prerelease_spec(self@),
    {
        let mut i: usize = 0;
        while i < self.intervals.len()
            invariant
                0 <= i <= self.intervals.len(),
                forall|k: int| 0 <= k < i ==> !interval_mentions_pre(#[trigger] self@[k]),
            decreases self.intervals.len() - i,
        {
            let iv = &self.intervals[i];
            let low = match &iv.lower {
                Some(b) => b.version.pre.len() > 0,
                None => false,
            };
            let high = match &iv.upper {
                Some(b) => b.version.pre.len() > 0,
                None => false,
            };
            assert(self@[i as int] == iv@);
            if low || high {
                return true;
            }
            i = i + 1;
        }
        false
    }
}

/// Structural equality of two versions, as the derived `==` compares.
pub fn same_version(a: &Version, b: &Version) -> (r: bool)
    ensures
        r == (a@ == b@),
{
    a.major == b.major && a.minor == b.minor && a.patch == b.patch && same_texts(&a.pre, &b.pre)
        && same_texts(&a.build, &b.build)
}

/// Whether two lists of texts are equal.
pub fn same_texts(a: &Vec<Vec<char>>, b: &Vec<Vec<char>>) -> (r: bool)
    ensures
        r == (views(a@) == views(b@)),
{
    if a.len() != b.len() {
        assert(views(a@).len() != views(b@).len());
        return false;
    }
    let mut i: usize = 0;
    while i < a.len()
        invariant
            a.len() == b.len(),
            0 <= i <= a.len(),
            forall|j: int| 0 <= j < i ==> views(a@)[j] == views(b@)[j],
        decreases a.len() - i,
    {
        if !same(&a[i], &b[i]) {
            assert(views(a@)[i as int] != views(b@)[i as int]);
            return false;
        }
        i = i + 1;
    }
    assert(views(a@) =~= views(b@));
    true
}

fn same_bound(a: &Option<Bound>, b: &Option<Bound>) -> (r: bool)
    ensures
        r == (bound_view(*a) == bound_view(*b)),
{
    match (a, b) {
        (Some(x), Some(y)) => x.inclusive == y.inclusive && same_version(&x.version, &y.version),
        (None, None) => true,
        _ => false,
    }
}

/// Whether two ranges are the same union of intervals, as the derived
/// `==` compares them.
pub fn same_range(a: &Range, b: &Range) -> (r: bool)
    ensures
        r == (a@ == b@),
{
    if a.intervals.len() != b.intervals.len() {
        assert(a@.len() != b@.len());
        return false;
    }
    let mut i: usize = 0;
    while i < a.intervals.len()
        invariant
            a.intervals.len() == b.intervals.len(),
            0 <= i <= a.intervals.len(),
            forall|j: int| 0 <= j < i ==> a@[j] == b@[j],
        decreases a.intervals.len() - i,
    {
        let x = &a.intervals[i];
        let y = &b.intervals[i];
        assert(a@[i as int] == x@ && b@[i as int] == y@);
        if !(same_bound(&x.lower, &y.lower) && same_bound(&x.upper, &y.upper)) {
            return false;
        }
        i = i + 1;
    }
    assert(a@ =~= b@);
    true
}

} // verus!
