//! A semantic version as plain values, and its precedence order.
//!
//! The order is semver's: major, minor and patch numerically; a release
//! above any of its prereleases; prerelease identifiers compared one by
//! one, numeric ones by value and below alphanumeric ones, alphanumeric
//! ones in ASCII order, and a longer list above its own prefix; then the
//! build metadata, compared the same way except that numeric
//! identifiers compare by value and then by their count of leading
//! zeros. Identifiers are held already split at their dots.

use vstd::prelude::*;
use crate::text::{Class, all_in, all_of, concat, decimal, decimal_of, trim_start, trimmed_start, views};

verus! {

/// `major.minor.patch[-pre][+build]`, with `pre` and `build` split into
/// their dot-separated identifiers. An empty list is an absent part.
#[derive(Clone, Debug, PartialEq, Eq)]
pub struct Version {
    pub major: u64,
    pub minor: u64,
    pub patch: u64,
    pub pre: Vec<Vec<char>>,
    pub build: Vec<Vec<char>>,
}

pub struct VersionView {
    pub major: u64,
    pub minor: u64,
    pub patch: u64,
    pub pre: Seq<Seq<char>>,
    pub build: Seq<Seq<char>>,
}

impl View for Version {
    type V = VersionView;

    open spec fn view(&self) -> VersionView {
        VersionView {
            major: self.major,
            minor: self.minor,
            patch: self.patch,
            pre: views(self.pre@),
            build: views(self.build@),
        }
    }
}

// ---------------------------------------------------------------------
// The order, as a three-way result: -1 below, 0 level, 1 above
// ---------------------------------------------------------------------

pub open spec fn num_order(a: int, b: int) -> int {
    if a < b {
        -1
    } else if a > b {
        1
    } else {
        0
    }
}

/// Lexicographic order on characters, a prefix below its extensions.
pub open spec fn lex_order(a: Seq<char>, b: Seq<char>) -> int
    decreases a.len(),
{
    if a.len() == 0 {
        if b.len() == 0 {
            0
        } else {
            -1
        }
    } else if b.len() == 0 {
        1
    } else if a[0] != b[0] {
        num_order(a[0] as int, b[0] as int)
    } else {
        lex_order(a.drop_first(), b.drop_first())
    }
}

pub open spec fn numeric(s: Seq<char>) -> bool {
    all_in(s, Class::Digit)
}

/// One prerelease identifier against another.
pub open spec fn pre_ident_order(a: Seq<char>, b: Seq<char>) -> int {
    if numeric(a) && numeric(b) {
        if a.len() != b.len() {
            num_order(a.len() as int, b.len() as int)
        } else {
            lex_order(a, b)
        }
    } else if numeric(a) {
        -1
    } else if numeric(b) {
        1
    } else {
        lex_order(a, b)
    }
}

/// One build-metadata identifier against another.
pub open spec fn build_ident_order(a: Seq<char>, b: Seq<char>) -> int {
    if numeric(a) && numeric(b) {
        let ta = trim_start(a, Class::Is('0'));
        let tb = trim_start(b, Class::Is('0'));
        if ta.len() != tb.len() {
            num_order(ta.len() as int, tb.len() as int)
        } else if lex_order(ta, tb) != 0 {
            lex_order(ta, tb)
        } else {
            num_order(a.len() as int, b.len() as int)
        }
    } else if numeric(a) {
        -1
    } else if numeric(b) {
        1
    } else {
        lex_order(a, b)
    }
}

pub open spec fn ident_order(a: Seq<char>, b: Seq<char>, build: bool) -> int {
    if build {
        build_ident_order(a, b)
    } else {
        pre_ident_order(a, b)
    }
}

/// Identifier lists, one pair at a time; a longer list above its prefix.
pub open spec fn idents_order(a: Seq<Seq<char>>, b: Seq<Seq<char>>, build: bool) -> int
    decreases a.len(),
{
    if a.len() == 0 {
        if b.len() == 0 {
            0
        } else {
            -1
        }
    } else if b.len() == 0 {
        1
    } else if ident_order(a[0], b[0], build) != 0 {
        ident_order(a[0], b[0], build)
    } else {
        idents_order(a.drop_first(), b.drop_first(), build)
    }
}

/// A release is above every prerelease of it.
pub open spec fn pre_order(a: Seq<Seq<char>>, b: Seq<Seq<char>>) -> int {
    if a.len() == 0 && b.len() == 0 {
        0
    } else if a.len() == 0 {
        1
    } else if b.len() == 0 {
        -1
    } else {
        idents_order(a, b, false)
    }
}

/// Absent build metadata reads as one empty identifier, which is below
/// any present one.
pub open spec fn build_key(a: Seq<Seq<char>>) -> Seq<Seq<char>> {
    if a.len() == 0 {
        seq![Seq::empty()]
    } else {
        a
    }
}

pub open spec fn build_order(a: Seq<Seq<char>>, b: Seq<Seq<char>>) -> int {
    idents_order(build_key(a), build_key(b), true)
}

/// Precedence of two versions.
pub open spec fn version_order(v: VersionView, w: VersionView) -> int {
    if v.major != w.major {
        num_order(v.major as int, w.major as int)
    } else if v.minor != w.minor {
        num_order(v.minor as int, w.minor as int)
    } else if v.patch != w.patch {
        num_order(v.patch as int, w.patch as int)
    } else if pre_order(v.pre, w.pre) != 0 {
        pre_order(v.pre, w.pre)
    } else {
        build_order(v.build, w.build)
    }
}

// ---------------------------------------------------------------------
// The order is total: antisymmetric and transitive
// ---------------------------------------------------------------------

pub proof fn lemma_lex_antisymmetric(a: Seq<char>, b: Seq<char>)
    ensures
        lex_order(a, b) == -lex_order(b, a),
        -1 <= lex_order(a, b) <= 1,
        lex_order(a, b) == 0 ==> a == b,
    decreases a.len(),
{
    if a.len() > 0 && b.len() > 0 && a[0] == b[0] {
        lemma_lex_antisymmetric(a.drop_first(), b.drop_first());
        if lex_order(a, b) == 0 {
            assert(a == seq![a[0]] + a.drop_first());
            assert(b == seq![b[0]] + b.drop_first());
        }
    }
}

pub proof fn lemma_lex_transitive(a: Seq<char>, b: Seq<char>, c: Seq<char>)
    ensures
        lex_order(a, b) <= 0 && lex_order(b, c) <= 0 ==> lex_order(a, c) <= 0,
        lex_order(a, b) < 0 && lex_order(b, c) <= 0 ==> lex_order(a, c) < 0,
        lex_order(a, b) <= 0 && lex_order(b, c) < 0 ==> lex_order(a, c) < 0,
    decreases a.len(),
{
    if a.len() > 0 && b.len() > 0 && c.len() > 0 {
        lemma_lex_transitive(a.drop_first(), b.drop_first(), c.drop_first());
        lemma_lex_antisymmetric(a.drop_first(), b.drop_first());
        lemma_lex_antisymmetric(b.drop_first(), c.drop_first());
        lemma_lex_antisymmetric(a.drop_first(), c.drop_first());
    }
}

proof fn lemma_pre_ident(a: Seq<char>, b: Seq<char>, c: Seq<char>)
    ensures
        pre_ident_order(a, b) == -pre_ident_order(b, a),
        -1 <= pre_ident_order(a, b) <= 1,
        pre_ident_order(a, b) <= 0 && pre_ident_order(b, c) <= 0 ==> pre_ident_order(a, c) <= 0,
        pre_ident_order(a, b) < 0 && pre_ident_order(b, c) <= 0 ==> pre_ident_order(a, c) < 0,
        pre_ident_order(a, b) <= 0 && pre_ident_order(b, c) < 0 ==> pre_ident_order(a, c) < 0,
{
    lemma_lex_antisymmetric(a, b);
    lemma_lex_antisymmetric(b, c);
    lemma_lex_antisymmetric(a, c);
    lemma_lex_transitive(a, b, c);
}

proof fn lemma_build_ident(a: Seq<char>, b: Seq<char>, c: Seq<char>)
    ensures
        build_ident_order(a, b) == -build_ident_order(b, a),
        -1 <= build_ident_order(a, b) <= 1,
        build_ident_order(a, b) <= 0 && build_ident_order(b, c) <= 0 ==> build_ident_order(a, c)
            <= 0,
        build_ident_order(a, b) < 0 && build_ident_order(b, c) <= 0 ==> build_ident_order(a, c)
            < 0,
        build_ident_order(a, b) <= 0 && build_ident_order(b, c) < 0 ==> build_ident_order(a, c)
            < 0,
{
    let ta = trim_start(a, Class::Is('0'));
    let tb = trim_start(b, Class::Is('0'));
    let tc = trim_start(c, Class::Is('0'));
    lemma_lex_antisymmetric(a, b);
    lemma_lex_antisymmetric(b, c);
    lemma_lex_antisymmetric(a, c);
    lemma_lex_transitive(a, b, c);
    lemma_lex_antisymmetric(ta, tb);
    lemma_lex_antisymmetric(tb, tc);
    lemma_lex_antisymmetric(ta, tc);
    lemma_lex_transitive(ta, tb, tc);
}

proof fn lemma_ident(a: Seq<char>, b: Seq<char>, c: Seq<char>, build: bool)
    ensures
        ident_order(a, b, build) == -ident_order(b, a, build),
        -1 <= ident_order(a, b, build) <= 1,
        ident_order(a, b, build) <= 0 && ident_order(b, c, build) <= 0 ==> ident_order(
            a,
            c,
            build,
        ) <= 0,
        ident_order(a, b, build) < 0 && ident_order(b, c, build) <= 0 ==> ident_order(
            a,
            c,
            build,
        ) < 0,
        ident_order(a, b, build) <= 0 && ident_order(b, c, build) < 0 ==> ident_order(
            a,
            c,
            build,
        ) < 0,
{
    lemma_pre_ident(a, b, c);
    lemma_build_ident(a, b, c);
}

pub proof fn lemma_idents_antisymmetric(a: Seq<Seq<char>>, b: Seq<Seq<char>>, build: bool)
    ensures
        idents_order(a, b, build) == -idents_order(b, a, build),
        -1 <= idents_order(a, b, build) <= 1,
    decreases a.len(),
{
    if a.len() > 0 && b.len() > 0 {
        lemma_ident(a[0], b[0], a[0], build);
        lemma_idents_antisymmetric(a.drop_first(), b.drop_first(), build);
    }
}

pub proof fn lemma_idents(a: Seq<Seq<char>>, b: Seq<Seq<char>>, c: Seq<Seq<char>>, build: bool)
    ensures
        idents_order(a, b, build) == -idents_order(b, a, build),
        -1 <= idents_order(a, b, build) <= 1,
        idents_order(a, b, build) <= 0 && idents_order(b, c, build) <= 0 ==> idents_order(
            a,
            c,
            build,
        ) <= 0,
        idents_order(a, b, build) < 0 && idents_order(b, c, build) <= 0 ==> idents_order(
            a,
            c,
            build,
        ) < 0,
        idents_order(a, b, build) <= 0 && idents_order(b, c, build) < 0 ==> idents_order(
            a,
            c,
            build,
        ) < 0,
    decreases a.len(),
{
    lemma_idents_antisymmetric(a, b, build);
    lemma_idents_antisymmetric(b, c, build);
    lemma_idents_antisymmetric(a, c, build);
    if a.len() > 0 && b.len() > 0 && c.len() > 0 {
        lemma_ident(a[0], b[0], c[0], build);
        lemma_ident(c[0], b[0], a[0], build);
        lemma_ident(a[0], c[0], b[0], build);
        lemma_idents(a.drop_first(), b.drop_first(), c.drop_first(), build);
    }
}

/// Precedence is a total order: antisymmetric and transitive, in its
/// strict and its non-strict forms.
pub proof fn lemma_version_order(a: VersionView, b: VersionView, c: VersionView)
    ensures
        version_order(a, b) == -version_order(b, a),
        -1 <= version_order(a, b) <= 1,
        version_order(a, b) <= 0 && version_order(b, c) <= 0 ==> version_order(a, c) <= 0,
        version_order(a, b) < 0 && version_order(b, c) <= 0 ==> version_order(a, c) < 0,
        version_order(a, b) <= 0 && version_order(b, c) < 0 ==> version_order(a, c) < 0,
{
    lemma_idents(a.pre, b.pre, c.pre, false);
    lemma_idents(b.pre, c.pre, a.pre, false);
    lemma_idents(a.pre, c.pre, b.pre, false);
    lemma_idents(build_key(a.build), build_key(b.build), build_key(c.build), true);
    lemma_idents(build_key(b.build), build_key(c.build), build_key(a.build), true);
    lemma_idents(build_key(a.build), build_key(c.build), build_key(b.build), true);
}

// ---------------------------------------------------------------------
// The order, computed
// ---------------------------------------------------------------------

fn num_compare(a: u64, b: u64) -> (r: i8)
    ensures
        r == num_order(a as int, b as int),
{
    if a < b {
        -1
    } else if a > b {
        1
    } else {
        0
    }
}

fn size_compare(a: usize, b: usize) -> (r: i8)
    ensures
        r == num_order(a as int, b as int),
{
    if a < b {
        -1
    } else if a > b {
        1
    } else {
        0
    }
}

/// Lexicographic order of two texts.
pub fn lex_compare(a: &Vec<char>, b: &Vec<char>) -> (r: i8)
    ensures
        r == lex_order(a@, b@),
{
    let mut i: usize = 0;
    assert(a@.skip(0) == a@ && b@.skip(0) == b@);
    while i < a.len() && i < b.len() && a[i] == b[i]
        invariant
            0 <= i <= a.len(),
            i <= b.len(),
            lex_order(a@, b@) == lex_order(a@.skip(i as int), b@.skip(i as int)),
        decreases a.len() - i,
    {
        proof {
            assert(a@.skip(i as int).drop_first() =~= a@.skip(i + 1));
            assert(b@.skip(i as int).drop_first() =~= b@.skip(i + 1));
        }
        i = i + 1;
    }
    if i == a.len() && i == b.len() {
        0
    } else if i == a.len() {
        -1
    } else if i == b.len() {
        1
    } else if a[i] < b[i] {
        -1
    } else {
        1
    }
}

fn ident_compare(a: &Vec<char>, b: &Vec<char>, build: bool) -> (r: i8)
    ensures
        r == ident_order(a@, b@, build),
{
    let na = all_of(a, Class::Digit);
    let nb = all_of(b, Class::Digit);
    if na && nb {
        if build {
            let ta = trimmed_start(a, Class::Is('0'));
            let tb = trimmed_start(b, Class::Is('0'));
            if ta.len() != tb.len() {
                size_compare(ta.len(), tb.len())
            } else {
                let l = lex_compare(&ta, &tb);
                if l != 0 {
                    l
                } else {
                    size_compare(a.len(), b.len())
                }
            }
        } else if a.len() != b.len() {
            size_compare(a.len(), b.len())
        } else {
            lex_compare(a, b)
        }
    } else if na {
        -1
    } else if nb {
        1
    } else {
        lex_compare(a, b)
    }
}

fn idents_compare(a: &Vec<Vec<char>>, b: &Vec<Vec<char>>, build: bool) -> (r: i8)
    ensures
        r == idents_order(views(a@), views(b@), build),
{
    let mut i: usize = 0;
    assert(views(a@).skip(0) == views(a@) && views(b@).skip(0) == views(b@));
    while i < a.len() && i < b.len()
        invariant
            0 <= i <= a.len(),
            i <= b.len(),
            idents_order(views(a@), views(b@), build) == idents_order(
                views(a@).skip(i as int),
                views(b@).skip(i as int),
                build,
            ),
        decreases a.len() - i,
    {
        let c = ident_compare(&a[i], &b[i], build);
        if c != 0 {
            return c;
        }
        proof {
            assert(views(a@).skip(i as int).drop_first() =~= views(a@).skip(i + 1));
            assert(views(b@).skip(i as int).drop_first() =~= views(b@).skip(i + 1));
        }
        i = i + 1;
    }
    if i == a.len() && i == b.len() {
        0
    } else if i == a.len() {
        -1
    } else {
        1
    }
}

fn pre_compare(a: &Vec<Vec<char>>, b: &Vec<Vec<char>>) -> (r: i8)
    ensures
        r == pre_order(views(a@), views(b@)),
{
    if a.len() == 0 && b.len() == 0 {
        0
    } else if a.len() == 0 {
        1
    } else if b.len() == 0 {
        -1
    } else {
        idents_compare(a, b, false)
    }
}

fn build_keyed(a: &Vec<Vec<char>>) -> (r: Vec<Vec<char>>)
    ensures
        views(r@) == build_key(views(a@)),
{
    if a.len() == 0 {
        let mut r: Vec<Vec<char>> = Vec::new();
        r.push(Vec::new());
        assert(views(r@) =~= seq![Seq::<char>::empty()]);
        r
    } else {
        a.clone()
    }
}

/// Precedence of two versions: -1, 0 or 1.
pub fn version_compare(v: &Version, w: &Version) -> (r: i8)
    ensures
        r == version_order(v@, w@),
{
    if v.major != w.major {
        num_compare(v.major, w.major)
    } else if v.minor != w.minor {
        num_compare(v.minor, w.minor)
    } else if v.patch != w.patch {
        num_compare(v.patch, w.patch)
    } else {
        let p = pre_compare(&v.pre, &w.pre);
        if p != 0 {
            p
        } else {
            let a = build_keyed(&v.build);
            let b = build_keyed(&w.build);
            idents_compare(&a, &b, true)
        }
    }
}

// ---------------------------------------------------------------------
// Display
// ---------------------------------------------------------------------

/// Identifiers joined by dots.
pub open spec fn joined(ids: Seq<Seq<char>>) -> Seq<char>
    decreases ids.len(),
{
    if ids.len() == 0 {
        Seq::empty()
    } else if ids.len() == 1 {
        ids[0]
    } else {
        joined(ids.drop_last()).push('.') + ids.last()
    }
}

/// How `Display` writes a version: `1.2.3`, then `-pre` and `+build`
/// when present.
pub open spec fn version_text(v: VersionView) -> Seq<char> {
    let core = decimal(v.major as nat).push('.') + decimal(v.minor as nat).push('.') + decimal(
        v.patch as nat,
    );
    let with_pre = if v.pre.len() == 0 {
        core
    } else {
        core.push('-') + joined(v.pre)
    };
    if v.build.len() == 0 {
        with_pre
    } else {
        with_pre.push('+') + joined(v.build)
    }
}

pub fn joined_text(ids: &Vec<Vec<char>>) -> (out: Vec<char>)
    ensures
        out@ == joined(views(ids@)),
{
    let mut out: Vec<char> = Vec::new();
    let mut i: usize = 0;
    while i < ids.len()
        invariant
            0 <= i <= ids.len(),
            out@ == joined(views(ids@).take(i as int)),
        decreases ids.len() - i,
    {
        let ghost before = out@;
        if i > 0 {
            out.push('.');
        }
        out = concat(&out, &ids[i]);
        proof {
            let t = views(ids@).take(i + 1);
            assert(t.drop_last() =~= views(ids@).take(i as int));
            if i == 0 {
                assert(t.len() == 1);
            }
        }
        i = i + 1;
    }
    assert(views(ids@).take(ids.len() as int) =~= views(ids@));
    out
}

/// The version as `Display` writes it.
pub fn version_display(v: &Version) -> (out: Vec<char>)
    ensures
        out@ == version_text(v@),
{
    let mut core = decimal_of(v.major);
    core.push('.');
    core = concat(&core, &decimal_of(v.minor));
    core.push('.');
    core = concat(&core, &decimal_of(v.patch));
    if v.pre.len() > 0 {
        core.push('-');
        core = concat(&core, &joined_text(&v.pre));
    }
    if v.build.len() > 0 {
        core.push('+');
        core = concat(&core, &joined_text(&v.build));
    }
    core
}

} // verus!
