//! Finding the manifests in a tree: the decisions of the walk.
//!
//! The walk itself, and every read, happen outside the library; what is
//! decided here is which directories to descend, which files to keep,
//! and what each is called in the report.

use vstd::prelude::*;
use vstd::string::StringExecFns;
use crate::heuristics::{Ecosystem, ManifestKind, kind_ecosystem};
use crate::text::{chars_of, string_of};

verus! {

#[derive(Clone, Debug, PartialEq, Eq)]
pub struct DiscoverOptions {
    /// Descend hidden **directories** other than `.github`.
    pub hidden: bool,
    pub respect_ignore: bool,
    pub exclude: Vec<String>,
    /// Empty means every ecosystem.
    pub ecosystems: Vec<Ecosystem>,
}

impl DiscoverOptions {
    /// Hidden directories skipped, ignore rules honoured, nothing
    /// excluded, every ecosystem.
    pub fn new() -> (r: DiscoverOptions)
        ensures
            !r.hidden,
            r.respect_ignore,
            r.exclude@.len() == 0,
            r.ecosystems@.len() == 0,
    {
        DiscoverOptions {
            hidden: false,
            respect_ignore: true,
            exclude: Vec::new(),
            ecosystems: Vec::new(),
        }
    }
}

impl Default for DiscoverOptions {
    fn default() -> (r: DiscoverOptions)
        ensures
            !r.hidden,
            r.respect_ignore,
            r.exclude@.len() == 0,
            r.ecosystems@.len() == 0,
    {
        DiscoverOptions::new()
    }
}

} // verus!

verus! {

// ---------------------------------------------------------------------
// Which directories and files
// ---------------------------------------------------------------------

pub open spec fn wanted_of(kind: ManifestKind, ecosystems: Seq<Ecosystem>) -> bool {
    ecosystems.len() == 0 || ecosystems.contains(kind_ecosystem(kind))
}

/// An ecosystem filter: empty means every ecosystem.
pub fn wanted(kind: ManifestKind, ecosystems: &Vec<Ecosystem>) -> (b: bool)
    ensures
        b == wanted_of(kind, ecosystems@),
{
    if ecosystems.len() == 0 {
        return true;
    }
    let e = kind.ecosystem();
    let mut i: usize = 0;
    while i < ecosystems.len()
        invariant
            0 <= i <= ecosystems.len(),
            e == kind_ecosystem(kind),
            forall|j: int| 0 <= j < i ==> ecosystems@[j] != e,
        decreases ecosystems.len() - i,
    {
        if ecosystems[i] == e {
            return true;
        }
        i = i + 1;
    }
    false
}

pub open spec fn descend_of(name: Seq<char>, hidden: bool) -> bool {
    if crate::heuristics::vendored(name) {
        false
    } else {
        hidden || name == ".github"@ || !crate::text::starts_with(name, "."@)
    }
}

/// Whether the walk goes into a directory of this name. `.github` is
/// always descended: the workflows are in it, and a tool that needed a
/// flag to see them would ship with the CI half off.
pub fn descend(name: &str, hidden: bool) -> (b: bool)
    ensures
        b == descend_of(name@, hidden),
{
    if crate::heuristics::is_vendored(name) {
        return false;
    }
    let n = chars_of(name);
    hidden || crate::text::same_str(&n, ".github") || !crate::text::has_prefix_str(&n, ".")
}

pub open spec fn kept_of(relative: Seq<char>, excluded: bool, ecosystems: Seq<Ecosystem>) -> Option<ManifestKind> {
    match crate::heuristics::manifest_kind_of(relative) {
        Some(kind) => if excluded || !wanted_of(kind, ecosystems) {
            None
        } else {
            Some(kind)
        },
        None => None,
    }
}

/// Whether a walked file is kept, and as which manifest: a manifest by
/// name, not excluded, in a wanted ecosystem.
pub fn keep(relative: &str, excludes: &crate::heuristics::Excludes, ecosystems: &Vec<Ecosystem>) -> (r: Option<ManifestKind>)
    ensures
        r == kept_of(
            relative@,
            crate::heuristics::any_glob_matches(
                excludes.path_globs(),
                crate::heuristics::slashed(relative@),
            ) || crate::heuristics::any_glob_matches(
                excludes.name_globs(),
                crate::heuristics::basename_of(crate::heuristics::slashed(relative@)),
            ),
            ecosystems@,
        ),
{
    let kind = match crate::heuristics::manifest_kind(relative) {
        Some(kind) => kind,
        None => {
            return None;
        },
    };
    if excludes.matches(relative) || !wanted(kind, ecosystems) {
        None
    } else {
        Some(kind)
    }
}

/// A leading byte-order mark is three invisible bytes that Notepad,
/// Excel and a PowerShell redirect all add; before a `{` it makes a JSON
/// parser reject the whole document.
pub open spec fn without_bom(text: Seq<char>) -> Seq<char> {
    if text.len() > 0 && text[0] == '\u{feff}' {
        text.drop_first()
    } else {
        text
    }
}

pub fn strip_bom(text: String) -> (r: String)
    ensures
        r@ == without_bom(text@),
{
    let t = chars_of(text.as_str());
    if t.len() > 0 && t[0] == '\u{feff}' {
        string_of(&crate::text::slice(&t, 1, t.len()))
    } else {
        text
    }
}

// ---------------------------------------------------------------------
// What a path is called in the report
// ---------------------------------------------------------------------

/// A Windows path prefix, as `std::path::Prefix` parses one.
#[derive(Clone, Debug, PartialEq, Eq)]
pub enum PrefixKind {
    Disk(u8),
    VerbatimDisk(u8),
    Unc(String, String),
    VerbatimUnc(String, String),
    DeviceNs(String),
    Verbatim(String),
}

pub enum PrefixView {
    Disk(u8),
    VerbatimDisk(u8),
    Unc(Seq<char>, Seq<char>),
    VerbatimUnc(Seq<char>, Seq<char>),
    DeviceNs(Seq<char>),
    Verbatim(Seq<char>),
}

impl View for PrefixKind {
    type V = PrefixView;

    open spec fn view(&self) -> PrefixView {
        match self {
            PrefixKind::Disk(l) => PrefixView::Disk(*l),
            PrefixKind::VerbatimDisk(l) => PrefixView::VerbatimDisk(*l),
            PrefixKind::Unc(a, b) => PrefixView::Unc(a@, b@),
            PrefixKind::VerbatimUnc(a, b) => PrefixView::VerbatimUnc(a@, b@),
            PrefixKind::DeviceNs(n) => PrefixView::DeviceNs(n@),
            PrefixKind::Verbatim(n) => PrefixView::Verbatim(n@),
        }
    }
}

/// One component of a path, as `std::path::Component` gives it.
#[derive(Clone, Debug, PartialEq, Eq)]
pub enum Part {
    Prefix(PrefixKind),
    RootDir,
    CurDir,
    ParentDir,
    Normal(String),
}

pub enum PartView {
    Prefix(PrefixView),
    RootDir,
    CurDir,
    ParentDir,
    Normal(Seq<char>),
}

impl View for Part {
    type V = PartView;

    open spec fn view(&self) -> PartView {
        match self {
            Part::Prefix(p) => PartView::Prefix(p@),
            Part::RootDir => PartView::RootDir,
            Part::CurDir => PartView::CurDir,
            Part::ParentDir => PartView::ParentDir,
            Part::Normal(s) => PartView::Normal(s@),
        }
    }
}

pub open spec fn part_views(ps: Seq<Part>) -> Seq<PartView> {
    ps.map_values(|p: Part| p@)
}

pub open spec fn upper_byte(l: u8) -> u8 {
    if 97 <= l && l <= 122 {
        (l - 32) as u8
    } else {
        l
    }
}

/// **A file gets one identity.** Every disk prefix collapses to an
/// upper-cased `C:`, verbatim or not; a UNC prefix keeps its host and
/// share, so two shares never become one label.
pub open spec fn designator_of(p: PrefixView) -> Seq<char> {
    match p {
        PrefixView::Disk(l) => seq![upper_byte(l) as char, ':'],
        PrefixView::VerbatimDisk(l) => seq![upper_byte(l) as char, ':'],
        PrefixView::Unc(server, share) => "//"@ + server + "/"@ + share,
        PrefixView::VerbatimUnc(server, share) => "//"@ + server + "/"@ + share,
        PrefixView::DeviceNs(name) => "//./"@ + name,
        PrefixView::Verbatim(name) => "//?/"@ + name,
    }
}

fn drive(l: u8) -> (r: String)
    ensures
        r@ == seq![upper_byte(l) as char, ':'],
{
    let up: u8 = if 97 <= l && l <= 122 {
        l - 32
    } else {
        l
    };
    let mut v: Vec<char> = Vec::new();
    v.push(up as char);
    v.push(':');
    string_of(&v)
}

fn slashed_pair(head: &str, a: &String, b: &String) -> (r: String)
    ensures
        r@ == head@ + a@ + "/"@ + b@,
{
    let mut r = String::from_str(head);
    r.append(a.as_str());
    r.append("/");
    r.append(b.as_str());
    r
}

/// The forward-slashed designator for a Windows path prefix.
pub fn designator(prefix: &PrefixKind) -> (r: String)
    ensures
        r@ == designator_of(prefix@),
{
    match prefix {
        PrefixKind::Disk(l) => drive(*l),
        PrefixKind::VerbatimDisk(l) => drive(*l),
        PrefixKind::Unc(server, share) => slashed_pair("//", server, share),
        PrefixKind::VerbatimUnc(server, share) => slashed_pair("//", server, share),
        PrefixKind::DeviceNs(name) => {
            let mut r = String::from_str("//./");
            r.append(name.as_str());
            r
        },
        PrefixKind::Verbatim(name) => {
            let mut r = String::from_str("//?/");
            r.append(name.as_str());
            r
        },
    }
}

pub open spec fn part_text(p: PartView) -> Seq<char> {
    match p {
        PartView::CurDir => "."@,
        PartView::ParentDir => ".."@,
        PartView::Normal(s) => s,
        _ => Seq::empty(),
    }
}

pub open spec fn normalise_step(out: Seq<char>, p: PartView) -> Seq<char> {
    match p {
        PartView::Prefix(x) => out + designator_of(x),
        PartView::RootDir => if out.len() > 0 && out.last() == '/' {
            out
        } else {
            out.push('/')
        },
        _ => (if out.len() > 0 && out.last() != '/' {
            out.push('/')
        } else {
            out
        }) + part_text(p),
    }
}

/// A path written with forward slashes: one separator between parts,
/// one after a root, and a prefix as its designator.
pub open spec fn normalised(ps: Seq<PartView>) -> Seq<char>
    decreases ps.len(),
{
    if ps.len() == 0 {
        Seq::empty()
    } else {
        normalise_step(normalised(ps.drop_last()), ps.last())
    }
}

/// A path written with forward slashes, as the caller typed it: not
/// `//Users/…` for an absolute path, and no backslash from a Windows
/// prefix.
pub fn normalise(parts: &Vec<Part>) -> (r: String)
    ensures
        r@ == normalised(part_views(parts@)),
{
    let ghost pv = part_views(parts@);
    let mut out: Vec<char> = Vec::new();
    let mut i: usize = 0;
    while i < parts.len()
        invariant
            0 <= i <= parts.len(),
            pv == part_views(parts@),
            out@ == normalised(pv.take(i as int)),
        decreases parts.len() - i,
    {
        proof {
            assert(pv.take(i + 1).drop_last() =~= pv.take(i as int));
            assert(pv.take(i + 1).last() == parts@[i as int]@);
        }
        match &parts[i] {
            Part::Prefix(p) => {
                out = crate::text::concat(&out, &chars_of(designator(p).as_str()));
            },
            Part::RootDir => {
                if !(out.len() > 0 && out[out.len() - 1] == '/') {
                    out.push('/');
                }
            },
            other => {
                if out.len() > 0 && out[out.len() - 1] != '/' {
                    out.push('/');
                }
                let text = match other {
                    Part::CurDir => chars_of("."),
                    Part::ParentDir => chars_of(".."),
                    Part::Normal(s) => chars_of(s.as_str()),
                    _ => Vec::new(),
                };
                out = crate::text::concat(&out, &text);
            },
        }
        i = i + 1;
    }
    assert(pv.take(parts.len() as int) =~= pv);
    string_of(&out)
}

fn copy_prefix(p: &PrefixKind) -> (r: PrefixKind)
    ensures
        r@ == p@,
{
    match p {
        PrefixKind::Disk(l) => PrefixKind::Disk(*l),
        PrefixKind::VerbatimDisk(l) => PrefixKind::VerbatimDisk(*l),
        PrefixKind::Unc(a, b) => PrefixKind::Unc(a.clone(), b.clone()),
        PrefixKind::VerbatimUnc(a, b) => PrefixKind::VerbatimUnc(a.clone(), b.clone()),
        PrefixKind::DeviceNs(n) => PrefixKind::DeviceNs(n.clone()),
        PrefixKind::Verbatim(n) => PrefixKind::Verbatim(n.clone()),
    }
}

fn copy_part(p: &Part) -> (r: Part)
    ensures
        r@ == p@,
{
    match p {
        Part::Prefix(x) => Part::Prefix(copy_prefix(x)),
        Part::RootDir => Part::RootDir,
        Part::CurDir => Part::CurDir,
        Part::ParentDir => Part::ParentDir,
        Part::Normal(s) => Part::Normal(s.clone()),
    }
}

fn same_prefix(a: &PrefixKind, b: &PrefixKind) -> (r: bool)
    ensures
        r == (a@ == b@),
{
    match a {
        PrefixKind::Disk(x) => match b {
            PrefixKind::Disk(y) => *x == *y,
            _ => false,
        },
        PrefixKind::VerbatimDisk(x) => match b {
            PrefixKind::VerbatimDisk(y) => *x == *y,
            _ => false,
        },
        PrefixKind::Unc(a1, a2) => match b {
            PrefixKind::Unc(b1, b2) => *a1 == *b1 && *a2 == *b2,
            _ => false,
        },
        PrefixKind::VerbatimUnc(a1, a2) => match b {
            PrefixKind::VerbatimUnc(b1, b2) => *a1 == *b1 && *a2 == *b2,
            _ => false,
        },
        PrefixKind::DeviceNs(x) => match b {
            PrefixKind::DeviceNs(y) => *x == *y,
            _ => false,
        },
        PrefixKind::Verbatim(x) => match b {
            PrefixKind::Verbatim(y) => *x == *y,
            _ => false,
        },
    }
}

fn same_part(a: &Part, b: &Part) -> (r: bool)
    ensures
        r == (a@ == b@),
{
    match a {
        Part::Prefix(x) => match b {
            Part::Prefix(y) => same_prefix(x, y),
            _ => false,
        },
        Part::RootDir => match b {
            Part::RootDir => true,
            _ => false,
        },
        Part::CurDir => match b {
            Part::CurDir => true,
            _ => false,
        },
        Part::ParentDir => match b {
            Part::ParentDir => true,
            _ => false,
        },
        Part::Normal(x) => match b {
            Part::Normal(y) => *x == *y,
            _ => false,
        },
    }
}

/// `Path::strip_prefix`: the parts after `base`, when `base` begins the
/// path part for part.
/// A text with no backslash in it.
pub open spec fn no_backslash(s: Seq<char>) -> bool {
    !s.contains('\\')
}

/// A part whose own text carries no backslash; a drive letter that is
/// not one.
pub open spec fn clean_part(p: PartView) -> bool {
    match p {
        PartView::Prefix(x) => match x {
            PrefixView::Disk(l) => l != 92,
            PrefixView::VerbatimDisk(l) => l != 92,
            PrefixView::Unc(a, b) => no_backslash(a) && no_backslash(b),
            PrefixView::VerbatimUnc(a, b) => no_backslash(a) && no_backslash(b),
            PrefixView::DeviceNs(n) => no_backslash(n),
            PrefixView::Verbatim(n) => no_backslash(n),
        },
        PartView::Normal(t) => no_backslash(t),
        _ => true,
    }
}

proof fn lemma_join_clean(a: Seq<char>, b: Seq<char>)
    requires
        no_backslash(a),
        no_backslash(b),
    ensures
        no_backslash(a + b),
{
    if (a + b).contains('\\') {
        let k = choose|k: int| 0 <= k < (a + b).len() && (a + b)[k] == '\\';
        if k < a.len() {
            assert(a[k] == '\\');
        } else {
            assert(b[k - a.len()] == '\\');
        }
    }
}

proof fn lemma_literal_clean()
    ensures
        no_backslash("//"@),
        no_backslash("/"@),
        no_backslash("//./"@),
        no_backslash("//?/"@),
        no_backslash("."@),
        no_backslash(".."@),
{
    reveal_strlit("//");
    reveal_strlit("/");
    reveal_strlit("//./");
    reveal_strlit("//?/");
    reveal_strlit(".");
    reveal_strlit("..");
    assert(!"//"@.contains('\\'));
    assert(!"/"@.contains('\\'));
    assert(!"//./"@.contains('\\'));
    assert(!"//?/"@.contains('\\'));
    assert(!"."@.contains('\\'));
    assert(!".."@.contains('\\'));
}

proof fn lemma_designator_clean(x: PrefixView)
    requires
        clean_part(PartView::Prefix(x)),
    ensures
        no_backslash(designator_of(x)),
{
    lemma_literal_clean();
    match x {
        PrefixView::Disk(l) => {
            let d = designator_of(x);
            assert(d.len() == 2);
            if d.contains('\\') {
                let k = choose|k: int| 0 <= k < d.len() && d[k] == '\\';
                assert(d[0] == upper_byte(l) as char);
                assert(d[1] == ':');
            }
        },
        PrefixView::VerbatimDisk(l) => {
            let d = designator_of(x);
            if d.contains('\\') {
                let k = choose|k: int| 0 <= k < d.len() && d[k] == '\\';
                assert(d[0] == upper_byte(l) as char);
                assert(d[1] == ':');
            }
        },
        PrefixView::Unc(a, b) => {
            lemma_join_clean("//"@, a);
            lemma_join_clean("//"@ + a, "/"@);
            lemma_join_clean("//"@ + a + "/"@, b);
        },
        PrefixView::VerbatimUnc(a, b) => {
            lemma_join_clean("//"@, a);
            lemma_join_clean("//"@ + a, "/"@);
            lemma_join_clean("//"@ + a + "/"@, b);
        },
        PrefixView::DeviceNs(n) => {
            lemma_join_clean("//./"@, n);
        },
        PrefixView::Verbatim(n) => {
            lemma_join_clean("//?/"@, n);
        },
    }
}

/// **Every path is written with forward slashes.** Whatever the platform
/// spelled the separators as, a path whose own names carry no backslash
/// is normalised to a text with none.
pub proof fn lemma_normalised_is_forward_slashed(ps: Seq<PartView>)
    requires
        forall|k: int| 0 <= k < ps.len() ==> clean_part(#[trigger] ps[k]),
    ensures
        no_backslash(normalised(ps)),
    decreases ps.len(),
{
    if ps.len() > 0 {
        let d = ps.drop_last();
        assert forall|k: int| 0 <= k < d.len() implies clean_part(#[trigger] d[k]) by {
            assert(d[k] == ps[k]);
        }
        lemma_normalised_is_forward_slashed(d);
        let out = normalised(d);
        let p = ps.last();
        assert(clean_part(ps[ps.len() - 1]));
        lemma_literal_clean();
        match p {
            PartView::Prefix(x) => {
                lemma_designator_clean(x);
                lemma_join_clean(out, designator_of(x));
            },
            PartView::RootDir => {
                lemma_join_clean(out, seq!['/']);
                assert(out.push('/') =~= out + seq!['/']);
            },
            _ => {
                let base = if out.len() > 0 && out.last() != '/' {
                    out.push('/')
                } else {
                    out
                };
                lemma_join_clean(out, seq!['/']);
                assert(out.push('/') =~= out + seq!['/']);
                lemma_join_clean(base, part_text(p));
            },
        }
    }
}

/// **The resolver's output is never walked.** Whatever the hidden flag
/// says, a directory the walk descends into is neither `node_modules`,
/// nor `.git`, nor `vendor`: the manifests in those are what a resolver
/// or a vendoring tool wrote, not this repository's constraints.
pub proof fn lemma_resolver_output_is_never_walked(name: Seq<char>, hidden: bool)
    ensures
        descend_of(name, hidden) ==> name != "node_modules"@ && name != ".git"@ && name
            != "vendor"@,
{
}

/// **One drive, one identity.** A verbatim drive and a plain one, and a
/// drive letter in either case, give the same designator; so do a
/// verbatim UNC share and a plain one.
pub proof fn lemma_one_drive_one_designator(l: u8, server: Seq<char>, share: Seq<char>)
    ensures
        designator_of(PrefixView::VerbatimDisk(l)) == designator_of(PrefixView::Disk(l)),
        designator_of(PrefixView::Disk(l)) == designator_of(PrefixView::Disk(upper_byte(l))),
        designator_of(PrefixView::VerbatimUnc(server, share)) == designator_of(
            PrefixView::Unc(server, share),
        ),
{
}

/// **Two shares keep two identities.** Two UNC prefixes that differ in
/// server or share, neither name holding a `/`, never give one
/// designator: two different files are never reported as one.
pub proof fn lemma_two_shares_two_designators(a: Seq<char>, s: Seq<char>, b: Seq<char>, t: Seq<char>)
    requires
        (a, s) != (b, t),
        !a.contains('/'),
        !s.contains('/'),
        !b.contains('/'),
        !t.contains('/'),
    ensures
        designator_of(PrefixView::Unc(a, s)) != designator_of(PrefixView::Unc(b, t)),
{
    reveal_strlit("//");
    reveal_strlit("/");
    let x = "//"@ + a + "/"@ + s;
    let y = "//"@ + b + "/"@ + t;
    if x == y {
        assert(x[0] == '/' && x[1] == '/');
        // The first `/` after the leading pair ends the server name.
        if a.len() < b.len() {
            assert(x[2 + a.len() as int] == '/');
            assert(y[2 + a.len() as int] == b[a.len() as int]);
            assert(b.contains('/'));
        } else if b.len() < a.len() {
            assert(y[2 + b.len() as int] == '/');
            assert(x[2 + b.len() as int] == a[b.len() as int]);
            assert(a.contains('/'));
        } else {
            assert forall|i: int| 0 <= i < a.len() implies a[i] == b[i] by {
                assert(x[2 + i] == a[i]);
                assert(y[2 + i] == b[i]);
            }
            assert(a =~= b);
            assert(x.len() == 3 + a.len() + s.len());
            assert(y.len() == 3 + b.len() + t.len());
            assert(s.len() == t.len());
            assert forall|i: int| 0 <= i < s.len() implies s[i] == t[i] by {
                assert(x[3 + a.len() + i] == s[i]);
                assert(y[3 + b.len() + i] == t[i]);
            }
            assert(s =~= t);
        }
    }
}

pub open spec fn strip_parts(path: Seq<PartView>, base: Seq<PartView>) -> Option<Seq<PartView>> {
    if base.len() <= path.len() && path.take(base.len() as int) == base {
        Some(path.skip(base.len() as int))
    } else {
        None
    }
}

fn stripped_parts(path: &Vec<Part>, base: &Vec<Part>) -> (r: Option<Vec<Part>>)
    ensures
        match r {
            Some(rest) => strip_parts(part_views(path@), part_views(base@)) == Some(
                part_views(rest@),
            ),
            None => strip_parts(part_views(path@), part_views(base@)) is None,
        },
{
    let ghost pv = part_views(path@);
    let ghost bv = part_views(base@);
    if base.len() > path.len() {
        return None;
    }
    let mut i: usize = 0;
    while i < base.len()
        invariant
            0 <= i <= base.len(),
            base.len() <= path.len(),
            pv == part_views(path@),
            bv == part_views(base@),
            forall|j: int| 0 <= j < i ==> pv[j] == bv[j],
        decreases base.len() - i,
    {
        if !same_part(&path[i], &base[i]) {
            assert(pv.take(base.len() as int)[i as int] != bv[i as int]);
            return None;
        }
        i = i + 1;
    }
    assert(pv.take(base.len() as int) =~= bv);
    let mut rest: Vec<Part> = Vec::new();
    let mut k: usize = base.len();
    while k < path.len()
        invariant
            base.len() <= k <= path.len(),
            pv == part_views(path@),
            part_views(rest@) == pv.subrange(base.len() as int, k as int),
        decreases path.len() - k,
    {
        let ghost before = part_views(rest@);
        let part = copy_part(&path[k]);
        rest.push(part);
        assert(part_views(rest@) =~= before.push(pv[k as int]));
        assert(pv.subrange(base.len() as int, k + 1) =~= pv.subrange(base.len() as int, k as int).push(pv[k as int]));
        k = k + 1;
    }
    assert(pv.subrange(base.len() as int, path.len() as int) =~= pv.skip(base.len() as int));
    Some(rest)
}

} // verus!

verus! {

pub open spec fn label_of(path: Seq<PartView>, root: Seq<PartView>, root_is_file: bool, qualify: bool) -> Seq<char> {
    if root_is_file {
        normalised(root)
    } else {
        let relative = match strip_parts(path, root) {
            Some(rest) => normalised(rest),
            None => normalised(path),
        };
        let r = normalised(root);
        if !qualify || r == "."@ || r.len() == 0 {
            relative
        } else {
            crate::text::trim_end(r, crate::text::Class::Is('/')) + "/"@ + relative
        }
    }
}

/// How a manifest is named in the report: relative to its root, with
/// forward slashes; prefixed by the root when more than one root was
/// named, so two trees each holding a `Cargo.toml` do not contribute two
/// sites with one label.
pub fn label(path: &Vec<Part>, root: &Vec<Part>, root_is_file: bool, qualify: bool) -> (r: String)
    ensures
        r@ == label_of(part_views(path@), part_views(root@), root_is_file, qualify),
{
    if root_is_file {
        return normalise(root);
    }
    let relative = match stripped_parts(path, root) {
        Some(rest) => normalise(&rest),
        None => normalise(path),
    };
    let r = normalise(root);
    let rc = chars_of(r.as_str());
    if !qualify || crate::text::same_str(&rc, ".") || rc.len() == 0 {
        return relative;
    }
    let mut out = string_of(&crate::text::trimmed_end(&rc, crate::text::Class::Is('/')));
    out.append("/");
    out.append(relative.as_str());
    out
}

/// The basename of a path, for a diagnostic with nowhere else to point.
pub fn name_of(path: &Vec<Part>) -> (r: String)
    ensures
        r@ == crate::heuristics::basename_of(normalised(part_views(path@))),
{
    crate::heuristics::basename(normalise(path).as_str())
}

/// Which manifest a path the caller named is, through the same spelling
/// the labels use.
pub fn manifest_of(path: &Vec<Part>) -> (r: Option<ManifestKind>)
    ensures
        r == crate::heuristics::manifest_kind_of(normalised(part_views(path@))),
{
    crate::heuristics::manifest_kind(normalise(path).as_str())
}

// ---------------------------------------------------------------------
// The order of a walk
// ---------------------------------------------------------------------

/// The kinds of part in the order a path compares them.
pub open spec fn part_rank(p: PartView) -> int {
    match p {
        PartView::Prefix(_) => 0,
        PartView::RootDir => 1,
        PartView::CurDir => 2,
        PartView::ParentDir => 3,
        PartView::Normal(_) => 4,
    }
}

/// One part against another: by kind, then a name by its text and a
/// prefix by its designator.
pub open spec fn part_order(a: PartView, b: PartView) -> int {
    if part_rank(a) != part_rank(b) {
        crate::version::num_order(part_rank(a), part_rank(b))
    } else {
        match (a, b) {
            (PartView::Normal(x), PartView::Normal(y)) => crate::version::lex_order(x, y),
            (PartView::Prefix(x), PartView::Prefix(y)) => crate::version::lex_order(
                designator_of(x),
                designator_of(y),
            ),
            _ => 0,
        }
    }
}

/// Paths compared part by part; a path before every longer path it
/// begins.
pub open spec fn path_order(a: Seq<PartView>, b: Seq<PartView>) -> int
    decreases a.len(),
{
    if a.len() == 0 {
        if b.len() == 0 {
            0
        } else {
            -1
        }
    } else if b.len() == 0 {
        1
    } else if part_order(a[0], b[0]) != 0 {
        part_order(a[0], b[0])
    } else {
        path_order(a.drop_first(), b.drop_first())
    }
}

pub open spec fn path_before() -> spec_fn(Seq<PartView>, Seq<PartView>) -> bool {
    |a: Seq<PartView>, b: Seq<PartView>| path_order(a, b) < 0
}

pub open spec fn path_views(ps: Seq<Vec<Part>>) -> Seq<Seq<PartView>> {
    ps.map_values(|p: Vec<Part>| part_views(p@))
}

/// The walk's paths in a stable order, each once.
pub open spec fn walk_order(ps: Seq<Seq<PartView>>) -> Seq<Seq<PartView>> {
    crate::order::dedup(crate::order::sort_by(ps, path_before()))
}

pub open spec fn picked(ps: Seq<Seq<PartView>>, idx: Seq<usize>) -> Seq<Seq<PartView>> {
    idx.map_values(|i: usize| ps[i as int])
}

fn part_compare(a: &Part, b: &Part) -> (r: i8)
    ensures
        r == part_order(a@, b@),
{
    let ra: u8 = match a {
        Part::Prefix(_) => 0,
        Part::RootDir => 1,
        Part::CurDir => 2,
        Part::ParentDir => 3,
        Part::Normal(_) => 4,
    };
    let rb: u8 = match b {
        Part::Prefix(_) => 0,
        Part::RootDir => 1,
        Part::CurDir => 2,
        Part::ParentDir => 3,
        Part::Normal(_) => 4,
    };
    if ra != rb {
        return if ra < rb {
            -1
        } else {
            1
        };
    }
    match (a, b) {
        (Part::Normal(x), Part::Normal(y)) => crate::version::lex_compare(
            &chars_of(x.as_str()),
            &chars_of(y.as_str()),
        ),
        (Part::Prefix(x), Part::Prefix(y)) => crate::version::lex_compare(
            &chars_of(designator(x).as_str()),
            &chars_of(designator(y).as_str()),
        ),
        _ => 0,
    }
}

fn path_compare(a: &Vec<Part>, b: &Vec<Part>) -> (r: i8)
    ensures
        r == path_order(part_views(a@), part_views(b@)),
{
    let ghost av = part_views(a@);
    let ghost bv = part_views(b@);
    let mut i: usize = 0;
    assert(av.skip(0) =~= av && bv.skip(0) =~= bv);
    while i < a.len() && i < b.len()
        invariant
            0 <= i <= a.len(),
            i <= b.len(),
            av == part_views(a@),
            bv == part_views(b@),
            path_order(av.skip(i as int), bv.skip(i as int)) == path_order(av, bv),
        decreases a.len() - i,
    {
        let c = part_compare(&a[i], &b[i]);
        proof {
            assert(av.skip(i as int)[0] == a@[i as int]@);
            assert(bv.skip(i as int)[0] == b@[i as int]@);
            assert(av.skip(i as int).drop_first() =~= av.skip(i + 1));
            assert(bv.skip(i as int).drop_first() =~= bv.skip(i + 1));
        }
        if c != 0 {
            return c;
        }
        i = i + 1;
    }
    if i < a.len() {
        1
    } else if i < b.len() {
        -1
    } else {
        0
    }
}

/// The order the walk reports its manifests in: sorted part by part, and
/// a path found twice kept once. The result is the positions of the
/// paths, so a caller keeps whatever it holds beside each.
pub fn order_walk(paths: &Vec<Vec<Part>>) -> (r: Vec<usize>)
    ensures
        forall|k: int| 0 <= k < r.len() ==> #[trigger] r@[k] < paths.len(),
        picked(path_views(paths@), r@) == walk_order(path_views(paths@)),
{
    let ghost pv = path_views(paths@);
    let mut sorted: Vec<usize> = Vec::new();
    let mut i: usize = 0;
    while i < paths.len()
        invariant
            0 <= i <= paths.len(),
            pv == path_views(paths@),
            forall|k: int| 0 <= k < sorted.len() ==> #[trigger] sorted@[k] < paths.len(),
            picked(pv, sorted@) == crate::order::sort_by(pv.take(i as int), path_before()),
        decreases paths.len() - i,
    {
        let ghost before = picked(pv, sorted@);
        let ghost x = pv[i as int];
        let mut p: usize = 0;
        while p < sorted.len() && !(path_compare(&paths[i], &paths[sorted[p]]) < 0)
            invariant
                0 <= p <= sorted.len(),
                i < paths.len(),
                pv == path_views(paths@),
                x == pv[i as int],
                before == picked(pv, sorted@),
                forall|k: int| 0 <= k < sorted.len() ==> #[trigger] sorted@[k] < paths.len(),
                forall|k: int| 0 <= k < p ==> !(path_before())(x, #[trigger] before[k]),
            decreases sorted.len() - p,
        {
            p = p + 1;
        }
        proof {
            crate::order::lemma_insertion_point_is_first(before, x, path_before(), p as int);
            crate::order::lemma_insert_by(before, x, path_before());
            assert(pv.take(i + 1).drop_last() =~= pv.take(i as int));
            assert(pv.take(i + 1).last() == x);
        }
        sorted.insert(p, i);
        assert(picked(pv, sorted@) =~= before.insert(p as int, x));
        i = i + 1;
    }
    assert(pv.take(paths.len() as int) =~= pv);
    let ghost sv = picked(pv, sorted@);
    let mut out: Vec<usize> = Vec::new();
    let mut k: usize = 0;
    while k < sorted.len()
        invariant
            0 <= k <= sorted.len(),
            pv == path_views(paths@),
            sv == picked(pv, sorted@),
            forall|j: int| 0 <= j < sorted.len() ==> #[trigger] sorted@[j] < paths.len(),
            forall|j: int| 0 <= j < out.len() ==> #[trigger] out@[j] < paths.len(),
            picked(pv, out@) == crate::order::dedup(sv.take(k as int)),
        decreases sorted.len() - k,
    {
        let ghost before = picked(pv, out@);
        proof {
            assert(sv.take(k + 1).drop_last() =~= sv.take(k as int));
            assert(sv.take(k + 1).last() == pv[sorted@[k as int] as int]);
        }
        let repeat = out.len() > 0 && same_path(&paths[out[out.len() - 1]], &paths[sorted[k]]);
        if !repeat {
            out.push(sorted[k]);
            assert(picked(pv, out@) =~= before.push(pv[sorted@[k as int] as int]));
        }
        k = k + 1;
    }
    assert(sv.take(sorted.len() as int) =~= sv);
    out
}

fn same_path(a: &Vec<Part>, b: &Vec<Part>) -> (r: bool)
    ensures
        r == (part_views(a@) == part_views(b@)),
{
    if a.len() != b.len() {
        assert(part_views(a@).len() != part_views(b@).len());
        return false;
    }
    let mut i: usize = 0;
    while i < a.len()
        invariant
            0 <= i <= a.len(),
            a.len() == b.len(),
            forall|j: int| 0 <= j < i ==> part_views(a@)[j] == part_views(b@)[j],
        decreases a.len() - i,
    {
        if !same_part(&a[i], &b[i]) {
            assert(part_views(a@)[i as int] != part_views(b@)[i as int]);
            return false;
        }
        i = i + 1;
    }
    assert(part_views(a@) =~= part_views(b@));
    true
}

} // verus!
