//! The manifest readers: text in, constraint entries out.
//!
//! One reader per manifest, and every one of them **skips what it does
//! not model rather than failing the file**. Where a value *is* a
//! constraint but in a grammar the tool does not model, the reader emits
//! the entry **and** an `unknown_grammar` refusal: the entry stays
//! visible in the report; the comparison skips it.

use vstd::prelude::*;
use vstd::string::StringExecFns;
use crate::grammar::{
    Constraint, ConstraintView, action_ref_of, ci_tool_of, commit_sha_shape, is_channel,
};
use crate::heuristics::Ecosystem;
use crate::text::{
    Class, all_in, any_in, chars_of, contains, ends_with, first_in, in_class, is_digit, lines,
    rsplit_once_by, split_once, split_once_by, starts_with, string_of, strip_prefix, strip_suffix,
    trim, trim_end, trim_start, trim_start_str, views,
};
use crate::heuristics::version_shaped;
use crate::document::{
    Tree, TreeView, json_document, lemma_list_view, lemma_table_view, list_view, lookup, opt_get,
    read_json, read_toml, table_view, toml_document, tree_get,
};

verus! {

// ---------------------------------------------------------------------
// What a reader produces
// ---------------------------------------------------------------------

/// Where a constraint sits in a manifest. `line` is carried only where
/// the reader honestly knows it: the two line-scanning readers do.
#[derive(Clone, Debug, PartialEq, Eq)]
pub struct Site {
    pub file: String,
    pub key: String,
    pub constraint: String,
    pub line: Option<u32>,
}

pub struct SiteView {
    pub file: Seq<char>,
    pub key: Seq<char>,
    pub constraint: Seq<char>,
    pub line: Option<u32>,
}

impl View for Site {
    type V = SiteView;

    open spec fn view(&self) -> SiteView {
        SiteView {
            file: self.file@,
            key: self.key@,
            constraint: self.constraint@,
            line: self.line,
        }
    }
}

pub open spec fn site_views(s: Seq<Site>) -> Seq<SiteView> {
    s.map_values(|x: Site| x@)
}

impl Site {
    /// A copy with the same text in every field.
    pub fn copy(&self) -> (r: Site)
        ensures
            r@ == self@,
    {
        Site {
            file: self.file.clone(),
            key: self.key.clone(),
            constraint: self.constraint.clone(),
            line: self.line,
        }
    }

    /// Whether two sites are the same in every field.
    pub fn same(&self, other: &Site) -> (r: bool)
        ensures
            r == (self@ == other@),
    {
        self.file == other.file && self.key == other.key && self.constraint == other.constraint
            && self.line == other.line
    }
}

pub open spec fn site_at(file: Seq<char>, key: Seq<char>, constraint: Seq<char>, line: Option<u32>) -> SiteView {
    SiteView { file, key, constraint, line }
}

pub fn site(file: &str, key: String, constraint: &str, line: Option<u32>) -> (r: Site)
    ensures
        r@ == site_at(file@, key@, constraint@, line),
{
    Site { file: file.to_owned(), key, constraint: constraint.to_owned(), line }
}

/// What a constraint is *for*; it decides which checks apply.
#[derive(Clone, Copy, Debug, PartialEq, Eq, Structural)]
pub enum Kind {
    Runtime,
    Dev,
    Build,
    Peer,
    Optional,
    Engine,
    Msrv,
    Tool,
    Action,
}

pub open spec fn development(k: Kind) -> bool {
    k == Kind::Dev || k == Kind::Build
}

impl Kind {
    /// Whether a prerelease here is ordinary: a test harness on a release
    /// candidate is a choice; a shipped dependency on one is a finding.
    pub fn is_development(self) -> (r: bool)
        ensures
            r == development(self),
    {
        match self {
            Kind::Dev | Kind::Build => true,
            _ => false,
        }
    }
}

#[derive(Debug)]
pub struct Entry {
    pub ecosystem: Ecosystem,
    pub name: String,
    pub kind: Kind,
    pub site: Site,
    pub constraint: Constraint,
    /// Why this pin floats, when it does.
    pub floats: Option<&'static str>,
}

pub struct EntryView {
    pub ecosystem: Ecosystem,
    pub name: Seq<char>,
    pub kind: Kind,
    pub site: SiteView,
    pub constraint: ConstraintView,
    pub floats: Option<Seq<char>>,
}

pub open spec fn static_opt(r: Option<&'static str>) -> Option<Seq<char>> {
    match r {
        Some(s) => Some(s@),
        None => None,
    }
}

impl View for Entry {
    type V = EntryView;

    open spec fn view(&self) -> EntryView {
        EntryView {
            ecosystem: self.ecosystem,
            name: self.name@,
            kind: self.kind,
            site: self.site@,
            constraint: self.constraint@,
            floats: static_opt(self.floats),
        }
    }
}

pub open spec fn entry_views(s: Seq<Entry>) -> Seq<EntryView> {
    s.map_values(|x: Entry| x@)
}

/// Something the tool saw and deliberately did not analyse.
#[derive(Clone, Debug, PartialEq, Eq)]
pub struct Refusal {
    pub reason: String,
    /// `None` for `cross_ecosystem`, which by definition spans several.
    pub ecosystem: Option<Ecosystem>,
    pub name: String,
    pub message: String,
    pub sites: Vec<Site>,
}

pub struct RefusalView {
    pub reason: Seq<char>,
    pub ecosystem: Option<Ecosystem>,
    pub name: Seq<char>,
    pub message: Seq<char>,
    pub sites: Seq<SiteView>,
}

impl View for Refusal {
    type V = RefusalView;

    open spec fn view(&self) -> RefusalView {
        RefusalView {
            reason: self.reason@,
            ecosystem: self.ecosystem,
            name: self.name@,
            message: self.message@,
            sites: site_views(self.sites@),
        }
    }
}

pub open spec fn refusal_views(s: Seq<Refusal>) -> Seq<RefusalView> {
    s.map_values(|x: Refusal| x@)
}

/// The refusals that are not a failure to answer but the answer itself.
pub open spec fn answers(reason: Seq<char>) -> bool {
    reason == "cross_ecosystem"@ || reason == "per_job_tool_version"@
}

impl Refusal {
    /// `cross_ecosystem` and `per_job_tool_version` are the answer, so
    /// they never make a strict run fail.
    pub fn is_the_answer(&self) -> (r: bool)
        ensures
            r == answers(self.reason@),
    {
        let reason = chars_of(self.reason.as_str());
        crate::text::same_str(&reason, "cross_ecosystem") || crate::text::same_str(
            &reason,
            "per_job_tool_version",
        )
    }
}

#[derive(Clone, Debug, PartialEq, Eq)]
pub struct ParseError {
    pub kind: String,
    pub message: String,
}

pub struct ParseErrorView {
    pub kind: Seq<char>,
    pub message: Seq<char>,
}

impl View for ParseError {
    type V = ParseErrorView;

    open spec fn view(&self) -> ParseErrorView {
        ParseErrorView { kind: self.kind@, message: self.message@ }
    }
}

#[derive(Debug)]
pub struct Parsed {
    pub entries: Vec<Entry>,
    pub refusals: Vec<Refusal>,
    pub errors: Vec<ParseError>,
}

pub struct ParsedView {
    pub entries: Seq<EntryView>,
    pub refusals: Seq<RefusalView>,
    pub errors: Seq<ParseErrorView>,
}

impl View for Parsed {
    type V = ParsedView;

    open spec fn view(&self) -> ParsedView {
        ParsedView {
            entries: entry_views(self.entries@),
            refusals: refusal_views(self.refusals@),
            errors: self.errors@.map_values(|x: ParseError| x@),
        }
    }
}

pub open spec fn nothing_parsed() -> ParsedView {
    ParsedView { entries: Seq::empty(), refusals: Seq::empty(), errors: Seq::empty() }
}

/// The refusal an entry in an unmodelled grammar brings with it.
pub open spec fn unknown_refusal(e: EntryView, reason: Seq<char>) -> RefusalView {
    RefusalView {
        reason: "unknown_grammar"@,
        ecosystem: Some(e.ecosystem),
        name: e.name,
        message: reason + "; excluded from comparison"@,
        sites: seq![e.site],
    }
}

pub open spec fn pushed(p: ParsedView, e: EntryView) -> ParsedView {
    ParsedView {
        entries: p.entries.push(e),
        refusals: match e.constraint {
            ConstraintView::Unknown(reason) => p.refusals.push(unknown_refusal(e, reason)),
            _ => p.refusals,
        },
        errors: p.errors,
    }
}

pub open spec fn ambiguous_refusal(ecosystem: Ecosystem, name: Seq<char>, site: SiteView, why: Seq<char>) -> RefusalView {
    RefusalView {
        reason: "ambiguous_version_string"@,
        ecosystem: Some(ecosystem),
        name,
        message: why + "; excluded from comparison"@,
        sites: seq![site],
    }
}

pub open spec fn with_error(p: ParsedView, message: Seq<char>) -> ParsedView {
    ParsedView {
        errors: p.errors.push(ParseErrorView { kind: "parse-error"@, message }),
        ..p
    }
}

impl Parsed {
    pub fn new() -> (r: Parsed)
        ensures
            r@ == nothing_parsed(),
    {
        let r = Parsed { entries: Vec::new(), refusals: Vec::new(), errors: Vec::new() };
        assert(r@.entries =~= Seq::<EntryView>::empty());
        assert(r@.refusals =~= Seq::<RefusalView>::empty());
        assert(r@.errors =~= Seq::<ParseErrorView>::empty());
        r
    }

    /// Keep the entry; an entry in an unmodelled grammar also names
    /// itself as a refusal.
    pub fn push(&mut self, entry: Entry)
        ensures
            final(self)@ == pushed(old(self)@, entry@),
    {
        if let Constraint::Unknown(reason) = entry.constraint {
            let mut message = String::from_str(reason);
            message.append("; excluded from comparison");
            let mut sites: Vec<Site> = Vec::new();
            sites.push(entry.site.copy());
            self.refusals.push(
                Refusal {
                    reason: String::from_str("unknown_grammar"),
                    ecosystem: Some(entry.ecosystem),
                    name: entry.name.clone(),
                    message,
                    sites,
                },
            );
            proof {
                assert(site_views(sites@) =~= seq![entry.site@]);
            }
        }
        self.entries.push(entry);
        proof {
            assert(entry_views(self.entries@) =~= entry_views(old(self).entries@).push(entry@));
            assert(self.refusals@.map_values(|x: Refusal| x@) =~= pushed(
                old(self)@,
                entry@,
            ).refusals);
        }
    }

    /// A value that is not evidently a version: refused, and no entry.
    pub fn ambiguous(&mut self, ecosystem: Ecosystem, name: &str, site: Site, why: &str)
        ensures
            final(self)@ == (ParsedView {
                refusals: old(self)@.refusals.push(
                    ambiguous_refusal(ecosystem, name@, site@, why@),
                ),
                ..old(self)@
            }),
    {
        let mut message = String::from_str(why);
        message.append("; excluded from comparison");
        let ghost at = site@;
        let mut sites: Vec<Site> = Vec::new();
        sites.push(site);
        self.refusals.push(
            Refusal {
                reason: String::from_str("ambiguous_version_string"),
                ecosystem: Some(ecosystem),
                name: name.to_owned(),
                message,
                sites,
            },
        );
        proof {
            assert(site_views(sites@) =~= seq![at]);
            assert(refusal_views(self.refusals@) =~= refusal_views(old(self).refusals@).push(
                ambiguous_refusal(ecosystem, name@, at, why@),
            ));
        }
    }

    /// A part of the file that should have been a constraint and is not.
    pub fn error(&mut self, message: String)
        ensures
            final(self)@ == with_error(old(self)@, message@),
    {
        self.errors.push(ParseError { kind: String::from_str("parse-error"), message });
        proof {
            assert(self.errors@.map_values(|x: ParseError| x@) =~= old(self)@.errors.push(
                ParseErrorView { kind: "parse-error"@, message: message@ },
            ));
        }
    }
}

} // verus!

verus! {

// ---------------------------------------------------------------------
// Why a pin floats
// ---------------------------------------------------------------------

pub const UNBOUNDED: &'static str = "an unbounded range accepts any future major";

pub const DIST_TAG_FLOATS: &'static str = "a dist tag resolves to whatever is newest at install time";

pub const ZERO_CARET: &'static str = "a caret on a 0.x version, which promises no stability";

pub const NO_SPECIFIER: &'static str = "no version specifier at all";

pub const UNPINNED_TOOL: &'static str = "an unpinned tool version installs whatever is newest that day";

pub const MOVING_ACTION: &'static str = "a branch or tag reference moves under the workflow";

pub const MARKER: &'static str = "an environment marker";

pub const DIRECT_URL: &'static str = "a direct URL reference";

pub open spec fn wildcard_text(t: Seq<char>) -> bool {
    t == "*"@ || t == "x"@ || t == "X"@
}

fn wildcard(t: &Vec<char>) -> (b: bool)
    ensures
        b == wildcard_text(t@),
{
    crate::text::same_str(t, "*") || crate::text::same_str(t, "x") || crate::text::same_str(t, "X")
}

/// The text before the first character in `class`, or all of it.
pub open spec fn before_first(s: Seq<char>, class: Class) -> Seq<char> {
    match first_in(s, class) {
        Some(i) => s.take(i),
        None => s,
    }
}

fn prefix_before(s: &Vec<char>, class: Class) -> (r: Vec<char>)
    ensures
        r@ == before_first(s@, class),
{
    match crate::text::find_class(s, class) {
        Some(i) => crate::text::slice(s, 0, i),
        None => s.clone(),
    }
}

pub open spec fn zero_caret_of(text: Seq<char>) -> Option<Seq<char>> {
    match strip_prefix(text, "^"@) {
        Some(rest) => if before_first(rest, Class::DotDash) == "0"@ {
            Some(ZERO_CARET@)
        } else {
            None
        },
        None => None,
    }
}

/// A caret below 1.0 is a floating pin, not a tight one: `^0.4.1` admits
/// every later 0.4 patch, and a 0.x crate promises no stability.
pub fn is_zero_caret(text: &str) -> (r: Option<&'static str>)
    ensures
        static_opt(r) == zero_caret_of(text@),
{
    let t = chars_of(text);
    match crate::text::stripped_prefix(&t, "^") {
        Some(rest) => {
            let major = prefix_before(&rest, Class::DotDash);
            if crate::text::same_str(&major, "0") {
                Some(ZERO_CARET)
            } else {
                None
            }
        },
        None => None,
    }
}

pub open spec fn npm_floats_of(raw: Seq<char>) -> Option<Seq<char>> {
    let text = trim(raw);
    if text.len() == 0 || wildcard_text(text) {
        Some(UNBOUNDED@)
    } else if text == "latest"@ || text == "next"@ {
        Some(DIST_TAG_FLOATS@)
    } else {
        zero_caret_of(text)
    }
}

/// Why an npm requirement floats, when it does.
pub fn npm_floats(raw: &str) -> (r: Option<&'static str>)
    ensures
        static_opt(r) == npm_floats_of(raw@),
{
    let text = crate::text::trimmed(&chars_of(raw));
    if text.len() == 0 || wildcard(&text) {
        return Some(UNBOUNDED);
    }
    if crate::text::same_str(&text, "latest") || crate::text::same_str(&text, "next") {
        return Some(DIST_TAG_FLOATS);
    }
    is_zero_caret(string_of(&text).as_str())
}

pub open spec fn cargo_floats_of(raw: Seq<char>) -> Option<Seq<char>> {
    let text = trim(raw);
    if text.len() == 0 || wildcard_text(text) {
        Some(UNBOUNDED@)
    } else if zero_caret_of(text) is Some {
        zero_caret_of(text)
    } else if text[0] == '0' {
        Some(ZERO_CARET@)
    } else {
        None
    }
}

/// Why a Cargo requirement floats. A bare Cargo requirement *is* a
/// caret, so `"0.4"` floats for the same reason `"^0.4"` does.
pub fn cargo_floats(raw: &str) -> (r: Option<&'static str>)
    ensures
        static_opt(r) == cargo_floats_of(raw@),
{
    let text = crate::text::trimmed(&chars_of(raw));
    if text.len() == 0 || wildcard(&text) {
        return Some(UNBOUNDED);
    }
    let caret = is_zero_caret(string_of(&text).as_str());
    if caret.is_some() {
        return caret;
    }
    if text[0] == '0' {
        Some(ZERO_CARET)
    } else {
        None
    }
}

pub open spec fn python_floats_of(raw: Seq<char>) -> Option<Seq<char>> {
    if trim(raw).len() == 0 {
        Some(NO_SPECIFIER@)
    } else {
        None
    }
}

/// A requirement with no version specifier at all floats.
pub fn python_floats(raw: &str) -> (r: Option<&'static str>)
    ensures
        static_opt(r) == python_floats_of(raw@),
{
    if crate::text::trimmed(&chars_of(raw)).len() == 0 {
        Some(NO_SPECIFIER)
    } else {
        None
    }
}

pub open spec fn ci_floats_of(raw: Seq<char>) -> Option<Seq<char>> {
    let text = trim(raw);
    if wildcard_text(text) {
        Some(UNBOUNDED@)
    } else if is_channel(text) {
        Some(UNPINNED_TOOL@)
    } else {
        None
    }
}

/// An unpinned CI tool version installs whatever is newest that day.
pub fn ci_floats(raw: &str) -> (r: Option<&'static str>)
    ensures
        static_opt(r) == ci_floats_of(raw@),
{
    let text = crate::text::trimmed(&chars_of(raw));
    if wildcard(&text) {
        Some(UNBOUNDED)
    } else if crate::grammar::channel(&text) {
        Some(UNPINNED_TOOL)
    } else {
        None
    }
}

pub open spec fn action_floats_of(reference: Seq<char>) -> Option<Seq<char>> {
    if action_ref_of(reference) is Unknown && !all_in(reference, Class::Hex) {
        Some(MOVING_ACTION@)
    } else {
        None
    }
}

/// A branch or tag reference moves under the workflow; a commit SHA does
/// not.
pub fn action_floats(reference: &str) -> (r: Option<&'static str>)
    ensures
        static_opt(r) == action_floats_of(reference@),
{
    let unknown = crate::grammar::action_ref(reference).is_unknown();
    if unknown && !crate::text::all_of(&chars_of(reference), Class::Hex) {
        Some(MOVING_ACTION)
    } else {
        None
    }
}

// ---------------------------------------------------------------------
// Line-level text
// ---------------------------------------------------------------------

pub open spec fn unquote_of(value: Seq<char>) -> Seq<char> {
    let v = trim(value);
    let kept = if v.len() > 0 && (v[0] == '"' || v[0] == '\'') {
        v
    } else {
        match split_once(v, " #"@) {
            Some(parts) => parts.0,
            None => v,
        }
    };
    trim(trim_start(trim_end(trim(kept), Class::Quote), Class::Quote))
}

/// A workflow value without its quotes, and without a trailing `# …`
/// comment unless the value itself is quoted.
pub fn unquote(value: &str) -> (r: String)
    ensures
        r@ == unquote_of(value@),
{
    let v = crate::text::trimmed(&chars_of(value));
    let kept = if v.len() > 0 && (v[0] == '"' || v[0] == '\'') {
        v
    } else {
        proof {
            reveal_strlit(" #");
        }
        match crate::text::split_once_on(&v, " #") {
            Some((before, _)) => before,
            None => v,
        }
    };
    let inner = crate::text::trimmed(&kept);
    let unquoted = crate::text::trimmed_start(
        &crate::text::trimmed_end(&inner, Class::Quote),
        Class::Quote,
    );
    string_of(&crate::text::trimmed(&unquoted))
}

pub open spec fn strip_comment_of(line: Seq<char>) -> Seq<char> {
    match split_once(line, "//"@) {
        Some(parts) => parts.0,
        None => line,
    }
}

/// A `go.mod` line without its `// …` comment.
pub fn strip_comment(line: &Vec<char>) -> (r: Vec<char>)
    ensures
        r@ == strip_comment_of(line@),
{
    proof {
        reveal_strlit("//");
    }
    match crate::text::split_once_on(line, "//") {
        Some((before, _)) => before,
        None => line.clone(),
    }
}

pub open spec fn workflow_tool_of(key: Seq<char>) -> Option<Seq<char>> {
    if key == "toolchain"@ {
        Some("rust"@)
    } else {
        match strip_suffix(key, "-version"@) {
            Some(tool) => if tool.len() > 0 && all_in(tool, Class::AlnumDash) {
                Some(tool)
            } else {
                None
            },
            None => None,
        }
    }
}

/// `node-version`, `bun-version`, `python-version` … and `toolchain`,
/// which is what the Rust setup actions call theirs.
pub fn workflow_tool(key: &Vec<char>) -> (r: Option<Vec<char>>)
    ensures
        crate::text::opt_view(r) == workflow_tool_of(key@),
{
    if crate::text::same_str(key, "toolchain") {
        return Some(chars_of("rust"));
    }
    match crate::text::stripped_suffix(key, "-version") {
        Some(tool) => if tool.len() > 0 && crate::text::all_of(&tool, Class::AlnumDash) {
            Some(tool)
        } else {
            None
        },
        None => None,
    }
}

// ---------------------------------------------------------------------
// PEP 508
// ---------------------------------------------------------------------

pub proof fn lemma_trim_start_suffix(s: Seq<char>, class: Class)
    ensures
        trim_start(s, class).len() <= s.len(),
        s.skip(s.len() - trim_start(s, class).len()) == trim_start(s, class),
    decreases s.len(),
{
    if s.len() > 0 && in_class(s[0], class) {
        lemma_trim_start_suffix(s.drop_first(), class);
        let t = trim_start(s.drop_first(), class);
        assert(s.drop_first().skip(s.drop_first().len() - t.len()) =~= s.skip(s.len() - t.len()));
    } else {
        assert(s.skip(0) =~= s);
    }
}

/// The distribution name, the version specifier, and the reason the
/// requirement is refused, if it is.
pub open spec fn pep508_of(text: Seq<char>) -> (Seq<char>, Seq<char>, Option<Seq<char>>) {
    let trimmed = trim(text);
    let after = trim_start(trimmed, Class::Name);
    let name = trimmed.take(trimmed.len() - after.len());
    let rest = trim(after);
    if any_in(trimmed, Class::Is(';')) {
        (name, Seq::empty(), Some(MARKER@))
    } else if rest.len() > 0 && rest[0] == '@' {
        (name, Seq::empty(), Some(DIRECT_URL@))
    } else {
        let bare = match strip_prefix(rest, "["@) {
            Some(tail) => match split_once(tail, "]"@) {
                Some(parts) => trim(parts.1),
                None => Seq::empty(),
            },
            None => rest,
        };
        (name, trim(trim_end(trim_start(bare, Class::Is('(')), Class::Is(')'))), None)
    }
}

/// Split a PEP 508 requirement into a distribution name and a version
/// specifier. Environment markers and direct URL references are refused
/// rather than stripped: a requirement that only applies below Python
/// 3.11 is not in conflict with one that does not.
pub fn pep508(text: &str) -> (r: (String, String, Option<&'static str>))
    ensures
        (r.0@, r.1@, static_opt(r.2)) == pep508_of(text@),
{
    let trimmed = crate::text::trimmed(&chars_of(text));
    let after = crate::text::trimmed_start(&trimmed, Class::Name);
    proof {
        lemma_trim_start_suffix(trimmed@, Class::Name);
    }
    let name = string_of(&crate::text::slice(&trimmed, 0, trimmed.len() - after.len()));
    let rest = crate::text::trimmed(&after);
    if crate::text::contains_char(&trimmed, ';') {
        return (name, String::new(), Some(MARKER));
    }
    if rest.len() > 0 && rest[0] == '@' {
        return (name, String::new(), Some(DIRECT_URL));
    }
    proof {
        reveal_strlit("]");
    }
    let bare = match crate::text::stripped_prefix(&rest, "[") {
        Some(tail) => match crate::text::split_once_on(&tail, "]") {
            Some((_, after_bracket)) => crate::text::trimmed(&after_bracket),
            None => Vec::new(),
        },
        None => rest,
    };
    let opened = crate::text::trimmed_start(&bare, Class::Is('('));
    let closed = crate::text::trimmed_end(&opened, Class::Is(')'));
    (name, string_of(&crate::text::trimmed(&closed)), None)
}

} // verus!

verus! {

// ---------------------------------------------------------------------
// go.mod
// ---------------------------------------------------------------------

/// The 1-based number of a line, as a `u32` (saturating).
pub open spec fn line_number(n: int) -> u32 {
    if n <= u32::MAX {
        n as u32
    } else {
        u32::MAX
    }
}

fn number_of(index: usize) -> (r: u32)
    ensures
        r == line_number(index + 1),
{
    if index < 4294967295usize {
        (index + 1) as u32
    } else {
        4294967295u32
    }
}

pub open spec fn go_entry_of(file: Seq<char>, name: Seq<char>, kind: Kind, key: Seq<char>, constraint: ConstraintView, raw: Seq<char>, line: u32) -> EntryView {
    EntryView {
        ecosystem: Ecosystem::Go,
        name,
        kind,
        site: site_at(file, key, raw, Some(line)),
        constraint,
        floats: None,
    }
}

fn go_entry(
    file: &str,
    name: &str,
    kind: Kind,
    key: &str,
    constraint: Constraint,
    raw: &str,
    line: u32,
) -> (r: Entry)
    ensures
        r@ == go_entry_of(file@, name@, kind, key@, constraint@, raw@, line),
{
    Entry {
        ecosystem: Ecosystem::Go,
        name: name.to_owned(),
        kind,
        site: site(file, key.to_owned(), raw, Some(line)),
        constraint,
        floats: None,
    }
}

/// The `go` directive: a floor, not a version.
pub open spec fn go_language_of(file: Seq<char>, raw: Seq<char>, line: u32) -> EntryView {
    go_entry_of(file, "go"@, Kind::Engine, "go"@, crate::grammar::minimum_of(raw), raw, line)
}

/// A `require` version. Go module versions are exact.
pub open spec fn go_module_of(file: Seq<char>, name: Seq<char>, raw: Seq<char>, line: u32) -> EntryView {
    go_entry_of(file, name, Kind::Runtime, "require"@, crate::grammar::go_of(raw), raw, line)
}

/// One line of a `go.mod`, with whether a `require (` block is open.
pub open spec fn go_step(st: (ParsedView, bool), file: Seq<char>, raw_line: Seq<char>, number: u32) -> (ParsedView, bool) {
    let out = st.0;
    let in_require = st.1;
    let line = trim(strip_comment_of(raw_line));
    if line.len() == 0 || contains(raw_line, "// indirect"@) {
        st
    } else if line == ")"@ {
        (out, false)
    } else {
        match strip_prefix(line, "go "@) {
            Some(rest) => (pushed(out, go_language_of(file, trim(rest), number)), in_require),
            None => if starts_with(line, "require ("@) {
                (out, true)
            } else {
                let requirement = match strip_prefix(line, "require "@) {
                    Some(rest) => Some(trim(rest)),
                    None => if in_require {
                        Some(line)
                    } else {
                        None
                    },
                };
                match requirement {
                    None => st,
                    Some(req) => match split_once_by(req, Class::Space) {
                        None => st,
                        Some(parts) => (
                            pushed(out, go_module_of(file, parts.0, trim(parts.1), number)),
                            in_require,
                        ),
                    },
                }
            },
        }
    }
}

pub open spec fn go_fold(start: ParsedView, file: Seq<char>, ls: Seq<Seq<char>>) -> (ParsedView, bool)
    decreases ls.len(),
{
    if ls.len() == 0 {
        (start, false)
    } else {
        go_step(go_fold(start, file, ls.drop_last()), file, ls.last(), line_number(ls.len() as int))
    }
}

/// `go.mod` is read line by line: `require`, single and block form, and
/// the `go` directive. `// indirect` marks the resolver's output, not
/// this module's stated requirement.
pub fn go_mod(out: &mut Parsed, file: &str, content: &str)
    ensures
        final(out)@ == go_fold(old(out)@, file@, lines(content@)).0,
{
    let ghost start = out@;
    let ls = crate::text::split_lines(&chars_of(content));
    let ghost lv = views(ls@);
    let mut in_require = false;
    let mut i: usize = 0;
    while i < ls.len()
        invariant
            0 <= i <= ls.len(),
            lv == views(ls@),
            lv == lines(content@),
            (out@, in_require) == go_fold(start, file@, lv.take(i as int)),
        decreases ls.len() - i,
    {
        proof {
            assert(lv.take(i + 1).drop_last() =~= lv.take(i as int));
            assert(lv.take(i + 1).last() == ls@[i as int]@);
        }
        let raw_line = &ls[i];
        let number = number_of(i);
        let line = crate::text::trimmed(&strip_comment(raw_line));
        i = i + 1;
        if line.len() == 0 || crate::text::contains_str(raw_line, "// indirect") {
            continue;
        }
        if crate::text::same_str(&line, ")") {
            in_require = false;
            continue;
        }
        if let Some(rest) = crate::text::stripped_prefix(&line, "go ") {
            let raw = string_of(&crate::text::trimmed(&rest));
            let entry = go_entry(
                file,
                "go",
                Kind::Engine,
                "go",
                crate::grammar::minimum(raw.as_str()),
                raw.as_str(),
                number,
            );
            out.push(entry);
            continue;
        }
        if crate::text::has_prefix_str(&line, "require (") {
            in_require = true;
            continue;
        }
        let requirement = match crate::text::stripped_prefix(&line, "require ") {
            Some(rest) => crate::text::trimmed(&rest),
            None => {
                if !in_require {
                    continue;
                }
                line
            },
        };
        if let Some((module, version)) = crate::text::split_once_class(&requirement, Class::Space) {
            let raw = string_of(&crate::text::trimmed(&version));
            let name = string_of(&module);
            let entry = go_entry(
                file,
                name.as_str(),
                Kind::Runtime,
                "require",
                crate::grammar::go(raw.as_str()),
                raw.as_str(),
                number,
            );
            out.push(entry);
        }
    }
    assert(lv.take(ls.len() as int) =~= lv);
}

} // verus!

verus! {

// ---------------------------------------------------------------------
// .github/workflows/*.yml
// ---------------------------------------------------------------------

pub open spec fn ci_entry_of(name: Seq<char>, kind: Kind, site: SiteView, constraint: ConstraintView, floats: Option<Seq<char>>) -> EntryView {
    EntryView { ecosystem: Ecosystem::Ci, name, kind, site, constraint, floats }
}

/// A `uses:` value. `dtolnay/rust-toolchain@1.88` puts the toolchain in
/// the ref, so that ref is an MSRV claim, unless the ref is a commit SHA,
/// which pins the action and leaves the toolchain to a `toolchain:`
/// input.
pub open spec fn workflow_uses_of(out: ParsedView, file: Seq<char>, value: Seq<char>, line: u32) -> ParsedView {
    match rsplit_once_by(value, Class::Is('@')) {
        None => out,
        Some(parts) => {
            let action = parts.0;
            let reference = parts.1;
            let rust_toolchain = ends_with(action, "rust-toolchain"@) && !commit_sha_shape(
                reference,
            );
            if rust_toolchain {
                pushed(
                    out,
                    ci_entry_of(
                        "rust"@,
                        Kind::Msrv,
                        site_at(file, "toolchain"@, reference, Some(line)),
                        ci_tool_of(reference),
                        ci_floats_of(reference),
                    ),
                )
            } else {
                pushed(
                    out,
                    ci_entry_of(
                        action,
                        Kind::Action,
                        site_at(file, "uses"@, reference, Some(line)),
                        action_ref_of(reference),
                        action_floats_of(reference),
                    ),
                )
            }
        },
    }
}

fn workflow_uses(out: &mut Parsed, file: &str, value: &Vec<char>, line: u32)
    ensures
        final(out)@ == workflow_uses_of(old(out)@, file@, value@, line),
{
    let (action, reference) = match crate::text::rsplit_once_class(value, Class::Is('@')) {
        Some(parts) => parts,
        None => {
            return;
        },
    };
    let rust_toolchain = crate::text::has_suffix_str(&action, "rust-toolchain")
        && !crate::grammar::is_commit_sha(&reference);
    let r = string_of(&reference);
    if rust_toolchain {
        out.push(
            Entry {
                ecosystem: Ecosystem::Ci,
                name: String::from_str("rust"),
                kind: Kind::Msrv,
                site: site(file, String::from_str("toolchain"), r.as_str(), Some(line)),
                constraint: crate::grammar::ci_tool(r.as_str()),
                floats: ci_floats(r.as_str()),
            },
        );
    } else {
        out.push(
            Entry {
                ecosystem: Ecosystem::Ci,
                name: string_of(&action),
                kind: Kind::Action,
                site: site(file, String::from_str("uses"), r.as_str(), Some(line)),
                constraint: crate::grammar::action_ref(r.as_str()),
                floats: action_floats(r.as_str()),
            },
        );
    }
}

pub open spec fn workflow_step(out: ParsedView, file: Seq<char>, raw_line: Seq<char>, number: u32) -> ParsedView {
    let line = trim(trim_start_str(trim(raw_line), "- "@));
    if starts_with(line, "#"@) {
        out
    } else {
        match split_once_by(line, Class::Is(':')) {
            None => out,
            Some(parts) => {
                let key = trim(parts.0);
                let value = unquote_of(parts.1);
                if key == "uses"@ {
                    workflow_uses_of(out, file, value, number)
                } else {
                    match workflow_tool_of(key) {
                        None => out,
                        Some(tool) => {
                            let at = site_at(file, key, value, Some(number));
                            if !version_shaped(value) {
                                ParsedView {
                                    refusals: out.refusals.push(
                                        ambiguous_refusal(
                                            Ecosystem::Ci,
                                            tool,
                                            at,
                                            "not evidently a version"@,
                                        ),
                                    ),
                                    ..out
                                }
                            } else {
                                pushed(
                                    out,
                                    ci_entry_of(
                                        tool,
                                        if tool == "rust"@ {
                                            Kind::Msrv
                                        } else {
                                            Kind::Tool
                                        },
                                        at,
                                        ci_tool_of(value),
                                        ci_floats_of(value),
                                    ),
                                )
                            }
                        },
                    }
                }
            },
        }
    }
}

pub open spec fn workflow_fold(start: ParsedView, file: Seq<char>, ls: Seq<Seq<char>>) -> ParsedView
    decreases ls.len(),
{
    if ls.len() == 0 {
        start
    } else {
        workflow_step(
            workflow_fold(start, file, ls.drop_last()),
            file,
            ls.last(),
            line_number(ls.len() as int),
        )
    }
}

/// The workflow reader scans **lines, not YAML**: the `@ref` of a
/// `uses:` and the value of a `<tool>-version:` input are single-line in
/// every workflow anyone writes. A value that is not evidently a version
/// becomes an `ambiguous_version_string` refusal instead of an entry.
pub fn workflow(out: &mut Parsed, file: &str, content: &str)
    ensures
        final(out)@ == workflow_fold(old(out)@, file@, lines(content@)),
{
    let ghost start = out@;
    let ls = crate::text::split_lines(&chars_of(content));
    let ghost lv = views(ls@);
    let mut i: usize = 0;
    while i < ls.len()
        invariant
            0 <= i <= ls.len(),
            lv == views(ls@),
            lv == lines(content@),
            out@ == workflow_fold(start, file@, lv.take(i as int)),
        decreases ls.len() - i,
    {
        proof {
            assert(lv.take(i + 1).drop_last() =~= lv.take(i as int));
            assert(lv.take(i + 1).last() == ls@[i as int]@);
        }
        let number = number_of(i);
        let line = crate::text::trimmed(
            &crate::text::trimmed_start_str(&crate::text::trimmed(&ls[i]), "- "),
        );
        i = i + 1;
        if crate::text::has_prefix_str(&line, "#") {
            continue;
        }
        let (k, v) = match crate::text::split_once_class(&line, Class::Is(':')) {
            Some(parts) => parts,
            None => {
                continue;
            },
        };
        let key = crate::text::trimmed(&k);
        let value = unquote(string_of(&v).as_str());
        let value_chars = chars_of(value.as_str());
        if crate::text::same_str(&key, "uses") {
            workflow_uses(out, file, &value_chars, number);
            continue;
        }
        let tool = match workflow_tool(&key) {
            Some(tool) => tool,
            None => {
                continue;
            },
        };
        let at = site(file, string_of(&key), value.as_str(), Some(number));
        let tool_name = string_of(&tool);
        if !crate::heuristics::looks_like_a_version(value.as_str()) {
            out.ambiguous(Ecosystem::Ci, tool_name.as_str(), at, "not evidently a version");
            continue;
        }
        let kind = if crate::text::same_str(&tool, "rust") {
            Kind::Msrv
        } else {
            Kind::Tool
        };
        out.push(
            Entry {
                ecosystem: Ecosystem::Ci,
                name: tool_name,
                kind,
                site: at,
                constraint: crate::grammar::ci_tool(value.as_str()),
                floats: ci_floats(value.as_str()),
            },
        );
    }
    assert(lv.take(ls.len() as int) =~= lv);
}

} // verus!

verus! {

// ---------------------------------------------------------------------
// package.json
// ---------------------------------------------------------------------

pub open spec fn npm_entry_of(file: Seq<char>, key: Seq<char>, name: Seq<char>, kind: Kind, raw: Seq<char>) -> EntryView {
    EntryView {
        ecosystem: Ecosystem::Npm,
        name,
        kind,
        site: site_at(file, key, raw, None),
        constraint: crate::grammar::npm_of(raw),
        floats: npm_floats_of(raw),
    }
}

fn npm_entry(file: &str, key: String, name: &str, kind: Kind, raw: &str) -> (r: Entry)
    ensures
        r@ == npm_entry_of(file@, key@, name@, kind, raw@),
{
    Entry {
        ecosystem: Ecosystem::Npm,
        name: name.to_owned(),
        kind,
        site: site(file, key, raw, None),
        constraint: crate::grammar::npm(raw),
        floats: npm_floats(raw),
    }
}

/// `a.b`: a key under a section.
pub open spec fn dotted(a: Seq<char>, b: Seq<char>) -> Seq<char> {
    a + "."@ + b
}

fn dotted_key(a: &str, b: &str) -> (r: String)
    ensures
        r@ == dotted(a@, b@),
{
    let mut key = String::from_str(a);
    key.append(".");
    key.append(b);
    key
}

/// One dependency section: an entry per string, an error per anything
/// else.
pub open spec fn npm_section_fold(out: ParsedView, file: Seq<char>, section: Seq<char>, kind: Kind, es: Seq<(Seq<char>, TreeView)>) -> ParsedView
    decreases es.len(),
{
    if es.len() == 0 {
        out
    } else {
        let o = npm_section_fold(out, file, section, kind, es.drop_last());
        let name = es.last().0;
        match es.last().1 {
            TreeView::Text(raw) => pushed(
                o,
                npm_entry_of(file, dotted(section, name), name, kind, raw),
            ),
            _ => with_error(o, dotted(section, name) + " is not a version string"@),
        }
    }
}

pub open spec fn npm_section_of(out: ParsedView, file: Seq<char>, root: TreeView, section: Seq<char>, kind: Kind) -> ParsedView {
    match tree_get(root, section) {
        Some(TreeView::Table(es)) => npm_section_fold(out, file, section, kind, es),
        _ => out,
    }
}

fn npm_section(out: &mut Parsed, file: &str, root: &Tree, section: &str, kind: Kind)
    ensures
        final(out)@ == npm_section_of(old(out)@, file@, root@, section@, kind),
{
    let table = match root.get(section) {
        Some(t) => t,
        None => {
            return;
        },
    };
    let es = match table.as_table() {
        Some(es) => es,
        None => {
            return;
        },
    };
    let ghost start = out@;
    let ghost tv = table_view(es@);
    proof {
        lemma_table_view(es@);
    }
    let mut i: usize = 0;
    while i < es.len()
        invariant
            0 <= i <= es.len(),
            tv == table_view(es@),
            tv.len() == es@.len(),
            forall|j: int|
                0 <= j < es@.len() ==> #[trigger] tv[j] == (es@[j].0@, crate::document::tree_view(
                    es@[j].1,
                )),
            out@ == npm_section_fold(start, file@, section@, kind, tv.take(i as int)),
        decreases es.len() - i,
    {
        proof {
            assert(tv.take(i + 1).drop_last() =~= tv.take(i as int));
            assert(tv.take(i + 1).last() == tv[i as int]);
        }
        let name = es[i].0.as_str();
        let key = dotted_key(section, name);
        match es[i].1.as_text() {
            Some(raw) => {
                let entry = npm_entry(file, key, name, kind, raw.as_str());
                out.push(entry);
            },
            None => {
                let mut message = key;
                message.append(" is not a version string");
                out.error(message);
            },
        }
        i = i + 1;
    }
    assert(tv.take(es.len() as int) =~= tv);
}

/// `engines.*`: a string is a constraint; anything else is skipped.
pub open spec fn engines_fold(out: ParsedView, file: Seq<char>, es: Seq<(Seq<char>, TreeView)>) -> ParsedView
    decreases es.len(),
{
    if es.len() == 0 {
        out
    } else {
        let o = engines_fold(out, file, es.drop_last());
        let name = es.last().0;
        match es.last().1 {
            TreeView::Text(raw) => pushed(
                o,
                npm_entry_of(file, dotted("engines"@, name), name, Kind::Engine, raw),
            ),
            _ => o,
        }
    }
}

pub open spec fn engines_of(out: ParsedView, file: Seq<char>, root: TreeView) -> ParsedView {
    match tree_get(root, "engines"@) {
        Some(TreeView::Table(es)) => engines_fold(out, file, es),
        _ => out,
    }
}

fn engines(out: &mut Parsed, file: &str, root: &Tree)
    ensures
        final(out)@ == engines_of(old(out)@, file@, root@),
{
    let table = match root.get("engines") {
        Some(t) => t,
        None => {
            return;
        },
    };
    let es = match table.as_table() {
        Some(es) => es,
        None => {
            return;
        },
    };
    let ghost start = out@;
    let ghost tv = table_view(es@);
    proof {
        lemma_table_view(es@);
    }
    let mut i: usize = 0;
    while i < es.len()
        invariant
            0 <= i <= es.len(),
            tv == table_view(es@),
            tv.len() == es@.len(),
            forall|j: int|
                0 <= j < es@.len() ==> #[trigger] tv[j] == (es@[j].0@, crate::document::tree_view(
                    es@[j].1,
                )),
            out@ == engines_fold(start, file@, tv.take(i as int)),
        decreases es.len() - i,
    {
        proof {
            assert(tv.take(i + 1).drop_last() =~= tv.take(i as int));
            assert(tv.take(i + 1).last() == tv[i as int]);
        }
        let name = es[i].0.as_str();
        if let Some(raw) = es[i].1.as_text() {
            let entry = npm_entry(file, dotted_key("engines", name), name, Kind::Engine, raw.as_str());
            out.push(entry);
        }
        i = i + 1;
    }
    assert(tv.take(es.len() as int) =~= tv);
}

pub open spec fn package_manager_of(out: ParsedView, file: Seq<char>, root: TreeView) -> ParsedView {
    match tree_get(root, "packageManager"@) {
        Some(TreeView::Text(raw)) => match split_once_by(raw, Class::Is('@')) {
            None => with_error(out, "packageManager is not <name>@<version>"@),
            Some(parts) => {
                let version = before_first(parts.1, Class::Is('+'));
                pushed(
                    out,
                    npm_entry_of(file, "packageManager"@, parts.0, Kind::Tool, version),
                )
            },
        },
        _ => out,
    }
}

/// `"packageManager": "bun@1.1.0"`: Corepack's pin. Corepack appends a
/// `+sha512.…` integrity hash; it is not part of the version.
fn package_manager(out: &mut Parsed, file: &str, root: &Tree)
    ensures
        final(out)@ == package_manager_of(old(out)@, file@, root@),
{
    let raw = match root.get("packageManager") {
        Some(t) => match t.as_text() {
            Some(raw) => chars_of(raw.as_str()),
            None => {
                return;
            },
        },
        None => {
            return;
        },
    };
    match crate::text::split_once_class(&raw, Class::Is('@')) {
        None => out.error(String::from_str("packageManager is not <name>@<version>")),
        Some((name, version)) => {
            let version = string_of(&prefix_before(&version, Class::Is('+')));
            let name = string_of(&name);
            let entry = npm_entry(
                file,
                String::from_str("packageManager"),
                name.as_str(),
                Kind::Tool,
                version.as_str(),
            );
            out.push(entry);
        },
    }
}

pub open spec fn package_json_of(out: ParsedView, file: Seq<char>, doc: Option<TreeView>) -> ParsedView {
    match doc {
        None => with_error(out, "not valid JSON"@),
        Some(root) => {
            let a = npm_section_of(out, file, root, "dependencies"@, Kind::Runtime);
            let b = npm_section_of(a, file, root, "devDependencies"@, Kind::Dev);
            let c = npm_section_of(b, file, root, "peerDependencies"@, Kind::Peer);
            let d = npm_section_of(c, file, root, "optionalDependencies"@, Kind::Optional);
            package_manager_of(engines_of(d, file, root), file, root)
        },
    }
}

/// The four dependency sections, `engines` and `packageManager`.
pub fn package_json(out: &mut Parsed, file: &str, content: &str)
    ensures
        final(out)@ == package_json_of(old(out)@, file@, json_document(content@)),
{
    package_json_tree(out, file, read_json(content));
}

/// The same reader, over the document as the parser handed it back:
/// `None` when the text did not parse.
pub fn package_json_tree(out: &mut Parsed, file: &str, doc: Option<Tree>)
    ensures
        final(out)@ == package_json_of(old(out)@, file@, crate::document::opt_tree_view(doc)),
{
    let root = match doc {
        Some(root) => root,
        None => {
            out.error(String::from_str("not valid JSON"));
            return;
        },
    };
    npm_section(out, file, &root, "dependencies", Kind::Runtime);
    npm_section(out, file, &root, "devDependencies", Kind::Dev);
    npm_section(out, file, &root, "peerDependencies", Kind::Peer);
    npm_section(out, file, &root, "optionalDependencies", Kind::Optional);
    engines(out, file, &root);
    package_manager(out, file, &root);
}

} // verus!

verus! {

// ---------------------------------------------------------------------
// Cargo.toml
// ---------------------------------------------------------------------

pub const NOT_A_REQUIREMENT: &'static str = "not a version requirement";

pub open spec fn has_key(t: Seq<(Seq<char>, TreeView)>, key: Seq<char>) -> bool {
    lookup(t, key) is Some
}

pub open spec fn no_version_reason_of(t: Seq<(Seq<char>, TreeView)>) -> Seq<char> {
    if has_key(t, "workspace"@) {
        "an inherited workspace dependency carries its version elsewhere"@
    } else if has_key(t, "git"@) {
        "a git dependency resolves outside the registry"@
    } else if has_key(t, "path"@) {
        "a path dependency with no version has no registry requirement"@
    } else {
        "a dependency table with no version"@
    }
}

/// Why a dependency table has nothing to compare, most specific source
/// first.
fn no_version_reason(table: &Tree) -> (r: &'static str)
    requires
        table@ is Table,
    ensures
        table@ matches TreeView::Table(t) && r@ == no_version_reason_of(t),
{
    if table.get("workspace").is_some() {
        "an inherited workspace dependency carries its version elsewhere"
    } else if table.get("git").is_some() {
        "a git dependency resolves outside the registry"
    } else if table.get("path").is_some() {
        "a path dependency with no version has no registry requirement"
    } else {
        "a dependency table with no version"
    }
}

/// The identity, the constraint text and the reason there is none, of one
/// `[dependencies]` entry. A table is renamed by `package`; a table with
/// no `version` has no constraint to compare.
pub open spec fn cargo_dependency_of(alias: Seq<char>, value: TreeView) -> (Seq<char>, Option<Seq<char>>, Option<Seq<char>>) {
    match value {
        TreeView::Text(raw) => (alias, Some(raw), None),
        TreeView::Table(t) => {
            let name = match lookup(t, "package"@) {
                Some(TreeView::Text(p)) => p,
                _ => alias,
            };
            match lookup(t, "version"@) {
                Some(TreeView::Text(v)) => (name, Some(v), None),
                _ => (name, None, Some(no_version_reason_of(t))),
            }
        },
        _ => (alias, None, Some(NOT_A_REQUIREMENT@)),
    }
}

fn cargo_dependency(alias: &str, value: &Tree) -> (r: (String, Option<String>, Option<&'static str>))
    ensures
        (r.0@, crate::text::string_opt(r.1), static_opt(r.2)) == cargo_dependency_of(alias@, value@),
{
    if let Some(raw) = value.as_text() {
        return (alias.to_owned(), Some(raw.clone()), None);
    }
    if value.as_table().is_none() {
        return (alias.to_owned(), None, Some(NOT_A_REQUIREMENT));
    }
    let name = match value.get("package") {
        Some(p) => match p.as_text() {
            Some(p) => p.clone(),
            None => alias.to_owned(),
        },
        None => alias.to_owned(),
    };
    if let Some(v) = value.get("version") {
        if let Some(raw) = v.as_text() {
            return (name, Some(raw.clone()), None);
        }
    }
    (name, None, Some(no_version_reason(value)))
}

pub open spec fn cargo_entry_of(file: Seq<char>, key: Seq<char>, alias: Seq<char>, kind: Kind, value: TreeView) -> EntryView {
    let d = cargo_dependency_of(alias, value);
    let raw = match d.1 {
        Some(r) => r,
        None => Seq::empty(),
    };
    EntryView {
        ecosystem: Ecosystem::Cargo,
        name: d.0,
        kind,
        site: site_at(file, dotted(key, alias), raw, None),
        constraint: match d.2 {
            Some(reason) => ConstraintView::Unknown(reason),
            None => crate::grammar::cargo_of(raw),
        },
        floats: if d.2 is None {
            cargo_floats_of(raw)
        } else {
            None
        },
    }
}

pub open spec fn cargo_deps_fold(out: ParsedView, file: Seq<char>, es: Seq<(Seq<char>, TreeView)>, key: Seq<char>, kind: Kind) -> ParsedView
    decreases es.len(),
{
    if es.len() == 0 {
        out
    } else {
        pushed(
            cargo_deps_fold(out, file, es.drop_last(), key, kind),
            cargo_entry_of(file, key, es.last().0, kind, es.last().1),
        )
    }
}

pub open spec fn cargo_section_of(out: ParsedView, file: Seq<char>, table: Option<TreeView>, key: Seq<char>, kind: Kind) -> ParsedView {
    match table {
        Some(TreeView::Table(es)) => cargo_deps_fold(out, file, es, key, kind),
        _ => out,
    }
}

fn cargo_section(out: &mut Parsed, file: &str, table: Option<&Tree>, key: &str, kind: Kind)
    ensures
        final(out)@ == cargo_section_of(
            old(out)@,
            file@,
            crate::document::ref_tree_view(table),
            key@,
            kind,
        ),
{
    let es = match table {
        Some(t) => match t.as_table() {
            Some(es) => es,
            None => {
                return;
            },
        },
        None => {
            return;
        },
    };
    let ghost start = out@;
    let ghost tv = table_view(es@);
    proof {
        lemma_table_view(es@);
    }
    let mut i: usize = 0;
    while i < es.len()
        invariant
            0 <= i <= es.len(),
            tv == table_view(es@),
            tv.len() == es@.len(),
            forall|j: int|
                0 <= j < es@.len() ==> #[trigger] tv[j] == (es@[j].0@, crate::document::tree_view(
                    es@[j].1,
                )),
            out@ == cargo_deps_fold(start, file@, tv.take(i as int), key@, kind),
        decreases es.len() - i,
    {
        proof {
            assert(tv.take(i + 1).drop_last() =~= tv.take(i as int));
            assert(tv.take(i + 1).last() == tv[i as int]);
        }
        let alias = es[i].0.as_str();
        let (name, raw, unknown) = cargo_dependency(alias, &es[i].1);
        let raw = match raw {
            Some(r) => r,
            None => String::new(),
        };
        let constraint = match unknown {
            Some(reason) => Constraint::Unknown(reason),
            None => crate::grammar::cargo(raw.as_str()),
        };
        let floats = match unknown {
            Some(_) => None,
            None => cargo_floats(raw.as_str()),
        };
        let entry = Entry {
            ecosystem: Ecosystem::Cargo,
            name,
            kind,
            site: site(file, dotted_key(key, alias), raw.as_str(), None),
            constraint,
            floats,
        };
        out.push(entry);
        i = i + 1;
    }
    assert(tv.take(es.len() as int) =~= tv);
}

pub open spec fn cargo_kind(section: int) -> Kind {
    if section == 0 {
        Kind::Runtime
    } else if section == 1 {
        Kind::Dev
    } else {
        Kind::Build
    }
}

pub open spec fn cargo_section_name(section: int) -> Seq<char> {
    if section == 0 {
        "dependencies"@
    } else if section == 1 {
        "dev-dependencies"@
    } else {
        "build-dependencies"@
    }
}

fn section_at(k: usize) -> (r: (&'static str, Kind))
    requires
        k < 3,
    ensures
        r.0@ == cargo_section_name(k as int),
        r.1 == cargo_kind(k as int),
{
    if k == 0 {
        ("dependencies", Kind::Runtime)
    } else if k == 1 {
        ("dev-dependencies", Kind::Dev)
    } else {
        ("build-dependencies", Kind::Build)
    }
}

/// The three sections of one platform table, in order.
pub open spec fn platform_sections(out: ParsedView, file: Seq<char>, platform: Seq<char>, table: TreeView, n: int) -> ParsedView
    decreases n,
{
    if n <= 0 {
        out
    } else {
        let o = platform_sections(out, file, platform, table, n - 1);
        cargo_section_of(
            o,
            file,
            tree_get(table, cargo_section_name(n - 1)),
            dotted(dotted("target"@, platform), cargo_section_name(n - 1)),
            cargo_kind(n - 1),
        )
    }
}

pub open spec fn targets_fold(out: ParsedView, file: Seq<char>, ps: Seq<(Seq<char>, TreeView)>) -> ParsedView
    decreases ps.len(),
{
    if ps.len() == 0 {
        out
    } else {
        platform_sections(
            targets_fold(out, file, ps.drop_last()),
            file,
            ps.last().0,
            ps.last().1,
            3,
        )
    }
}

pub open spec fn cargo_targets_of(out: ParsedView, file: Seq<char>, root: TreeView) -> ParsedView {
    match tree_get(root, "target"@) {
        Some(TreeView::Table(ps)) => targets_fold(out, file, ps),
        _ => out,
    }
}

/// `[target.'cfg(windows)'.dependencies]` and friends: a platform
/// dependency is still a dependency.
fn cargo_targets(out: &mut Parsed, file: &str, root: &Tree)
    ensures
        final(out)@ == cargo_targets_of(old(out)@, file@, root@),
{
    let ps = match root.get("target") {
        Some(t) => match t.as_table() {
            Some(ps) => ps,
            None => {
                return;
            },
        },
        None => {
            return;
        },
    };
    let ghost start = out@;
    let ghost tv = table_view(ps@);
    proof {
        lemma_table_view(ps@);
    }
    let mut i: usize = 0;
    while i < ps.len()
        invariant
            0 <= i <= ps.len(),
            tv == table_view(ps@),
            tv.len() == ps@.len(),
            forall|j: int|
                0 <= j < ps@.len() ==> #[trigger] tv[j] == (ps@[j].0@, crate::document::tree_view(
                    ps@[j].1,
                )),
            out@ == targets_fold(start, file@, tv.take(i as int)),
        decreases ps.len() - i,
    {
        proof {
            assert(tv.take(i + 1).drop_last() =~= tv.take(i as int));
            assert(tv.take(i + 1).last() == tv[i as int]);
        }
        let platform = ps[i].0.clone();
        let table = &ps[i].1;
        let ghost mid = out@;
        let mut k: usize = 0;
        while k < 3
            invariant
                0 <= k <= 3,
                out@ == platform_sections(mid, file@, platform@, table@, k as int),
            decreases 3 - k,
        {
            let (section, kind) = section_at(k);
            let key = dotted_key(dotted_key("target", platform.as_str()).as_str(), section);
            cargo_section(out, file, table.get(section), key.as_str(), kind);
            k = k + 1;
        }
        i = i + 1;
    }
    assert(tv.take(ps.len() as int) =~= tv);
}

pub open spec fn rust_version_of(out: ParsedView, file: Seq<char>, key: Seq<char>, value: Option<TreeView>) -> ParsedView {
    match value {
        Some(TreeView::Text(raw)) => pushed(
            out,
            EntryView {
                ecosystem: Ecosystem::Cargo,
                name: "rust"@,
                kind: Kind::Msrv,
                site: site_at(file, key, raw, None),
                constraint: crate::grammar::minimum_of(raw),
                floats: None,
            },
        ),
        _ => out,
    }
}

fn rust_version(out: &mut Parsed, file: &str, key: &str, value: Option<&Tree>)
    ensures
        final(out)@ == rust_version_of(
            old(out)@,
            file@,
            key@,
            crate::document::ref_tree_view(value),
        ),
{
    if let Some(v) = value {
        if let Some(raw) = v.as_text() {
            out.push(
                Entry {
                    ecosystem: Ecosystem::Cargo,
                    name: String::from_str("rust"),
                    kind: Kind::Msrv,
                    site: site(file, key.to_owned(), raw.as_str(), None),
                    constraint: crate::grammar::minimum(raw.as_str()),
                    floats: None,
                },
            );
        }
    }
}

/// Each dependency section at the top level and under `[workspace]`.
pub open spec fn cargo_sections(out: ParsedView, file: Seq<char>, root: TreeView, n: int) -> ParsedView
    decreases n,
{
    if n <= 0 {
        out
    } else {
        let o = cargo_sections(out, file, root, n - 1);
        let section = cargo_section_name(n - 1);
        let a = cargo_section_of(o, file, tree_get(root, section), section, cargo_kind(n - 1));
        cargo_section_of(
            a,
            file,
            opt_get(tree_get(root, "workspace"@), section),
            dotted("workspace"@, section),
            cargo_kind(n - 1),
        )
    }
}

pub open spec fn cargo_toml_of(out: ParsedView, file: Seq<char>, doc: Option<TreeView>) -> ParsedView {
    match doc {
        None => with_error(out, "not valid TOML"@),
        Some(root) => {
            let a = cargo_targets_of(cargo_sections(out, file, root, 3), file, root);
            let b = rust_version_of(
                a,
                file,
                "package.rust-version"@,
                opt_get(tree_get(root, "package"@), "rust-version"@),
            );
            rust_version_of(
                b,
                file,
                "workspace.package.rust-version"@,
                opt_get(opt_get(tree_get(root, "workspace"@), "package"@), "rust-version"@),
            )
        },
    }
}

fn get_in<'a>(t: Option<&'a Tree>, key: &str) -> (r: Option<&'a Tree>)
    ensures
        crate::document::ref_tree_view(r) == opt_get(crate::document::ref_tree_view(t), key@),
{
    match t {
        Some(t) => t.get(key),
        None => None,
    }
}

/// Dependencies, dev, build, their workspace and target variants, and
/// `rust-version`.
pub fn cargo_toml(out: &mut Parsed, file: &str, content: &str)
    ensures
        final(out)@ == cargo_toml_of(old(out)@, file@, toml_document(content@)),
{
    cargo_toml_tree(out, file, read_toml(content));
}

/// The same reader, over the document as the parser handed it back:
/// `None` when the text did not parse.
pub fn cargo_toml_tree(out: &mut Parsed, file: &str, doc: Option<Tree>)
    ensures
        final(out)@ == cargo_toml_of(old(out)@, file@, crate::document::opt_tree_view(doc)),
{
    let root = match doc {
        Some(root) => root,
        None => {
            out.error(String::from_str("not valid TOML"));
            return;
        },
    };
    let ghost start = out@;
    let mut k: usize = 0;
    while k < 3
        invariant
            0 <= k <= 3,
            out@ == cargo_sections(start, file@, root@, k as int),
        decreases 3 - k,
    {
        let (section, kind) = section_at(k);
        cargo_section(out, file, root.get(section), section, kind);
        let key = dotted_key("workspace", section);
        cargo_section(out, file, get_in(root.get("workspace"), section), key.as_str(), kind);
        k = k + 1;
    }
    cargo_targets(out, file, &root);
    rust_version(out, file, "package.rust-version", get_in(root.get("package"), "rust-version"));
    rust_version(
        out,
        file,
        "workspace.package.rust-version",
        get_in(get_in(root.get("workspace"), "package"), "rust-version"),
    );
}

} // verus!

verus! {

// ---------------------------------------------------------------------
// pyproject.toml
// ---------------------------------------------------------------------

pub open spec fn pep621_item_of(out: ParsedView, file: Seq<char>, key: Seq<char>, kind: Kind, item: TreeView) -> ParsedView {
    match item {
        TreeView::Text(text) => {
            let (name, specifier, unknown) = pep508_of(text);
            if name.len() == 0 {
                with_error(out, key + ": \""@ + text + "\" names no distribution"@)
            } else {
                pushed(
                    out,
                    EntryView {
                        ecosystem: Ecosystem::Python,
                        name,
                        kind,
                        site: site_at(file, dotted(key, text), specifier, None),
                        constraint: match unknown {
                            Some(reason) => ConstraintView::Unknown(reason),
                            None => crate::grammar::python_of(specifier),
                        },
                        floats: if unknown is None {
                            python_floats_of(specifier)
                        } else {
                            None
                        },
                    },
                )
            }
        },
        _ => with_error(out, key + " holds something that is not a requirement"@),
    }
}

pub open spec fn pep621_fold(out: ParsedView, file: Seq<char>, key: Seq<char>, kind: Kind, items: Seq<TreeView>) -> ParsedView
    decreases items.len(),
{
    if items.len() == 0 {
        out
    } else {
        pep621_item_of(pep621_fold(out, file, key, kind, items.drop_last()), file, key, kind, items.last())
    }
}

pub open spec fn pep621_list_of(out: ParsedView, file: Seq<char>, list: Option<TreeView>, key: Seq<char>, kind: Kind) -> ParsedView {
    match list {
        Some(TreeView::List(items)) => pep621_fold(out, file, key, kind, items),
        _ => out,
    }
}

/// A PEP 621 list of PEP 508 requirements.
fn pep621_list(out: &mut Parsed, file: &str, list: Option<&Tree>, key: &str, kind: Kind)
    ensures
        final(out)@ == pep621_list_of(
            old(out)@,
            file@,
            crate::document::ref_tree_view(list),
            key@,
            kind,
        ),
{
    let items = match list {
        Some(t) => match t.as_list() {
            Some(items) => items,
            None => {
                return;
            },
        },
        None => {
            return;
        },
    };
    let ghost start = out@;
    let ghost lv = list_view(items@);
    proof {
        lemma_list_view(items@);
    }
    let mut i: usize = 0;
    while i < items.len()
        invariant
            0 <= i <= items.len(),
            lv == list_view(items@),
            lv.len() == items@.len(),
            forall|j: int|
                0 <= j < items@.len() ==> #[trigger] lv[j] == crate::document::tree_view(items@[j]),
            out@ == pep621_fold(start, file@, key@, kind, lv.take(i as int)),
        decreases items.len() - i,
    {
        proof {
            assert(lv.take(i + 1).drop_last() =~= lv.take(i as int));
            assert(lv.take(i + 1).last() == lv[i as int]);
        }
        match items[i].as_text() {
            None => {
                let mut message = String::from_str(key);
                message.append(" holds something that is not a requirement");
                out.error(message);
            },
            Some(text) => {
                let (name, specifier, unknown) = pep508(text.as_str());
                if name.as_str().is_empty() {
                    let mut message = String::from_str(key);
                    message.append(": \"");
                    message.append(text.as_str());
                    message.append("\" names no distribution");
                    out.error(message);
                } else {
                    let constraint = match unknown {
                        Some(reason) => Constraint::Unknown(reason),
                        None => crate::grammar::python(specifier.as_str()),
                    };
                    let floats = match unknown {
                        Some(_) => None,
                        None => python_floats(specifier.as_str()),
                    };
                    let entry = Entry {
                        ecosystem: Ecosystem::Python,
                        name,
                        kind,
                        site: site(file, dotted_key(key, text.as_str()), specifier.as_str(), None),
                        constraint,
                        floats,
                    };
                    out.push(entry);
                }
            },
        }
        i = i + 1;
    }
    assert(lv.take(items.len() as int) =~= lv);
}

pub open spec fn optional_groups_fold(out: ParsedView, file: Seq<char>, gs: Seq<(Seq<char>, TreeView)>) -> ParsedView
    decreases gs.len(),
{
    if gs.len() == 0 {
        out
    } else {
        pep621_list_of(
            optional_groups_fold(out, file, gs.drop_last()),
            file,
            Some(gs.last().1),
            dotted("project.optional-dependencies"@, gs.last().0),
            Kind::Dev,
        )
    }
}

pub open spec fn pyproject_toml_of(out: ParsedView, file: Seq<char>, doc: Option<TreeView>) -> ParsedView {
    match doc {
        None => with_error(out, "not valid TOML"@),
        Some(root) => {
            let project = tree_get(root, "project"@);
            let a = match opt_get(project, "requires-python"@) {
                Some(TreeView::Text(raw)) => pushed(
                    out,
                    EntryView {
                        ecosystem: Ecosystem::Python,
                        name: "python"@,
                        kind: Kind::Engine,
                        site: site_at(file, "project.requires-python"@, raw, None),
                        constraint: crate::grammar::python_of(raw),
                        floats: python_floats_of(raw),
                    },
                ),
                _ => out,
            };
            let b = pep621_list_of(
                a,
                file,
                opt_get(project, "dependencies"@),
                "project.dependencies"@,
                Kind::Runtime,
            );
            match opt_get(project, "optional-dependencies"@) {
                Some(TreeView::Table(gs)) => optional_groups_fold(b, file, gs),
                _ => b,
            }
        },
    }
}

/// PEP 621 `dependencies`, `optional-dependencies` and `requires-python`.
pub fn pyproject_toml(out: &mut Parsed, file: &str, content: &str)
    ensures
        final(out)@ == pyproject_toml_of(old(out)@, file@, toml_document(content@)),
{
    pyproject_toml_tree(out, file, read_toml(content));
}

/// The same reader, over the document as the parser handed it back:
/// `None` when the text did not parse.
pub fn pyproject_toml_tree(out: &mut Parsed, file: &str, doc: Option<Tree>)
    ensures
        final(out)@ == pyproject_toml_of(old(out)@, file@, crate::document::opt_tree_view(doc)),
{
    let root = match doc {
        Some(root) => root,
        None => {
            out.error(String::from_str("not valid TOML"));
            return;
        },
    };
    let project = root.get("project");
    if let Some(v) = get_in(project, "requires-python") {
        if let Some(raw) = v.as_text() {
            out.push(
                Entry {
                    ecosystem: Ecosystem::Python,
                    name: String::from_str("python"),
                    kind: Kind::Engine,
                    site: site(
                        file,
                        String::from_str("project.requires-python"),
                        raw.as_str(),
                        None,
                    ),
                    constraint: crate::grammar::python(raw.as_str()),
                    floats: python_floats(raw.as_str()),
                },
            );
        }
    }
    pep621_list(
        out,
        file,
        get_in(project, "dependencies"),
        "project.dependencies",
        Kind::Runtime,
    );
    let gs = match get_in(project, "optional-dependencies") {
        Some(t) => match t.as_table() {
            Some(gs) => gs,
            None => {
                return;
            },
        },
        None => {
            return;
        },
    };
    let ghost start = out@;
    let ghost tv = table_view(gs@);
    proof {
        lemma_table_view(gs@);
    }
    let mut i: usize = 0;
    while i < gs.len()
        invariant
            0 <= i <= gs.len(),
            tv == table_view(gs@),
            tv.len() == gs@.len(),
            forall|j: int|
                0 <= j < gs@.len() ==> #[trigger] tv[j] == (gs@[j].0@, crate::document::tree_view(
                    gs@[j].1,
                )),
            out@ == optional_groups_fold(start, file@, tv.take(i as int)),
        decreases gs.len() - i,
    {
        proof {
            assert(tv.take(i + 1).drop_last() =~= tv.take(i as int));
            assert(tv.take(i + 1).last() == tv[i as int]);
        }
        let key = dotted_key("project.optional-dependencies", gs[i].0.as_str());
        pep621_list(out, file, Some(&gs[i].1), key.as_str(), Kind::Dev);
        i = i + 1;
    }
    assert(tv.take(gs.len() as int) =~= tv);
}

// ---------------------------------------------------------------------
// Every reader
// ---------------------------------------------------------------------

pub open spec fn parse_of(kind: crate::heuristics::ManifestKind, file: Seq<char>, content: Seq<char>) -> ParsedView {
    match kind {
        crate::heuristics::ManifestKind::PackageJson => package_json_of(
            nothing_parsed(),
            file,
            json_document(content),
        ),
        crate::heuristics::ManifestKind::CargoToml => cargo_toml_of(
            nothing_parsed(),
            file,
            toml_document(content),
        ),
        crate::heuristics::ManifestKind::PyprojectToml => pyproject_toml_of(
            nothing_parsed(),
            file,
            toml_document(content),
        ),
        crate::heuristics::ManifestKind::GoMod => go_fold(nothing_parsed(), file, lines(content)).0,
        crate::heuristics::ManifestKind::Workflow => workflow_fold(
            nothing_parsed(),
            file,
            lines(content),
        ),
    }
}

/// Read one manifest of a known kind: its entries, its refusals, and the
/// parts of it that should have been constraints and were not.
pub fn parse(kind: crate::heuristics::ManifestKind, file: &str, content: &str) -> (r: Parsed)
    ensures
        r@ == parse_of(kind, file@, content@),
{
    let mut out = Parsed::new();
    match kind {
        crate::heuristics::ManifestKind::PackageJson => package_json(&mut out, file, content),
        crate::heuristics::ManifestKind::CargoToml => cargo_toml(&mut out, file, content),
        crate::heuristics::ManifestKind::PyprojectToml => pyproject_toml(&mut out, file, content),
        crate::heuristics::ManifestKind::GoMod => go_mod(&mut out, file, content),
        crate::heuristics::ManifestKind::Workflow => workflow(&mut out, file, content),
    }
    out
}

} // verus!
