//! One analysis end to end: documents in, one report out.
//!
//! The report is one object for the whole run, not one line per
//! manifest: the answer is about the *set* of manifests.

use vstd::prelude::*;
use vstd::string::StringExecFns;
use crate::compare::{
    ERROR, Finding, FindingView, INFO, WARNING, analyse, analysed_findings, analysed_refusals,
    finding_views,
};
use crate::heuristics::{Ecosystem, ManifestKind, kind_ecosystem};
use crate::order::{insert_by, lemma_insert_by, lemma_insertion_point_is_first, sort_by};
use crate::parser::{
    Entry, EntryView, ParseErrorView, Refusal, RefusalView, SiteView, answers, entry_views, parse,
    parse_of, refusal_views, site_views,
};
use crate::text::chars_of;
use crate::version::{lex_compare, lex_order};

verus! {

/// The report's shape version, carried from day one so there is never a
/// report a reader has to sniff.
pub const SCHEMA: u32 = 1;

#[derive(Clone, Debug, PartialEq, Eq)]
pub struct ManifestSummary {
    pub path: String,
    pub ecosystem: Ecosystem,
    pub entries: usize,
}

pub struct ManifestSummaryView {
    pub path: Seq<char>,
    pub ecosystem: Ecosystem,
    pub entries: int,
}

impl View for ManifestSummary {
    type V = ManifestSummaryView;

    open spec fn view(&self) -> ManifestSummaryView {
        ManifestSummaryView { path: self.path@, ecosystem: self.ecosystem, entries: self.entries as int }
    }
}

#[derive(Clone, Debug, PartialEq, Eq)]
pub struct Diagnostic {
    pub severity: String,
    pub code: String,
    pub file: String,
    pub message: String,
}

pub struct DiagnosticView {
    pub severity: Seq<char>,
    pub code: Seq<char>,
    pub file: Seq<char>,
    pub message: Seq<char>,
}

impl View for Diagnostic {
    type V = DiagnosticView;

    open spec fn view(&self) -> DiagnosticView {
        DiagnosticView {
            severity: self.severity@,
            code: self.code@,
            file: self.file@,
            message: self.message@,
        }
    }
}

pub open spec fn diagnostic_views(s: Seq<Diagnostic>) -> Seq<DiagnosticView> {
    s.map_values(|d: Diagnostic| d@)
}

pub open spec fn manifest_views(s: Seq<ManifestSummary>) -> Seq<ManifestSummaryView> {
    s.map_values(|m: ManifestSummary| m@)
}

#[derive(Clone, Copy, Debug, PartialEq, Eq, Structural)]
pub struct Summary {
    pub manifests: usize,
    pub entries: usize,
    pub findings: usize,
    pub refusals: usize,
    pub errors: usize,
    pub warnings: usize,
    pub infos: usize,
}

/// **No timestamp.** A report is a thing to diff, and a timestamp makes
/// every run differ from every other.
#[derive(Clone, Debug, PartialEq, Eq)]
pub struct Report {
    pub schema: u32,
    pub manifests: Vec<ManifestSummary>,
    pub findings: Vec<Finding>,
    pub refusals: Vec<Refusal>,
    pub diagnostics: Vec<Diagnostic>,
    pub summary: Summary,
}

pub struct ReportView {
    pub schema: u32,
    pub manifests: Seq<ManifestSummaryView>,
    pub findings: Seq<FindingView>,
    pub refusals: Seq<RefusalView>,
    pub diagnostics: Seq<DiagnosticView>,
    pub summary: Summary,
}

impl View for Report {
    type V = ReportView;

    open spec fn view(&self) -> ReportView {
        ReportView {
            schema: self.schema,
            manifests: manifest_views(self.manifests@),
            findings: finding_views(self.findings@),
            refusals: refusal_views(self.refusals@),
            diagnostics: diagnostic_views(self.diagnostics@),
            summary: self.summary,
        }
    }
}

/// What makes a run exit 1.
#[derive(Clone, Copy, Debug, PartialEq, Eq, Structural)]
pub enum FailOn {
    /// Anything the tool calls a defect; a floating pin is `info` and
    /// does not fail a build that has decided to accept one.
    Conflict,
    /// Any finding at all.
    Any,
}

impl Default for FailOn {
    fn default() -> (r: FailOn)
        ensures
            r == FailOn::Conflict,
    {
        FailOn::Conflict
    }
}

/// One document as either surface supplies it: what kind of manifest it
/// is, what it is called in the report, and its text.
#[derive(Clone, Debug)]
pub struct Document {
    pub kind: ManifestKind,
    pub label: String,
    pub content: String,
}

pub struct DocumentView {
    pub kind: ManifestKind,
    pub label: Seq<char>,
    pub content: Seq<char>,
}

impl View for Document {
    type V = DocumentView;

    open spec fn view(&self) -> DocumentView {
        DocumentView { kind: self.kind, label: self.label@, content: self.content@ }
    }
}

pub open spec fn document_views(s: Seq<Document>) -> Seq<DocumentView> {
    s.map_values(|d: Document| d@)
}

// ---------------------------------------------------------------------
// The summary
// ---------------------------------------------------------------------

pub open spec fn findings_with(fs: Seq<FindingView>, severity: Seq<char>) -> int
    decreases fs.len(),
{
    if fs.len() == 0 {
        0
    } else {
        findings_with(fs.drop_last(), severity) + if fs.last().severity == severity {
            1int
        } else {
            0int
        }
    }
}

pub open spec fn diagnostics_with(ds: Seq<DiagnosticView>, severity: Seq<char>) -> int
    decreases ds.len(),
{
    if ds.len() == 0 {
        0
    } else {
        diagnostics_with(ds.drop_last(), severity) + if ds.last().severity == severity {
            1int
        } else {
            0int
        }
    }
}

/// A count, or `usize::MAX` for one too large to hold.
pub open spec fn saturated(n: int) -> usize {
    if n > usize::MAX {
        usize::MAX
    } else {
        n as usize
    }
}

/// The counts, derived from the report's lists; only `entries` is
/// carried in, because an entry the comparison ignored leaves no trace in
/// any list.
pub open spec fn summary_of(r: ReportView) -> Summary {
    Summary {
        manifests: r.manifests.len() as usize,
        entries: r.summary.entries,
        findings: r.findings.len() as usize,
        refusals: r.refusals.len() as usize,
        errors: saturated(findings_with(r.findings, ERROR@) + diagnostics_with(r.diagnostics, ERROR@)),
        warnings: saturated(
            findings_with(r.findings, WARNING@) + diagnostics_with(r.diagnostics, WARNING@),
        ),
        infos: saturated(findings_with(r.findings, INFO@) + diagnostics_with(r.diagnostics, INFO@)),
    }
}

proof fn lemma_findings_with_bound(fs: Seq<FindingView>, severity: Seq<char>)
    ensures
        0 <= findings_with(fs, severity) <= fs.len(),
    decreases fs.len(),
{
    if fs.len() > 0 {
        lemma_findings_with_bound(fs.drop_last(), severity);
    }
}

proof fn lemma_diagnostics_with_bound(ds: Seq<DiagnosticView>, severity: Seq<char>)
    ensures
        0 <= diagnostics_with(ds, severity) <= ds.len(),
    decreases ds.len(),
{
    if ds.len() > 0 {
        lemma_diagnostics_with_bound(ds.drop_last(), severity);
    }
}

fn count_severity(report: &Report, severity: &str) -> (n: usize)
    ensures
        n == saturated(
            findings_with(report@.findings, severity@) + diagnostics_with(
                report@.diagnostics,
                severity@,
            ),
        ),
{
    let ghost fs = report@.findings;
    let ghost ds = report@.diagnostics;
    let mut a: usize = 0;
    let mut i: usize = 0;
    while i < report.findings.len()
        invariant
            0 <= i <= report.findings.len(),
            fs == report@.findings,
            a == findings_with(fs.take(i as int), severity@),
            a <= i,
        decreases report.findings.len() - i,
    {
        proof {
            assert(fs.take(i + 1).drop_last() =~= fs.take(i as int));
        }
        if report.findings[i].severity == severity.to_owned() {
            a = a + 1;
        }
        i = i + 1;
    }
    assert(fs.take(report.findings.len() as int) =~= fs);
    let mut b: usize = 0;
    let mut j: usize = 0;
    while j < report.diagnostics.len()
        invariant
            0 <= j <= report.diagnostics.len(),
            ds == report@.diagnostics,
            b == diagnostics_with(ds.take(j as int), severity@),
            b <= j,
        decreases report.diagnostics.len() - j,
    {
        proof {
            assert(ds.take(j + 1).drop_last() =~= ds.take(j as int));
        }
        if report.diagnostics[j].severity == severity.to_owned() {
            b = b + 1;
        }
        j = j + 1;
    }
    assert(ds.take(report.diagnostics.len() as int) =~= ds);
    if a > usize::MAX - b {
        usize::MAX
    } else {
        a + b
    }
}

/// The counts, derived from the report rather than tallied alongside it,
/// so a summary can never disagree with the lists it summarises.
pub fn summarise(report: &Report) -> (r: Summary)
    ensures
        r == summary_of(report@),
{
    Summary {
        manifests: report.manifests.len(),
        entries: report.summary.entries,
        findings: report.findings.len(),
        refusals: report.refusals.len(),
        errors: count_severity(report, ERROR),
        warnings: count_severity(report, WARNING),
        infos: count_severity(report, INFO),
    }
}


// ---------------------------------------------------------------------
// One refusal per reason and name
// ---------------------------------------------------------------------

/// Two refusals belong in one row when they give the same reason for the
/// same name. The row keeps the first one's ecosystem and message, and
/// takes every site, in the order the refusals came.
pub open spec fn same_row(a: RefusalView, b: RefusalView) -> bool {
    a.reason == b.reason && a.name == b.name
}

/// The first held refusal the new one merges into.
pub open spec fn first_row(ms: Seq<RefusalView>, r: RefusalView) -> Option<int>
    decreases ms.len(),
{
    if ms.len() == 0 {
        None
    } else {
        match first_row(ms.drop_last(), r) {
            Some(k) => Some(k),
            None => if same_row(ms.last(), r) {
                Some(ms.len() - 1)
            } else {
                None
            },
        }
    }
}

pub open spec fn merge_one(ms: Seq<RefusalView>, r: RefusalView) -> Seq<RefusalView> {
    match first_row(ms, r) {
        Some(k) => ms.update(k, RefusalView { sites: ms[k].sites + r.sites, ..ms[k] }),
        None => ms.push(r),
    }
}

pub open spec fn merge_all(rs: Seq<RefusalView>) -> Seq<RefusalView>
    decreases rs.len(),
{
    if rs.len() == 0 {
        Seq::empty()
    } else {
        merge_one(merge_all(rs.drop_last()), rs.last())
    }
}

pub open spec fn refusal_before(a: RefusalView, b: RefusalView) -> bool {
    lex_order(a.reason, b.reason) < 0 || (lex_order(a.reason, b.reason) == 0 && lex_order(
        a.name,
        b.name,
    ) < 0)
}

pub open spec fn refusal_order() -> spec_fn(RefusalView, RefusalView) -> bool {
    |a: RefusalView, b: RefusalView| refusal_before(a, b)
}

/// Rows merged, then sorted by reason and name.
pub open spec fn merged_refusals(rs: Seq<RefusalView>) -> Seq<RefusalView> {
    sort_by(merge_all(rs), refusal_order())
}

proof fn lemma_first_row(ms: Seq<RefusalView>, r: RefusalView)
    ensures
        first_row(ms, r) matches Some(k) ==> 0 <= k < ms.len() && same_row(ms[k], r) && forall|
            j: int,
        | 0 <= j < k ==> !same_row(#[trigger] ms[j], r),
        first_row(ms, r) is None ==> forall|j: int| 0 <= j < ms.len() ==> !same_row(#[trigger] ms[j], r),
    decreases ms.len(),
{
    if ms.len() > 0 {
        let d = ms.drop_last();
        lemma_first_row(d, r);
        match first_row(d, r) {
            Some(k) => {
                assert forall|j: int| 0 <= j < k implies !same_row(#[trigger] ms[j], r) by {
                    assert(ms[j] == d[j]);
                }
                assert(ms[k] == d[k]);
            },
            None => {
                assert forall|j: int| 0 <= j < ms.len() - 1 implies !same_row(#[trigger] ms[j], r) by {
                    assert(ms[j] == d[j]);
                }
            },
        }
    }
}

proof fn lemma_first_row_is(ms: Seq<RefusalView>, r: RefusalView, k: int)
    requires
        0 <= k <= ms.len(),
        k < ms.len() ==> same_row(ms[k], r),
        forall|j: int| 0 <= j < k ==> !same_row(#[trigger] ms[j], r),
    ensures
        k < ms.len() ==> first_row(ms, r) == Some(k),
        k == ms.len() ==> first_row(ms, r) is None,
{
    lemma_first_row(ms, r);
    match first_row(ms, r) {
        Some(f) => {
            if f < k {
                assert(!same_row(ms[f], r));
            }
            if k < f {
                assert(same_row(ms[k], r));
            }
        },
        None => {
            if k < ms.len() {
                assert(!same_row(ms[k], r));
            }
        },
    }
}

fn same_refusal_row(a: &Refusal, b: &Refusal) -> (r: bool)
    ensures
        r == same_row(a@, b@),
{
    a.reason == b.reason && a.name == b.name
}

fn refusal_precedes(a: &Refusal, b: &Refusal) -> (r: bool)
    ensures
        r == refusal_before(a@, b@),
{
    let by_reason = lex_compare(&chars_of(a.reason.as_str()), &chars_of(b.reason.as_str()));
    if by_reason != 0 {
        return by_reason < 0;
    }
    lex_compare(&chars_of(a.name.as_str()), &chars_of(b.name.as_str())) < 0
}

fn insert_refusal(list: &mut Vec<Refusal>, x: Refusal)
    ensures
        refusal_views(final(list)@) == insert_by(refusal_views(old(list)@), x@, refusal_order()),
{
    let ghost rs = refusal_views(list@);
    let mut p: usize = 0;
    while p < list.len() && !refusal_precedes(&x, &list[p])
        invariant
            0 <= p <= list.len(),
            rs == refusal_views(list@),
            forall|k: int| 0 <= k < p ==> !refusal_before(x@, #[trigger] rs[k]),
        decreases list.len() - p,
    {
        p = p + 1;
    }
    proof {
        lemma_insertion_point_is_first(rs, x@, refusal_order(), p as int);
        lemma_insert_by(rs, x@, refusal_order());
    }
    let ghost xv = x@;
    list.insert(p, x);
    assert(refusal_views(list@) =~= rs.insert(p as int, xv));
}

/// One refusal per (reason, name), carrying every site, sorted by reason
/// and name. A row keeps the ecosystem and message of the first refusal
/// that opened it, and gains the sites of each later one in input order.
/// Sixteen rows saying one action is SHA-pinned is one fact sixteen
/// times.
pub fn merge_refusals(refusals: Vec<Refusal>) -> (r: Vec<Refusal>)
    ensures
        refusal_views(r@) == merged_refusals(refusal_views(refusals@)),
{
    let ghost rv = refusal_views(refusals@);
    let mut rest = refusals;
    let total = rest.len();
    assert(rv.len() == total);
    assert(rv.skip(0) =~= rv);
    let mut merged: Vec<Refusal> = Vec::new();
    let mut i: usize = 0;
    while rest.len() > 0
        invariant
            0 <= i <= rv.len(),
            rv.len() == total,
            rest@.len() == rv.len() - i,
            refusal_views(rest@) == rv.skip(i as int),
            refusal_views(merged@) == merge_all(rv.take(i as int)),
        decreases rest.len(),
    {
        let ghost old_rest = rest@;
        let mut refusal = rest.remove(0);
        proof {
            assert(rest@ =~= old_rest.skip(1));
            assert(refusal_views(rest@) =~= refusal_views(old_rest).skip(1));
            assert(rv.skip(i as int).skip(1) =~= rv.skip(i + 1));
            assert(rv.skip(i as int)[0] == refusal@);
            assert(rv.take(i + 1).drop_last() =~= rv.take(i as int));
            assert(rv.take(i + 1).last() == refusal@);
        }
        let ghost ms = refusal_views(merged@);
        let ghost rview = refusal@;
        let mut k: usize = 0;
        while k < merged.len() && !same_refusal_row(&merged[k], &refusal)
            invariant
                0 <= k <= merged.len(),
                ms == refusal_views(merged@),
                rview == refusal@,
                forall|j: int| 0 <= j < k ==> !same_row(#[trigger] ms[j], rview),
            decreases merged.len() - k,
        {
            k = k + 1;
        }
        proof {
            lemma_first_row_is(ms, rview, k as int);
        }
        if k < merged.len() {
            let mut held = merged.remove(k);
            let ghost hv = held@;
            held.sites.append(&mut refusal.sites);
            assert(site_views(held.sites@) =~= hv.sites + rview.sites);
            merged.insert(k, held);
            assert(refusal_views(merged@) =~= ms.update(
                k as int,
                RefusalView { sites: ms[k as int].sites + rview.sites, ..ms[k as int] },
            ));
        } else {
            merged.push(refusal);
            assert(refusal_views(merged@) =~= ms.push(rview));
        }
        i = i + 1;
    }
    assert(rv.take(i as int) =~= rv);
    let ghost mv = refusal_views(merged@);
    let count = merged.len();
    assert(mv.len() == count);
    assert(mv.skip(0) =~= mv);
    let mut sorted: Vec<Refusal> = Vec::new();
    let mut j: usize = 0;
    while merged.len() > 0
        invariant
            0 <= j <= mv.len(),
            mv.len() == count,
            merged@.len() == mv.len() - j,
            refusal_views(merged@) == mv.skip(j as int),
            refusal_views(sorted@) == sort_by(mv.take(j as int), refusal_order()),
        decreases merged.len(),
    {
        let ghost old_merged = merged@;
        let r = merged.remove(0);
        proof {
            assert(merged@ =~= old_merged.skip(1));
            assert(refusal_views(merged@) =~= refusal_views(old_merged).skip(1));
            assert(mv.skip(j as int).skip(1) =~= mv.skip(j + 1));
            assert(mv.skip(j as int)[0] == r@);
            assert(mv.take(j + 1).drop_last() =~= mv.take(j as int));
            assert(mv.take(j + 1).last() == r@);
        }
        insert_refusal(&mut sorted, r);
        j = j + 1;
    }
    assert(mv.take(j as int) =~= mv);
    sorted
}

// ---------------------------------------------------------------------
// The exit code
// ---------------------------------------------------------------------

/// Part of the tree went unanalysed: a diagnostic, or a refusal that is
/// not itself the answer.
pub open spec fn unanalysed(r: ReportView) -> bool {
    r.diagnostics.len() > 0 || exists|k: int|
        0 <= k < r.refusals.len() && !answers(#[trigger] r.refusals[k].reason)
}

pub open spec fn fails(f: FindingView, fail_on: FailOn) -> bool {
    match fail_on {
        FailOn::Conflict => f.severity != INFO@,
        FailOn::Any => true,
    }
}

pub open spec fn failing(r: ReportView, fail_on: FailOn) -> bool {
    exists|k: int| 0 <= k < r.findings.len() && fails(#[trigger] r.findings[k], fail_on)
}

/// 0 clean, 1 findings, 2 the question could not be answered.
pub open spec fn exit_code_of(r: ReportView, fail_on: FailOn, strict: bool) -> u8 {
    if strict && unanalysed(r) {
        2
    } else if failing(r, fail_on) {
        1
    } else {
        0
    }
}

/// 0 clean, 1 findings, 2 when `strict` and part of the tree went
/// unanalysed. The refusals that *are* the answer never trigger 2.
pub fn exit_code(report: &Report, fail_on: FailOn, strict: bool) -> (code: u8)
    ensures
        code == exit_code_of(report@, fail_on, strict),
{
    let ghost rv = report@;
    let mut refused = false;
    let mut k: usize = 0;
    while k < report.refusals.len()
        invariant
            0 <= k <= report.refusals.len(),
            rv == report@,
            refused == exists|j: int| 0 <= j < k && !answers(#[trigger] rv.refusals[j].reason),
        decreases report.refusals.len() - k,
    {
        let answer = report.refusals[k].is_the_answer();
        assert(answer == answers(rv.refusals[k as int].reason));
        if !answer {
            refused = true;
        }
        k = k + 1;
    }
    let unread = report.diagnostics.len() > 0;
    if strict && (unread || refused) {
        return 2;
    }
    let mut fail = false;
    let mut j: usize = 0;
    while j < report.findings.len()
        invariant
            0 <= j <= report.findings.len(),
            rv == report@,
            fail == exists|x: int| 0 <= x < j && fails(#[trigger] rv.findings[x], fail_on),
        decreases report.findings.len() - j,
    {
        let this = match fail_on {
            FailOn::Conflict => report.findings[j].severity != String::from_str(INFO),
            FailOn::Any => true,
        };
        assert(this == fails(rv.findings[j as int], fail_on));
        if this {
            fail = true;
        }
        j = j + 1;
    }
    if fail {
        1
    } else {
        0
    }
}


// ---------------------------------------------------------------------
// A report from documents
// ---------------------------------------------------------------------

pub open spec fn error_diagnostics(es: Seq<ParseErrorView>, file: Seq<char>) -> Seq<DiagnosticView> {
    es.map_values(
        |e: ParseErrorView|
            DiagnosticView { severity: ERROR@, code: e.kind, file, message: e.message },
    )
}

/// What the readers produced, document by document: the manifests, the
/// diagnostics, the entries and the refusals.
pub open spec fn gathered(docs: Seq<DocumentView>) -> (
    Seq<ManifestSummaryView>,
    Seq<DiagnosticView>,
    Seq<EntryView>,
    Seq<RefusalView>,
)
    decreases docs.len(),
{
    if docs.len() == 0 {
        (Seq::empty(), Seq::empty(), Seq::empty(), Seq::empty())
    } else {
        let g = gathered(docs.drop_last());
        let d = docs.last();
        let p = parse_of(d.kind, d.label, d.content);
        (
            g.0.push(
                ManifestSummaryView {
                    path: d.label,
                    ecosystem: kind_ecosystem(d.kind),
                    entries: p.entries.len() as int,
                },
            ),
            g.1 + error_diagnostics(p.errors, d.label),
            g.2 + p.entries,
            g.3 + p.refusals,
        )
    }
}

pub open spec fn with_summary(r: ReportView) -> ReportView {
    ReportView { summary: summary_of(r), ..r }
}

/// The report before its counts: every check over every entry, and the
/// refusals of the readers and of the comparison merged.
pub open spec fn report_base(docs: Seq<DocumentView>) -> ReportView {
    let g = gathered(docs);
    ReportView {
        schema: SCHEMA,
        manifests: g.0,
        findings: analysed_findings(g.2),
        refusals: merged_refusals(g.3 + analysed_refusals(g.2)),
        diagnostics: g.1,
        summary: Summary {
            manifests: 0,
            entries: g.2.len() as usize,
            findings: 0,
            refusals: 0,
            errors: 0,
            warnings: 0,
            infos: 0,
        },
    }
}

pub open spec fn report_of(docs: Seq<DocumentView>) -> ReportView {
    with_summary(report_base(docs))
}

/// One error diagnostic per parse error, each naming the file.
fn error_rows(errors: &Vec<crate::parser::ParseError>, file: &String) -> (r: Vec<Diagnostic>)
    ensures
        diagnostic_views(r@) == error_diagnostics(
            errors@.map_values(|e: crate::parser::ParseError| e@),
            file@,
        ),
{
    let ghost ev = errors@.map_values(|e: crate::parser::ParseError| e@);
    let mut out: Vec<Diagnostic> = Vec::new();
    let mut k: usize = 0;
    while k < errors.len()
        invariant
            0 <= k <= errors.len(),
            ev == errors@.map_values(|e: crate::parser::ParseError| e@),
            diagnostic_views(out@) == error_diagnostics(ev.take(k as int), file@),
        decreases errors.len() - k,
    {
        let ghost before = diagnostic_views(out@);
        let d = Diagnostic {
            severity: String::from_str(ERROR),
            code: errors[k].kind.clone(),
            file: file.clone(),
            message: errors[k].message.clone(),
        };
        out.push(d);
        proof {
            assert(diagnostic_views(out@) =~= before.push(d@));
            assert(ev.take(k + 1) =~= ev.take(k as int).push(ev[k as int]));
            assert(error_diagnostics(ev.take(k + 1), file@) =~= error_diagnostics(
                ev.take(k as int),
                file@,
            ).push(d@));
        }
        k = k + 1;
    }
    assert(ev.take(errors.len() as int) =~= ev);
    out
}

/// What the readers produce over a set of documents, in order.
fn gather(documents: &Vec<Document>) -> (r: (
    Vec<ManifestSummary>,
    Vec<Diagnostic>,
    Vec<Entry>,
    Vec<Refusal>,
))
    ensures
        (manifest_views(r.0@), diagnostic_views(r.1@), entry_views(r.2@), refusal_views(r.3@))
            == gathered(document_views(documents@)),
{
    let ghost ds = document_views(documents@);
    let mut entries: Vec<Entry> = Vec::new();
    let mut refusals: Vec<Refusal> = Vec::new();
    let mut diagnostics: Vec<Diagnostic> = Vec::new();
    let mut manifests: Vec<ManifestSummary> = Vec::new();
    let mut i: usize = 0;
    while i < documents.len()
        invariant
            0 <= i <= documents.len(),
            ds == document_views(documents@),
            (manifest_views(manifests@), diagnostic_views(diagnostics@), entry_views(entries@), refusal_views(refusals@))
                == gathered(ds.take(i as int)),
        decreases documents.len() - i,
    {
        let document = &documents[i];
        proof {
            assert(ds.take(i + 1).drop_last() =~= ds.take(i as int));
            assert(ds.take(i + 1).last() == document@);
        }
        let mut parsed = parse(document.kind, document.label.as_str(), document.content.as_str());
        let ghost pv = parsed@;
        let ghost m0 = manifest_views(manifests@);
        let summary = ManifestSummary {
            path: document.label.clone(),
            ecosystem: document.kind.ecosystem(),
            entries: parsed.entries.len(),
        };
        manifests.push(summary);
        assert(manifest_views(manifests@) =~= m0.push(summary@));
        let ghost d0 = diagnostic_views(diagnostics@);
        let mut rows = error_rows(&parsed.errors, &document.label);
        diagnostics.append(&mut rows);
        assert(diagnostic_views(diagnostics@) =~= d0 + error_diagnostics(pv.errors, document.label@));
        let ghost e0 = entry_views(entries@);
        let ghost r0 = refusal_views(refusals@);
        entries.append(&mut parsed.entries);
        refusals.append(&mut parsed.refusals);
        assert(entry_views(entries@) =~= e0 + pv.entries);
        assert(refusal_views(refusals@) =~= r0 + pv.refusals);
        i = i + 1;
    }
    assert(ds.take(documents.len() as int) =~= ds);
    (manifests, diagnostics, entries, refusals)
}

/// The report for a set of documents: the path both surfaces come
/// through, so a check is written once.
pub fn report_for(documents: &Vec<Document>) -> (r: Report)
    ensures
        r@ == report_of(document_views(documents@)),
{
    let ghost ds = document_views(documents@);
    let (manifests, diagnostics, entries, mut refusals) = gather(documents);
    let (findings, crossings) = analyse(&entries);
    let ghost rv = refusal_views(refusals@);
    let mut crossings = crossings;
    refusals.append(&mut crossings);
    assert(refusal_views(refusals@) =~= rv + analysed_refusals(entry_views(entries@)));
    let refusals = merge_refusals(refusals);
    let mut report = Report {
        schema: SCHEMA,
        manifests,
        findings,
        refusals,
        diagnostics,
        summary: Summary {
            manifests: 0,
            entries: entries.len(),
            findings: 0,
            refusals: 0,
            errors: 0,
            warnings: 0,
            infos: 0,
        },
    };
    assert(report@ == report_base(ds));
    report.summary = summarise(&report);
    report
}

// ---------------------------------------------------------------------
// A scan: what discovery found, read or not
// ---------------------------------------------------------------------

/// One manifest discovery found: its kind, its label in the report, its
/// basename for a diagnostic, and its text or why it could not be read.
pub struct Found {
    pub kind: ManifestKind,
    pub label: String,
    pub name: String,
    pub content: Result<String, String>,
}

pub struct FoundView {
    pub kind: ManifestKind,
    pub label: Seq<char>,
    pub name: Seq<char>,
    pub content: Result<Seq<char>, Seq<char>>,
}

impl View for Found {
    type V = FoundView;

    open spec fn view(&self) -> FoundView {
        FoundView {
            kind: self.kind,
            label: self.label@,
            name: self.name@,
            content: match self.content {
                Ok(c) => Ok(c@),
                Err(e) => Err(e@),
            },
        }
    }
}

pub open spec fn found_views(s: Seq<Found>) -> Seq<FoundView> {
    s.map_values(|f: Found| f@)
}

/// The documents that were read, in order.
pub open spec fn read_documents(fs: Seq<FoundView>) -> Seq<DocumentView>
    decreases fs.len(),
{
    if fs.len() == 0 {
        Seq::empty()
    } else {
        let rest = read_documents(fs.drop_last());
        match fs.last().content {
            Ok(c) => rest.push(DocumentView { kind: fs.last().kind, label: fs.last().label, content: c }),
            Err(_) => rest,
        }
    }
}

/// One `unreadable` diagnostic per manifest that could not be read.
pub open spec fn unread_diagnostics(fs: Seq<FoundView>) -> Seq<DiagnosticView>
    decreases fs.len(),
{
    if fs.len() == 0 {
        Seq::empty()
    } else {
        let rest = unread_diagnostics(fs.drop_last());
        match fs.last().content {
            Ok(_) => rest,
            Err(message) => rest.push(
                DiagnosticView {
                    severity: ERROR@,
                    code: "unreadable"@,
                    file: fs.last().name,
                    message,
                },
            ),
        }
    }
}

pub open spec fn scan_of(fs: Seq<FoundView>) -> ReportView {
    let r = report_of(read_documents(fs));
    with_summary(ReportView { diagnostics: r.diagnostics + unread_diagnostics(fs), ..r })
}

/// Analyse what discovery found. One unreadable manifest does not abort
/// the analysis of the rest; it is named in the diagnostics so the
/// answer is not quietly narrower than it looks.
pub fn scan(found: Vec<Found>) -> (r: Report)
    ensures
        r@ == scan_of(found_views(found@)),
{
    let ghost fv = found_views(found@);
    let mut documents: Vec<Document> = Vec::new();
    let mut unread: Vec<Diagnostic> = Vec::new();
    let mut i: usize = 0;
    while i < found.len()
        invariant
            0 <= i <= found.len(),
            fv == found_views(found@),
            document_views(documents@) == read_documents(fv.take(i as int)),
            diagnostic_views(unread@) == unread_diagnostics(fv.take(i as int)),
        decreases found.len() - i,
    {
        let f = &found[i];
        proof {
            assert(fv.take(i + 1).drop_last() =~= fv.take(i as int));
            assert(fv.take(i + 1).last() == f@);
        }
        match &f.content {
            Ok(content) => {
                let ghost before = document_views(documents@);
                let d = Document { kind: f.kind, label: f.label.clone(), content: content.clone() };
                documents.push(d);
                assert(document_views(documents@) =~= before.push(d@));
            },
            Err(message) => {
                let ghost before = diagnostic_views(unread@);
                let d = Diagnostic {
                    severity: String::from_str(ERROR),
                    code: String::from_str("unreadable"),
                    file: f.name.clone(),
                    message: message.clone(),
                };
                unread.push(d);
                assert(diagnostic_views(unread@) =~= before.push(d@));
            },
        }
        i = i + 1;
    }
    assert(fv.take(found.len() as int) =~= fv);
    let mut report = report_for(&documents);
    let ghost d0 = diagnostic_views(report.diagnostics@);
    report.diagnostics.append(&mut unread);
    assert(diagnostic_views(report.diagnostics@) =~= d0 + unread_diagnostics(fv));
    report.summary = summarise(&report);
    report
}


// ---------------------------------------------------------------------
// What the exit code and the report promise
// ---------------------------------------------------------------------

/// **The refusals that are the answer never trip `--strict`.** With no
/// diagnostics, and only `cross_ecosystem` and `per_job_tool_version`
/// refusals, a strict run exits as a relaxed one does.
pub proof fn lemma_the_answer_never_fails_strict(r: ReportView, fail_on: FailOn)
    requires
        r.diagnostics.len() == 0,
        forall|k: int| 0 <= k < r.refusals.len() ==> answers(#[trigger] r.refusals[k].reason),
    ensures
        exit_code_of(r, fail_on, true) == exit_code_of(r, fail_on, false),
{
}

/// **`--fail-on any` fails whatever `conflict` fails**, and more.
pub proof fn lemma_fail_on_any_is_stricter(r: ReportView, strict: bool)
    ensures
        exit_code_of(r, FailOn::Conflict, strict) <= exit_code_of(r, FailOn::Any, strict),
{
    if failing(r, FailOn::Conflict) {
        let k = choose|k: int| 0 <= k < r.findings.len() && fails(#[trigger] r.findings[k], FailOn::Conflict);
        assert(fails(r.findings[k], FailOn::Any));
    }
}

/// Only `strict` ever gives 2.
pub proof fn lemma_two_only_when_strict(r: ReportView, fail_on: FailOn)
    ensures
        exit_code_of(r, fail_on, false) <= 1,
{
}

/// **No manifests at all is clean**: nothing can be in conflict with
/// nothing, so every run over no documents exits 0.
pub proof fn lemma_no_manifests_is_clean(fail_on: FailOn, strict: bool)
    ensures
        exit_code_of(report_of(Seq::empty()), fail_on, strict) == 0,
        report_of(Seq::empty()).manifests.len() == 0,
{
    let es = Seq::<EntryView>::empty();
    let r = report_of(Seq::empty());
    assert(gathered(Seq::<DocumentView>::empty()).2 == es);
    assert(crate::compare::kept_keys(es, crate::compare::Selection::Comparable) == Seq::<(Ecosystem, Seq<char>)>::empty());
    assert(crate::compare::groups(es, crate::compare::Selection::Comparable) =~= Seq::empty());
    assert(crate::compare::groups(es, crate::compare::Selection::PerJob) =~= Seq::empty());
    assert(crate::compare::groups(es, crate::compare::Selection::Shipped) =~= Seq::empty());
    assert(crate::compare::groups(es, crate::compare::Selection::Broken) =~= Seq::empty());
    assert(crate::compare::groups(es, crate::compare::Selection::Floating) =~= Seq::empty());
    let ds = crate::compare::kind_indices(es, crate::parser::Kind::Msrv, Ecosystem::Cargo);
    assert(ds == Seq::<int>::empty());
    assert(crate::compare::member_ranges(es, ds) == Seq::<Seq<crate::interval::IntervalView>>::empty());
    assert(crate::compare::msrv_of(es) =~= Seq::empty());
    let all = crate::compare::conflicts_of(es) + crate::compare::msrv_of(es)
        + crate::compare::prereleases_of(es) + crate::compare::malformed_of(es)
        + crate::compare::floating_of(es);
    assert(all =~= Seq::empty());
    assert(r.findings =~= Seq::empty());
    assert(crate::compare::cross_ecosystem_of(es) =~= Seq::empty());
    assert(r.refusals =~= Seq::empty());
}

/// The summary counts are the lengths of the lists it summarises.
pub proof fn lemma_summary_agrees(r: ReportView)
    requires
        r.manifests.len() <= usize::MAX,
        r.findings.len() <= usize::MAX,
        r.refusals.len() <= usize::MAX,
    ensures
        summary_of(r).manifests == r.manifests.len(),
        summary_of(r).findings == r.findings.len(),
        summary_of(r).refusals == r.refusals.len(),
        summary_of(r).entries == r.summary.entries,
{
}

/// Merging keeps every site: each site of each refusal stays in a row of
/// the same reason and name.
proof fn lemma_merge_all_keeps(rs: Seq<RefusalView>, k: int, s: SiteView)
    requires
        0 <= k < rs.len(),
        rs[k].sites.contains(s),
    ensures
        exists|m: int|
            0 <= m < merge_all(rs).len() && same_row(#[trigger] merge_all(rs)[m], rs[k])
                && merge_all(rs)[m].sites.contains(s),
    decreases rs.len(),
{
    let prev = merge_all(rs.drop_last());
    let last = rs.last();
    lemma_first_row(prev, last);
    if k < rs.len() - 1 {
        assert(rs.drop_last()[k] == rs[k]);
        lemma_merge_all_keeps(rs.drop_last(), k, s);
        let m = choose|m: int|
            0 <= m < prev.len() && same_row(#[trigger] prev[m], rs[k]) && prev[m].sites.contains(s);
        match first_row(prev, last) {
            Some(f) => {
                let merged = merge_all(rs);
                assert(merged == prev.update(f, RefusalView { sites: prev[f].sites + last.sites, ..prev[f] }));
                if m == f {
                    let j = choose|j: int| 0 <= j < prev[m].sites.len() && prev[m].sites[j] == s;
                    assert(merged[m].sites[j] == s);
                } else {
                    assert(merged[m] == prev[m]);
                }
                assert(same_row(merged[m], rs[k]));
            },
            None => {
                assert(merge_all(rs)[m] == prev[m]);
            },
        }
    } else {
        match first_row(prev, last) {
            Some(f) => {
                let merged = merge_all(rs);
                let j = choose|j: int| 0 <= j < last.sites.len() && last.sites[j] == s;
                assert(merged[f].sites[prev[f].sites.len() + j] == s);
                assert(same_row(merged[f], rs[k]));
            },
            None => {
                let merged = merge_all(rs);
                assert(merged[prev.len() as int] == last);
            },
        }
    }
}

/// Merging leaves no two rows of the same reason and name.
proof fn lemma_merge_all_apart(rs: Seq<RefusalView>)
    ensures
        forall|i: int, j: int|
            0 <= i < j < merge_all(rs).len() ==> !same_row(
                #[trigger] merge_all(rs)[i],
                #[trigger] merge_all(rs)[j],
            ),
    decreases rs.len(),
{
    if rs.len() > 0 {
        lemma_merge_all_apart(rs.drop_last());
        let ms = merge_all(rs.drop_last());
        let r = rs.last();
        lemma_first_row(ms, r);
        let out = merge_all(rs);
        match first_row(ms, r) {
            Some(k) => {
                assert forall|i: int, j: int| 0 <= i < j < out.len() implies !same_row(
                    #[trigger] out[i],
                    #[trigger] out[j],
                ) by {
                    assert(same_row(out[i], ms[i]) && same_row(out[j], ms[j]));
                    assert(!same_row(ms[i], ms[j]));
                }
            },
            None => {
                assert forall|i: int, j: int| 0 <= i < j < out.len() implies !same_row(
                    #[trigger] out[i],
                    #[trigger] out[j],
                ) by {
                    if j == ms.len() {
                        assert(out[j] == r);
                        assert(out[i] == ms[i]);
                        assert(!same_row(ms[i], r));
                    } else {
                        assert(out[i] == ms[i] && out[j] == ms[j]);
                    }
                }
            },
        }
    }
}

/// **An unmodelled document manufactures no conflict.** Adding a
/// manifest every constraint of which is in a grammar the tool does not
/// model leaves the report's `constraint-conflict` and
/// `disjoint-constraint` findings exactly as they were.
pub proof fn lemma_unmodelled_document_changes_no_conflict(docs: Seq<DocumentView>, d: DocumentView)
    requires
        forall|k: int|
            0 <= k < parse_of(d.kind, d.label, d.content).entries.len() ==> (#[trigger] parse_of(
                d.kind,
                d.label,
                d.content,
            ).entries[k]).constraint is Unknown,
    ensures
        forall|f: FindingView|
            crate::compare::is_conflict_code(f.code) ==> (report_of(docs.push(d)).findings.contains(f)
                <==> report_of(docs).findings.contains(f)),
{
    let more = parse_of(d.kind, d.label, d.content).entries;
    let es = gathered(docs).2;
    assert(docs.push(d).drop_last() =~= docs);
    assert(docs.push(d).last() == d);
    assert(gathered(docs.push(d)).2 == es + more);
    assert forall|k: int| 0 <= k < more.len() implies !crate::compare::selected(
        crate::compare::Selection::Comparable,
        #[trigger] more[k],
    ) by {
        assert(more[k].constraint is Unknown);
    }
    crate::compare::lemma_unselected_entries_change_no_conflict(es, more);
    assert forall|f: FindingView| crate::compare::is_conflict_code(f.code) implies (report_of(
        docs.push(d),
    ).findings.contains(f) <==> report_of(docs).findings.contains(f)) by {
        crate::compare::lemma_conflict_findings_are_the_comparison(es + more, f);
        crate::compare::lemma_conflict_findings_are_the_comparison(es, f);
    }
}

/// **Refusals are grouped as findings are.** No two rows of the report's
/// refusals share a reason and a name: the same fact in sixteen places is
/// one row with sixteen sites.
pub proof fn lemma_one_refusal_row_per_fact(rs: Seq<RefusalView>)
    ensures
        forall|i: int, j: int|
            0 <= i < j < merged_refusals(rs).len() ==> !same_row(
                #[trigger] merged_refusals(rs)[i],
                #[trigger] merged_refusals(rs)[j],
            ),
{
    lemma_merge_all_apart(rs);
    let related = |a: RefusalView, b: RefusalView| same_row(a, b);
    let ms = merge_all(rs);
    assert forall|i: int, j: int| 0 <= i < j < ms.len() implies !related(#[trigger] ms[i], #[trigger] ms[j]) by {
        assert(!same_row(ms[i], ms[j]));
    }
    crate::order::lemma_sort_by_keeps_apart(ms, refusal_order(), related);
    let out = merged_refusals(rs);
    assert forall|i: int, j: int| 0 <= i < j < out.len() implies !same_row(#[trigger] out[i], #[trigger] out[j]) by {
        assert(!related(out[i], out[j]));
    }
}

/// Every site the refusals of one reason and name carry, in input order.
pub open spec fn sites_for(rs: Seq<RefusalView>, r: RefusalView) -> Seq<SiteView>
    decreases rs.len(),
{
    if rs.len() == 0 {
        Seq::empty()
    } else {
        sites_for(rs.drop_last(), r) + if same_row(rs.last(), r) {
            rs.last().sites
        } else {
            Seq::empty()
        }
    }
}

proof fn lemma_row_key(ms: Seq<RefusalView>, x: RefusalView, y: RefusalView)
    requires
        same_row(x, y),
    ensures
        first_row(ms, x) == first_row(ms, y),
        sites_for(ms, x) == sites_for(ms, y),
    decreases ms.len(),
{
    if ms.len() > 0 {
        lemma_row_key(ms.drop_last(), x, y);
    }
}

proof fn lemma_row_absent(ms: Seq<RefusalView>, r: RefusalView)
    requires
        forall|k: int| 0 <= k < ms.len() ==> !same_row(#[trigger] ms[k], r),
    ensures
        first_row(ms, r) is None,
        sites_for(ms, r) == Seq::<SiteView>::empty(),
    decreases ms.len(),
{
    if ms.len() > 0 {
        let d = ms.drop_last();
        assert forall|k: int| 0 <= k < d.len() implies !same_row(#[trigger] d[k], r) by {
            assert(d[k] == ms[k]);
        }
        lemma_row_absent(d, r);
        assert(!same_row(ms[ms.len() - 1], r));
        assert(sites_for(ms, r) =~= sites_for(d, r));
    }
}

/// What a merged row is, stated directly.
pub open spec fn row_of(rs: Seq<RefusalView>, m: RefusalView) -> bool {
    &&& m.sites == sites_for(rs, m)
    &&& first_row(rs, m) matches Some(k) && m.reason == rs[k].reason && m.name == rs[k].name
        && m.ecosystem == rs[k].ecosystem && m.message == rs[k].message
}

proof fn lemma_merge_all_rows(rs: Seq<RefusalView>)
    ensures
        forall|i: int| 0 <= i < merge_all(rs).len() ==> row_of(rs, #[trigger] merge_all(rs)[i]),
        forall|k: int|
            #![trigger rs[k]]
            0 <= k < rs.len() ==> exists|i: int|
                0 <= i < merge_all(rs).len() && same_row(#[trigger] merge_all(rs)[i], rs[k]),
    decreases rs.len(),
{
    if rs.len() > 0 {
        let d = rs.drop_last();
        let r = rs.last();
        lemma_merge_all_rows(d);
        lemma_merge_all_apart(d);
        let ms = merge_all(d);
        let out = merge_all(rs);
        lemma_first_row(ms, r);
        assert(rs[rs.len() - 1] == r);
        match first_row(ms, r) {
            Some(k) => {
                assert forall|i: int| 0 <= i < out.len() implies row_of(rs, #[trigger] out[i]) by {
                    assert(row_of(d, ms[i]));
                    lemma_first_row(d, ms[i]);
                    let k0 = first_row(d, ms[i])->Some_0;
                    assert(rs[k0] == d[k0]);
                    lemma_row_key(d, out[i], ms[i]);
                    lemma_row_key(rs, out[i], ms[i]);
                    if i == k {
                        assert(same_row(r, out[i]));
                        assert(out[i].sites == ms[i].sites + r.sites);
                    } else {
                        assert(!same_row(ms[i], ms[k]));
                        assert(!same_row(r, out[i]));
                        assert(out[i] == ms[i]);
                        assert(sites_for(rs, out[i]) =~= sites_for(d, out[i]));
                    }
                }
                assert forall|j: int| #![trigger rs[j]] 0 <= j < rs.len() implies exists|i: int|
                    0 <= i < out.len() && same_row(#[trigger] out[i], rs[j]) by {
                    if j == rs.len() - 1 {
                        assert(same_row(out[k], rs[j]));
                    } else {
                        assert(rs[j] == d[j]);
                        let i = choose|i: int| 0 <= i < ms.len() && same_row(#[trigger] ms[i], d[j]);
                        assert(same_row(out[i], rs[j]));
                    }
                }
            },
            None => {
                assert forall|j: int| 0 <= j < d.len() implies !same_row(#[trigger] d[j], r) by {
                    let i = choose|i: int| 0 <= i < ms.len() && same_row(#[trigger] ms[i], d[j]);
                    assert(!same_row(ms[i], r));
                }
                lemma_row_absent(d, r);
                assert forall|i: int| 0 <= i < out.len() implies row_of(rs, #[trigger] out[i]) by {
                    if i < ms.len() {
                        assert(out[i] == ms[i]);
                        assert(row_of(d, ms[i]));
                        lemma_first_row(d, ms[i]);
                        let k0 = first_row(d, ms[i])->Some_0;
                        assert(rs[k0] == d[k0]);
                        assert(!same_row(r, out[i]));
                        assert(sites_for(rs, out[i]) =~= sites_for(d, out[i]));
                    } else {
                        assert(out[i] == r);
                        assert(sites_for(rs, r) =~= r.sites);
                    }
                }
                assert forall|j: int| #![trigger rs[j]] 0 <= j < rs.len() implies exists|i: int|
                    0 <= i < out.len() && same_row(#[trigger] out[i], rs[j]) by {
                    if j == rs.len() - 1 {
                        assert(same_row(out[ms.len() as int], rs[j]));
                    } else {
                        assert(rs[j] == d[j]);
                        let i = choose|i: int| 0 <= i < ms.len() && same_row(#[trigger] ms[i], d[j]);
                        assert(out[i] == ms[i]);
                    }
                }
            },
        }
    }
}

proof fn lemma_refusal_order_is_strict()
    ensures
        crate::order::strict_order(refusal_order()),
{
    assert forall|a: RefusalView| !#[trigger] refusal_order()(a, a) by {
        crate::version::lemma_lex_antisymmetric(a.reason, a.reason);
        crate::version::lemma_lex_antisymmetric(a.name, a.name);
    }
    assert forall|a: RefusalView, b: RefusalView, c: RefusalView|
        #[trigger] refusal_order()(a, b) && #[trigger] refusal_order()(b, c) implies refusal_order()(a, c) by {
        crate::version::lemma_lex_antisymmetric(a.reason, b.reason);
        crate::version::lemma_lex_antisymmetric(b.reason, c.reason);
        crate::version::lemma_lex_antisymmetric(a.reason, c.reason);
        crate::version::lemma_lex_transitive(a.reason, b.reason, c.reason);
        crate::version::lemma_lex_antisymmetric(a.name, b.name);
        crate::version::lemma_lex_antisymmetric(b.name, c.name);
        crate::version::lemma_lex_transitive(a.name, b.name, c.name);
    }
}

/// **The report's refusals, stated directly.** One row for each reason
/// and name the refusals carry; each row holds every site of the
/// refusals with that reason and name in input order, and the ecosystem
/// and message of the first of them; the rows are sorted by reason and
/// name.
pub proof fn lemma_merged_refusals_are_the_rows(rs: Seq<RefusalView>)
    ensures
        forall|i: int| 0 <= i < merged_refusals(rs).len() ==> row_of(rs, #[trigger] merged_refusals(rs)[i]),
        forall|k: int|
            #![trigger rs[k]]
            0 <= k < rs.len() ==> exists|i: int|
                0 <= i < merged_refusals(rs).len() && same_row(#[trigger] merged_refusals(rs)[i], rs[k]),
        forall|i: int, j: int|
            0 <= i < j < merged_refusals(rs).len() ==> !same_row(
                #[trigger] merged_refusals(rs)[i],
                #[trigger] merged_refusals(rs)[j],
            ),
        crate::order::sorted_by(merged_refusals(rs), refusal_order()),
{
    lemma_merge_all_rows(rs);
    lemma_one_refusal_row_per_fact(rs);
    lemma_refusal_order_is_strict();
    crate::order::lemma_sort_by_sorted(merge_all(rs), refusal_order());
    let ms = merge_all(rs);
    let out = merged_refusals(rs);
    assert forall|i: int| 0 <= i < out.len() implies row_of(rs, #[trigger] out[i]) by {
        assert(out.contains(out[i]));
        crate::order::lemma_sort_by_contains(ms, refusal_order(), out[i]);
        let j = choose|j: int| 0 <= j < ms.len() && ms[j] == out[i];
        assert(row_of(rs, ms[j]));
    }
    assert forall|k: int| #![trigger rs[k]] 0 <= k < rs.len() implies exists|i: int|
        0 <= i < out.len() && same_row(#[trigger] out[i], rs[k]) by {
        let j = choose|j: int| 0 <= j < ms.len() && same_row(#[trigger] ms[j], rs[k]);
        assert(ms.contains(ms[j]));
        crate::order::lemma_sort_by_contains(ms, refusal_order(), ms[j]);
        let i = choose|i: int| 0 <= i < out.len() && out[i] == ms[j];
        assert(same_row(out[i], rs[k]));
    }
}

/// **One row per reason and name, carrying every site.** Each site of each
/// refusal the readers and the comparison made is in the report, in the
/// row of the same reason and name.
pub proof fn lemma_merge_keeps_every_site(rs: Seq<RefusalView>, k: int, s: SiteView)
    requires
        0 <= k < rs.len(),
        rs[k].sites.contains(s),
    ensures
        exists|m: RefusalView|
            #[trigger] merged_refusals(rs).contains(m) && same_row(m, rs[k]) && m.sites.contains(s),
{
    lemma_merge_all_keeps(rs, k, s);
    let m = choose|m: int|
        0 <= m < merge_all(rs).len() && same_row(#[trigger] merge_all(rs)[m], rs[k])
            && merge_all(rs)[m].sites.contains(s);
    let row = merge_all(rs)[m];
    assert(merge_all(rs).contains(row));
    crate::order::lemma_sort_by_contains(merge_all(rs), refusal_order(), row);
    assert(merged_refusals(rs).contains(row));
    assert(same_row(row, rs[k]) && row.sites.contains(s));
}

} // verus!
