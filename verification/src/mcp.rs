//! The agent surface's decisions: what a tool call's arguments ask for,
//! read as strictly as flags are on the command line.
//!
//! An argument of the wrong type and an argument the tool does not take
//! are refusals naming what was wrong; an absent argument takes its
//! declared default, and an explicit `null` is read as absent. No
//! message here mentions a flag: an MCP caller has no command line.

use vstd::prelude::*;
use vstd::string::StringExecFns;
use crate::discover::{DiscoverOptions, Part, PartView, normalised, part_views};
use crate::document::{Tree, TreeView, lemma_list_view, lemma_table_view, list_view, lookup, table_view, tree_get};
use crate::heuristics::{Ecosystem, eco_named, manifest_kind_of};
use crate::scan::{Document, DocumentView, Report, ReportView, document_views, report_of};
use crate::text::{chars_of, split_by, string_of, string_views, views};

verus! {

pub const DEFAULT_MAX_RESULTS: usize = 500;

pub const MAX_MAX_RESULTS: usize = 5000;

pub const FILES_INVALID: &'static str = "files is required and must be a non-empty array of { path, content }";

pub const MAX_RESULTS_INVALID: &'static str = "maxResults must be a positive integer";

pub const NOT_A_MANIFEST: &'static str = " is not a manifest this tool reads. It reads package.json, Cargo.toml, pyproject.toml, go.mod, and .yml or .yaml under .github/workflows/.";

pub const NOT_AN_ARGUMENT: &'static str = " is not an argument this tool takes";

pub const NO_DIRECTORY: &'static str = "no directory was supplied to analyse";

// ---------------------------------------------------------------------
// A path's parts, as a Unix path is parsed
// ---------------------------------------------------------------------

/// One `/`-separated segment as a part: an empty one and an interior `.`
/// are no part at all; a leading `.` is the current directory.
pub open spec fn segment_part(seg: Seq<char>, first: bool, rooted: bool) -> Option<PartView> {
    if seg.len() == 0 {
        None
    } else if seg == "."@ {
        if first && !rooted {
            Some(PartView::CurDir)
        } else {
            None
        }
    } else if seg == ".."@ {
        Some(PartView::ParentDir)
    } else {
        Some(PartView::Normal(seg))
    }
}

pub open spec fn segment_parts(segs: Seq<Seq<char>>, rooted: bool) -> Seq<PartView>
    decreases segs.len(),
{
    if segs.len() == 0 {
        Seq::empty()
    } else {
        let rest = segment_parts(segs.drop_last(), rooted);
        match segment_part(segs.last(), segs.len() == 1, rooted) {
            Some(p) => rest.push(p),
            None => rest,
        }
    }
}

/// `Path::components` of a Unix path: a root, then each segment.
pub open spec fn unix_parts_of(s: Seq<char>) -> Seq<PartView> {
    let rooted = s.len() > 0 && s[0] == '/';
    (if rooted {
        seq![PartView::RootDir]
    } else {
        Seq::empty()
    }) + segment_parts(split_by(s, crate::text::Class::Is('/')), rooted)
}

pub fn unix_parts(path: &str) -> (r: Vec<Part>)
    ensures
        part_views(r@) == unix_parts_of(path@),
{
    let s = chars_of(path);
    let rooted = s.len() > 0 && s[0] == '/';
    let segs = crate::text::split_class(&s, crate::text::Class::Is('/'));
    let ghost sv = views(segs@);
    let mut out: Vec<Part> = Vec::new();
    if rooted {
        out.push(Part::RootDir);
    }
    let ghost head = part_views(out@);
    assert(head =~= (if rooted {
        seq![PartView::RootDir]
    } else {
        Seq::<PartView>::empty()
    }));
    let mut i: usize = 0;
    while i < segs.len()
        invariant
            0 <= i <= segs.len(),
            sv == views(segs@),
            part_views(out@) == head + segment_parts(sv.take(i as int), rooted),
        decreases segs.len() - i,
    {
        let seg = &segs[i];
        proof {
            assert(sv.take(i + 1).drop_last() =~= sv.take(i as int));
            assert(sv.take(i + 1).last() == seg@);
        }
        let ghost before = part_views(out@);
        if seg.len() == 0 {
        } else if crate::text::same_str(seg, ".") {
            if i == 0 && !rooted {
                out.push(Part::CurDir);
                assert(part_views(out@) =~= before.push(PartView::CurDir));
            }
        } else if crate::text::same_str(seg, "..") {
            out.push(Part::ParentDir);
            assert(part_views(out@) =~= before.push(PartView::ParentDir));
        } else {
            let part = Part::Normal(string_of(seg));
            out.push(part);
            assert(part_views(out@) =~= before.push(PartView::Normal(seg@)));
        }
        i = i + 1;
    }
    assert(sv.take(segs.len() as int) =~= sv);
    out
}

// ---------------------------------------------------------------------
// Arguments in general
// ---------------------------------------------------------------------

/// An explicit `null` is read as absent.
pub open spec fn present(v: Option<TreeView>) -> Option<TreeView> {
    match v {
        Some(TreeView::Null) => None,
        other => other,
    }
}

fn present_value(v: Option<&Tree>) -> (r: Option<&Tree>)
    ensures
        crate::document::ref_tree_view(r) == present(crate::document::ref_tree_view(v)),
{
    match v {
        Some(Tree::Null) => None,
        other => other,
    }
}

/// The first argument, in the order the call holds them, that the tool
/// does not take.
pub open spec fn first_unknown(es: Seq<(Seq<char>, TreeView)>, allowed: Seq<Seq<char>>) -> Option<Seq<char>>
    decreases es.len(),
{
    if es.len() == 0 {
        None
    } else {
        match first_unknown(es.drop_last(), allowed) {
            Some(k) => Some(k),
            None => if allowed.contains(es.last().0) {
                None
            } else {
                Some(es.last().0)
            },
        }
    }
}

pub open spec fn unknown_in(arguments: TreeView, allowed: Seq<Seq<char>>) -> Option<Seq<char>> {
    match arguments {
        TreeView::Table(es) => first_unknown(es, allowed),
        _ => None,
    }
}

fn unknown_argument(arguments: &Tree, allowed: &Vec<&'static str>) -> (r: Option<String>)
    ensures
        crate::text::string_opt(r) == unknown_in(
            arguments@,
            allowed@.map_values(|a: &'static str| a@),
        ),
{
    let ghost names = allowed@.map_values(|a: &'static str| a@);
    let es = match arguments.as_table() {
        Some(es) => es,
        None => {
            return None;
        },
    };
    let ghost tv = table_view(es@);
    proof {
        lemma_table_view(es@);
    }
    let mut i: usize = 0;
    while i < es.len()
        invariant
            0 <= i <= es.len(),
            tv == table_view(es@),
            tv.len() == es@.len(),
            names == allowed@.map_values(|a: &'static str| a@),
            forall|j: int|
                0 <= j < es@.len() ==> #[trigger] tv[j] == (es@[j].0@, crate::document::tree_view(
                    es@[j].1,
                )),
            first_unknown(tv.take(i as int), names) is None,
            arguments@ == TreeView::Table(tv),
        decreases es.len() - i,
    {
        proof {
            assert(tv.take(i + 1).drop_last() =~= tv.take(i as int));
            assert(tv.take(i + 1).last() == tv[i as int]);
        }
        let key = chars_of(es[i].0.as_str());
        let mut known = false;
        let mut k: usize = 0;
        while k < allowed.len()
            invariant
                0 <= k <= allowed.len(),
                names == allowed@.map_values(|a: &'static str| a@),
                known ==> names.contains(key@),
                !known ==> forall|x: int| 0 <= x < k ==> #[trigger] names[x] != key@,
            decreases allowed.len() - k,
        {
            assert(names[k as int] == allowed@[k as int]@);
            if crate::text::same_str(&key, allowed[k]) {
                known = true;
            }
            k = k + 1;
        }
        if !known {
            assert(!names.contains(key@));
            proof {
                assert(first_unknown(tv.take(i + 1), names) == Some(key@));
                lemma_unknown_persists(tv, i + 1, names, key@);
            }
            return Some(es[i].0.clone());
        }
        i = i + 1;
    }
    assert(tv.take(es.len() as int) =~= tv);
    None
}

/// An unknown argument among the first entries is the first unknown one.
proof fn lemma_unknown_persists(es: Seq<(Seq<char>, TreeView)>, n: int, allowed: Seq<Seq<char>>, k: Seq<char>)
    requires
        0 <= n <= es.len(),
        first_unknown(es.take(n), allowed) == Some(k),
    ensures
        first_unknown(es, allowed) == Some(k),
    decreases es.len() - n,
{
    if n < es.len() {
        assert(es.take(n + 1).drop_last() =~= es.take(n));
        lemma_unknown_persists(es, n + 1, allowed, k);
    } else {
        assert(es.take(n) =~= es);
    }
}

fn with_tail(head: &str, tail: &str) -> (r: String)
    ensures
        r@ == head@ + tail@,
{
    let mut r = String::from_str(head);
    r.append(tail);
    r
}

// ---------------------------------------------------------------------
// compare_versions: manifest contents in, findings out
// ---------------------------------------------------------------------

/// One `{ path, content }`: the path decides which grammar the content is
/// read with, so a path that is not a manifest is refused by name rather
/// than guessed at from the content.
pub open spec fn item_document(item: TreeView) -> Result<DocumentView, Seq<char>> {
    match tree_get(item, "path"@) {
        Some(TreeView::Text(path)) => match tree_get(item, "content"@) {
            Some(TreeView::Text(content)) => match manifest_kind_of(normalised(unix_parts_of(path))) {
                Some(kind) => Ok(DocumentView { kind, label: path, content }),
                None => Err(path + NOT_A_MANIFEST@),
            },
            _ => Err(FILES_INVALID@),
        },
        _ => Err(FILES_INVALID@),
    }
}

/// Every item, or the first refusal among them.
pub open spec fn items_documents(items: Seq<TreeView>) -> Result<Seq<DocumentView>, Seq<char>>
    decreases items.len(),
{
    if items.len() == 0 {
        Ok(Seq::empty())
    } else {
        match items_documents(items.drop_last()) {
            Err(e) => Err(e),
            Ok(ds) => match item_document(items.last()) {
                Err(e) => Err(e),
                Ok(d) => Ok(ds.push(d)),
            },
        }
    }
}

pub open spec fn read_files_of(arguments: TreeView) -> Result<Seq<DocumentView>, Seq<char>> {
    match tree_get(arguments, "files"@) {
        Some(TreeView::List(items)) => if items.len() == 0 {
            Err(FILES_INVALID@)
        } else {
            items_documents(items)
        },
        _ => Err(FILES_INVALID@),
    }
}

pub open spec fn documents_result(r: Result<Vec<Document>, String>) -> Result<Seq<DocumentView>, Seq<char>> {
    match r {
        Ok(ds) => Ok(document_views(ds@)),
        Err(e) => Err(e@),
    }
}

fn item_of(item: &Tree) -> (r: Result<Document, String>)
    ensures
        match r {
            Ok(d) => item_document(item@) == Ok::<DocumentView, Seq<char>>(d@),
            Err(e) => item_document(item@) == Err::<DocumentView, Seq<char>>(e@),
        },
{
    let path = match item.get("path") {
        Some(p) => match p.as_text() {
            Some(p) => p,
            None => {
                return Err(String::from_str(FILES_INVALID));
            },
        },
        None => {
            return Err(String::from_str(FILES_INVALID));
        },
    };
    let content = match item.get("content") {
        Some(c) => match c.as_text() {
            Some(c) => c,
            None => {
                return Err(String::from_str(FILES_INVALID));
            },
        },
        None => {
            return Err(String::from_str(FILES_INVALID));
        },
    };
    match crate::discover::manifest_of(&unix_parts(path.as_str())) {
        Some(kind) => Ok(Document { kind, label: path.clone(), content: content.clone() }),
        None => Err(with_tail(path.as_str(), NOT_A_MANIFEST)),
    }
}

/// The documents a `compare_versions` call supplies.
pub fn read_files(arguments: &Tree) -> (r: Result<Vec<Document>, String>)
    ensures
        documents_result(r) == read_files_of(arguments@),
{
    let items = match arguments.get("files") {
        Some(f) => match f.as_list() {
            Some(items) => items,
            None => {
                return Err(String::from_str(FILES_INVALID));
            },
        },
        None => {
            return Err(String::from_str(FILES_INVALID));
        },
    };
    let ghost lv = list_view(items@);
    proof {
        lemma_list_view(items@);
    }
    if items.len() == 0 {
        return Err(String::from_str(FILES_INVALID));
    }
    assert(read_files_of(arguments@) == items_documents(lv));
    let mut out: Vec<Document> = Vec::new();
    assert(lv.take(0) =~= Seq::<TreeView>::empty());
    assert(document_views(out@) =~= Seq::<DocumentView>::empty());
    let mut i: usize = 0;
    while i < items.len()
        invariant
            0 <= i <= items.len(),
            lv == list_view(items@),
            lv.len() == items@.len(),
            forall|j: int| 0 <= j < items@.len() ==> #[trigger] lv[j] == crate::document::tree_view(items@[j]),
            items_documents(lv.take(i as int)) == Ok::<Seq<DocumentView>, Seq<char>>(document_views(out@)),
            read_files_of(arguments@) == items_documents(lv),
        decreases items.len() - i,
    {
        proof {
            assert(lv.take(i + 1).drop_last() =~= lv.take(i as int));
            assert(lv.take(i + 1).last() == lv[i as int]);
        }
        match item_of(&items[i]) {
            Ok(d) => {
                let ghost before = document_views(out@);
                out.push(d);
                assert(document_views(out@) =~= before.push(d@));
            },
            Err(e) => {
                proof {
                    lemma_items_error_persists(lv, i as int + 1, e@);
                }
                return Err(e);
            },
        }
        i = i + 1;
    }
    assert(lv.take(items.len() as int) =~= lv);
    Ok(out)
}

/// A refusal among the first items is the refusal of the whole list.
proof fn lemma_items_error_persists(items: Seq<TreeView>, n: int, e: Seq<char>)
    requires
        0 <= n <= items.len(),
        items_documents(items.take(n)) == Err::<Seq<DocumentView>, Seq<char>>(e),
    ensures
        items_documents(items) == Err::<Seq<DocumentView>, Seq<char>>(e),
    decreases items.len() - n,
{
    if n < items.len() {
        assert(items.take(n + 1).drop_last() =~= items.take(n));
        lemma_items_error_persists(items, n + 1, e);
    } else {
        assert(items.take(n) =~= items);
    }
}

pub open spec fn max_results_of(arguments: TreeView) -> Result<usize, Seq<char>> {
    match present(tree_get(arguments, "maxResults"@)) {
        None => Ok(DEFAULT_MAX_RESULTS),
        Some(TreeView::Unsigned(v)) => if v < 1 {
            Err(MAX_RESULTS_INVALID@)
        } else if v > MAX_MAX_RESULTS {
            Ok(MAX_MAX_RESULTS)
        } else {
            Ok(v as usize)
        },
        Some(_) => Err(MAX_RESULTS_INVALID@),
    }
}

pub open spec fn count_result(r: Result<usize, String>) -> Result<usize, Seq<char>> {
    match r {
        Ok(n) => Ok(n),
        Err(e) => Err(e@),
    }
}

/// Clamp quietly, reject loudly: a cap above the maximum is the maximum,
/// and anything but a positive integer is refused.
pub fn read_max_results(arguments: &Tree) -> (r: Result<usize, String>)
    ensures
        count_result(r) == max_results_of(arguments@),
{
    let raw = match present_value(arguments.get("maxResults")) {
        Some(raw) => raw,
        None => {
            return Ok(DEFAULT_MAX_RESULTS);
        },
    };
    match raw.as_unsigned() {
        Some(v) => if v < 1 {
            Err(String::from_str(MAX_RESULTS_INVALID))
        } else if v > 5000u64 {
            Ok(MAX_MAX_RESULTS)
        } else {
            Ok(v as usize)
        },
        None => Err(String::from_str(MAX_RESULTS_INVALID)),
    }
}

pub open spec fn compare_arguments() -> Seq<Seq<char>> {
    seq!["files"@, "maxResults"@]
}

/// The report a `compare_versions` call answers with: its findings capped
/// at the call's limit, and whether any were dropped.
pub open spec fn compare_versions_of(arguments: TreeView) -> Result<(ReportView, bool), Seq<char>> {
    match unknown_in(arguments, compare_arguments()) {
        Some(k) => Err(k + NOT_AN_ARGUMENT@),
        None => match read_files_of(arguments) {
            Err(e) => Err(e),
            Ok(docs) => match max_results_of(arguments) {
                Err(e) => Err(e),
                Ok(max) => {
                    let r = report_of(docs);
                    if r.findings.len() > max {
                        Ok((ReportView { findings: r.findings.take(max as int), ..r }, true))
                    } else {
                        Ok((r, false))
                    }
                },
            },
        },
    }
}

pub open spec fn answer_view(r: Result<(Report, bool), String>) -> Result<(ReportView, bool), Seq<char>> {
    match r {
        Ok(a) => Ok((a.0@, a.1)),
        Err(e) => Err(e@),
    }
}

/// `compare_versions`: manifest contents in, the report out. Touches no
/// filesystem.
pub fn compare_versions(arguments: &Tree) -> (r: Result<(Report, bool), String>)
    ensures
        answer_view(r) == compare_versions_of(arguments@),
{
    let mut allowed: Vec<&'static str> = Vec::new();
    allowed.push("files");
    allowed.push("maxResults");
    assert(allowed@.map_values(|a: &'static str| a@) =~= compare_arguments());
    if let Some(k) = unknown_argument(arguments, &allowed) {
        return Err(with_tail(k.as_str(), NOT_AN_ARGUMENT));
    }
    let documents = match read_files(arguments) {
        Ok(d) => d,
        Err(e) => {
            return Err(e);
        },
    };
    let max = match read_max_results(arguments) {
        Ok(m) => m,
        Err(e) => {
            return Err(e);
        },
    };
    let mut report = crate::scan::report_for(&documents);
    let truncated = report.findings.len() > max;
    if truncated {
        let ghost before = report@;
        report.findings.truncate(max);
        assert(crate::compare::finding_views(report.findings@) =~= before.findings.take(max as int));
    }
    Ok((report, truncated))
}

/// Whether a check ran: no error among its diagnostics. Whether the
/// answer was yes is a different question.
pub open spec fn ran_of(r: ReportView) -> bool {
    forall|k: int| 0 <= k < r.diagnostics.len() ==> #[trigger] r.diagnostics[k].severity != crate::compare::ERROR@
}

pub fn check_ran(report: &Report) -> (ok: bool)
    ensures
        ok == ran_of(report@),
{
    let ghost rv = report@;
    let mut i: usize = 0;
    while i < report.diagnostics.len()
        invariant
            0 <= i <= report.diagnostics.len(),
            rv == report@,
            forall|k: int| 0 <= k < i ==> #[trigger] rv.diagnostics[k].severity != crate::compare::ERROR@,
        decreases report.diagnostics.len() - i,
    {
        assert(rv.diagnostics[i as int] == report.diagnostics@[i as int]@);
        if report.diagnostics[i].severity == String::from_str(crate::compare::ERROR) {
            assert(rv.diagnostics[i as int].severity == crate::compare::ERROR@);
            return false;
        }
        i = i + 1;
    }
    true
}


// ---------------------------------------------------------------------
// versions_le_check: a directory in
// ---------------------------------------------------------------------

pub open spec fn check_arguments() -> Seq<Seq<char>> {
    seq!["path"@, "ecosystems"@, "exclude"@, "hidden"@, "ignored"@]
}

/// A boolean argument: false when absent.
pub open spec fn flag_of(arguments: TreeView, name: Seq<char>) -> Result<bool, Seq<char>> {
    match present(tree_get(arguments, name)) {
        None => Ok(false),
        Some(TreeView::Bool(b)) => Ok(b),
        Some(_) => Err(name + " must be true or false"@),
    }
}

/// The texts of a list that holds only texts.
pub open spec fn all_texts(items: Seq<TreeView>) -> Option<Seq<Seq<char>>>
    decreases items.len(),
{
    if items.len() == 0 {
        Some(Seq::empty())
    } else {
        match all_texts(items.drop_last()) {
            None => None,
            Some(ts) => match items.last() {
                TreeView::Text(t) => Some(ts.push(t)),
                _ => None,
            },
        }
    }
}

/// A list-of-strings argument: empty when absent.
pub open spec fn strings_of(arguments: TreeView, name: Seq<char>) -> Result<Seq<Seq<char>>, Seq<char>> {
    match present(tree_get(arguments, name)) {
        None => Ok(Seq::empty()),
        Some(TreeView::List(items)) => match all_texts(items) {
            Some(ts) => Ok(ts),
            None => Err(name + " must be a list of strings"@),
        },
        Some(_) => Err(name + " must be a list of strings"@),
    }
}

/// Each name as an ecosystem, or the first one that is none: an unknown
/// name is a refusal, never a silently wider walk.
pub open spec fn ecosystems_of(names: Seq<Seq<char>>) -> Result<Seq<Ecosystem>, Seq<char>>
    decreases names.len(),
{
    if names.len() == 0 {
        Ok(Seq::empty())
    } else {
        match ecosystems_of(names.drop_last()) {
            Err(e) => Err(e),
            Ok(es) => match eco_named(names.last()) {
                Some(e) => Ok(es.push(e)),
                None => Err(names.last() + " is not one of npm, cargo, python, go or ci"@),
            },
        }
    }
}

/// What a `versions_le_check` call asks to analyse.
#[derive(Clone, Debug, PartialEq, Eq)]
pub struct CheckRequest {
    pub path: String,
    pub options: DiscoverOptions,
}

pub struct CheckRequestView {
    pub path: Seq<char>,
    pub hidden: bool,
    pub respect_ignore: bool,
    pub exclude: Seq<Seq<char>>,
    pub ecosystems: Seq<Ecosystem>,
}

impl View for CheckRequest {
    type V = CheckRequestView;

    open spec fn view(&self) -> CheckRequestView {
        CheckRequestView {
            path: self.path@,
            hidden: self.options.hidden,
            respect_ignore: self.options.respect_ignore,
            exclude: string_views(self.options.exclude@),
            ecosystems: self.options.ecosystems@,
        }
    }
}

pub open spec fn check_request_of(arguments: TreeView) -> Result<CheckRequestView, Seq<char>> {
    match unknown_in(arguments, check_arguments()) {
        Some(k) => Err(k + NOT_AN_ARGUMENT@),
        None => match present(tree_get(arguments, "path"@)) {
            None => Err(NO_DIRECTORY@),
            Some(TreeView::Text(path)) => match flag_of(arguments, "hidden"@) {
                Err(e) => Err(e),
                Ok(hidden) => match flag_of(arguments, "ignored"@) {
                    Err(e) => Err(e),
                    Ok(ignored) => match strings_of(arguments, "exclude"@) {
                        Err(e) => Err(e),
                        Ok(exclude) => match strings_of(arguments, "ecosystems"@) {
                            Err(e) => Err(e),
                            Ok(names) => match ecosystems_of(names) {
                                Err(e) => Err(e),
                                Ok(ecosystems) => Ok(
                                    CheckRequestView {
                                        path,
                                        hidden,
                                        respect_ignore: !ignored,
                                        exclude,
                                        ecosystems,
                                    },
                                ),
                            },
                        },
                    },
                },
            },
            Some(_) => Err("path must be a string"@),
        },
    }
}

fn flag(arguments: &Tree, name: &str) -> (r: Result<bool, String>)
    ensures
        match r {
            Ok(b) => flag_of(arguments@, name@) == Ok::<bool, Seq<char>>(b),
            Err(e) => flag_of(arguments@, name@) == Err::<bool, Seq<char>>(e@),
        },
{
    match present_value(arguments.get(name)) {
        None => Ok(false),
        Some(v) => match v.as_bool() {
            Some(b) => Ok(b),
            None => Err(with_tail(name, " must be true or false")),
        },
    }
}

fn strings(arguments: &Tree, name: &str) -> (r: Result<Vec<String>, String>)
    ensures
        match r {
            Ok(ts) => strings_of(arguments@, name@) == Ok::<Seq<Seq<char>>, Seq<char>>(
                string_views(ts@),
            ),
            Err(e) => strings_of(arguments@, name@) == Err::<Seq<Seq<char>>, Seq<char>>(e@),
        },
{
    let v = match present_value(arguments.get(name)) {
        None => {
            let out: Vec<String> = Vec::new();
            assert(string_views(out@) =~= Seq::<Seq<char>>::empty());
            return Ok(out);
        },
        Some(v) => v,
    };
    let items = match v.as_list() {
        Some(items) => items,
        None => {
            return Err(with_tail(name, " must be a list of strings"));
        },
    };
    let ghost lv = list_view(items@);
    proof {
        lemma_list_view(items@);
    }
    assert(strings_of(arguments@, name@) == match all_texts(lv) {
        Some(ts) => Ok::<Seq<Seq<char>>, Seq<char>>(ts),
        None => Err(name@ + " must be a list of strings"@),
    });
    let mut out: Vec<String> = Vec::new();
    assert(lv.take(0) =~= Seq::<TreeView>::empty());
    assert(string_views(out@) =~= Seq::<Seq<char>>::empty());
    let mut i: usize = 0;
    while i < items.len()
        invariant
            0 <= i <= items.len(),
            lv == list_view(items@),
            lv.len() == items@.len(),
            forall|j: int| 0 <= j < items@.len() ==> #[trigger] lv[j] == crate::document::tree_view(items@[j]),
            all_texts(lv.take(i as int)) == Some(string_views(out@)),
            strings_of(arguments@, name@) == match all_texts(lv) {
                Some(ts) => Ok::<Seq<Seq<char>>, Seq<char>>(ts),
                None => Err(name@ + " must be a list of strings"@),
            },
        decreases items.len() - i,
    {
        proof {
            assert(lv.take(i + 1).drop_last() =~= lv.take(i as int));
            assert(lv.take(i + 1).last() == lv[i as int]);
        }
        match items[i].as_text() {
            Some(t) => {
                let ghost before = string_views(out@);
                out.push(t.clone());
                assert(string_views(out@) =~= before.push(t@));
            },
            None => {
                proof {
                    lemma_texts_fail_persists(lv, i as int + 1);
                }
                return Err(with_tail(name, " must be a list of strings"));
            },
        }
        i = i + 1;
    }
    assert(lv.take(items.len() as int) =~= lv);
    Ok(out)
}

proof fn lemma_texts_fail_persists(items: Seq<TreeView>, n: int)
    requires
        0 <= n <= items.len(),
        all_texts(items.take(n)) is None,
    ensures
        all_texts(items) is None,
    decreases items.len() - n,
{
    if n < items.len() {
        assert(items.take(n + 1).drop_last() =~= items.take(n));
        lemma_texts_fail_persists(items, n + 1);
    } else {
        assert(items.take(n) =~= items);
    }
}

proof fn lemma_ecosystems_fail_persists(names: Seq<Seq<char>>, n: int, e: Seq<char>)
    requires
        0 <= n <= names.len(),
        ecosystems_of(names.take(n)) == Err::<Seq<Ecosystem>, Seq<char>>(e),
    ensures
        ecosystems_of(names) == Err::<Seq<Ecosystem>, Seq<char>>(e),
    decreases names.len() - n,
{
    if n < names.len() {
        assert(names.take(n + 1).drop_last() =~= names.take(n));
        lemma_ecosystems_fail_persists(names, n + 1, e);
    } else {
        assert(names.take(n) =~= names);
    }
}

pub open spec fn request_result(r: Result<CheckRequest, String>) -> Result<CheckRequestView, Seq<char>> {
    match r {
        Ok(c) => Ok(c@),
        Err(e) => Err(e@),
    }
}

/// The directory and the walk a `versions_le_check` call asks for.
pub fn check_request(arguments: &Tree) -> (r: Result<CheckRequest, String>)
    ensures
        request_result(r) == check_request_of(arguments@),
{
    let mut allowed: Vec<&'static str> = Vec::new();
    allowed.push("path");
    allowed.push("ecosystems");
    allowed.push("exclude");
    allowed.push("hidden");
    allowed.push("ignored");
    assert(allowed@.map_values(|a: &'static str| a@) =~= check_arguments());
    if let Some(k) = unknown_argument(arguments, &allowed) {
        return Err(with_tail(k.as_str(), NOT_AN_ARGUMENT));
    }
    let path = match present_value(arguments.get("path")) {
        None => {
            return Err(String::from_str(NO_DIRECTORY));
        },
        Some(p) => match p.as_text() {
            Some(p) => p.clone(),
            None => {
                return Err(String::from_str("path must be a string"));
            },
        },
    };
    let hidden = match flag(arguments, "hidden") {
        Ok(b) => b,
        Err(e) => {
            return Err(e);
        },
    };
    let ignored = match flag(arguments, "ignored") {
        Ok(b) => b,
        Err(e) => {
            return Err(e);
        },
    };
    let exclude = match strings(arguments, "exclude") {
        Ok(ts) => ts,
        Err(e) => {
            return Err(e);
        },
    };
    let names = match strings(arguments, "ecosystems") {
        Ok(ts) => ts,
        Err(e) => {
            return Err(e);
        },
    };
    let ghost nv = string_views(names@);
    let mut ecosystems: Vec<Ecosystem> = Vec::new();
    assert(nv.take(0) =~= Seq::<Seq<char>>::empty());
    assert(ecosystems@ =~= Seq::<Ecosystem>::empty());
    let mut i: usize = 0;
    while i < names.len()
        invariant
            0 <= i <= names.len(),
            nv == string_views(names@),
            ecosystems_of(nv.take(i as int)) == Ok::<Seq<Ecosystem>, Seq<char>>(ecosystems@),
            check_request_of(arguments@) == match ecosystems_of(nv) {
                Err(e) => Err(e),
                Ok(es) => Ok(
                    CheckRequestView {
                        path: path@,
                        hidden,
                        respect_ignore: !ignored,
                        exclude: string_views(exclude@),
                        ecosystems: es,
                    },
                ),
            },
        decreases names.len() - i,
    {
        proof {
            assert(nv.take(i + 1).drop_last() =~= nv.take(i as int));
            assert(nv.take(i + 1).last() == names@[i as int]@);
        }
        match Ecosystem::parse(names[i].as_str()) {
            Some(e) => {
                ecosystems.push(e);
            },
            None => {
                let message = with_tail(
                    names[i].as_str(),
                    " is not one of npm, cargo, python, go or ci",
                );
                proof {
                    lemma_ecosystems_fail_persists(nv, i as int + 1, message@);
                }
                return Err(message);
            },
        }
        i = i + 1;
    }
    assert(nv.take(names.len() as int) =~= nv);
    Ok(
        CheckRequest {
            path,
            options: DiscoverOptions { hidden, respect_ignore: !ignored, exclude, ecosystems },
        },
    )
}

// ---------------------------------------------------------------------
// Routing a JSON-RPC request
// ---------------------------------------------------------------------

/// JSON-RPC's code for a method the server does not implement.
pub const METHOD_NOT_FOUND: i64 = -32601;

/// JSON-RPC's code for parameters the method cannot take.
pub const INVALID_PARAMS: i64 = -32602;

/// The methods this server answers.
#[derive(Clone, Copy, Debug, PartialEq, Eq, Structural)]
pub enum Method {
    Initialize,
    ToolsList,
    ToolsCall,
    Ping,
}

/// The tools this server offers.
#[derive(Clone, Copy, Debug, PartialEq, Eq, Structural)]
pub enum Tool {
    CompareVersions,
    Check,
}

pub open spec fn route_of(method: Option<Seq<char>>, has_id: bool) -> Option<Result<Method, (i64, Seq<char>)>> {
    match method {
        None => None,
        Some(m) => if !has_id {
            None
        } else if m == "initialize"@ {
            Some(Ok(Method::Initialize))
        } else if m == "tools/list"@ {
            Some(Ok(Method::ToolsList))
        } else if m == "tools/call"@ {
            Some(Ok(Method::ToolsCall))
        } else if m == "ping"@ {
            Some(Ok(Method::Ping))
        } else {
            Some(Err((METHOD_NOT_FOUND, "this server does not implement "@ + m)))
        },
    }
}

pub open spec fn route_view(r: Option<Result<Method, (i64, String)>>) -> Option<Result<Method, (i64, Seq<char>)>> {
    match r {
        None => None,
        Some(Ok(m)) => Some(Ok(m)),
        Some(Err((c, e))) => Some(Err((c, e@))),
    }
}

/// What a request asks for. A request without a method string, and a
/// notification (no `id`), get no reply at all; a method this server does
/// not implement is a protocol error naming it.
pub fn route(method: Option<&str>, has_id: bool) -> (r: Option<Result<Method, (i64, String)>>)
    ensures
        route_view(r) == route_of(
            match method {
                Some(m) => Some(m@),
                None => None,
            },
            has_id,
        ),
{
    let m = match method {
        None => {
            return None;
        },
        Some(m) => m,
    };
    if !has_id {
        return None;
    }
    let t = chars_of(m);
    if crate::text::same_str(&t, "initialize") {
        Some(Ok(Method::Initialize))
    } else if crate::text::same_str(&t, "tools/list") {
        Some(Ok(Method::ToolsList))
    } else if crate::text::same_str(&t, "tools/call") {
        Some(Ok(Method::ToolsCall))
    } else if crate::text::same_str(&t, "ping") {
        Some(Ok(Method::Ping))
    } else {
        Some(Err((METHOD_NOT_FOUND, with_tail("this server does not implement ", m))))
    }
}

pub open spec fn tool_of(params: bool, name: Option<Seq<char>>) -> Result<Tool, (i64, Seq<char>)> {
    if !params {
        Err((INVALID_PARAMS, "no tool call was supplied"@))
    } else {
        match name {
            None => Err((INVALID_PARAMS, "the tool call named no tool"@)),
            Some(n) => if n == "compare_versions"@ {
                Ok(Tool::CompareVersions)
            } else if n == "versions_le_check"@ {
                Ok(Tool::Check)
            } else {
                Err((INVALID_PARAMS, "this server offers no tool named "@ + n))
            },
        }
    }
}

pub open spec fn tool_view(r: Result<Tool, (i64, String)>) -> Result<Tool, (i64, Seq<char>)> {
    match r {
        Ok(t) => Ok(t),
        Err((c, e)) => Err((c, e@)),
    }
}

/// Which tool a `tools/call` names. No parameters, and a call that names
/// no tool, are protocol errors, as is a tool this server does not offer;
/// a tool that then fails on its arguments is the tool's own answer.
pub fn tool_named(params: bool, name: Option<&str>) -> (r: Result<Tool, (i64, String)>)
    ensures
        tool_view(r) == tool_of(
            params,
            match name {
                Some(n) => Some(n@),
                None => None,
            },
        ),
{
    if !params {
        return Err((INVALID_PARAMS, String::from_str("no tool call was supplied")));
    }
    let n = match name {
        None => {
            return Err((INVALID_PARAMS, String::from_str("the tool call named no tool")));
        },
        Some(n) => n,
    };
    let t = chars_of(n);
    if crate::text::same_str(&t, "compare_versions") {
        Ok(Tool::CompareVersions)
    } else if crate::text::same_str(&t, "versions_le_check") {
        Ok(Tool::Check)
    } else {
        Err((INVALID_PARAMS, with_tail("this server offers no tool named ", n)))
    }
}

} // verus!
