//! The terminal surface's decisions: which options a command line asks
//! for, and the human lines that restate a report.
//!
//! stdout is protocol, one JSON report for the whole run; stderr is for
//! the human and is a projection of the same report.

use vstd::prelude::*;
use vstd::string::StringExecFns;
use crate::heuristics::{Ecosystem, eco_named};
use crate::text::{chars_of, starts_with, string_views};

verus! {

pub const USAGE: &'static str = "usage: versions-le [options] <dir|file>...
       versions-le mcp
       versions-le --version | --help

Finds the version constraints in a repository's manifests — package.json,
Cargo.toml, pyproject.toml, go.mod and .github/workflows — and reports
where the same dependency is constrained inconsistently.

Options:
  --ecosystem <name>   only npm, cargo, python, go or ci; repeatable
  --fail-on <what>     conflict (default: exit 1 on anything above info)
                       or any (exit 1 on any finding, floating pins too)
  --strict             a refusal or an unreadable manifest exits 2
  --exclude <glob>     skip manifests matching this pattern; repeatable
  --hidden             descend hidden directories too
  --no-ignore          walk files that .gitignore excludes

Comparison never crosses an ecosystem: an npm `semver` and a Cargo
`semver` are unrelated packages that share a word. A constraint in a
grammar this tool does not model — PEP 440's ~=, a git or workspace
dependency, a commit-SHA action pin — is named in the report's refusals
and left out of the comparison, never guessed at.

Exit codes: 0 clean · 1 findings · 2 malformed question. Finding no
manifests at all is 0 — there is nothing to be in conflict with.";

/// Every flag the parser accepts; `USAGE` names the same ones.
pub open spec fn flag_names() -> Seq<Seq<char>> {
    seq![
        "--ecosystem"@,
        "--fail-on"@,
        "--strict"@,
        "--exclude"@,
        "--hidden"@,
        "--no-ignore"@,
    ]
}

pub fn flags() -> (r: Vec<&'static str>)
    ensures
        r@.map_values(|f: &'static str| f@) == flag_names(),
{
    let mut r: Vec<&'static str> = Vec::new();
    r.push("--ecosystem");
    r.push("--fail-on");
    r.push("--strict");
    r.push("--exclude");
    r.push("--hidden");
    r.push("--no-ignore");
    assert(r@.map_values(|f: &'static str| f@) =~= flag_names());
    r
}

/// What a command line asks for.
#[derive(Clone, Debug, PartialEq, Eq)]
pub struct Cli {
    pub roots: Vec<String>,
    pub discover: crate::discover::DiscoverOptions,
    pub fail_on: crate::scan::FailOn,
    /// Exit 2 when part of the tree went unanalysed.
    pub strict: bool,
}

pub struct CliView {
    pub roots: Seq<Seq<char>>,
    pub hidden: bool,
    pub respect_ignore: bool,
    pub exclude: Seq<Seq<char>>,
    pub ecosystems: Seq<Ecosystem>,
    pub fail_on: crate::scan::FailOn,
    pub strict: bool,
}

impl View for Cli {
    type V = CliView;

    open spec fn view(&self) -> CliView {
        CliView {
            roots: string_views(self.roots@),
            hidden: self.discover.hidden,
            respect_ignore: self.discover.respect_ignore,
            exclude: string_views(self.discover.exclude@),
            ecosystems: self.discover.ecosystems@,
            fail_on: self.fail_on,
            strict: self.strict,
        }
    }
}

pub open spec fn no_options() -> CliView {
    CliView {
        roots: Seq::empty(),
        hidden: false,
        respect_ignore: true,
        exclude: Seq::empty(),
        ecosystems: Seq::empty(),
        fail_on: crate::scan::FailOn::Conflict,
        strict: false,
    }
}

/// No root named means the working directory.
pub open spec fn finished(st: CliView) -> CliView {
    if st.roots.len() == 0 {
        CliView { roots: seq!["."@], ..st }
    } else {
        st
    }
}

/// The command line from position `i` on, with `st` what came before.
/// Strict, never a silent default: a typo'd flag that quietly did nothing
/// would report a clean audit that never ran the check asked for.
pub open spec fn parse_from(args: Seq<Seq<char>>, i: int, st: CliView) -> Result<CliView, Seq<char>>
    decreases args.len() - i,
{
    if i < 0 || i >= args.len() {
        Ok(finished(st))
    } else {
        let arg = args[i];
        if starts_with(arg, "-"@) && !flag_names().contains(arg) {
            Err(arg + " is not an option. Try --help."@)
        } else if arg == "--strict"@ {
            parse_from(args, i + 1, CliView { strict: true, ..st })
        } else if arg == "--hidden"@ {
            parse_from(args, i + 1, CliView { hidden: true, ..st })
        } else if arg == "--no-ignore"@ {
            parse_from(args, i + 1, CliView { respect_ignore: false, ..st })
        } else if arg == "--ecosystem"@ {
            if i + 1 >= args.len() {
                Err("--ecosystem needs a name"@)
            } else {
                match eco_named(args[i + 1]) {
                    None => Err(
                        args[i + 1] + " is not an ecosystem. Try npm, cargo, python, go or ci."@,
                    ),
                    Some(e) => parse_from(
                        args,
                        i + 2,
                        CliView { ecosystems: st.ecosystems.push(e), ..st },
                    ),
                }
            }
        } else if arg == "--fail-on"@ {
            if i + 1 >= args.len() {
                Err("--fail-on needs conflict or any"@)
            } else if args[i + 1] == "conflict"@ {
                parse_from(args, i + 2, CliView { fail_on: crate::scan::FailOn::Conflict, ..st })
            } else if args[i + 1] == "any"@ {
                parse_from(args, i + 2, CliView { fail_on: crate::scan::FailOn::Any, ..st })
            } else {
                Err(args[i + 1] + " is not conflict or any"@)
            }
        } else if arg == "--exclude"@ {
            if i + 1 >= args.len() {
                Err("--exclude needs a pattern"@)
            } else {
                parse_from(args, i + 2, CliView { exclude: st.exclude.push(args[i + 1]), ..st })
            }
        } else {
            parse_from(args, i + 1, CliView { roots: st.roots.push(arg), ..st })
        }
    }
}

pub open spec fn parsed_args(args: Seq<Seq<char>>) -> Result<CliView, Seq<char>> {
    parse_from(args, 0, no_options())
}

pub open spec fn cli_result_view(r: Result<Cli, String>) -> Result<CliView, Seq<char>> {
    match r {
        Ok(c) => Ok(c@),
        Err(e) => Err(e@),
    }
}

fn is_flag(arg: &Vec<char>) -> (b: bool)
    ensures
        b == flag_names().contains(arg@),
{
    let fs = flags();
    let ghost names = flag_names();
    let mut i: usize = 0;
    while i < fs.len()
        invariant
            0 <= i <= fs.len(),
            fs@.map_values(|f: &'static str| f@) == names,
            names == flag_names(),
            forall|j: int| 0 <= j < i ==> names[j] != arg@,
        decreases fs.len() - i,
    {
        assert(fs@[i as int]@ == names[i as int]);
        if crate::text::same_str(arg, fs[i]) {
            return true;
        }
        i = i + 1;
    }
    assert(!names.contains(arg@));
    false
}

fn message_with(head: &str, tail: &str) -> (r: String)
    ensures
        r@ == head@ + tail@,
{
    let mut m = String::from_str(head);
    m.append(tail);
    m
}

/// The options a command line asks for, or why it is malformed.
pub fn parse(args: &Vec<String>) -> (r: Result<Cli, String>)
    ensures
        cli_result_view(r) == parsed_args(string_views(args@)),
{
    let ghost av = string_views(args@);
    let mut options = Cli {
        roots: Vec::new(),
        discover: crate::discover::DiscoverOptions::new(),
        fail_on: crate::scan::FailOn::Conflict,
        strict: false,
    };
    assert(options@.roots =~= Seq::<Seq<char>>::empty());
    assert(options@.exclude =~= Seq::<Seq<char>>::empty());
    assert(options@.ecosystems =~= Seq::<Ecosystem>::empty());
    assert(options@ == no_options());
    let mut i: usize = 0;
    while i < args.len()
        invariant
            0 <= i <= args.len(),
            av == string_views(args@),
            parsed_args(av) == parse_from(av, i as int, options@),
        decreases args.len() - i,
    {
        let arg = args[i].as_str();
        let a = chars_of(arg);
        assert(av[i as int] == a@);
        if a.len() > 0 && a[0] == '-' && !is_flag(&a) {
            assert(starts_with(a@, "-"@)) by {
                reveal_strlit("-");
                assert("-"@ =~= seq!['-']);
                assert(a@.take(1) =~= seq!['-']);
            }
            return Err(message_with(arg, " is not an option. Try --help."));
        }
        assert(!(starts_with(a@, "-"@) && !flag_names().contains(a@))) by {
            reveal_strlit("-");
            assert("-"@ =~= seq!['-']);
            if starts_with(a@, "-"@) {
                assert(a@.take(1) == "-"@);
                assert(a@[0] == a@.take(1)[0]);
            }
        }
        if crate::text::same_str(&a, "--strict") {
            options.strict = true;
            i = i + 1;
        } else if crate::text::same_str(&a, "--hidden") {
            options.discover.hidden = true;
            i = i + 1;
        } else if crate::text::same_str(&a, "--no-ignore") {
            options.discover.respect_ignore = false;
            i = i + 1;
        } else if crate::text::same_str(&a, "--ecosystem") {
            if i + 1 >= args.len() {
                return Err(String::from_str("--ecosystem needs a name"));
            }
            let value = args[i + 1].as_str();
            match Ecosystem::parse(value) {
                None => {
                    return Err(
                        message_with(value, " is not an ecosystem. Try npm, cargo, python, go or ci."),
                    );
                },
                Some(e) => {
                    options.discover.ecosystems.push(e);
                },
            }
            i = i + 2;
        } else if crate::text::same_str(&a, "--fail-on") {
            if i + 1 >= args.len() {
                return Err(String::from_str("--fail-on needs conflict or any"));
            }
            let value = chars_of(args[i + 1].as_str());
            if crate::text::same_str(&value, "conflict") {
                options.fail_on = crate::scan::FailOn::Conflict;
            } else if crate::text::same_str(&value, "any") {
                options.fail_on = crate::scan::FailOn::Any;
            } else {
                return Err(message_with(args[i + 1].as_str(), " is not conflict or any"));
            }
            i = i + 2;
        } else if crate::text::same_str(&a, "--exclude") {
            if i + 1 >= args.len() {
                return Err(String::from_str("--exclude needs a pattern"));
            }
            let ghost before = string_views(options.discover.exclude@);
            options.discover.exclude.push(args[i + 1].clone());
            assert(string_views(options.discover.exclude@) =~= before.push(av[i + 1]));
            i = i + 2;
        } else {
            let ghost before = string_views(options.roots@);
            options.roots.push(args[i].clone());
            assert(string_views(options.roots@) =~= before.push(av[i as int]));
            i = i + 1;
        }
    }
    if options.roots.len() == 0 {
        options.roots.push(String::from_str("."));
        assert(string_views(options.roots@) =~= seq!["."@]);
    }
    Ok(options)
}

// ---------------------------------------------------------------------
// The human half
// ---------------------------------------------------------------------

pub open spec fn plural_of(count: usize, one: Seq<char>, many: Seq<char>) -> Seq<char> {
    crate::text::decimal(count as nat) + " "@ + if count == 1 {
        one
    } else {
        many
    }
}

/// `3 findings`, `1 finding`.
pub fn plural(count: usize, one: &str, many: &str) -> (r: String)
    ensures
        r@ == plural_of(count, one@, many@),
{
    let mut r = crate::text::string_of(&crate::text::decimal_of(count as u64));
    r.append(" ");
    if count == 1 {
        r.append(one);
    } else {
        r.append(many);
    }
    r
}

/// Each file of a list of sites once, in order of first appearance.
pub open spec fn site_files(sites: Seq<crate::parser::SiteView>) -> Seq<Seq<char>> {
    crate::order::distinct(sites.map_values(|s: crate::parser::SiteView| s.file))
}

/// The files a finding touches, each named once: a human reading nine
/// identical filenames learns nothing from the eight repeats.
pub fn files(sites: &Vec<crate::parser::Site>) -> (r: String)
    ensures
        r@ == crate::text::join_with(site_files(crate::parser::site_views(sites@)), ", "@),
{
    let ghost fs = crate::parser::site_views(sites@).map_values(|s: crate::parser::SiteView| s.file);
    let mut named: Vec<Vec<char>> = Vec::new();
    let mut i: usize = 0;
    while i < sites.len()
        invariant
            0 <= i <= sites.len(),
            fs == crate::parser::site_views(sites@).map_values(|s: crate::parser::SiteView| s.file),
            crate::text::views(named@) == crate::order::distinct(fs.take(i as int)),
        decreases sites.len() - i,
    {
        let file = chars_of(sites[i].file.as_str());
        let ghost nv = crate::text::views(named@);
        proof {
            assert(fs.take(i + 1).drop_last() =~= fs.take(i as int));
            assert(fs.take(i + 1).last() == file@);
        }
        let mut found = false;
        let mut k: usize = 0;
        while k < named.len()
            invariant
                0 <= k <= named.len(),
                nv == crate::text::views(named@),
                found ==> nv.contains(file@),
                !found ==> forall|x: int| 0 <= x < k ==> #[trigger] nv[x] != file@,
            decreases named.len() - k,
        {
            if crate::text::same(&named[k], &file) {
                found = true;
                assert(nv[k as int] == file@);
            }
            k = k + 1;
        }
        if !found {
            named.push(file);
            assert(crate::text::views(named@) =~= nv.push(file@));
        }
        i = i + 1;
    }
    assert(fs.take(sites.len() as int) =~= fs);
    crate::text::string_of(&crate::text::joined_with(&named, ", "))
}


pub open spec fn diagnostic_line(d: crate::scan::DiagnosticView) -> Seq<char> {
    d.file + ": "@ + d.message
}

pub open spec fn finding_line(f: crate::compare::FindingView) -> Seq<char> {
    f.severity + " "@ + crate::heuristics::eco_name(f.ecosystem) + ": "@ + f.name + " ("@
        + f.message + ") ["@ + crate::text::join_with(site_files(f.sites), ", "@) + "]"@
}

pub open spec fn refusal_line(r: crate::parser::RefusalView) -> Seq<char> {
    "refused "@ + r.reason + " "@ + r.name + ": "@ + r.message + " ["@ + crate::text::join_with(
        site_files(r.sites),
        ", "@,
    ) + "]"@
}

pub open spec fn closing_line(s: crate::scan::Summary) -> Seq<char> {
    if s.manifests == 0 {
        "no manifests found"@
    } else if s.findings == 0 {
        "consistent — "@ + plural_of(s.entries, "constraint"@, "constraints"@) + " across "@
            + plural_of(s.manifests, "manifest"@, "manifests"@)
    } else {
        plural_of(s.findings, "finding"@, "findings"@) + " across "@ + plural_of(
            s.manifests,
            "manifest"@,
            "manifests"@,
        ) + " — "@ + crate::text::decimal(s.errors as nat) + " error, "@ + crate::text::decimal(
            s.warnings as nat,
        ) + " warning, "@ + crate::text::decimal(s.infos as nat) + " info"@
    }
}

pub open spec fn diagnostic_lines(ds: Seq<crate::scan::DiagnosticView>) -> Seq<Seq<char>> {
    ds.map_values(|d: crate::scan::DiagnosticView| diagnostic_line(d))
}

pub open spec fn finding_lines(fs: Seq<crate::compare::FindingView>) -> Seq<Seq<char>> {
    fs.map_values(|f: crate::compare::FindingView| finding_line(f))
}

pub open spec fn refusal_lines(rs: Seq<crate::parser::RefusalView>) -> Seq<Seq<char>> {
    rs.map_values(|r: crate::parser::RefusalView| refusal_line(r))
}

/// Every line the human half writes: each diagnostic, finding and
/// refusal restated, then one closing line.
pub open spec fn human_lines(r: crate::scan::ReportView) -> Seq<Seq<char>> {
    diagnostic_lines(r.diagnostics) + finding_lines(r.findings) + refusal_lines(r.refusals) + seq![
        closing_line(r.summary),
    ]
}

fn closing(s: &crate::scan::Summary) -> (r: String)
    ensures
        r@ == closing_line(*s),
{
    if s.manifests == 0 {
        return String::from_str("no manifests found");
    }
    if s.findings == 0 {
        let mut line = String::from_str("consistent — ");
        line.append(plural(s.entries, "constraint", "constraints").as_str());
        line.append(" across ");
        line.append(plural(s.manifests, "manifest", "manifests").as_str());
        return line;
    }
    let mut line = plural(s.findings, "finding", "findings");
    line.append(" across ");
    line.append(plural(s.manifests, "manifest", "manifests").as_str());
    line.append(" — ");
    line.append(crate::text::string_of(&crate::text::decimal_of(s.errors as u64)).as_str());
    line.append(" error, ");
    line.append(crate::text::string_of(&crate::text::decimal_of(s.warnings as u64)).as_str());
    line.append(" warning, ");
    line.append(crate::text::string_of(&crate::text::decimal_of(s.infos as u64)).as_str());
    line.append(" info");
    line
}

/// The human half: every line restates something already in the report.
pub fn summarise(report: &crate::scan::Report) -> (r: Vec<String>)
    ensures
        string_views(r@) == human_lines(report@),
{
    let ghost rv = report@;
    let mut out: Vec<String> = Vec::new();
    let mut i: usize = 0;
    while i < report.diagnostics.len()
        invariant
            0 <= i <= report.diagnostics.len(),
            rv == report@,
            string_views(out@) == diagnostic_lines(rv.diagnostics.take(i as int)),
        decreases report.diagnostics.len() - i,
    {
        let d = &report.diagnostics[i];
        let mut line = d.file.clone();
        line.append(": ");
        line.append(d.message.as_str());
        let ghost before = string_views(out@);
        out.push(line);
        proof {
            assert(string_views(out@) =~= before.push(line@));
            assert(diagnostic_lines(rv.diagnostics.take(i + 1)) =~= diagnostic_lines(
                rv.diagnostics.take(i as int),
            ).push(diagnostic_line(rv.diagnostics[i as int])));
        }
        i = i + 1;
    }
    assert(rv.diagnostics.take(report.diagnostics.len() as int) =~= rv.diagnostics);
    let ghost after_diagnostics = string_views(out@);
    let mut j: usize = 0;
    while j < report.findings.len()
        invariant
            0 <= j <= report.findings.len(),
            rv == report@,
            after_diagnostics == diagnostic_lines(rv.diagnostics),
            string_views(out@) == after_diagnostics + finding_lines(rv.findings.take(j as int)),
        decreases report.findings.len() - j,
    {
        let f = &report.findings[j];
        let mut line = f.severity.clone();
        line.append(" ");
        line.append(f.ecosystem.name());
        line.append(": ");
        line.append(f.name.as_str());
        line.append(" (");
        line.append(f.message.as_str());
        line.append(") [");
        line.append(files(&f.sites).as_str());
        line.append("]");
        let ghost before = string_views(out@);
        out.push(line);
        proof {
            assert(string_views(out@) =~= before.push(line@));
            assert(finding_lines(rv.findings.take(j + 1)) =~= finding_lines(
                rv.findings.take(j as int),
            ).push(finding_line(rv.findings[j as int])));
        }
        j = j + 1;
    }
    assert(rv.findings.take(report.findings.len() as int) =~= rv.findings);
    let ghost after_findings = string_views(out@);
    let mut k: usize = 0;
    while k < report.refusals.len()
        invariant
            0 <= k <= report.refusals.len(),
            rv == report@,
            after_findings == diagnostic_lines(rv.diagnostics) + finding_lines(rv.findings),
            string_views(out@) == after_findings + refusal_lines(rv.refusals.take(k as int)),
        decreases report.refusals.len() - k,
    {
        let r = &report.refusals[k];
        let mut line = String::from_str("refused ");
        line.append(r.reason.as_str());
        line.append(" ");
        line.append(r.name.as_str());
        line.append(": ");
        line.append(r.message.as_str());
        line.append(" [");
        line.append(files(&r.sites).as_str());
        line.append("]");
        let ghost before = string_views(out@);
        out.push(line);
        proof {
            assert(string_views(out@) =~= before.push(line@));
            assert(refusal_lines(rv.refusals.take(k + 1)) =~= refusal_lines(
                rv.refusals.take(k as int),
            ).push(refusal_line(rv.refusals[k as int])));
        }
        k = k + 1;
    }
    assert(rv.refusals.take(report.refusals.len() as int) =~= rv.refusals);
    let last = closing(&report.summary);
    let ghost before = string_views(out@);
    out.push(last);
    assert(string_views(out@) =~= before.push(last@));
    out
}

} // verus!
