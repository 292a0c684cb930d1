//! The checks: entries in, findings out.
//!
//! **Comparison is scoped per ecosystem, always.** Every group below is
//! keyed by ecosystem *and* name; a name that turns up in two ecosystems
//! is a `cross_ecosystem` refusal. The one deliberate exception is
//! `msrv-mismatch`, which relates two *named* keys rather than matching a
//! name. An entry whose constraint is `Unknown` never reaches a
//! comparison.

use vstd::prelude::*;
use vstd::string::StringExecFns;
use crate::grammar::{ConstraintView, range_view};
use crate::heuristics::{Ecosystem, eco_rank};
use crate::interval::{IntervalView, mentions_prerelease_spec};
use crate::order::{
    dedup, distinct, insert_by, insert_unique, insertion_point, lemma_insert_by,
    lemma_insertion_point_is_first, sort_by, sorted_unique,
};
use crate::parser::{
    Entry, EntryView, Kind, Refusal, RefusalView, Site, SiteView, development, entry_views,
    refusal_views, site_views,
};
use crate::text::{chars_of, decimal, join_with, same, same_str, views};
use crate::version::{lex_compare, lex_order};

verus! {

/// One problem with one dependency, carrying every site it was seen at.
#[derive(Clone, Debug, PartialEq, Eq)]
pub struct Finding {
    pub code: String,
    pub severity: String,
    pub ecosystem: Ecosystem,
    pub name: String,
    pub message: String,
    pub sites: Vec<Site>,
}

pub struct FindingView {
    pub code: Seq<char>,
    pub severity: Seq<char>,
    pub ecosystem: Ecosystem,
    pub name: Seq<char>,
    pub message: Seq<char>,
    pub sites: Seq<SiteView>,
}

impl View for Finding {
    type V = FindingView;

    open spec fn view(&self) -> FindingView {
        FindingView {
            code: self.code@,
            severity: self.severity@,
            ecosystem: self.ecosystem,
            name: self.name@,
            message: self.message@,
            sites: site_views(self.sites@),
        }
    }
}

pub open spec fn finding_views(s: Seq<Finding>) -> Seq<FindingView> {
    s.map_values(|x: Finding| x@)
}

pub const ERROR: &'static str = "error";

pub const WARNING: &'static str = "warning";

pub const INFO: &'static str = "info";

pub open spec fn severity_rank(severity: Seq<char>) -> int {
    if severity == ERROR@ {
        0
    } else if severity == WARNING@ {
        1
    } else {
        2
    }
}

/// Worst first: errors, then warnings, then everything else.
pub fn rank(severity: &str) -> (r: u8)
    ensures
        r == severity_rank(severity@),
{
    let s = chars_of(severity);
    if same_str(&s, ERROR) {
        0
    } else if same_str(&s, WARNING) {
        1
    } else {
        2
    }
}

// ---------------------------------------------------------------------
// Grouping by ecosystem and name
// ---------------------------------------------------------------------

/// Which entries a check looks at.
#[derive(Clone, Copy, PartialEq, Eq, Structural)]
pub enum Selection {
    /// Modelled, not a minimum toolchain, and not a CI job's own tool.
    Comparable,
    /// A CI job's tool version with a modelled range.
    PerJob,
    /// Outside dev and build dependencies, with a prerelease in range.
    Shipped,
    /// Malformed.
    Broken,
    /// Floating.
    Floating,
}

/// A `<tool>-version:` input belongs to the job that installs it.
pub open spec fn per_job(e: EntryView) -> bool {
    e.ecosystem == Ecosystem::Ci && e.kind == Kind::Tool
}

pub open spec fn selected(s: Selection, e: EntryView) -> bool {
    match s {
        Selection::Comparable => e.kind != Kind::Msrv && !per_job(e) && range_view(
            e.constraint,
        ) is Some,
        Selection::PerJob => per_job(e) && range_view(e.constraint) is Some,
        Selection::Shipped => !development(e.kind) && match range_view(e.constraint) {
            Some(r) => mentions_prerelease_spec(r),
            None => false,
        },
        Selection::Broken => e.constraint is Malformed,
        Selection::Floating => e.floats is Some,
    }
}

fn selects(s: Selection, e: &Entry) -> (r: bool)
    ensures
        r == selected(s, e@),
{
    let job = e.ecosystem == Ecosystem::Ci && e.kind == Kind::Tool;
    match s {
        Selection::Comparable => e.kind != Kind::Msrv && !job && e.constraint.range().is_some(),
        Selection::PerJob => job && e.constraint.range().is_some(),
        Selection::Shipped => {
            !e.kind.is_development() && match e.constraint.range() {
                Some(r) => r.mentions_prerelease(),
                None => false,
            }
        },
        Selection::Broken => e.constraint.malformed_reason().is_some(),
        Selection::Floating => e.floats.is_some(),
    }
}

/// A group's key: the ecosystem and the name. The pair is the whole of
/// the scoping rule.
pub open spec fn key_of(e: EntryView) -> (Ecosystem, Seq<char>) {
    (e.ecosystem, e.name)
}

pub open spec fn key_before(a: (Ecosystem, Seq<char>), b: (Ecosystem, Seq<char>)) -> bool {
    eco_rank(a.0) < eco_rank(b.0) || (eco_rank(a.0) == eco_rank(b.0) && lex_order(a.1, b.1) < 0)
}

pub open spec fn key_order() -> spec_fn((Ecosystem, Seq<char>), (Ecosystem, Seq<char>)) -> bool {
    |a: (Ecosystem, Seq<char>), b: (Ecosystem, Seq<char>)| key_before(a, b)
}

/// The keys of the selected entries, in entry order.
pub open spec fn kept_keys(es: Seq<EntryView>, s: Selection) -> Seq<(Ecosystem, Seq<char>)>
    decreases es.len(),
{
    if es.len() == 0 {
        Seq::empty()
    } else {
        let rest = kept_keys(es.drop_last(), s);
        if selected(s, es.last()) {
            rest.push(key_of(es.last()))
        } else {
            rest
        }
    }
}

/// The positions of the selected entries with key `k`, in order.
pub open spec fn members(es: Seq<EntryView>, s: Selection, k: (Ecosystem, Seq<char>)) -> Seq<int>
    decreases es.len(),
{
    if es.len() == 0 {
        Seq::empty()
    } else {
        let rest = members(es.drop_last(), s, k);
        if selected(s, es.last()) && key_of(es.last()) == k {
            rest.push(es.len() - 1)
        } else {
            rest
        }
    }
}

/// One group per key, in key order, each holding its entries in order.
pub open spec fn groups(es: Seq<EntryView>, s: Selection) -> Seq<((Ecosystem, Seq<char>), Seq<int>)> {
    sorted_unique(kept_keys(es, s), key_order()).map_values(
        |k: (Ecosystem, Seq<char>)| (k, members(es, s, k)),
    )
}

pub struct Group {
    pub ecosystem: Ecosystem,
    pub name: Vec<char>,
    pub members: Vec<usize>,
}

pub open spec fn index_view(v: Seq<usize>) -> Seq<int> {
    v.map_values(|i: usize| i as int)
}

pub open spec fn group_view(g: Group) -> ((Ecosystem, Seq<char>), Seq<int>) {
    ((g.ecosystem, g.name@), index_view(g.members@))
}

pub open spec fn key_view(k: (Ecosystem, Vec<char>)) -> (Ecosystem, Seq<char>) {
    (k.0, k.1@)
}

pub open spec fn key_views(v: Seq<(Ecosystem, Vec<char>)>) -> Seq<(Ecosystem, Seq<char>)> {
    v.map_values(|k: (Ecosystem, Vec<char>)| key_view(k))
}

pub open spec fn group_views(v: Seq<Group>) -> Seq<((Ecosystem, Seq<char>), Seq<int>)> {
    v.map_values(|g: Group| group_view(g))
}

fn key_precedes(a: &(Ecosystem, Vec<char>), b: &(Ecosystem, Vec<char>)) -> (r: bool)
    ensures
        r == key_before(key_view(*a), key_view(*b)),
{
    let ra = a.0.rank();
    let rb = b.0.rank();
    ra < rb || (ra == rb && lex_compare(&a.1, &b.1) < 0)
}

/// Adds `k` in key order unless it is already there.
fn insert_key(keys: &mut Vec<(Ecosystem, Vec<char>)>, k: (Ecosystem, Vec<char>))
    ensures
        key_views(final(keys)@) == insert_unique(
            key_views(old(keys)@),
            key_view(k),
            key_order(),
        ),
{
    let ghost ks = key_views(keys@);
    let mut j: usize = 0;
    while j < keys.len()
        invariant
            0 <= j <= keys.len(),
            ks == key_views(keys@),
            forall|x: int| 0 <= x < j ==> #[trigger] ks[x] != key_view(k),
        decreases keys.len() - j,
    {
        if keys[j].0 == k.0 && same(&keys[j].1, &k.1) {
            assert(ks[j as int] == key_view(k));
            return;
        }
        j = j + 1;
    }
    assert(!ks.contains(key_view(k)));
    let mut p: usize = 0;
    while p < keys.len() && !key_precedes(&k, &keys[p])
        invariant
            0 <= p <= keys.len(),
            ks == key_views(keys@),
            forall|x: int| 0 <= x < p ==> !key_before(key_view(k), #[trigger] ks[x]),
        decreases keys.len() - p,
    {
        p = p + 1;
    }
    proof {
        lemma_insertion_point_is_first(ks, key_view(k), key_order(), p as int);
        lemma_insert_by(ks, key_view(k), key_order());
    }
    keys.insert(p, k);
    assert(key_views(keys@) =~= ks.insert(p as int, key_view(k)));
}

/// The selected entries grouped by ecosystem and name.
fn group_by_name(entries: &Vec<Entry>, s: Selection) -> (r: Vec<Group>)
    ensures
        group_views(r@) == groups(entry_views(entries@), s),
{
    let ghost es = entry_views(entries@);
    let mut names: Vec<Vec<char>> = Vec::new();
    let mut keys: Vec<(Ecosystem, Vec<char>)> = Vec::new();
    let mut i: usize = 0;
    while i < entries.len()
        invariant
            0 <= i <= entries.len(),
            es == entry_views(entries@),
            names@.len() == i,
            forall|x: int| 0 <= x < i ==> (#[trigger] names@[x])@ == es[x].name,
            key_views(keys@) == sorted_unique(
                kept_keys(es.take(i as int), s),
                key_order(),
            ),
        decreases entries.len() - i,
    {
        let name = chars_of(entries[i].name.as_str());
        proof {
            assert(es.take(i + 1).drop_last() =~= es.take(i as int));
            assert(es.take(i + 1).last() == es[i as int]);
        }
        if selects(s, &entries[i]) {
            let ghost before = key_views(keys@);
            insert_key(&mut keys, (entries[i].ecosystem, name.clone()));
            proof {
                assert(kept_keys(es.take(i + 1), s) == kept_keys(es.take(i as int), s).push(
                    key_of(es[i as int]),
                ));
                assert(kept_keys(es.take(i + 1), s).drop_last() =~= kept_keys(
                    es.take(i as int),
                    s,
                ));
            }
        }
        names.push(name);
        i = i + 1;
    }
    assert(es.take(entries.len() as int) =~= es);
    let ghost ks = key_views(keys@);
    let mut out: Vec<Group> = Vec::new();
    let mut g: usize = 0;
    while g < keys.len()
        invariant
            0 <= g <= keys.len(),
            es == entry_views(entries@),
            names@.len() == entries.len(),
            forall|x: int| 0 <= x < entries.len() ==> (#[trigger] names@[x])@ == es[x].name,
            ks == key_views(keys@),
            ks == sorted_unique(kept_keys(es, s), key_order()),
            group_views(out@) == groups(es, s).take(g as int),
        decreases keys.len() - g,
    {
        let key = &keys[g];
        let ghost k = key_view(*key);
        let mut ms: Vec<usize> = Vec::new();
        let mut i: usize = 0;
        while i < entries.len()
            invariant
                0 <= i <= entries.len(),
                es == entry_views(entries@),
                names@.len() == entries.len(),
                forall|x: int| 0 <= x < entries.len() ==> (#[trigger] names@[x])@ == es[x].name,
                k == key_view(*key),
                index_view(ms@) == members(es.take(i as int), s, k),
            decreases entries.len() - i,
        {
            proof {
                assert(es.take(i + 1).drop_last() =~= es.take(i as int));
                assert(es.take(i + 1).last() == es[i as int]);
            }
            if selects(s, &entries[i]) && entries[i].ecosystem == key.0 && same(&names[i], &key.1) {
                ms.push(i);
                assert(index_view(ms@) =~= members(es.take(i as int), s, k).push(i as int));
            }
            i = i + 1;
        }
        assert(es.take(entries.len() as int) =~= es);
        let ghost gv = groups(es, s)[g as int];
        assert(gv == (ks[g as int], members(es, s, ks[g as int])));
        let name = key.1.clone();
        assert(name@ == key.1@);
        let ghost prev = group_views(out@);
        out.push(Group { ecosystem: key.0, name, members: ms });
        proof {
            assert(group_views(out@) =~= prev.push(gv));
            assert(groups(es, s).take(g + 1) =~= groups(es, s).take(g as int).push(gv));
            assert(group_views(out@) =~= groups(es, s).take(g + 1));
        }
        g = g + 1;
    }
    assert(groups(es, s).take(keys.len() as int) =~= groups(es, s));
    out
}


// ---------------------------------------------------------------------
// What a group holds
// ---------------------------------------------------------------------

pub open spec fn valid_members(es: Seq<EntryView>, ms: Seq<int>) -> bool {
    forall|j: int| 0 <= j < ms.len() ==> 0 <= #[trigger] ms[j] < es.len()
}

/// Sites in file order, then key order.
pub open spec fn site_before(a: SiteView, b: SiteView) -> bool {
    lex_order(a.file, b.file) < 0 || (lex_order(a.file, b.file) == 0 && lex_order(a.key, b.key)
        < 0)
}

pub open spec fn site_order() -> spec_fn(SiteView, SiteView) -> bool {
    |a: SiteView, b: SiteView| site_before(a, b)
}

pub open spec fn member_sites(es: Seq<EntryView>, ms: Seq<int>) -> Seq<SiteView> {
    ms.map_values(|i: int| es[i].site)
}

/// A group's sites: sorted by file and key, repeats removed.
pub open spec fn sites_of(es: Seq<EntryView>, ms: Seq<int>) -> Seq<SiteView> {
    dedup(sort_by(member_sites(es, ms), site_order()))
}

fn site_precedes(a: &Site, b: &Site) -> (r: bool)
    ensures
        r == site_before(a@, b@),
{
    let fa = chars_of(a.file.as_str());
    let fb = chars_of(b.file.as_str());
    let by_file = lex_compare(&fa, &fb);
    if by_file != 0 {
        return by_file < 0;
    }
    let ka = chars_of(a.key.as_str());
    let kb = chars_of(b.key.as_str());
    lex_compare(&ka, &kb) < 0
}

fn insert_site(list: &mut Vec<Site>, x: Site)
    ensures
        site_views(final(list)@) == insert_by(site_views(old(list)@), x@, site_order()),
{
    let ghost ss = site_views(list@);
    let mut p: usize = 0;
    while p < list.len() && !site_precedes(&x, &list[p])
        invariant
            0 <= p <= list.len(),
            ss == site_views(list@),
            forall|k: int| 0 <= k < p ==> !site_before(x@, #[trigger] ss[k]),
        decreases list.len() - p,
    {
        p = p + 1;
    }
    proof {
        lemma_insertion_point_is_first(ss, x@, site_order(), p as int);
        lemma_insert_by(ss, x@, site_order());
    }
    let ghost xv = x@;
    list.insert(p, x);
    assert(site_views(list@) =~= ss.insert(p as int, xv));
}

fn sites(entries: &Vec<Entry>, members: &Vec<usize>) -> (r: Vec<Site>)
    requires
        valid_members(entry_views(entries@), index_view(members@)),
    ensures
        site_views(r@) == sites_of(entry_views(entries@), index_view(members@)),
{
    let ghost es = entry_views(entries@);
    let ghost ms = index_view(members@);
    let mut sorted: Vec<Site> = Vec::new();
    let mut i: usize = 0;
    while i < members.len()
        invariant
            0 <= i <= members.len(),
            es == entry_views(entries@),
            ms == index_view(members@),
            valid_members(es, ms),
            site_views(sorted@) == sort_by(member_sites(es, ms).take(i as int), site_order()),
        decreases members.len() - i,
    {
        assert(0 <= ms[i as int] < es.len());
        let x = entries[members[i]].site.copy();
        proof {
            let t = member_sites(es, ms).take(i + 1);
            assert(t.drop_last() =~= member_sites(es, ms).take(i as int));
            assert(t.last() == x@);
        }
        insert_site(&mut sorted, x);
        i = i + 1;
    }
    assert(member_sites(es, ms).take(members.len() as int) =~= member_sites(es, ms));
    let ghost sv = site_views(sorted@);
    let mut out: Vec<Site> = Vec::new();
    let mut j: usize = 0;
    while j < sorted.len()
        invariant
            0 <= j <= sorted.len(),
            sv == site_views(sorted@),
            site_views(out@) == dedup(sv.take(j as int)),
        decreases sorted.len() - j,
    {
        proof {
            assert(sv.take(j + 1).drop_last() =~= sv.take(j as int));
        }
        let repeat = out.len() > 0 && out[out.len() - 1].same(&sorted[j]);
        if !repeat {
            let ghost prev = site_views(out@);
            out.push(sorted[j].copy());
            assert(site_views(out@) =~= prev.push(sv[j as int]));
        }
        j = j + 1;
    }
    assert(sv.take(sorted.len() as int) =~= sv);
    out
}

/// Texts in character order.
pub open spec fn text_order() -> spec_fn(Seq<char>, Seq<char>) -> bool {
    |a: Seq<char>, b: Seq<char>| lex_order(a, b) < 0
}

fn insert_text(list: &mut Vec<Vec<char>>, x: Vec<char>)
    ensures
        views(final(list)@) == insert_unique(views(old(list)@), x@, text_order()),
{
    let ghost ts = views(list@);
    let mut j: usize = 0;
    while j < list.len()
        invariant
            0 <= j <= list.len(),
            ts == views(list@),
            forall|k: int| 0 <= k < j ==> #[trigger] ts[k] != x@,
        decreases list.len() - j,
    {
        if same(&list[j], &x) {
            assert(ts[j as int] == x@);
            return;
        }
        j = j + 1;
    }
    assert(!ts.contains(x@));
    let mut p: usize = 0;
    while p < list.len() && lex_compare(&x, &list[p]) >= 0
        invariant
            0 <= p <= list.len(),
            ts == views(list@),
            forall|k: int| 0 <= k < p ==> !(lex_order(x@, #[trigger] ts[k]) < 0),
        decreases list.len() - p,
    {
        p = p + 1;
    }
    proof {
        lemma_insertion_point_is_first(ts, x@, text_order(), p as int);
        lemma_insert_by(ts, x@, text_order());
    }
    let ghost xv = x@;
    list.insert(p, x);
    assert(views(list@) =~= ts.insert(p as int, xv));
}

pub open spec fn member_constraints(es: Seq<EntryView>, ms: Seq<int>) -> Seq<Seq<char>> {
    ms.map_values(|i: int| es[i].site.constraint)
}

/// The group's constraint texts, sorted, each once.
pub open spec fn distinct_constraints_of(es: Seq<EntryView>, ms: Seq<int>) -> Seq<Seq<char>> {
    sorted_unique(member_constraints(es, ms), text_order())
}

fn distinct_constraints(entries: &Vec<Entry>, members: &Vec<usize>) -> (r: Vec<Vec<char>>)
    requires
        valid_members(entry_views(entries@), index_view(members@)),
    ensures
        views(r@) == distinct_constraints_of(entry_views(entries@), index_view(members@)),
{
    let ghost es = entry_views(entries@);
    let ghost ms = index_view(members@);
    let mut out: Vec<Vec<char>> = Vec::new();
    let mut i: usize = 0;
    while i < members.len()
        invariant
            0 <= i <= members.len(),
            es == entry_views(entries@),
            ms == index_view(members@),
            valid_members(es, ms),
            views(out@) == sorted_unique(member_constraints(es, ms).take(i as int), text_order()),
        decreases members.len() - i,
    {
        assert(0 <= ms[i as int] < es.len());
        let x = chars_of(entries[members[i]].site.constraint.as_str());
        proof {
            let t = member_constraints(es, ms).take(i + 1);
            assert(t.drop_last() =~= member_constraints(es, ms).take(i as int));
            assert(t.last() == x@);
        }
        insert_text(&mut out, x);
        i = i + 1;
    }
    assert(member_constraints(es, ms).take(members.len() as int) =~= member_constraints(es, ms));
    out
}

/// The modelled ranges of a group's entries, in order.
pub open spec fn member_ranges(es: Seq<EntryView>, ms: Seq<int>) -> Seq<Seq<IntervalView>>
    decreases ms.len(),
{
    if ms.len() == 0 {
        Seq::empty()
    } else {
        let rest = member_ranges(es, ms.drop_last());
        match range_view(es[ms.last()].constraint) {
            Some(r) => rest.push(r),
            None => rest,
        }
    }
}

/// How many genuinely different requirements a group holds: compared as
/// modelled ranges, so two spellings of one requirement count once.
pub open spec fn distinct_range_count(es: Seq<EntryView>, ms: Seq<int>) -> int {
    distinct(member_ranges(es, ms)).len() as int
}

fn distinct_ranges(entries: &Vec<Entry>, members: &Vec<usize>) -> (r: usize)
    requires
        valid_members(entry_views(entries@), index_view(members@)),
    ensures
        r == distinct_range_count(entry_views(entries@), index_view(members@)),
{
    let ghost es = entry_views(entries@);
    let ghost ms = index_view(members@);
    let mut seen: Vec<usize> = Vec::new();
    let ghost mut seen_view: Seq<Seq<IntervalView>> = Seq::empty();
    let mut i: usize = 0;
    while i < members.len()
        invariant
            0 <= i <= members.len(),
            es == entry_views(entries@),
            ms == index_view(members@),
            valid_members(es, ms),
            seen_view == distinct(member_ranges(es, ms.take(i as int))),
            seen@.len() == seen_view.len(),
            forall|k: int| 0 <= k < seen@.len() ==> 0 <= #[trigger] seen@[k] < entries.len(),
            forall|k: int|
                0 <= k < seen@.len() ==> range_view(es[#[trigger] seen@[k] as int].constraint)
                    == Some(seen_view[k]),
        decreases members.len() - i,
    {
        assert(0 <= ms[i as int] < es.len());
        let at = members[i];
        proof {
            assert(ms.take(i + 1).drop_last() =~= ms.take(i as int));
            assert(ms.take(i + 1).last() == at as int);
        }
        if let Some(range) = entries[at].constraint.range() {
            let ghost rv = range@;
            let mut found = false;
            let mut k: usize = 0;
            while k < seen.len()
                invariant
                    0 <= k <= seen.len(),
                    es == entry_views(entries@),
                    seen@.len() == seen_view.len(),
                    forall|x: int| 0 <= x < seen@.len() ==> 0 <= #[trigger] seen@[x] < entries.len(),
                    forall|x: int|
                        0 <= x < seen@.len() ==> range_view(
                            es[#[trigger] seen@[x] as int].constraint,
                        ) == Some(seen_view[x]),
                    rv == range@,
                    found ==> seen_view.contains(rv),
                    !found ==> forall|x: int| 0 <= x < k ==> #[trigger] seen_view[x] != rv,
                decreases seen.len() - k,
            {
                let other = entries[seen[k]].constraint.range();
                assert(range_view(es[seen@[k as int] as int].constraint) == Some(seen_view[k as int]));
                if let Some(o) = other {
                    if crate::interval::same_range(o, range) {
                        found = true;
                        assert(seen_view[k as int] == rv);
                    }
                }
                k = k + 1;
            }
            proof {
                let prev = member_ranges(es, ms.take(i as int));
                assert(member_ranges(es, ms.take(i + 1)) == prev.push(rv));
                assert(prev.push(rv).drop_last() =~= prev);
            }
            if !found {
                seen.push(at);
                proof {
                    seen_view = seen_view.push(rv);
                }
            }
        } else {
            assert(member_ranges(es, ms.take(i + 1)) == member_ranges(es, ms.take(i as int)));
        }
        i = i + 1;
    }
    assert(ms.take(members.len() as int) =~= ms);
    seen.len()
}


pub open spec fn member_files(es: Seq<EntryView>, ms: Seq<int>) -> Seq<Seq<char>> {
    ms.map_values(|i: int| es[i].site.file)
}

/// How many files a group's entries come from.
pub open spec fn distinct_file_count(es: Seq<EntryView>, ms: Seq<int>) -> int {
    distinct(member_files(es, ms)).len() as int
}

fn distinct_files(entries: &Vec<Entry>, members: &Vec<usize>) -> (r: usize)
    requires
        valid_members(entry_views(entries@), index_view(members@)),
    ensures
        r == distinct_file_count(entry_views(entries@), index_view(members@)),
{
    let ghost es = entry_views(entries@);
    let ghost ms = index_view(members@);
    let mut seen: Vec<Vec<char>> = Vec::new();
    let mut i: usize = 0;
    while i < members.len()
        invariant
            0 <= i <= members.len(),
            es == entry_views(entries@),
            ms == index_view(members@),
            valid_members(es, ms),
            views(seen@) == distinct(member_files(es, ms).take(i as int)),
        decreases members.len() - i,
    {
        assert(0 <= ms[i as int] < es.len());
        let file = chars_of(entries[members[i]].site.file.as_str());
        let ghost sv = views(seen@);
        proof {
            let t = member_files(es, ms).take(i + 1);
            assert(t.drop_last() =~= member_files(es, ms).take(i as int));
            assert(t.last() == file@);
        }
        let mut found = false;
        let mut k: usize = 0;
        while k < seen.len()
            invariant
                0 <= k <= seen.len(),
                sv == views(seen@),
                found ==> sv.contains(file@),
                !found ==> forall|x: int| 0 <= x < k ==> #[trigger] sv[x] != file@,
            decreases seen.len() - k,
        {
            if same(&seen[k], &file) {
                found = true;
                assert(sv[k as int] == file@);
            }
            k = k + 1;
        }
        if !found {
            seen.push(file);
            assert(views(seen@) =~= sv.push(file@));
        }
        i = i + 1;
    }
    assert(member_files(es, ms).take(members.len() as int) =~= member_files(es, ms));
    seen.len()
}

// ---------------------------------------------------------------------
// The first pair no version satisfies
// ---------------------------------------------------------------------

/// Whether the constraints at positions `a` and `b` of a group are both
/// modelled and share no version.
pub open spec fn disjoint_at(es: Seq<EntryView>, ms: Seq<int>, a: int, b: int) -> bool {
    match (range_view(es[ms[a]].constraint), range_view(es[ms[b]].constraint)) {
        (Some(x), Some(y)) => crate::interval::disjoint(x, y),
        _ => false,
    }
}

/// No pair before `(a, b)`, in the order the pairs are tried, is disjoint.
pub open spec fn clear_before(es: Seq<EntryView>, ms: Seq<int>, a: int, b: int) -> bool {
    forall|x: int, y: int|
        0 <= x < y < ms.len() && (x < a || (x == a && y < b)) ==> !#[trigger] disjoint_at(
            es,
            ms,
            x,
            y,
        )
}

pub open spec fn is_first_pair(es: Seq<EntryView>, ms: Seq<int>, a: int, b: int) -> bool {
    0 <= a < b < ms.len() && disjoint_at(es, ms, a, b) && clear_before(es, ms, a, b)
}

/// The first disjoint pair, trying `(0, 1), (0, 2), …, (1, 2), …` in turn.
pub open spec fn first_pair(es: Seq<EntryView>, ms: Seq<int>) -> Option<(int, int)> {
    if exists|a: int, b: int| is_first_pair(es, ms, a, b) {
        Some(choose|a: int, b: int| is_first_pair(es, ms, a, b))
    } else {
        None
    }
}

proof fn lemma_first_pair_unique(es: Seq<EntryView>, ms: Seq<int>, a: int, b: int)
    requires
        is_first_pair(es, ms, a, b),
    ensures
        first_pair(es, ms) == Some((a, b)),
{
    let (c, d) = choose|c: int, d: int| is_first_pair(es, ms, c, d);
    assert(is_first_pair(es, ms, c, d));
    if c < a || (c == a && d < b) {
        assert(!disjoint_at(es, ms, c, d));
    }
    if a < c || (a == c && b < d) {
        assert(!disjoint_at(es, ms, a, b));
    }
}

fn first_disjoint_pair(entries: &Vec<Entry>, members: &Vec<usize>) -> (r: Option<(usize, usize)>)
    requires
        valid_members(entry_views(entries@), index_view(members@)),
    ensures
        match r {
            Some((a, b)) => first_pair(entry_views(entries@), index_view(members@)) == Some(
                (a as int, b as int),
            ),
            None => first_pair(entry_views(entries@), index_view(members@)) is None,
        },
{
    let ghost es = entry_views(entries@);
    let ghost ms = index_view(members@);
    let n = members.len();
    let mut a: usize = 0;
    while a < n
        invariant
            0 <= a <= n,
            n == ms.len(),
            es == entry_views(entries@),
            ms == index_view(members@),
            valid_members(es, ms),
            clear_before(es, ms, a as int, a + 1),
        decreases n - a,
    {
        let mut b: usize = a + 1;
        while b < n
            invariant
                0 <= a < n,
                a + 1 <= b <= n,
                n == ms.len(),
                es == entry_views(entries@),
                ms == index_view(members@),
                valid_members(es, ms),
                clear_before(es, ms, a as int, b as int),
            decreases n - b,
        {
            assert(0 <= ms[a as int] < es.len() && 0 <= ms[b as int] < es.len());
            let left = entries[members[a]].constraint.range();
            let right = entries[members[b]].constraint.range();
            if let (Some(one), Some(other)) = (left, right) {
                if crate::interval::are_disjoint(one, other) {
                    assert(disjoint_at(es, ms, a as int, b as int));
                    proof {
                        lemma_first_pair_unique(es, ms, a as int, b as int);
                    }
                    return Some((a, b));
                }
            }
            assert(!disjoint_at(es, ms, a as int, b as int));
            b = b + 1;
        }
        a = a + 1;
    }
    assert forall|c: int, d: int| !is_first_pair(es, ms, c, d) by {
        if 0 <= c < d < ms.len() {
            assert(!disjoint_at(es, ms, c, d));
        }
    }
    None
}


/// A group's members are in range, selected, and carry the group's key.
proof fn lemma_members(es: Seq<EntryView>, s: Selection, k: (Ecosystem, Seq<char>))
    ensures
        forall|j: int|
            0 <= j < members(es, s, k).len() ==> {
                let i = #[trigger] members(es, s, k)[j];
                &&& 0 <= i < es.len()
                &&& selected(s, es[i])
                &&& key_of(es[i]) == k
            },
        members(es, s, k).len() > 0 || !kept_keys(es, s).contains(k),
    decreases es.len(),
{
    if es.len() > 0 {
        lemma_members(es.drop_last(), s, k);
        let rest = members(es.drop_last(), s, k);
        assert forall|j: int| 0 <= j < rest.len() implies #[trigger] es.drop_last()[rest[j]] == es[rest[j]] by {}
        if kept_keys(es, s).contains(k) && !(selected(s, es.last()) && key_of(es.last()) == k) {
            let x = choose|x: int| 0 <= x < kept_keys(es, s).len() && kept_keys(es, s)[x] == k;
            if selected(s, es.last()) {
                assert(kept_keys(es, s) == kept_keys(es.drop_last(), s).push(key_of(es.last())));
                assert(kept_keys(es.drop_last(), s)[x] == k);
            } else {
                assert(kept_keys(es.drop_last(), s)[x] == k);
            }
        }
    }
}

/// Every group key is the key of some selected entry.
proof fn lemma_sorted_unique_contains<T>(s: Seq<T>, before: spec_fn(T, T) -> bool, x: T)
    ensures
        sorted_unique(s, before).contains(x) ==> s.contains(x),
    decreases s.len(),
{
    if s.len() > 0 {
        lemma_sorted_unique_contains(s.drop_last(), before, x);
        let r = sorted_unique(s.drop_last(), before);
        if sorted_unique(s, before).contains(x) {
            if !r.contains(s.last()) {
                crate::order::lemma_insert_by(r, s.last(), before);
                let p = insertion_point(r, s.last(), before);
                let k = choose|k: int|
                    0 <= k < r.insert(p, s.last()).len() && r.insert(p, s.last())[k] == x;
                if k < p {
                    assert(r[k] == x);
                } else if k > p {
                    assert(r[k - 1] == x);
                }
            }
            if r.contains(x) {
                let k = choose|k: int| 0 <= k < s.drop_last().len() && s.drop_last()[k] == x;
                assert(s[k] == x);
            } else {
                assert(x == s.last());
            }
        }
    }
}

/// The groups' views are members of the selected entries.
proof fn lemma_groups(es: Seq<EntryView>, s: Selection, g: int)
    requires
        0 <= g < groups(es, s).len(),
    ensures
        valid_members(es, groups(es, s)[g].1),
        groups(es, s)[g].1.len() > 0,
        forall|j: int|
            0 <= j < groups(es, s)[g].1.len() ==> selected(s, es[#[trigger] groups(es, s)[g].1[j]]),
        forall|j: int|
            0 <= j < groups(es, s)[g].1.len() ==> key_of(es[#[trigger] groups(es, s)[g].1[j]])
                == groups(es, s)[g].0,
{
    let ks = sorted_unique(kept_keys(es, s), key_order());
    let k = ks[g];
    assert(ks.contains(k));
    lemma_sorted_unique_contains(kept_keys(es, s), key_order(), k);
    lemma_members(es, s, k);
}


// ---------------------------------------------------------------------
// constraint-conflict / disjoint-constraint
// ---------------------------------------------------------------------

pub open spec fn disjoint_message(l: SiteView, r: SiteView) -> Seq<char> {
    "\""@ + l.constraint + "\" ("@ + l.file + ") and \""@ + r.constraint + "\" ("@ + r.file
        + ") cannot both be satisfied by one version"@
}

pub open spec fn conflict_message(es: Seq<EntryView>, ms: Seq<int>) -> Seq<char> {
    let cs = distinct_constraints_of(es, ms);
    "constrained "@ + decimal(cs.len()) + " different ways across "@ + decimal(
        distinct_file_count(es, ms) as nat,
    ) + " files: "@ + join_with(cs, ", "@)
}

/// One finding per drifted dependency, escalating to
/// `disjoint-constraint` when some pair of its constraints is provably
/// unsatisfiable together. The trigger is two distinct *ranges*, not two
/// distinct strings.
pub open spec fn conflict_of(es: Seq<EntryView>, g: ((Ecosystem, Seq<char>), Seq<int>)) -> Option<FindingView> {
    let ms = g.1;
    if distinct_range_count(es, ms) < 2 {
        None
    } else {
        match first_pair(es, ms) {
            Some((a, b)) => Some(
                FindingView {
                    code: "disjoint-constraint"@,
                    severity: ERROR@,
                    ecosystem: g.0.0,
                    name: g.0.1,
                    message: disjoint_message(es[ms[a]].site, es[ms[b]].site),
                    sites: sites_of(es, ms),
                },
            ),
            None => Some(
                FindingView {
                    code: "constraint-conflict"@,
                    severity: WARNING@,
                    ecosystem: g.0.0,
                    name: g.0.1,
                    message: conflict_message(es, ms),
                    sites: sites_of(es, ms),
                },
            ),
        }
    }
}

pub open spec fn conflicts_from(es: Seq<EntryView>, gs: Seq<((Ecosystem, Seq<char>), Seq<int>)>) -> Seq<FindingView>
    decreases gs.len(),
{
    if gs.len() == 0 {
        Seq::empty()
    } else {
        let rest = conflicts_from(es, gs.drop_last());
        match conflict_of(es, gs.last()) {
            Some(f) => rest.push(f),
            None => rest,
        }
    }
}

pub open spec fn conflicts_of(es: Seq<EntryView>) -> Seq<FindingView> {
    conflicts_from(es, groups(es, Selection::Comparable))
}

fn text(s: &Vec<char>) -> (r: String)
    ensures
        r@ == s@,
{
    crate::text::string_of(s)
}

fn number(n: usize) -> (r: String)
    ensures
        r@ == decimal(n as nat),
{
    crate::text::string_of(&crate::text::decimal_of(n as u64))
}

fn conflict(entries: &Vec<Entry>, group: &Group) -> (r: Option<Finding>)
    requires
        valid_members(entry_views(entries@), index_view(group.members@)),
    ensures
        match r {
            Some(f) => conflict_of(entry_views(entries@), group_view(*group)) == Some(f@),
            None => conflict_of(entry_views(entries@), group_view(*group)) is None,
        },
{
    let ghost es = entry_views(entries@);
    let ghost ms = index_view(group.members@);
    if distinct_ranges(entries, &group.members) < 2 {
        return None;
    }
    let sites = sites(entries, &group.members);
    let name = text(&group.name);
    match first_disjoint_pair(entries, &group.members) {
        Some((a, b)) => {
            assert(0 <= ms[a as int] < es.len() && 0 <= ms[b as int] < es.len());
            let left = &entries[group.members[a]].site;
            let right = &entries[group.members[b]].site;
            let mut message = String::from_str("\"");
            message.append(left.constraint.as_str());
            message.append("\" (");
            message.append(left.file.as_str());
            message.append(") and \"");
            message.append(right.constraint.as_str());
            message.append("\" (");
            message.append(right.file.as_str());
            message.append(") cannot both be satisfied by one version");
            Some(
                Finding {
                    code: String::from_str("disjoint-constraint"),
                    severity: String::from_str(ERROR),
                    ecosystem: group.ecosystem,
                    name,
                    message,
                    sites,
                },
            )
        },
        None => {
            let constraints = distinct_constraints(entries, &group.members);
            let files = distinct_files(entries, &group.members);
            let mut message = String::from_str("constrained ");
            message.append(number(constraints.len()).as_str());
            message.append(" different ways across ");
            message.append(number(files).as_str());
            message.append(" files: ");
            message.append(text(&crate::text::joined_with(&constraints, ", ")).as_str());
            Some(
                Finding {
                    code: String::from_str("constraint-conflict"),
                    severity: String::from_str(WARNING),
                    ecosystem: group.ecosystem,
                    name,
                    message,
                    sites,
                },
            )
        },
    }
}

fn conflicts(entries: &Vec<Entry>) -> (r: Vec<Finding>)
    ensures
        finding_views(r@) == conflicts_of(entry_views(entries@)),
{
    let ghost es = entry_views(entries@);
    let grouped = group_by_name(entries, Selection::Comparable);
    let ghost gs = groups(es, Selection::Comparable);
    let mut out: Vec<Finding> = Vec::new();
    let mut g: usize = 0;
    while g < grouped.len()
        invariant
            0 <= g <= grouped.len(),
            es == entry_views(entries@),
            gs == groups(es, Selection::Comparable),
            group_views(grouped@) == gs,
            finding_views(out@) == conflicts_from(es, gs.take(g as int)),
        decreases grouped.len() - g,
    {
        proof {
            assert(gs[g as int] == group_view(grouped@[g as int]));
            lemma_groups(es, Selection::Comparable, g as int);
            assert(gs.take(g + 1).drop_last() =~= gs.take(g as int));
        }
        let ghost prev = finding_views(out@);
        match conflict(entries, &grouped[g]) {
            Some(f) => {
                out.push(f);
                assert(finding_views(out@) =~= prev.push(f@));
            },
            None => {},
        }
        g = g + 1;
    }
    assert(gs.take(grouped.len() as int) =~= gs);
    out
}


// ---------------------------------------------------------------------
// per_job_tool_version / prerelease-in-production / malformed / floating
// ---------------------------------------------------------------------

pub open spec fn per_job_refusal_of(es: Seq<EntryView>, g: ((Ecosystem, Seq<char>), Seq<int>)) -> Option<RefusalView> {
    if distinct_range_count(es, g.1) > 1 {
        Some(
            RefusalView {
                reason: "per_job_tool_version"@,
                ecosystem: Some(g.0.0),
                name: g.0.1,
                message: "installed as "@ + join_with(distinct_constraints_of(es, g.1), " and "@)
                    + " by different jobs; a CI tool version belongs to the job that installs it, so these were not compared"@,
                sites: sites_of(es, g.1),
            },
        )
    } else {
        None
    }
}

fn per_job_tool_versions_one(
    entries: &Vec<Entry>,
    group: &Group,
    Ghost(gs): Ghost<Seq<((Ecosystem, Seq<char>), Seq<int>)>>,
    Ghost(g): Ghost<int>,
) -> (r: Option<Refusal>)
    requires
        valid_members(entry_views(entries@), index_view(group.members@)),
    ensures
        match r {
            Some(f) => per_job_refusal_of(entry_views(entries@), group_view(*group)) == Some(f@),
            None => per_job_refusal_of(entry_views(entries@), group_view(*group)) is None,
        },
{
    if distinct_ranges(entries, &group.members) <= 1 {
        return None;
    }
    let constraints = distinct_constraints(entries, &group.members);
    let mut message = String::from_str("installed as ");
    message.append(text(&crate::text::joined_with(&constraints, " and ")).as_str());
    message.append(
        " by different jobs; a CI tool version belongs to the job that installs it, so these were not compared",
    );
    Some(
        Refusal {
            reason: String::from_str("per_job_tool_version"),
            ecosystem: Some(group.ecosystem),
            name: text(&group.name),
            message,
            sites: sites(entries, &group.members),
        },
    )
}

pub open spec fn prerelease_of(es: Seq<EntryView>, g: ((Ecosystem, Seq<char>), Seq<int>)) -> Option<FindingView> {
    Some(
        FindingView {
            code: "prerelease-in-production"@,
            severity: WARNING@,
            ecosystem: g.0.0,
            name: g.0.1,
            message: "a prerelease constraint outside dev dependencies: "@ + join_with(
                distinct_constraints_of(es, g.1),
                ", "@,
            ),
            sites: sites_of(es, g.1),
        },
    )
}

fn prereleases_one(
    entries: &Vec<Entry>,
    group: &Group,
    Ghost(gs): Ghost<Seq<((Ecosystem, Seq<char>), Seq<int>)>>,
    Ghost(g): Ghost<int>,
) -> (r: Option<Finding>)
    requires
        valid_members(entry_views(entries@), index_view(group.members@)),
    ensures
        match r {
            Some(f) => prerelease_of(entry_views(entries@), group_view(*group)) == Some(f@),
            None => prerelease_of(entry_views(entries@), group_view(*group)) is None,
        },
{
    let constraints = distinct_constraints(entries, &group.members);
    let mut message = String::from_str("a prerelease constraint outside dev dependencies: ");
    message.append(text(&crate::text::joined_with(&constraints, ", ")).as_str());
    Some(
        Finding {
            code: String::from_str("prerelease-in-production"),
            severity: String::from_str(WARNING),
            ecosystem: group.ecosystem,
            name: text(&group.name),
            message,
            sites: sites(entries, &group.members),
        },
    )
}

/// The reason a malformed group is malformed: its first entry's.
pub open spec fn malformed_reason_of(c: ConstraintView) -> Seq<char> {
    match c {
        ConstraintView::Malformed(reason) => reason,
        _ => Seq::empty(),
    }
}

pub open spec fn malformed_finding_of(es: Seq<EntryView>, g: ((Ecosystem, Seq<char>), Seq<int>)) -> Option<FindingView> {
    Some(
        FindingView {
            code: "malformed-constraint"@,
            severity: ERROR@,
            ecosystem: g.0.0,
            name: g.0.1,
            message: malformed_reason_of(es[g.1[0]].constraint) + ": "@ + join_with(
                distinct_constraints_of(es, g.1),
                ", "@,
            ),
            sites: sites_of(es, g.1),
        },
    )
}

fn malformed_one(
    entries: &Vec<Entry>,
    group: &Group,
    Ghost(gs): Ghost<Seq<((Ecosystem, Seq<char>), Seq<int>)>>,
    Ghost(g): Ghost<int>,
) -> (r: Option<Finding>)
    requires
        0 <= g < gs.len(),
        gs == groups(entry_views(entries@), Selection::Broken),
        gs[g] == group_view(*group),
        valid_members(entry_views(entries@), index_view(group.members@)),
    ensures
        match r {
            Some(f) => malformed_finding_of(entry_views(entries@), group_view(*group)) == Some(f@),
            None => malformed_finding_of(entry_views(entries@), group_view(*group)) is None,
        },
{
    proof {
        lemma_groups(entry_views(entries@), Selection::Broken, g);
    }
    assert(selected(Selection::Broken, entry_views(entries@)[index_view(group.members@)[0]]));
    let reason = match entries[group.members[0]].constraint.malformed_reason() {
        Some(reason) => reason,
        None => "",
    };
    let constraints = distinct_constraints(entries, &group.members);
    let mut message = String::from_str(reason);
    message.append(": ");
    message.append(text(&crate::text::joined_with(&constraints, ", ")).as_str());
    Some(
        Finding {
            code: String::from_str("malformed-constraint"),
            severity: String::from_str(ERROR),
            ecosystem: group.ecosystem,
            name: text(&group.name),
            message,
            sites: sites(entries, &group.members),
        },
    )
}

pub open spec fn floating_finding_of(es: Seq<EntryView>, g: ((Ecosystem, Seq<char>), Seq<int>)) -> Option<FindingView> {
    Some(
        FindingView {
            code: "floating-pin"@,
            severity: INFO@,
            ecosystem: g.0.0,
            name: g.0.1,
            message: match es[g.1[0]].floats {
                Some(why) => why,
                None => Seq::empty(),
            },
            sites: sites_of(es, g.1),
        },
    )
}

fn floating_one(
    entries: &Vec<Entry>,
    group: &Group,
    Ghost(gs): Ghost<Seq<((Ecosystem, Seq<char>), Seq<int>)>>,
    Ghost(g): Ghost<int>,
) -> (r: Option<Finding>)
    requires
        0 <= g < gs.len(),
        gs == groups(entry_views(entries@), Selection::Floating),
        gs[g] == group_view(*group),
        valid_members(entry_views(entries@), index_view(group.members@)),
    ensures
        match r {
            Some(f) => floating_finding_of(entry_views(entries@), group_view(*group)) == Some(f@),
            None => floating_finding_of(entry_views(entries@), group_view(*group)) is None,
        },
{
    proof {
        lemma_groups(entry_views(entries@), Selection::Floating, g);
    }
    let why = match entries[group.members[0]].floats {
        Some(why) => why,
        None => "",
    };
    Some(
        Finding {
            code: String::from_str("floating-pin"),
            severity: String::from_str(INFO),
            ecosystem: group.ecosystem,
            name: text(&group.name),
            message: String::from_str(why),
            sites: sites(entries, &group.members),
        },
    )
}

pub open spec fn per_job_tool_versions_from(es: Seq<EntryView>, gs: Seq<((Ecosystem, Seq<char>), Seq<int>)>) -> Seq<RefusalView>
    decreases gs.len(),
{
    if gs.len() == 0 {
        Seq::empty()
    } else {
        let rest = per_job_tool_versions_from(es, gs.drop_last());
        match per_job_refusal_of(es, gs.last()) {
            Some(f) => rest.push(f),
            None => rest,
        }
    }
}

/// A CI tool installed two ways is refused, not compared: a CI tool
/// version belongs to the job that installs it.
pub open spec fn per_job_tool_versions_of(es: Seq<EntryView>) -> Seq<RefusalView> {
    per_job_tool_versions_from(es, groups(es, Selection::PerJob))
}

fn per_job_tool_versions(entries: &Vec<Entry>) -> (r: Vec<Refusal>)
    ensures
        refusal_views(r@) == per_job_tool_versions_of(entry_views(entries@)),
{
    let ghost es = entry_views(entries@);
    let grouped = group_by_name(entries, Selection::PerJob);
    let ghost gs = groups(es, Selection::PerJob);
    let mut out: Vec<Refusal> = Vec::new();
    let mut g: usize = 0;
    while g < grouped.len()
        invariant
            0 <= g <= grouped.len(),
            es == entry_views(entries@),
            gs == groups(es, Selection::PerJob),
            group_views(grouped@) == gs,
            refusal_views(out@) == per_job_tool_versions_from(es, gs.take(g as int)),
        decreases grouped.len() - g,
    {
        proof {
            assert(gs[g as int] == group_view(grouped@[g as int]));
            lemma_groups(es, Selection::PerJob, g as int);
            assert(gs.take(g + 1).drop_last() =~= gs.take(g as int));
        }
        let ghost prev = refusal_views(out@);
        match per_job_tool_versions_one(entries, &grouped[g], Ghost(gs), Ghost(g as int)) {
            Some(f) => {
                out.push(f);
                assert(refusal_views(out@) =~= prev.push(f@));
            },
            None => {},
        }
        g = g + 1;
    }
    assert(gs.take(grouped.len() as int) =~= gs);
    out
}

pub open spec fn prereleases_from(es: Seq<EntryView>, gs: Seq<((Ecosystem, Seq<char>), Seq<int>)>) -> Seq<FindingView>
    decreases gs.len(),
{
    if gs.len() == 0 {
        Seq::empty()
    } else {
        let rest = prereleases_from(es, gs.drop_last());
        match prerelease_of(es, gs.last()) {
            Some(f) => rest.push(f),
            None => rest,
        }
    }
}

/// A release candidate a shipped dependency pulls in.
pub open spec fn prereleases_of(es: Seq<EntryView>) -> Seq<FindingView> {
    prereleases_from(es, groups(es, Selection::Shipped))
}

fn prereleases(entries: &Vec<Entry>) -> (r: Vec<Finding>)
    ensures
        finding_views(r@) == prereleases_of(entry_views(entries@)),
{
    let ghost es = entry_views(entries@);
    let grouped = group_by_name(entries, Selection::Shipped);
    let ghost gs = groups(es, Selection::Shipped);
    let mut out: Vec<Finding> = Vec::new();
    let mut g: usize = 0;
    while g < grouped.len()
        invariant
            0 <= g <= grouped.len(),
            es == entry_views(entries@),
            gs == groups(es, Selection::Shipped),
            group_views(grouped@) == gs,
            finding_views(out@) == prereleases_from(es, gs.take(g as int)),
        decreases grouped.len() - g,
    {
        proof {
            assert(gs[g as int] == group_view(grouped@[g as int]));
            lemma_groups(es, Selection::Shipped, g as int);
            assert(gs.take(g + 1).drop_last() =~= gs.take(g as int));
        }
        let ghost prev = finding_views(out@);
        match prereleases_one(entries, &grouped[g], Ghost(gs), Ghost(g as int)) {
            Some(f) => {
                out.push(f);
                assert(finding_views(out@) =~= prev.push(f@));
            },
            None => {},
        }
        g = g + 1;
    }
    assert(gs.take(grouped.len() as int) =~= gs);
    out
}

pub open spec fn malformed_from(es: Seq<EntryView>, gs: Seq<((Ecosystem, Seq<char>), Seq<int>)>) -> Seq<FindingView>
    decreases gs.len(),
{
    if gs.len() == 0 {
        Seq::empty()
    } else {
        let rest = malformed_from(es, gs.drop_last());
        match malformed_finding_of(es, gs.last()) {
            Some(f) => rest.push(f),
            None => rest,
        }
    }
}

/// Constraints shaped like their ecosystem's, and broken.
pub open spec fn malformed_of(es: Seq<EntryView>) -> Seq<FindingView> {
    malformed_from(es, groups(es, Selection::Broken))
}

fn malformed(entries: &Vec<Entry>) -> (r: Vec<Finding>)
    ensures
        finding_views(r@) == malformed_of(entry_views(entries@)),
{
    let ghost es = entry_views(entries@);
    let grouped = group_by_name(entries, Selection::Broken);
    let ghost gs = groups(es, Selection::Broken);
    let mut out: Vec<Finding> = Vec::new();
    let mut g: usize = 0;
    while g < grouped.len()
        invariant
            0 <= g <= grouped.len(),
            es == entry_views(entries@),
            gs == groups(es, Selection::Broken),
            group_views(grouped@) == gs,
            finding_views(out@) == malformed_from(es, gs.take(g as int)),
        decreases grouped.len() - g,
    {
        proof {
            assert(gs[g as int] == group_view(grouped@[g as int]));
            lemma_groups(es, Selection::Broken, g as int);
            assert(gs.take(g + 1).drop_last() =~= gs.take(g as int));
        }
        let ghost prev = finding_views(out@);
        match malformed_one(entries, &grouped[g], Ghost(gs), Ghost(g as int)) {
            Some(f) => {
                out.push(f);
                assert(finding_views(out@) =~= prev.push(f@));
            },
            None => {},
        }
        g = g + 1;
    }
    assert(gs.take(grouped.len() as int) =~= gs);
    out
}

pub open spec fn floating_from(es: Seq<EntryView>, gs: Seq<((Ecosystem, Seq<char>), Seq<int>)>) -> Seq<FindingView>
    decreases gs.len(),
{
    if gs.len() == 0 {
        Seq::empty()
    } else {
        let rest = floating_from(es, gs.drop_last());
        match floating_finding_of(es, gs.last()) {
            Some(f) => rest.push(f),
            None => rest,
        }
    }
}

/// Informational: a floating pin is a choice with a cost, not a defect.
pub open spec fn floating_of(es: Seq<EntryView>) -> Seq<FindingView> {
    floating_from(es, groups(es, Selection::Floating))
}

fn floating(entries: &Vec<Entry>) -> (r: Vec<Finding>)
    ensures
        finding_views(r@) == floating_of(entry_views(entries@)),
{
    let ghost es = entry_views(entries@);
    let grouped = group_by_name(entries, Selection::Floating);
    let ghost gs = groups(es, Selection::Floating);
    let mut out: Vec<Finding> = Vec::new();
    let mut g: usize = 0;
    while g < grouped.len()
        invariant
            0 <= g <= grouped.len(),
            es == entry_views(entries@),
            gs == groups(es, Selection::Floating),
            group_views(grouped@) == gs,
            finding_views(out@) == floating_from(es, gs.take(g as int)),
        decreases grouped.len() - g,
    {
        proof {
            assert(gs[g as int] == group_view(grouped@[g as int]));
            lemma_groups(es, Selection::Floating, g as int);
            assert(gs.take(g + 1).drop_last() =~= gs.take(g as int));
        }
        let ghost prev = finding_views(out@);
        match floating_one(entries, &grouped[g], Ghost(gs), Ghost(g as int)) {
            Some(f) => {
                out.push(f);
                assert(finding_views(out@) =~= prev.push(f@));
            },
            None => {},
        }
        g = g + 1;
    }
    assert(gs.take(grouped.len() as int) =~= gs);
    out
}


// ---------------------------------------------------------------------
// msrv-mismatch
// ---------------------------------------------------------------------

/// The positions of the entries of one kind in one ecosystem, in order.
pub open spec fn kind_indices(es: Seq<EntryView>, k: Kind, e: Ecosystem) -> Seq<int>
    decreases es.len(),
{
    if es.len() == 0 {
        Seq::empty()
    } else {
        let rest = kind_indices(es.drop_last(), k, e);
        if es.last().kind == k && es.last().ecosystem == e {
            rest.push(es.len() - 1)
        } else {
            rest
        }
    }
}

proof fn lemma_kind_indices(es: Seq<EntryView>, k: Kind, e: Ecosystem)
    ensures
        valid_members(es, kind_indices(es, k, e)),
        forall|j: int|
            0 <= j < kind_indices(es, k, e).len() ==> {
                let i = #[trigger] kind_indices(es, k, e)[j];
                &&& 0 <= i < es.len()
                &&& es[i].kind == k
                &&& es[i].ecosystem == e
            },
    decreases es.len(),
{
    if es.len() > 0 {
        lemma_kind_indices(es.drop_last(), k, e);
        let rest = kind_indices(es.drop_last(), k, e);
        assert forall|j: int| 0 <= j < rest.len() implies #[trigger] es.drop_last()[rest[j]] == es[rest[j]] by {}
    }
}

fn indices_of(entries: &Vec<Entry>, k: Kind, e: Ecosystem) -> (r: Vec<usize>)
    ensures
        index_view(r@) == kind_indices(entry_views(entries@), k, e),
{
    let ghost es = entry_views(entries@);
    let mut out: Vec<usize> = Vec::new();
    let mut i: usize = 0;
    while i < entries.len()
        invariant
            0 <= i <= entries.len(),
            es == entry_views(entries@),
            index_view(out@) == kind_indices(es.take(i as int), k, e),
        decreases entries.len() - i,
    {
        proof {
            assert(es.take(i + 1).drop_last() =~= es.take(i as int));
            assert(es.take(i + 1).last() == es[i as int]);
        }
        if entries[i].kind == k && entries[i].ecosystem == e {
            let ghost prev = index_view(out@);
            out.push(i);
            assert(index_view(out@) =~= prev.push(i as int));
        }
        i = i + 1;
    }
    assert(es.take(entries.len() as int) =~= es);
    out
}

/// The lowest version an entry's modelled range admits.
pub open spec fn entry_floor(e: EntryView) -> Option<crate::version::VersionView> {
    match range_view(e.constraint) {
        Some(r) => crate::interval::floor_spec(r),
        None => None,
    }
}

/// The highest declared floor and whose it is; of equal floors, the
/// later declaration.
pub open spec fn highest_from(es: Seq<EntryView>, ds: Seq<int>) -> Option<(crate::version::VersionView, int)>
    decreases ds.len(),
{
    if ds.len() == 0 {
        None
    } else {
        let best = highest_from(es, ds.drop_last());
        let i = ds.last();
        match entry_floor(es[i]) {
            None => best,
            Some(f) => match best {
                None => Some((f, i)),
                Some(b) => if crate::version::version_order(b.0, f) <= 0 {
                    Some((f, i))
                } else {
                    best
                },
            },
        }
    }
}

pub open spec fn msrv_finding(ecosystem: Ecosystem, message: Seq<char>, sites: Seq<SiteView>) -> FindingView {
    FindingView {
        code: "msrv-mismatch"@,
        severity: WARNING@,
        ecosystem,
        name: "rust"@,
        message,
        sites,
    }
}

/// The declared `rust-version`s disagreeing among themselves.
pub open spec fn declared_mismatch(es: Seq<EntryView>) -> Seq<FindingView> {
    let ds = kind_indices(es, Kind::Msrv, Ecosystem::Cargo);
    let cs = distinct_constraints_of(es, ds);
    if distinct_range_count(es, ds) > 1 {
        seq![
            msrv_finding(
                Ecosystem::Cargo,
                "rust-version is declared "@ + decimal(cs.len()) + " different ways: "@ + join_with(
                    cs,
                    ", "@,
                ),
                sites_of(es, ds),
            ),
        ]
    } else {
        Seq::empty()
    }
}

/// Each CI toolchain pin whose floor is below the highest declared one.
pub open spec fn below_floor_from(es: Seq<EntryView>, pins: Seq<int>, high: (crate::version::VersionView, int)) -> Seq<FindingView>
    decreases pins.len(),
{
    if pins.len() == 0 {
        Seq::empty()
    } else {
        let rest = below_floor_from(es, pins.drop_last(), high);
        let p = pins.last();
        match entry_floor(es[p]) {
            None => rest,
            Some(f) => if crate::version::version_order(f, high.0) >= 0 {
                rest
            } else {
                rest.push(
                    msrv_finding(
                        Ecosystem::Ci,
                        "CI builds on "@ + crate::version::version_text(f)
                            + ", below the declared minimum "@ + crate::version::version_text(
                            high.0,
                        ) + " in "@ + es[high.1].site.file,
                        sites_of(es, seq![p, high.1]),
                    ),
                )
            },
        }
    }
}

/// Do the workspace's own `rust-version` declarations agree, and does CI
/// build on a toolchain that old? The one check that reads across
/// ecosystems, by naming both keys rather than by matching a name.
pub open spec fn msrv_of(es: Seq<EntryView>) -> Seq<FindingView> {
    declared_mismatch(es) + match highest_from(es, kind_indices(es, Kind::Msrv, Ecosystem::Cargo)) {
        None => Seq::empty(),
        Some(high) => below_floor_from(es, kind_indices(es, Kind::Msrv, Ecosystem::Ci), high),
    }
}

pub open spec fn best_view(b: Option<(crate::version::Version, usize)>) -> Option<(crate::version::VersionView, int)> {
    match b {
        Some(b) => Some((b.0@, b.1 as int)),
        None => None,
    }
}

proof fn lemma_highest_valid(es: Seq<EntryView>, ds: Seq<int>)
    requires
        valid_members(es, ds),
    ensures
        highest_from(es, ds) matches Some(h) ==> 0 <= h.1 < es.len(),
    decreases ds.len(),
{
    if ds.len() > 0 {
        lemma_highest_valid(es, ds.drop_last());
    }
}

fn msrv(entries: &Vec<Entry>) -> (r: Vec<Finding>)
    ensures
        finding_views(r@) == msrv_of(entry_views(entries@)),
{
    let ghost es = entry_views(entries@);
    let declared = indices_of(entries, Kind::Msrv, Ecosystem::Cargo);
    let ghost ds = index_view(declared@);
    proof {
        lemma_kind_indices(es, Kind::Msrv, Ecosystem::Cargo);
        lemma_kind_indices(es, Kind::Msrv, Ecosystem::Ci);
    }
    let mut findings: Vec<Finding> = Vec::new();
    if distinct_ranges(entries, &declared) > 1 {
        let constraints = distinct_constraints(entries, &declared);
        let mut message = String::from_str("rust-version is declared ");
        message.append(number(constraints.len()).as_str());
        message.append(" different ways: ");
        message.append(text(&crate::text::joined_with(&constraints, ", ")).as_str());
        findings.push(
            Finding {
                code: String::from_str("msrv-mismatch"),
                severity: String::from_str(WARNING),
                ecosystem: Ecosystem::Cargo,
                name: String::from_str("rust"),
                message,
                sites: sites(entries, &declared),
            },
        );
    }
    assert(finding_views(findings@) =~= declared_mismatch(es));
    let mut best: Option<(crate::version::Version, usize)> = None;
    let mut i: usize = 0;
    while i < declared.len()
        invariant
            0 <= i <= declared.len(),
            es == entry_views(entries@),
            ds == index_view(declared@),
            valid_members(es, ds),
            best_view(best) == highest_from(es, ds.take(i as int)),
        decreases declared.len() - i,
    {
        assert(0 <= ds[i as int] < es.len());
        let at = declared[i];
        proof {
            assert(ds.take(i + 1).drop_last() =~= ds.take(i as int));
            assert(ds.take(i + 1).last() == at as int);
        }
        let floor = match entries[at].constraint.range() {
            Some(range) => range.floor(),
            None => None,
        };
        match floor {
            Some(f) => {
                let replace = match &best {
                    None => true,
                    Some(b) => crate::version::version_compare(&b.0, &f) <= 0,
                };
                if replace {
                    best = Some((f, at));
                }
            },
            None => {},
        }
        i = i + 1;
    }
    assert(ds.take(declared.len() as int) =~= ds);
    let ghost dm = declared_mismatch(es);
    let (high, owner) = match best {
        Some(b) => b,
        None => {
            return findings;
        },
    };
    proof {
        lemma_highest_valid(es, ds);
    }
    let pins = indices_of(entries, Kind::Msrv, Ecosystem::Ci);
    let ghost ps = index_view(pins@);
    let ghost hv = (high@, owner as int);
    let mut j: usize = 0;
    while j < pins.len()
        invariant
            0 <= j <= pins.len(),
            es == entry_views(entries@),
            ps == index_view(pins@),
            valid_members(es, ps),
            0 <= owner < es.len(),
            hv == (high@, owner as int),
            finding_views(findings@) == dm + below_floor_from(es, ps.take(j as int), hv),
        decreases pins.len() - j,
    {
        assert(0 <= ps[j as int] < es.len());
        let pin = pins[j];
        proof {
            assert(ps.take(j + 1).drop_last() =~= ps.take(j as int));
            assert(ps.take(j + 1).last() == pin as int);
        }
        let floor = match entries[pin].constraint.range() {
            Some(range) => range.floor(),
            None => None,
        };
        if let Some(f) = floor {
            if crate::version::version_compare(&f, &high) < 0 {
                let mut message = String::from_str("CI builds on ");
                message.append(text(&crate::version::version_display(&f)).as_str());
                message.append(", below the declared minimum ");
                message.append(text(&crate::version::version_display(&high)).as_str());
                message.append(" in ");
                message.append(entries[owner].site.file.as_str());
                let mut pair: Vec<usize> = Vec::new();
                pair.push(pin);
                pair.push(owner);
                assert(index_view(pair@) =~= seq![pin as int, owner as int]);
                let ghost prev = finding_views(findings@);
                let finding = Finding {
                    code: String::from_str("msrv-mismatch"),
                    severity: String::from_str(WARNING),
                    ecosystem: Ecosystem::Ci,
                    name: String::from_str("rust"),
                    message,
                    sites: sites(entries, &pair),
                };
                findings.push(finding);
                assert(finding_views(findings@) =~= prev.push(finding@));
            }
        }
        j = j + 1;
    }
    assert(ps.take(pins.len() as int) =~= ps);
    findings
}


// ---------------------------------------------------------------------
// cross_ecosystem
// ---------------------------------------------------------------------

/// The names of every entry but a minimum-toolchain declaration, which
/// `msrv-mismatch` bridges on purpose.
pub open spec fn crossable_names(es: Seq<EntryView>) -> Seq<Seq<char>>
    decreases es.len(),
{
    if es.len() == 0 {
        Seq::empty()
    } else {
        let rest = crossable_names(es.drop_last());
        if es.last().kind != Kind::Msrv {
            rest.push(es.last().name)
        } else {
            rest
        }
    }
}

/// The first entry named `n` in ecosystem `e`, minimum toolchains aside.
pub open spec fn first_named(es: Seq<EntryView>, n: Seq<char>, e: Ecosystem) -> Option<int>
    decreases es.len(),
{
    if es.len() == 0 {
        None
    } else {
        let r = first_named(es.drop_last(), n, e);
        if r is Some {
            r
        } else if es.last().kind != Kind::Msrv && es.last().name == n && es.last().ecosystem == e {
            Some(es.len() - 1)
        } else {
            None
        }
    }
}

pub open spec fn all_ecosystems() -> Seq<Ecosystem> {
    seq![Ecosystem::Cargo, Ecosystem::Ci, Ecosystem::Go, Ecosystem::Npm, Ecosystem::Python]
}

/// For each ecosystem, in order, the first entry named `n` in it.
pub open spec fn firsts_from(es: Seq<EntryView>, n: Seq<char>, ecos: Seq<Ecosystem>) -> Seq<(Ecosystem, int)>
    decreases ecos.len(),
{
    if ecos.len() == 0 {
        Seq::empty()
    } else {
        let rest = firsts_from(es, n, ecos.drop_last());
        match first_named(es, n, ecos.last()) {
            Some(i) => rest.push((ecos.last(), i)),
            None => rest,
        }
    }
}

pub open spec fn first_eco_names(fs: Seq<(Ecosystem, int)>) -> Seq<Seq<char>> {
    fs.map_values(|p: (Ecosystem, int)| crate::heuristics::eco_name(p.0))
}

pub open spec fn first_positions(fs: Seq<(Ecosystem, int)>) -> Seq<int> {
    fs.map_values(|p: (Ecosystem, int)| p.1)
}

pub open spec fn crossing_of(es: Seq<EntryView>, n: Seq<char>) -> Option<RefusalView> {
    let fs = firsts_from(es, n, all_ecosystems());
    if fs.len() > 1 {
        Some(
            RefusalView {
                reason: "cross_ecosystem"@,
                ecosystem: None,
                name: n,
                message: "appears in "@ + join_with(first_eco_names(fs), " and "@)
                    + "; different ecosystems name different things, so these were not compared"@,
                sites: sites_of(es, first_positions(fs)),
            },
        )
    } else {
        None
    }
}

pub open spec fn crossings_from(es: Seq<EntryView>, names: Seq<Seq<char>>) -> Seq<RefusalView>
    decreases names.len(),
{
    if names.len() == 0 {
        Seq::empty()
    } else {
        let rest = crossings_from(es, names.drop_last());
        match crossing_of(es, names.last()) {
            Some(r) => rest.push(r),
            None => rest,
        }
    }
}

/// A name in two ecosystems, named and left alone, one refusal per name
/// in name order.
pub open spec fn cross_ecosystem_of(es: Seq<EntryView>) -> Seq<RefusalView> {
    crossings_from(es, sorted_unique(crossable_names(es), text_order()))
}

fn ecosystem_at(k: usize) -> (e: Ecosystem)
    requires
        k < 5,
    ensures
        e == all_ecosystems()[k as int],
{
    if k == 0 {
        Ecosystem::Cargo
    } else if k == 1 {
        Ecosystem::Ci
    } else if k == 2 {
        Ecosystem::Go
    } else if k == 3 {
        Ecosystem::Npm
    } else {
        Ecosystem::Python
    }
}

proof fn lemma_first_named(es: Seq<EntryView>, n: Seq<char>, e: Ecosystem)
    ensures
        first_named(es, n, e) matches Some(i) ==> 0 <= i < es.len(),
    decreases es.len(),
{
    if es.len() > 0 {
        lemma_first_named(es.drop_last(), n, e);
    }
}

fn first_named_in(entries: &Vec<Entry>, names: &Vec<Vec<char>>, n: &Vec<char>, e: Ecosystem) -> (r: Option<usize>)
    requires
        names@.len() == entries@.len(),
        forall|x: int| 0 <= x < names@.len() ==> (#[trigger] names@[x])@ == entries@[x].name@,
    ensures
        match r {
            Some(i) => first_named(entry_views(entries@), n@, e) == Some(i as int),
            None => first_named(entry_views(entries@), n@, e) is None,
        },
{
    let ghost es = entry_views(entries@);
    let mut found: Option<usize> = None;
    let mut i: usize = 0;
    while i < entries.len()
        invariant
            0 <= i <= entries.len(),
            es == entry_views(entries@),
            names@.len() == entries@.len(),
            forall|x: int| 0 <= x < names@.len() ==> (#[trigger] names@[x])@ == entries@[x].name@,
            match found {
                Some(j) => first_named(es.take(i as int), n@, e) == Some(j as int),
                None => first_named(es.take(i as int), n@, e) is None,
            },
        decreases entries.len() - i,
    {
        proof {
            assert(es.take(i + 1).drop_last() =~= es.take(i as int));
            assert(es.take(i + 1).last() == es[i as int]);
        }
        if found.is_none() && entries[i].kind != Kind::Msrv && entries[i].ecosystem == e && same(
            &names[i],
            n,
        ) {
            found = Some(i);
        }
        i = i + 1;
    }
    assert(es.take(entries.len() as int) =~= es);
    found
}

fn crossing(entries: &Vec<Entry>, names: &Vec<Vec<char>>, n: &Vec<char>) -> (r: Option<Refusal>)
    requires
        names@.len() == entries@.len(),
        forall|x: int| 0 <= x < names@.len() ==> (#[trigger] names@[x])@ == entries@[x].name@,
    ensures
        match r {
            Some(f) => crossing_of(entry_views(entries@), n@) == Some(f@),
            None => crossing_of(entry_views(entries@), n@) is None,
        },
{
    let ghost es = entry_views(entries@);
    let ghost all = all_ecosystems();
    let mut eco_names: Vec<Vec<char>> = Vec::new();
    let mut positions: Vec<usize> = Vec::new();
    let mut k: usize = 0;
    while k < 5
        invariant
            0 <= k <= 5,
            es == entry_views(entries@),
            all == all_ecosystems(),
            names@.len() == entries@.len(),
            forall|x: int| 0 <= x < names@.len() ==> (#[trigger] names@[x])@ == entries@[x].name@,
            views(eco_names@) == first_eco_names(firsts_from(es, n@, all.take(k as int))),
            index_view(positions@) == first_positions(firsts_from(es, n@, all.take(k as int))),
            eco_names@.len() == firsts_from(es, n@, all.take(k as int)).len(),
            valid_members(es, index_view(positions@)),
        decreases 5 - k,
    {
        let e = ecosystem_at(k);
        proof {
            assert(all.take(k + 1).drop_last() =~= all.take(k as int));
            assert(all.take(k + 1).last() == e);
            lemma_first_named(es, n@, e);
        }
        let ghost before = firsts_from(es, n@, all.take(k as int));
        if let Some(i) = first_named_in(entries, names, n, e) {
            let ghost prev_names = views(eco_names@);
            let ghost prev_positions = index_view(positions@);
            let label = chars_of(e.name());
            eco_names.push(label);
            positions.push(i);
            proof {
                let after = before.push((e, i as int));
                assert(firsts_from(es, n@, all.take(k + 1)) == after);
                assert(views(eco_names@) =~= prev_names.push(label@));
                assert(first_eco_names(after) =~= first_eco_names(before).push(
                    crate::heuristics::eco_name(e),
                ));
                assert(index_view(positions@) =~= prev_positions.push(i as int));
                assert(first_positions(after) =~= first_positions(before).push(i as int));
            }
        }
        k = k + 1;
    }
    assert(all.take(5) =~= all);
    if eco_names.len() <= 1 {
        return None;
    }
    let mut message = String::from_str("appears in ");
    message.append(text(&crate::text::joined_with(&eco_names, " and ")).as_str());
    message.append("; different ecosystems name different things, so these were not compared");
    Some(
        Refusal {
            reason: String::from_str("cross_ecosystem"),
            ecosystem: None,
            name: text(n),
            message,
            sites: sites(entries, &positions),
        },
    )
}

fn cross_ecosystem(entries: &Vec<Entry>) -> (r: Vec<Refusal>)
    ensures
        refusal_views(r@) == cross_ecosystem_of(entry_views(entries@)),
{
    let ghost es = entry_views(entries@);
    let mut names: Vec<Vec<char>> = Vec::new();
    let mut sorted: Vec<Vec<char>> = Vec::new();
    let mut i: usize = 0;
    while i < entries.len()
        invariant
            0 <= i <= entries.len(),
            es == entry_views(entries@),
            names@.len() == i,
            forall|x: int| 0 <= x < i ==> (#[trigger] names@[x])@ == entries@[x].name@,
            views(sorted@) == sorted_unique(crossable_names(es.take(i as int)), text_order()),
        decreases entries.len() - i,
    {
        let name = chars_of(entries[i].name.as_str());
        proof {
            assert(es.take(i + 1).drop_last() =~= es.take(i as int));
            assert(es.take(i + 1).last() == es[i as int]);
        }
        if entries[i].kind != Kind::Msrv {
            insert_text(&mut sorted, name.clone());
            proof {
                let c = crossable_names(es.take(i + 1));
                assert(c == crossable_names(es.take(i as int)).push(name@));
                assert(c.drop_last() =~= crossable_names(es.take(i as int)));
            }
        }
        names.push(name);
        i = i + 1;
    }
    assert(es.take(entries.len() as int) =~= es);
    let ghost ns = views(sorted@);
    let mut out: Vec<Refusal> = Vec::new();
    let mut j: usize = 0;
    while j < sorted.len()
        invariant
            0 <= j <= sorted.len(),
            es == entry_views(entries@),
            ns == views(sorted@),
            names@.len() == entries@.len(),
            forall|x: int| 0 <= x < names@.len() ==> (#[trigger] names@[x])@ == entries@[x].name@,
            refusal_views(out@) == crossings_from(es, ns.take(j as int)),
        decreases sorted.len() - j,
    {
        proof {
            assert(ns.take(j + 1).drop_last() =~= ns.take(j as int));
            assert(ns.take(j + 1).last() == sorted@[j as int]@);
        }
        let ghost prev = refusal_views(out@);
        if let Some(r) = crossing(entries, &names, &sorted[j]) {
            out.push(r);
            assert(refusal_views(out@) =~= prev.push(r@));
        }
        j = j + 1;
    }
    assert(ns.take(sorted.len() as int) =~= ns);
    out
}

// ---------------------------------------------------------------------
// Every check
// ---------------------------------------------------------------------

/// Worst first, then by code, ecosystem and name; ties keep their order.
pub open spec fn finding_before(a: FindingView, b: FindingView) -> bool {
    let ra = severity_rank(a.severity);
    let rb = severity_rank(b.severity);
    let by_code = lex_order(a.code, b.code);
    ra < rb || (ra == rb && (by_code < 0 || (by_code == 0 && (eco_rank(a.ecosystem) < eco_rank(
        b.ecosystem,
    ) || (eco_rank(a.ecosystem) == eco_rank(b.ecosystem) && lex_order(a.name, b.name) < 0)))))
}

pub open spec fn finding_order() -> spec_fn(FindingView, FindingView) -> bool {
    |a: FindingView, b: FindingView| finding_before(a, b)
}

pub open spec fn analysed_findings(es: Seq<EntryView>) -> Seq<FindingView> {
    sort_by(
        conflicts_of(es) + msrv_of(es) + prereleases_of(es) + malformed_of(es) + floating_of(es),
        finding_order(),
    )
}

pub open spec fn analysed_refusals(es: Seq<EntryView>) -> Seq<RefusalView> {
    cross_ecosystem_of(es) + per_job_tool_versions_of(es)
}

fn finding_precedes(a: &Finding, b: &Finding) -> (r: bool)
    ensures
        r == finding_before(a@, b@),
{
    let ra = rank(a.severity.as_str());
    let rb = rank(b.severity.as_str());
    if ra != rb {
        return ra < rb;
    }
    let by_code = lex_compare(&chars_of(a.code.as_str()), &chars_of(b.code.as_str()));
    if by_code != 0 {
        return by_code < 0;
    }
    let ea = a.ecosystem.rank();
    let eb = b.ecosystem.rank();
    if ea != eb {
        return ea < eb;
    }
    lex_compare(&chars_of(a.name.as_str()), &chars_of(b.name.as_str())) < 0
}

fn insert_finding(list: &mut Vec<Finding>, x: Finding)
    ensures
        finding_views(final(list)@) == insert_by(finding_views(old(list)@), x@, finding_order()),
{
    let ghost fs = finding_views(list@);
    let mut p: usize = 0;
    while p < list.len() && !finding_precedes(&x, &list[p])
        invariant
            0 <= p <= list.len(),
            fs == finding_views(list@),
            forall|k: int| 0 <= k < p ==> !finding_before(x@, #[trigger] fs[k]),
        decreases list.len() - p,
    {
        p = p + 1;
    }
    proof {
        lemma_insertion_point_is_first(fs, x@, finding_order(), p as int);
        lemma_insert_by(fs, x@, finding_order());
    }
    let ghost xv = x@;
    list.insert(p, x);
    assert(finding_views(list@) =~= fs.insert(p as int, xv));
}

fn append_findings(all: &mut Vec<Finding>, more: Vec<Finding>)
    ensures
        finding_views(final(all)@) == finding_views(old(all)@) + finding_views(more@),
{
    let mut more = more;
    let ghost mv = finding_views(more@);
    let ghost start = finding_views(all@);
    let total = more.len();
    assert(mv.len() == total);
    assert(mv.skip(0) =~= mv);
    let mut i: usize = 0;
    while more.len() > 0
        invariant
            0 <= i <= mv.len(),
            mv.len() == total,
            more@.len() == mv.len() - i,
            finding_views(more@) == mv.skip(i as int),
            finding_views(all@) == start + mv.take(i as int),
        decreases more.len(),
    {
        let ghost old_more = more@;
        let f = more.remove(0);
        proof {
            assert(more@ =~= old_more.skip(1));
            assert(finding_views(more@) =~= finding_views(old_more).skip(1));
            assert(mv.skip(i as int).skip(1) =~= mv.skip(i + 1));
            assert(mv.skip(i as int)[0] == f@);
            assert(mv.take(i + 1) =~= mv.take(i as int).push(f@));
            assert(finding_views(more@) =~= mv.skip(i + 1));
        }
        let ghost prev = finding_views(all@);
        all.push(f);
        assert(finding_views(all@) =~= prev.push(f@));
        i = i + 1;
    }
    assert(mv.take(i as int) =~= mv);
}

/// Every check, over every entry: the findings worst first, and the two
/// refusals the comparison itself declines to make.
pub fn analyse(entries: &Vec<Entry>) -> (r: (Vec<Finding>, Vec<Refusal>))
    ensures
        finding_views(r.0@) == analysed_findings(entry_views(entries@)),
        refusal_views(r.1@) == analysed_refusals(entry_views(entries@)),
{
    let ghost es = entry_views(entries@);
    let mut all = conflicts(entries);
    append_findings(&mut all, msrv(entries));
    append_findings(&mut all, prereleases(entries));
    append_findings(&mut all, malformed(entries));
    append_findings(&mut all, floating(entries));
    let ghost av = finding_views(all@);
    let total = all.len();
    assert(av.len() == total);
    assert(av.skip(0) =~= av);
    let mut sorted: Vec<Finding> = Vec::new();
    let mut i: usize = 0;
    while all.len() > 0
        invariant
            0 <= i <= av.len(),
            av.len() == total,
            all@.len() == av.len() - i,
            finding_views(all@) == av.skip(i as int),
            finding_views(sorted@) == sort_by(av.take(i as int), finding_order()),
        decreases all.len(),
    {
        let ghost old_all = all@;
        let f = all.remove(0);
        proof {
            assert(all@ =~= old_all.skip(1));
            assert(finding_views(all@) =~= finding_views(old_all).skip(1));
            assert(av.skip(i as int).skip(1) =~= av.skip(i + 1));
            assert(av.skip(i as int)[0] == f@);
            assert(av.take(i + 1).drop_last() =~= av.take(i as int));
            assert(av.take(i + 1).last() == f@);
            assert(finding_views(all@) =~= av.skip(i + 1));
        }
        insert_finding(&mut sorted, f);
        i = i + 1;
    }
    assert(av.take(i as int) =~= av);
    let mut refusals = cross_ecosystem(entries);
    let mut more = per_job_tool_versions(entries);
    let ghost r1 = refusal_views(refusals@);
    let ghost r2 = refusal_views(more@);
    let total_refusals = more.len();
    assert(r2.len() == total_refusals);
    assert(r2.skip(0) =~= r2);
    let mut k: usize = 0;
    while more.len() > 0
        invariant
            0 <= k <= r2.len(),
            r2.len() == total_refusals,
            more@.len() == r2.len() - k,
            refusal_views(more@) == r2.skip(k as int),
            refusal_views(refusals@) == r1 + r2.take(k as int),
        decreases more.len(),
    {
        let ghost old_more = more@;
        let r = more.remove(0);
        proof {
            assert(more@ =~= old_more.skip(1));
            assert(refusal_views(more@) =~= refusal_views(old_more).skip(1));
            assert(r2.skip(k as int).skip(1) =~= r2.skip(k + 1));
            assert(r2.skip(k as int)[0] == r@);
            assert(r2.take(k + 1) =~= r2.take(k as int).push(r@));
            assert(refusal_views(more@) =~= r2.skip(k + 1));
        }
        let ghost prev = refusal_views(refusals@);
        refusals.push(r);
        assert(refusal_views(refusals@) =~= prev.push(r@));
        k = k + 1;
    }
    assert(r2.take(k as int) =~= r2);
    (sorted, refusals)
}


// ---------------------------------------------------------------------
// What the checks promise
// ---------------------------------------------------------------------

proof fn lemma_push_unselected_groups(es: Seq<EntryView>, u: EntryView, s: Selection)
    requires
        !selected(s, u),
    ensures
        groups(es.push(u), s) == groups(es, s),
        forall|k: (Ecosystem, Seq<char>)| #[trigger] members(es.push(u), s, k) == members(es, s, k),
{
    let e2 = es.push(u);
    assert(e2.drop_last() =~= es);
    assert(kept_keys(e2, s) == kept_keys(es, s));
    assert forall|k: (Ecosystem, Seq<char>)| #[trigger] members(e2, s, k) == members(es, s, k) by {}
    assert(groups(e2, s) =~= groups(es, s));
}

proof fn lemma_member_ranges_prefix(es: Seq<EntryView>, u: EntryView, ms: Seq<int>)
    requires
        valid_members(es, ms),
    ensures
        member_ranges(es.push(u), ms) == member_ranges(es, ms),
    decreases ms.len(),
{
    if ms.len() > 0 {
        assert(valid_members(es, ms.drop_last()));
        lemma_member_ranges_prefix(es, u, ms.drop_last());
        assert(es.push(u)[ms.last()] == es[ms.last()]);
    }
}

proof fn lemma_first_pair_prefix(es: Seq<EntryView>, u: EntryView, ms: Seq<int>)
    requires
        valid_members(es, ms),
    ensures
        first_pair(es.push(u), ms) == first_pair(es, ms),
{
    let e2 = es.push(u);
    assert forall|a: int, b: int| 0 <= a < ms.len() && 0 <= b < ms.len() implies #[trigger] disjoint_at(
        e2,
        ms,
        a,
        b,
    ) == disjoint_at(es, ms, a, b) by {
        assert(e2[ms[a]] == es[ms[a]]);
        assert(e2[ms[b]] == es[ms[b]]);
    }
    assert forall|a: int, b: int| #[trigger] is_first_pair(e2, ms, a, b) == is_first_pair(es, ms, a, b) by {
        if 0 <= a < b < ms.len() {
            if clear_before(es, ms, a, b) {
                assert forall|x: int, y: int|
                    0 <= x < y < ms.len() && (x < a || (x == a && y < b)) implies !#[trigger] disjoint_at(
                    e2,
                    ms,
                    x,
                    y,
                ) by {
                    assert(disjoint_at(e2, ms, x, y) == disjoint_at(es, ms, x, y));
                }
            }
            if clear_before(e2, ms, a, b) {
                assert forall|x: int, y: int|
                    0 <= x < y < ms.len() && (x < a || (x == a && y < b)) implies !#[trigger] disjoint_at(
                    es,
                    ms,
                    x,
                    y,
                ) by {
                    assert(disjoint_at(e2, ms, x, y) == disjoint_at(es, ms, x, y));
                }
            }
        }
    }
    match first_pair(es, ms) {
        Some((a, b)) => {
            assert(is_first_pair(es, ms, a, b));
            lemma_first_pair_unique(e2, ms, a, b);
        },
        None => {
            if first_pair(e2, ms) is Some {
                let (a, b) = choose|a: int, b: int| is_first_pair(e2, ms, a, b);
                assert(is_first_pair(es, ms, a, b));
            }
        },
    }
}

/// A group's finding reads its entries and nothing else.
proof fn lemma_conflict_of_prefix(es: Seq<EntryView>, u: EntryView, g: ((Ecosystem, Seq<char>), Seq<int>))
    requires
        valid_members(es, g.1),
    ensures
        conflict_of(es.push(u), g) == conflict_of(es, g),
{
    let e2 = es.push(u);
    let ms = g.1;
    lemma_member_ranges_prefix(es, u, ms);
    lemma_first_pair_prefix(es, u, ms);
    assert(member_sites(e2, ms) =~= member_sites(es, ms));
    assert(member_constraints(e2, ms) =~= member_constraints(es, ms));
    assert(member_files(e2, ms) =~= member_files(es, ms));
    if let Some((a, b)) = first_pair(es, ms) {
        assert(is_first_pair(es, ms, a, b));
        assert(e2[ms[a]] == es[ms[a]]);
        assert(e2[ms[b]] == es[ms[b]]);
    }
}

proof fn lemma_conflicts_from_prefix(es: Seq<EntryView>, u: EntryView, gs: Seq<((Ecosystem, Seq<char>), Seq<int>)>)
    requires
        forall|g: int| 0 <= g < gs.len() ==> valid_members(es, #[trigger] gs[g].1),
    ensures
        conflicts_from(es.push(u), gs) == conflicts_from(es, gs),
    decreases gs.len(),
{
    if gs.len() > 0 {
        assert forall|g: int| 0 <= g < gs.drop_last().len() implies valid_members(
            es,
            #[trigger] gs.drop_last()[g].1,
        ) by {
            assert(gs.drop_last()[g] == gs[g]);
        }
        lemma_conflicts_from_prefix(es, u, gs.drop_last());
        assert(valid_members(es, gs[gs.len() - 1].1));
        lemma_conflict_of_prefix(es, u, gs.last());
    }
}

/// **An entry no comparison selects changes no conflict.** An
/// unmodelled grammar, a minimum-toolchain declaration and a CI job's own
/// tool version take part in no `constraint-conflict` or
/// `disjoint-constraint`, however different they look.
pub proof fn lemma_unselected_entry_changes_no_conflict(es: Seq<EntryView>, u: EntryView)
    requires
        !selected(Selection::Comparable, u),
    ensures
        conflicts_of(es.push(u)) == conflicts_of(es),
{
    lemma_push_unselected_groups(es, u, Selection::Comparable);
    let gs = groups(es, Selection::Comparable);
    assert forall|g: int| 0 <= g < gs.len() implies valid_members(es, #[trigger] gs[g].1) by {
        lemma_groups(es, Selection::Comparable, g);
    }
    lemma_conflicts_from_prefix(es, u, gs);
}

/// **A grammar the tool does not model never manufactures a conflict.**
pub proof fn lemma_unknown_grammar_never_conflicts(es: Seq<EntryView>, u: EntryView)
    requires
        u.constraint is Unknown,
    ensures
        conflicts_of(es.push(u)) == conflicts_of(es),
{
    lemma_unselected_entry_changes_no_conflict(es, u);
}

/// **A CI tool version belongs to the job that installs it**: it is never
/// compared as a conflict.
pub proof fn lemma_job_tool_never_conflicts(es: Seq<EntryView>, u: EntryView)
    requires
        per_job(u),
    ensures
        conflicts_of(es.push(u)) == conflicts_of(es),
{
    lemma_unselected_entry_changes_no_conflict(es, u);
}


/// A conflict finding is the finding of one group.
proof fn lemma_conflict_source(es: Seq<EntryView>, gs: Seq<((Ecosystem, Seq<char>), Seq<int>)>, f: FindingView) -> (g: int)
    requires
        conflicts_from(es, gs).contains(f),
    ensures
        0 <= g < gs.len(),
        conflict_of(es, gs[g]) == Some(f),
    decreases gs.len(),
{
    let rest = conflicts_from(es, gs.drop_last());
    if rest.contains(f) {
        let g = lemma_conflict_source(es, gs.drop_last(), f);
        assert(gs.drop_last()[g] == gs[g]);
        g
    } else {
        let k = choose|k: int| 0 <= k < conflicts_from(es, gs).len() && conflicts_from(es, gs)[k] == f;
        match conflict_of(es, gs.last()) {
            Some(x) => {
                if k < rest.len() {
                    assert(rest[k] == f);
                }
                gs.len() - 1
            },
            None => {
                assert(rest[k] == f);
                gs.len() - 1
            },
        }
    }
}

/// **Comparison never crosses an ecosystem.** Every site of a
/// `constraint-conflict` or `disjoint-constraint` finding is the site of
/// an entry of the finding's own ecosystem and name.
pub proof fn lemma_conflicts_stay_in_their_ecosystem(es: Seq<EntryView>, f: FindingView, s: SiteView)
    requires
        conflicts_of(es).contains(f),
        f.sites.contains(s),
    ensures
        exists|i: int|
            0 <= i < es.len() && #[trigger] es[i].site == s && es[i].ecosystem == f.ecosystem
                && es[i].name == f.name,
{
    let gs = groups(es, Selection::Comparable);
    let g = lemma_conflict_source(es, gs, f);
    lemma_groups(es, Selection::Comparable, g);
    let ms = gs[g].1;
    crate::order::lemma_dedup_contains(sort_by(member_sites(es, ms), site_order()), s);
    crate::order::lemma_sort_by_contains(member_sites(es, ms), site_order(), s);
    let j = choose|j: int| 0 <= j < member_sites(es, ms).len() && member_sites(es, ms)[j] == s;
    let i = ms[j];
    assert(es[i].site == s);
    assert(key_of(es[i]) == gs[g].0);
}

/// **`disjoint-constraint` is a claim, not a guess.** Such a finding names
/// a dependency with two modelled constraints that no single version
/// satisfies.
pub proof fn lemma_disjoint_finding_is_a_claim(es: Seq<EntryView>, f: FindingView)
    requires
        conflicts_of(es).contains(f),
        f.code == "disjoint-constraint"@,
    ensures
        exists|i: int, j: int|
            0 <= i < es.len() && 0 <= j < es.len() && #[trigger] es[i].name == f.name
                && #[trigger] es[j].name == f.name && es[i].ecosystem == f.ecosystem
                && es[j].ecosystem == f.ecosystem && (match (
                range_view(es[i].constraint),
                range_view(es[j].constraint),
            ) {
                (Some(x), Some(y)) => forall|v: crate::version::VersionView|
                    !(crate::interval::range_admits(x, v) && crate::interval::range_admits(y, v)),
                _ => false,
            }),
{
    let gs = groups(es, Selection::Comparable);
    let g = lemma_conflict_source(es, gs, f);
    lemma_groups(es, Selection::Comparable, g);
    let ms = gs[g].1;
    reveal_strlit("disjoint-constraint");
    reveal_strlit("constraint-conflict");
    assert("disjoint-constraint"@[0] != "constraint-conflict"@[0]);
    let (a, b) = match first_pair(es, ms) {
        Some(p) => p,
        None => {
            assert(f.code == "constraint-conflict"@);
            (0, 0)
        },
    };
    if first_pair(es, ms) is Some {
        assert(is_first_pair(es, ms, a, b));
        let i = ms[a];
        let j = ms[b];
        assert(key_of(es[i]) == gs[g].0);
        assert(key_of(es[j]) == gs[g].0);
        let x = range_view(es[i].constraint)->0;
        let y = range_view(es[j].constraint)->0;
        assert forall|v: crate::version::VersionView|
            !(crate::interval::range_admits(x, v) && crate::interval::range_admits(y, v)) by {
            crate::interval::lemma_disjoint_is_sound(x, y, v);
        }
        assert(es[i].name == f.name && es[j].name == f.name);
    }
}


proof fn lemma_finding_order_is_strict()
    ensures
        crate::order::strict_order(finding_order()),
{
    assert forall|a: FindingView| !#[trigger] finding_order()(a, a) by {
        crate::version::lemma_lex_antisymmetric(a.code, a.code);
        crate::version::lemma_lex_antisymmetric(a.name, a.name);
    }
    assert forall|a: FindingView, b: FindingView, c: FindingView|
        #[trigger] finding_order()(a, b) && #[trigger] finding_order()(b, c) implies finding_order()(a, c) by {
        crate::version::lemma_lex_antisymmetric(a.code, b.code);
        crate::version::lemma_lex_antisymmetric(b.code, c.code);
        crate::version::lemma_lex_antisymmetric(a.code, c.code);
        crate::version::lemma_lex_transitive(a.code, b.code, c.code);
        crate::version::lemma_lex_antisymmetric(a.name, b.name);
        crate::version::lemma_lex_antisymmetric(b.name, c.name);
        crate::version::lemma_lex_transitive(a.name, b.name, c.name);
    }
}

/// Every range among a group's members is the range of one of them.
proof fn lemma_member_range_source(es: Seq<EntryView>, ms: Seq<int>, x: Seq<IntervalView>)
    requires
        member_ranges(es, ms).contains(x),
    ensures
        exists|j: int| 0 <= j < ms.len() && range_view(es[#[trigger] ms[j]].constraint) == Some(x),
    decreases ms.len(),
{
    let rest = member_ranges(es, ms.drop_last());
    if rest.contains(x) {
        lemma_member_range_source(es, ms.drop_last(), x);
        let j = choose|j: int|
            0 <= j < ms.drop_last().len() && range_view(es[#[trigger] ms.drop_last()[j]].constraint)
                == Some(x);
        assert(ms[j] == ms.drop_last()[j]);
    } else {
        let k = choose|k: int| 0 <= k < member_ranges(es, ms).len() && member_ranges(es, ms)[k] == x;
        match range_view(es[ms.last()].constraint) {
            Some(r) => {
                if k < rest.len() {
                    assert(rest[k] == x);
                }
                assert(ms[ms.len() - 1] == ms.last());
            },
            None => {
                assert(rest[k] == x);
            },
        }
    }
}

/// **The trigger is two different requirements, not two spellings.** A
/// `constraint-conflict` or `disjoint-constraint` finding names a
/// dependency with two compared entries whose modelled ranges differ;
/// one requirement typed two ways is never one.
pub proof fn lemma_conflict_needs_two_requirements(es: Seq<EntryView>, f: FindingView)
    requires
        conflicts_of(es).contains(f),
    ensures
        exists|i: int, j: int|
            0 <= i < es.len() && 0 <= j < es.len() && key_of(#[trigger] es[i]) == (f.ecosystem, f.name)
                && key_of(#[trigger] es[j]) == (f.ecosystem, f.name) && selected(
                Selection::Comparable,
                es[i],
            ) && selected(Selection::Comparable, es[j]) && range_view(es[i].constraint)
                != range_view(es[j].constraint),
{
    let gs = groups(es, Selection::Comparable);
    let g = lemma_conflict_source(es, gs, f);
    lemma_groups(es, Selection::Comparable, g);
    let ms = gs[g].1;
    let rs = member_ranges(es, ms);
    let d = crate::order::distinct(rs);
    assert(d.len() >= 2);
    crate::order::lemma_distinct_unique(rs);
    assert(d[0] != d[1]);
    crate::order::lemma_distinct_contains(rs, d[0]);
    crate::order::lemma_distinct_contains(rs, d[1]);
    assert(d.contains(d[0]) && d.contains(d[1]));
    lemma_member_range_source(es, ms, d[0]);
    lemma_member_range_source(es, ms, d[1]);
    let a = choose|a: int| 0 <= a < ms.len() && range_view(es[#[trigger] ms[a]].constraint) == Some(d[0]);
    let b = choose|b: int| 0 <= b < ms.len() && range_view(es[#[trigger] ms[b]].constraint) == Some(d[1]);
    assert(0 <= ms[a] < es.len() && 0 <= ms[b] < es.len());
    assert(key_of(es[ms[a]]) == gs[g].0);
    assert(key_of(es[ms[b]]) == gs[g].0);
    assert(selected(Selection::Comparable, es[ms[a]]));
    assert(selected(Selection::Comparable, es[ms[b]]));
}

/// A conflict finding carries the key of the group it came from.
proof fn lemma_conflict_keys(es: Seq<EntryView>, gs: Seq<((Ecosystem, Seq<char>), Seq<int>)>, k: int)
    requires
        0 <= k < conflicts_from(es, gs).len(),
    ensures
        exists|g: int|
            0 <= g < gs.len() && #[trigger] gs[g].0 == (
                conflicts_from(es, gs)[k].ecosystem,
                conflicts_from(es, gs)[k].name,
            ),
{
    let f = conflicts_from(es, gs)[k];
    assert(conflicts_from(es, gs).contains(f));
    let g = lemma_conflict_source(es, gs, f);
    assert(gs[g].0 == (f.ecosystem, f.name));
}

/// Findings of groups with distinct keys have distinct keys.
proof fn lemma_conflicts_from_unique(es: Seq<EntryView>, gs: Seq<((Ecosystem, Seq<char>), Seq<int>)>)
    requires
        forall|i: int, j: int| 0 <= i < j < gs.len() ==> #[trigger] gs[i].0 != #[trigger] gs[j].0,
    ensures
        forall|i: int, j: int|
            0 <= i < j < conflicts_from(es, gs).len() ==> (
                #[trigger] conflicts_from(es, gs)[i].ecosystem,
                conflicts_from(es, gs)[i].name,
            ) != (#[trigger] conflicts_from(es, gs)[j].ecosystem, conflicts_from(es, gs)[j].name),
    decreases gs.len(),
{
    if gs.len() > 0 {
        let d = gs.drop_last();
        assert forall|i: int, j: int| 0 <= i < j < d.len() implies #[trigger] d[i].0 != #[trigger] d[j].0 by {
            assert(d[i] == gs[i] && d[j] == gs[j]);
        }
        lemma_conflicts_from_unique(es, d);
        let rest = conflicts_from(es, d);
        let all = conflicts_from(es, gs);
        match conflict_of(es, gs.last()) {
            Some(f) => {
                assert(all == rest.push(f));
                assert(f.ecosystem == gs.last().0.0 && f.name == gs.last().0.1);
                assert forall|i: int, j: int| 0 <= i < j < all.len() implies (
                    #[trigger] all[i].ecosystem,
                    all[i].name,
                ) != (#[trigger] all[j].ecosystem, all[j].name) by {
                    if j == all.len() - 1 {
                        assert(all[i] == rest[i]);
                        lemma_conflict_keys(es, d, i);
                        let g = choose|g: int|
                            0 <= g < d.len() && #[trigger] d[g].0 == (rest[i].ecosystem, rest[i].name);
                        assert(d[g] == gs[g]);
                        assert(gs[g].0 != gs[gs.len() - 1].0);
                    } else {
                        assert(all[i] == rest[i] && all[j] == rest[j]);
                    }
                }
            },
            None => {
                assert(all == rest);
            },
        }
    }
}

/// **One finding per drifted dependency.** No two `constraint-conflict`
/// or `disjoint-constraint` findings name the same dependency of the
/// same ecosystem: a dependency constrained four ways is one finding
/// with four sites.
pub proof fn lemma_one_conflict_per_dependency(es: Seq<EntryView>)
    ensures
        forall|i: int, j: int|
            0 <= i < j < conflicts_of(es).len() ==> (
                #[trigger] conflicts_of(es)[i].ecosystem,
                conflicts_of(es)[i].name,
            ) != (#[trigger] conflicts_of(es)[j].ecosystem, conflicts_of(es)[j].name),
{
    let ks = sorted_unique(kept_keys(es, Selection::Comparable), key_order());
    let gs = groups(es, Selection::Comparable);
    crate::order::lemma_sorted_unique_unique(kept_keys(es, Selection::Comparable), key_order());
    assert forall|i: int, j: int| 0 <= i < j < gs.len() implies #[trigger] gs[i].0 != #[trigger] gs[j].0 by {
        assert(gs[i].0 == ks[i] && gs[j].0 == ks[j]);
    }
    lemma_conflicts_from_unique(es, gs);
}

proof fn lemma_highest_prefix(es: Seq<EntryView>, u: EntryView, ds: Seq<int>)
    requires
        valid_members(es, ds),
    ensures
        highest_from(es.push(u), ds) == highest_from(es, ds),
    decreases ds.len(),
{
    if ds.len() > 0 {
        assert(valid_members(es, ds.drop_last()));
        lemma_highest_prefix(es, u, ds.drop_last());
        assert(es.push(u)[ds.last()] == es[ds.last()]);
    }
}

proof fn lemma_below_floor_prefix(
    es: Seq<EntryView>,
    u: EntryView,
    pins: Seq<int>,
    high: (crate::version::VersionView, int),
)
    requires
        valid_members(es, pins),
        0 <= high.1 < es.len(),
    ensures
        below_floor_from(es.push(u), pins, high) == below_floor_from(es, pins, high),
    decreases pins.len(),
{
    if pins.len() > 0 {
        let e2 = es.push(u);
        assert(valid_members(es, pins.drop_last()));
        lemma_below_floor_prefix(es, u, pins.drop_last(), high);
        let p = pins.last();
        assert(e2[p] == es[p]);
        assert(e2[high.1] == es[high.1]);
        assert(member_sites(e2, seq![p, high.1]) =~= member_sites(es, seq![p, high.1]));
    }
}

/// **The one bridge between ecosystems is built by naming both keys.**
/// `msrv-mismatch` reads the declared minimum toolchains and the CI
/// toolchain pins and nothing else: an entry of any other kind, whatever
/// it is called, changes none of its findings.
pub proof fn lemma_msrv_reads_only_toolchain_keys(es: Seq<EntryView>, u: EntryView)
    requires
        u.kind != Kind::Msrv,
    ensures
        msrv_of(es.push(u)) == msrv_of(es),
{
    let e2 = es.push(u);
    assert(e2.drop_last() =~= es);
    let ds = kind_indices(es, Kind::Msrv, Ecosystem::Cargo);
    let pins = kind_indices(es, Kind::Msrv, Ecosystem::Ci);
    assert(kind_indices(e2, Kind::Msrv, Ecosystem::Cargo) == ds);
    assert(kind_indices(e2, Kind::Msrv, Ecosystem::Ci) == pins);
    lemma_kind_indices(es, Kind::Msrv, Ecosystem::Cargo);
    lemma_kind_indices(es, Kind::Msrv, Ecosystem::Ci);
    lemma_member_ranges_prefix(es, u, ds);
    assert(member_sites(e2, ds) =~= member_sites(es, ds));
    assert(member_constraints(e2, ds) =~= member_constraints(es, ds));
    assert(declared_mismatch(e2) == declared_mismatch(es));
    lemma_highest_prefix(es, u, ds);
    lemma_highest_valid(es, ds);
    match highest_from(es, ds) {
        None => {},
        Some(high) => {
            lemma_below_floor_prefix(es, u, pins, high);
        },
    }
}

proof fn lemma_highest_is_max(es: Seq<EntryView>, ds: Seq<int>)
    requires
        valid_members(es, ds),
    ensures
        forall|k: int|
            0 <= k < ds.len() && (#[trigger] entry_floor(es[ds[k]])) is Some ==> (highest_from(es, ds) is Some
                && crate::version::version_order(
                entry_floor(es[ds[k]])->Some_0,
                highest_from(es, ds)->Some_0.0,
            ) <= 0),
        highest_from(es, ds) matches Some(h) ==> entry_floor(es[h.1]) == Some(h.0) && exists|k: int|
            0 <= k < ds.len() && ds[k] == h.1,
    decreases ds.len(),
{
    if ds.len() > 0 {
        let d0 = ds.drop_last();
        assert(valid_members(es, d0));
        lemma_highest_is_max(es, d0);
        let best = highest_from(es, d0);
        let i = ds.last();
        assert forall|k: int| 0 <= k < d0.len() implies d0[k] == ds[k] by {}
        match best {
            Some(h) => {
                let k0 = choose|k: int| 0 <= k < d0.len() && d0[k] == h.1;
                assert(ds[k0] == h.1);
            },
            None => {},
        }
        assert(ds[ds.len() - 1] == i);
        match entry_floor(es[i]) {
            None => {
                assert forall|k: int|
                    0 <= k < ds.len() && (#[trigger] entry_floor(es[ds[k]])) is Some implies (highest_from(
                    es,
                    ds,
                ) is Some && crate::version::version_order(
                    entry_floor(es[ds[k]])->Some_0,
                    highest_from(es, ds)->Some_0.0,
                ) <= 0) by {
                    if k < d0.len() {
                        assert(d0[k] == ds[k]);
                    }
                }
            },
            Some(f) => {
                assert forall|k: int|
                    0 <= k < ds.len() && (#[trigger] entry_floor(es[ds[k]])) is Some implies (highest_from(
                    es,
                    ds,
                ) is Some && crate::version::version_order(
                    entry_floor(es[ds[k]])->Some_0,
                    highest_from(es, ds)->Some_0.0,
                ) <= 0) by {
                    let g = entry_floor(es[ds[k]])->Some_0;
                    let top = highest_from(es, ds)->Some_0.0;
                    if k < d0.len() {
                        assert(d0[k] == ds[k]);
                        assert(entry_floor(es[d0[k]]) is Some);
                        let b = best->Some_0.0;
                        crate::version::lemma_version_order(g, b, f);
                        crate::version::lemma_version_order(b, f, f);
                    } else {
                        assert(ds[k] == i);
                        crate::version::lemma_version_order(f, f, f);
                        match best {
                            Some(b) => crate::version::lemma_version_order(f, b.0, b.0),
                            None => {},
                        }
                    }
                }
            },
        }
    }
}

/// **CI pins are held to the highest declared minimum.** The declaration
/// the CI toolchain pins are compared with is itself a declared
/// `rust-version`, and its floor is at or above the floor of every other.
pub proof fn lemma_ci_pins_meet_the_highest_declaration(es: Seq<EntryView>, d: int)
    requires
        0 <= d < es.len(),
        es[d].kind == Kind::Msrv,
        es[d].ecosystem == Ecosystem::Cargo,
        entry_floor(es[d]) is Some,
    ensures
        highest_from(es, kind_indices(es, Kind::Msrv, Ecosystem::Cargo)) matches Some(h) && {
            &&& 0 <= h.1 < es.len()
            &&& es[h.1].kind == Kind::Msrv
            &&& es[h.1].ecosystem == Ecosystem::Cargo
            &&& entry_floor(es[h.1]) == Some(h.0)
            &&& crate::version::version_order(entry_floor(es[d])->Some_0, h.0) <= 0
        },
{
    let ds = kind_indices(es, Kind::Msrv, Ecosystem::Cargo);
    lemma_kind_indices(es, Kind::Msrv, Ecosystem::Cargo);
    lemma_kind_indices_complete(es, Kind::Msrv, Ecosystem::Cargo, d);
    lemma_highest_is_max(es, ds);
    let k = choose|k: int| 0 <= k < ds.len() && ds[k] == d;
    assert(entry_floor(es[ds[k]]) is Some);
    let h = highest_from(es, ds)->Some_0;
    let j = choose|j: int| 0 <= j < ds.len() && ds[j] == h.1;
    assert(ds[j] == h.1);
}

proof fn lemma_kind_indices_complete(es: Seq<EntryView>, k: Kind, e: Ecosystem, i: int)
    requires
        0 <= i < es.len(),
        es[i].kind == k,
        es[i].ecosystem == e,
    ensures
        exists|j: int| 0 <= j < kind_indices(es, k, e).len() && kind_indices(es, k, e)[j] == i,
    decreases es.len(),
{
    let rest = kind_indices(es.drop_last(), k, e);
    if i == es.len() - 1 {
        assert(kind_indices(es, k, e) == rest.push(i));
        assert(kind_indices(es, k, e)[rest.len() as int] == i);
    } else {
        assert(es.drop_last()[i] == es[i]);
        lemma_kind_indices_complete(es.drop_last(), k, e, i);
        let j = choose|j: int| 0 <= j < rest.len() && rest[j] == i;
        if es.last().kind == k && es.last().ecosystem == e {
            assert(kind_indices(es, k, e)[j] == i);
        } else {
            assert(kind_indices(es, k, e)[j] == i);
        }
    }
}

proof fn lemma_below_floor_reports(
    es: Seq<EntryView>,
    pins: Seq<int>,
    high: (crate::version::VersionView, int),
    q: int,
)
    requires
        0 <= q < pins.len(),
        entry_floor(es[pins[q]]) is Some,
        crate::version::version_order(entry_floor(es[pins[q]])->Some_0, high.0) < 0,
    ensures
        exists|k: int|
            0 <= k < below_floor_from(es, pins, high).len() && {
                let f = #[trigger] below_floor_from(es, pins, high)[k];
                &&& f.code == "msrv-mismatch"@
                &&& f.ecosystem == Ecosystem::Ci
                &&& f.sites == sites_of(es, seq![pins[q], high.1])
            },
    decreases pins.len(),
{
    let rest = below_floor_from(es, pins.drop_last(), high);
    if q == pins.len() - 1 {
        let f = entry_floor(es[pins[q]])->Some_0;
        crate::version::lemma_version_order(f, high.0, f);
        let out = below_floor_from(es, pins, high);
        assert(out[rest.len() as int].sites == sites_of(es, seq![pins[q], high.1]));
    } else {
        assert(pins.drop_last()[q] == pins[q]);
        lemma_below_floor_reports(es, pins.drop_last(), high, q);
        let k = choose|k: int|
            0 <= k < rest.len() && {
                let f = #[trigger] rest[k];
                &&& f.code == "msrv-mismatch"@
                &&& f.ecosystem == Ecosystem::Ci
                &&& f.sites == sites_of(es, seq![pins.drop_last()[q], high.1])
            };
        let out = below_floor_from(es, pins, high);
        assert(out[k] == rest[k]);
    }
}

/// **A CI toolchain below any declared minimum is reported.** When a CI
/// pin's floor is below the floor of some declared `rust-version`, the
/// `msrv-mismatch` findings hold one for that pin, set against a declared
/// `rust-version` at least as high as the one it falls short of.
pub proof fn lemma_ci_pin_below_a_declaration_is_reported(es: Seq<EntryView>, p: int, d: int)
    requires
        0 <= p < es.len(),
        0 <= d < es.len(),
        es[p].kind == Kind::Msrv,
        es[p].ecosystem == Ecosystem::Ci,
        es[d].kind == Kind::Msrv,
        es[d].ecosystem == Ecosystem::Cargo,
        entry_floor(es[p]) is Some,
        entry_floor(es[d]) is Some,
        crate::version::version_order(entry_floor(es[p])->Some_0, entry_floor(es[d])->Some_0) < 0,
    ensures
        exists|k: int, h: int|
            #![trigger msrv_of(es)[k], es[h]]
            0 <= k < msrv_of(es).len() && 0 <= h < es.len() && {
                let f = msrv_of(es)[k];
                &&& f.code == "msrv-mismatch"@
                &&& f.ecosystem == Ecosystem::Ci
                &&& f.sites == sites_of(es, seq![p, h])
                &&& es[h].kind == Kind::Msrv
                &&& es[h].ecosystem == Ecosystem::Cargo
                &&& entry_floor(es[h]) is Some
                &&& crate::version::version_order(
                    entry_floor(es[d])->Some_0,
                    entry_floor(es[h])->Some_0,
                ) <= 0
            },
{
    lemma_ci_pins_meet_the_highest_declaration(es, d);
    let ds = kind_indices(es, Kind::Msrv, Ecosystem::Cargo);
    let pins = kind_indices(es, Kind::Msrv, Ecosystem::Ci);
    let high = highest_from(es, ds)->Some_0;
    lemma_kind_indices_complete(es, Kind::Msrv, Ecosystem::Ci, p);
    let q = choose|q: int| 0 <= q < pins.len() && pins[q] == p;
    crate::version::lemma_version_order(
        entry_floor(es[p])->Some_0,
        entry_floor(es[d])->Some_0,
        high.0,
    );
    lemma_below_floor_reports(es, pins, high, q);
    let below = below_floor_from(es, pins, high);
    let k = choose|k: int|
        0 <= k < below.len() && {
            let f = #[trigger] below[k];
            &&& f.code == "msrv-mismatch"@
            &&& f.ecosystem == Ecosystem::Ci
            &&& f.sites == sites_of(es, seq![pins[q], high.1])
        };
    let dm = declared_mismatch(es);
    assert(msrv_of(es) == dm + below);
    assert(msrv_of(es)[dm.len() + k] == below[k]);
    let h = high.1;
    assert(msrv_of(es)[dm.len() + k].sites == sites_of(es, seq![p, h]));
}

/// The two codes a comparison between constraints produces.
pub open spec fn is_conflict_code(code: Seq<char>) -> bool {
    code == "constraint-conflict"@ || code == "disjoint-constraint"@
}

proof fn lemma_other_codes_differ()
    ensures
        !is_conflict_code("prerelease-in-production"@),
        !is_conflict_code("malformed-constraint"@),
        !is_conflict_code("floating-pin"@),
        !is_conflict_code("msrv-mismatch"@),
{
    reveal_strlit("constraint-conflict");
    reveal_strlit("disjoint-constraint");
    reveal_strlit("prerelease-in-production");
    reveal_strlit("malformed-constraint");
    reveal_strlit("floating-pin");
    reveal_strlit("msrv-mismatch");
    assert("prerelease-in-production"@[0] != "constraint-conflict"@[0]);
    assert("prerelease-in-production"@[0] != "disjoint-constraint"@[0]);
    assert("malformed-constraint"@[0] != "constraint-conflict"@[0]);
    assert("malformed-constraint"@[0] != "disjoint-constraint"@[0]);
    assert("floating-pin"@[0] != "constraint-conflict"@[0]);
    assert("floating-pin"@[0] != "disjoint-constraint"@[0]);
    assert("msrv-mismatch"@[0] != "constraint-conflict"@[0]);
    assert("msrv-mismatch"@[0] != "disjoint-constraint"@[0]);
}

proof fn lemma_prerelease_codes(es: Seq<EntryView>, gs: Seq<((Ecosystem, Seq<char>), Seq<int>)>)
    ensures
        forall|k: int| 0 <= k < prereleases_from(es, gs).len() ==> #[trigger] prereleases_from(es, gs)[k].code
            == "prerelease-in-production"@,
    decreases gs.len(),
{
    if gs.len() > 0 {
        lemma_prerelease_codes(es, gs.drop_last());
    }
}

proof fn lemma_malformed_codes(es: Seq<EntryView>, gs: Seq<((Ecosystem, Seq<char>), Seq<int>)>)
    ensures
        forall|k: int| 0 <= k < malformed_from(es, gs).len() ==> #[trigger] malformed_from(es, gs)[k].code
            == "malformed-constraint"@,
    decreases gs.len(),
{
    if gs.len() > 0 {
        lemma_malformed_codes(es, gs.drop_last());
    }
}

proof fn lemma_floating_codes(es: Seq<EntryView>, gs: Seq<((Ecosystem, Seq<char>), Seq<int>)>)
    ensures
        forall|k: int| 0 <= k < floating_from(es, gs).len() ==> #[trigger] floating_from(es, gs)[k].code
            == "floating-pin"@,
    decreases gs.len(),
{
    if gs.len() > 0 {
        lemma_floating_codes(es, gs.drop_last());
    }
}

proof fn lemma_below_floor_codes(es: Seq<EntryView>, pins: Seq<int>, high: (crate::version::VersionView, int))
    ensures
        forall|k: int| 0 <= k < below_floor_from(es, pins, high).len() ==> #[trigger] below_floor_from(
            es,
            pins,
            high,
        )[k].code == "msrv-mismatch"@,
    decreases pins.len(),
{
    if pins.len() > 0 {
        lemma_below_floor_codes(es, pins.drop_last(), high);
    }
}

/// The comparison findings among all findings are exactly the
/// `constraint-conflict` and `disjoint-constraint` findings of the
/// comparison itself.
pub proof fn lemma_conflict_findings_are_the_comparison(es: Seq<EntryView>, f: FindingView)
    requires
        is_conflict_code(f.code),
    ensures
        analysed_findings(es).contains(f) <==> conflicts_of(es).contains(f),
{
    let c = conflicts_of(es);
    let m = msrv_of(es);
    let p = prereleases_of(es);
    let b = malformed_of(es);
    let l = floating_of(es);
    let all = c + m + p + b + l;
    crate::order::lemma_sort_by_contains(all, finding_order(), f);
    lemma_other_codes_differ();
    lemma_prerelease_codes(es, groups(es, Selection::Shipped));
    lemma_malformed_codes(es, groups(es, Selection::Broken));
    lemma_floating_codes(es, groups(es, Selection::Floating));
    match highest_from(es, kind_indices(es, Kind::Msrv, Ecosystem::Cargo)) {
        None => {},
        Some(high) => {
            lemma_below_floor_codes(es, kind_indices(es, Kind::Msrv, Ecosystem::Ci), high);
        },
    }
    if all.contains(f) {
        let k = choose|k: int| 0 <= k < all.len() && all[k] == f;
        if k >= c.len() {
            let d = declared_mismatch(es);
            if k < c.len() + d.len() {
                assert(m[k - c.len()] == d[k - c.len()]);
            } else if k < c.len() + m.len() {
                assert(m[k - c.len()] == all[k]);
            } else if k < c.len() + m.len() + p.len() {
                assert(p[k - c.len() - m.len()] == all[k]);
            } else if k < c.len() + m.len() + p.len() + b.len() {
                assert(b[k - c.len() - m.len() - p.len()] == all[k]);
            } else {
                assert(l[k - c.len() - m.len() - p.len() - b.len()] == all[k]);
            }
            assert(false);
        }
        assert(c[k] == f);
    }
    if c.contains(f) {
        let k = choose|k: int| 0 <= k < c.len() && c[k] == f;
        assert(all[k] == f);
    }
}

/// Entries no comparison selects, appended, change no conflict.
pub proof fn lemma_unselected_entries_change_no_conflict(es: Seq<EntryView>, more: Seq<EntryView>)
    requires
        forall|k: int| 0 <= k < more.len() ==> !selected(Selection::Comparable, #[trigger] more[k]),
    ensures
        conflicts_of(es + more) == conflicts_of(es),
    decreases more.len(),
{
    if more.len() > 0 {
        let d = more.drop_last();
        assert forall|k: int| 0 <= k < d.len() implies !selected(Selection::Comparable, #[trigger] d[k]) by {
            assert(d[k] == more[k]);
        }
        lemma_unselected_entries_change_no_conflict(es, d);
        assert(es + more =~= (es + d).push(more.last()));
        assert(!selected(Selection::Comparable, more[more.len() - 1]));
        lemma_unselected_entry_changes_no_conflict(es + d, more.last());
    }
}

/// A prerelease finding reads its group's entries and nothing else.
proof fn lemma_prerelease_of_prefix(es: Seq<EntryView>, u: EntryView, g: ((Ecosystem, Seq<char>), Seq<int>))
    requires
        valid_members(es, g.1),
    ensures
        prerelease_of(es.push(u), g) == prerelease_of(es, g),
{
    let e2 = es.push(u);
    assert(member_sites(e2, g.1) =~= member_sites(es, g.1));
    assert(member_constraints(e2, g.1) =~= member_constraints(es, g.1));
}

proof fn lemma_prereleases_from_prefix(es: Seq<EntryView>, u: EntryView, gs: Seq<((Ecosystem, Seq<char>), Seq<int>)>)
    requires
        forall|g: int| 0 <= g < gs.len() ==> valid_members(es, #[trigger] gs[g].1),
    ensures
        prereleases_from(es.push(u), gs) == prereleases_from(es, gs),
    decreases gs.len(),
{
    if gs.len() > 0 {
        assert forall|g: int| 0 <= g < gs.drop_last().len() implies valid_members(
            es,
            #[trigger] gs.drop_last()[g].1,
        ) by {
            assert(gs.drop_last()[g] == gs[g]);
        }
        lemma_prereleases_from_prefix(es, u, gs.drop_last());
        assert(valid_members(es, gs[gs.len() - 1].1));
        lemma_prerelease_of_prefix(es, u, gs.last());
    }
}

/// **A dev or build dependency never raises `prerelease-in-production`.**
/// Adding one to any set of entries, whatever its constraint, leaves the
/// prerelease findings as they were: a test harness or a build script on
/// a release candidate is a choice, not a shipped risk.
pub proof fn lemma_development_entries_raise_no_prerelease(es: Seq<EntryView>, u: EntryView)
    requires
        u.kind == Kind::Dev || u.kind == Kind::Build,
    ensures
        prereleases_of(es.push(u)) == prereleases_of(es),
{
    lemma_push_unselected_groups(es, u, Selection::Shipped);
    let gs = groups(es, Selection::Shipped);
    assert forall|g: int| 0 <= g < gs.len() implies valid_members(es, #[trigger] gs[g].1) by {
        lemma_groups(es, Selection::Shipped, g);
    }
    lemma_prereleases_from_prefix(es, u, gs);
}

/// Every entry behind a `prerelease-in-production` group is neither a dev
/// nor a build dependency.
pub proof fn lemma_prerelease_groups_hold_no_development_entry(es: Seq<EntryView>, g: int, j: int)
    requires
        0 <= g < groups(es, Selection::Shipped).len(),
        0 <= j < groups(es, Selection::Shipped)[g].1.len(),
    ensures
        0 <= groups(es, Selection::Shipped)[g].1[j] < es.len(),
        es[groups(es, Selection::Shipped)[g].1[j]].kind != Kind::Dev,
        es[groups(es, Selection::Shipped)[g].1[j]].kind != Kind::Build,
{
    lemma_groups(es, Selection::Shipped, g);
}

/// **Findings come back worst first**: every error before every warning,
/// every warning before every info; and within a severity by code,
/// ecosystem and name.
pub proof fn lemma_findings_worst_first(es: Seq<EntryView>)
    ensures
        forall|i: int, j: int|
            0 <= i < j < analysed_findings(es).len() ==> severity_rank(
                #[trigger] analysed_findings(es)[i].severity,
            ) <= severity_rank(#[trigger] analysed_findings(es)[j].severity),
        crate::order::sorted_by(analysed_findings(es), finding_order()),
{
    let all = conflicts_of(es) + msrv_of(es) + prereleases_of(es) + malformed_of(es) + floating_of(es);
    lemma_finding_order_is_strict();
    crate::order::lemma_sort_by_sorted(all, finding_order());
    let fs = analysed_findings(es);
    assert forall|i: int, j: int| 0 <= i < j < fs.len() implies severity_rank(
        #[trigger] fs[i].severity,
    ) <= severity_rank(#[trigger] fs[j].severity) by {
        assert(!finding_order()(fs[j], fs[i]));
    }
}

} // verus!
