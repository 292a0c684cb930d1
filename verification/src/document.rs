//! A parsed manifest as plain values: strings, tables and lists.
//!
//! JSON and TOML are parsed by `serde_json` and `toml`; what the readers
//! look at comes back as a `Tree`, one node per value. A number, a
//! boolean or a date is `Other`: no reader reads one.

use vstd::prelude::*;
use crate::text::chars_of;

verus! {

pub enum Tree {
    Null,
    Text(String),
    Bool(bool),
    /// A number that is a non-negative integer within `u64`.
    Unsigned(u64),
    /// Keys in the order the parser's map holds them.
    Table(Vec<(String, Tree)>),
    List(Vec<Tree>),
    Other,
}

pub enum TreeView {
    Null,
    Text(Seq<char>),
    Bool(bool),
    Unsigned(u64),
    Table(Seq<(Seq<char>, TreeView)>),
    List(Seq<TreeView>),
    Other,
}

pub open spec fn tree_view(t: Tree) -> TreeView
    decreases t, 1int,
{
    match t {
        Tree::Null => TreeView::Null,
        Tree::Text(s) => TreeView::Text(s@),
        Tree::Bool(b) => TreeView::Bool(b),
        Tree::Unsigned(n) => TreeView::Unsigned(n),
        Tree::Table(es) => TreeView::Table(table_view(es@)),
        Tree::List(xs) => TreeView::List(list_view(xs@)),
        Tree::Other => TreeView::Other,
    }
}

pub open spec fn table_view(es: Seq<(String, Tree)>) -> Seq<(Seq<char>, TreeView)>
    decreases es, 0int,
{
    if es.len() == 0 {
        Seq::empty()
    } else {
        table_view(es.drop_last()).push((es.last().0@, tree_view(es.last().1)))
    }
}

pub open spec fn list_view(xs: Seq<Tree>) -> Seq<TreeView>
    decreases xs, 0int,
{
    if xs.len() == 0 {
        Seq::empty()
    } else {
        list_view(xs.drop_last()).push(tree_view(xs.last()))
    }
}

impl View for Tree {
    type V = TreeView;

    open spec fn view(&self) -> TreeView {
        tree_view(*self)
    }
}

} // verus!

verus! {

pub open spec fn opt_tree_view(t: Option<Tree>) -> Option<TreeView> {
    match t {
        Some(t) => Some(t@),
        None => None,
    }
}

pub open spec fn ref_tree_view(t: Option<&Tree>) -> Option<TreeView> {
    match t {
        Some(t) => Some(t@),
        None => None,
    }
}

#[verifier::external_type_specification]
#[verifier::external_body]
pub struct ExJsonValue(serde_json::Value);

#[verifier::external_type_specification]
#[verifier::external_body]
pub struct ExTomlValue(toml::Value);

/// The tree of the JSON document `text`, when `serde_json` parses it.
pub uninterp spec fn json_document(text: Seq<char>) -> Option<TreeView>;

/// The tree of the TOML document `text`, when `toml` parses it.
pub uninterp spec fn toml_document(text: Seq<char>) -> Option<TreeView>;

/// `serde_json::from_str::<serde_json::Value>`, converted node for node:
/// `None` exactly when the text is not JSON.
#[verifier::external_body]
pub(crate) fn read_json(text: &str) -> (r: Option<Tree>)
    ensures
        opt_tree_view(r) == json_document(text@),
{
    serde_json::from_str::<serde_json::Value>(text).ok().map(|v| json_tree(&v))
}

/// One `serde_json::Value` as a tree: null, a string, a boolean, an
/// object or an array keeps its shape, a number is `Unsigned` when
/// `Number::as_u64` reads it, and every other value is `Other`. Only
/// `read_json` calls it, on the value it parsed.
#[verifier::external_body]
fn json_tree(v: &serde_json::Value) -> Tree {
    match v {
        serde_json::Value::Null => Tree::Null,
        serde_json::Value::String(s) => Tree::Text(s.clone()),
        serde_json::Value::Bool(b) => Tree::Bool(*b),
        serde_json::Value::Number(n) => n.as_u64().map_or(Tree::Other, Tree::Unsigned),
        serde_json::Value::Object(m) => Tree::Table(
            m.iter().map(|(k, x)| (k.clone(), json_tree(x))).collect(),
        ),
        serde_json::Value::Array(a) => Tree::List(a.iter().map(json_tree).collect()),
        _ => Tree::Other,
    }
}

/// `toml::from_str::<toml::Value>`, converted node for node: `None`
/// exactly when the text is not TOML.
#[verifier::external_body]
pub(crate) fn read_toml(text: &str) -> (r: Option<Tree>)
    ensures
        opt_tree_view(r) == toml_document(text@),
{
    toml::from_str::<toml::Value>(text).ok().map(|v| toml_tree(&v))
}

/// One `toml::Value` as a tree: a string, a table or an array keeps its
/// shape, and every other value is `Other` (no TOML reader looks at a
/// number, a boolean or a date). Only `read_toml` calls it, on the value
/// it parsed.
#[verifier::external_body]
fn toml_tree(v: &toml::Value) -> Tree {
    match v {
        toml::Value::String(s) => Tree::Text(s.clone()),
        toml::Value::Table(t) => Tree::Table(
            t.iter().map(|(k, x)| (k.clone(), toml_tree(x))).collect(),
        ),
        toml::Value::Array(a) => Tree::List(a.iter().map(toml_tree).collect()),
        _ => Tree::Other,
    }
}

// ---------------------------------------------------------------------
// Reading a tree
// ---------------------------------------------------------------------

/// The value under `key` in a table's entries: the first with that key.
pub open spec fn lookup(es: Seq<(Seq<char>, TreeView)>, key: Seq<char>) -> Option<TreeView>
    decreases es.len(),
{
    if es.len() == 0 {
        None
    } else if es[0].0 == key {
        Some(es[0].1)
    } else {
        lookup(es.drop_first(), key)
    }
}

pub open spec fn tree_get(t: TreeView, key: Seq<char>) -> Option<TreeView> {
    match t {
        TreeView::Table(es) => lookup(es, key),
        _ => None,
    }
}

pub open spec fn opt_get(t: Option<TreeView>, key: Seq<char>) -> Option<TreeView> {
    match t {
        Some(t) => tree_get(t, key),
        None => None,
    }
}

pub proof fn lemma_table_view(es: Seq<(String, Tree)>)
    ensures
        table_view(es).len() == es.len(),
        forall|i: int|
            0 <= i < es.len() ==> #[trigger] table_view(es)[i] == (es[i].0@, tree_view(es[i].1)),
    decreases es.len(),
{
    if es.len() > 0 {
        lemma_table_view(es.drop_last());
    }
}

pub proof fn lemma_list_view(xs: Seq<Tree>)
    ensures
        list_view(xs).len() == xs.len(),
        forall|i: int| 0 <= i < xs.len() ==> #[trigger] list_view(xs)[i] == tree_view(xs[i]),
    decreases xs.len(),
{
    if xs.len() > 0 {
        lemma_list_view(xs.drop_last());
    }
}

impl Tree {
    /// `Value::get`: the value under `key` when this is a table.
    pub fn get(&self, key: &str) -> (r: Option<&Tree>)
        ensures
            ref_tree_view(r) == tree_get(self@, key@),
    {
        match self {
            Tree::Table(es) => {
                let k = chars_of(key);
                let ghost tv = table_view(es@);
                proof {
                    lemma_table_view(es@);
                    assert(tv.skip(0) =~= tv);
                    assert(self@ == TreeView::Table(tv));
                }
                let mut i: usize = 0;
                while i < es.len()
                    invariant
                        0 <= i <= es.len(),
                        tv == table_view(es@),
                        self@ == TreeView::Table(tv),
                        tv.len() == es@.len(),
                        forall|j: int|
                            0 <= j < es@.len() ==> #[trigger] tv[j] == (es@[j].0@, tree_view(
                                es@[j].1,
                            )),
                        lookup(tv, k@) == lookup(tv.skip(i as int), k@),
                        k@ == key@,
                    decreases es.len() - i,
                {
                    assert(tv.skip(i as int)[0] == tv[i as int]);
                    let name = chars_of(es[i].0.as_str());
                    if crate::text::same(&name, &k) {
                        assert(tv[i as int].0 == k@);
                        assert(lookup(tv.skip(i as int), k@) == Some(tv[i as int].1));
                        return Some(&es[i].1);
                    }
                    assert(tv.skip(i as int).drop_first() =~= tv.skip(i + 1));
                    i = i + 1;
                }
                None
            },
            _ => None,
        }
    }

    pub fn as_text(&self) -> (r: Option<&String>)
        ensures
            match r {
                Some(s) => self@ == TreeView::Text(s@),
                None => !(self@ is Text),
            },
    {
        match self {
            Tree::Text(s) => Some(s),
            _ => None,
        }
    }
}


impl Tree {
    pub fn as_table(&self) -> (r: Option<&Vec<(String, Tree)>>)
        ensures
            match r {
                Some(es) => self@ == TreeView::Table(table_view(es@)),
                None => !(self@ is Table),
            },
    {
        match self {
            Tree::Table(es) => Some(es),
            _ => None,
        }
    }

    pub fn as_list(&self) -> (r: Option<&Vec<Tree>>)
        ensures
            match r {
                Some(xs) => self@ == TreeView::List(list_view(xs@)),
                None => !(self@ is List),
            },
    {
        match self {
            Tree::List(xs) => Some(xs),
            _ => None,
        }
    }
}


/// The tree of a JSON document, or `None` when the text is not JSON.
pub fn parse_json(text: &str) -> (r: Option<Tree>)
    ensures
        opt_tree_view(r) == json_document(text@),
{
    read_json(text)
}

impl Tree {
    pub fn as_bool(&self) -> (r: Option<bool>)
        ensures
            match r {
                Some(b) => self@ == TreeView::Bool(b),
                None => !(self@ is Bool),
            },
    {
        match self {
            Tree::Bool(b) => Some(*b),
            _ => None,
        }
    }

    pub fn as_unsigned(&self) -> (r: Option<u64>)
        ensures
            match r {
                Some(n) => self@ == TreeView::Unsigned(n),
                None => !(self@ is Unsigned),
            },
    {
        match self {
            Tree::Unsigned(n) => Some(*n),
            _ => None,
        }
    }
}

} // verus!
