//! What counts as a manifest, which ecosystem it speaks, and whether a
//! workflow value is evidently a version at all.
//!
//! One place, so discovery and the readers cannot disagree about which
//! files exist.

use vstd::prelude::*;
use crate::text::{
    Class, all_in, any_in, chars_of, class_has, string_views, contains, contains_char, ends_with, has_prefix_str,
    has_suffix_str, contains_str, rsplit_once_by, rsplit_once_class, starts_with, string_of,
    strip_prefix, stripped_prefix, trim, trimmed, same_str,
};

verus! {

/// The five grammars this tool models.
///
/// **Conflict analysis never crosses one of these lines.** An npm
/// `semver` and a Cargo `semver` are unrelated packages that happen to
/// share a word.
#[derive(Clone, Copy, Debug, PartialEq, Eq, Structural, PartialOrd, Ord, Hash)]
pub enum Ecosystem {
    Cargo,
    Ci,
    Go,
    Npm,
    Python,
}

/// The ecosystems in the order the report lists them: by name.
pub open spec fn eco_rank(e: Ecosystem) -> int {
    match e {
        Ecosystem::Cargo => 0,
        Ecosystem::Ci => 1,
        Ecosystem::Go => 2,
        Ecosystem::Npm => 3,
        Ecosystem::Python => 4,
    }
}

pub open spec fn eco_name(e: Ecosystem) -> Seq<char> {
    match e {
        Ecosystem::Cargo => "cargo"@,
        Ecosystem::Ci => "ci"@,
        Ecosystem::Go => "go"@,
        Ecosystem::Npm => "npm"@,
        Ecosystem::Python => "python"@,
    }
}

pub open spec fn eco_named(text: Seq<char>) -> Option<Ecosystem> {
    if text == "cargo"@ {
        Some(Ecosystem::Cargo)
    } else if text == "ci"@ {
        Some(Ecosystem::Ci)
    } else if text == "go"@ {
        Some(Ecosystem::Go)
    } else if text == "npm"@ {
        Some(Ecosystem::Npm)
    } else if text == "python"@ {
        Some(Ecosystem::Python)
    } else {
        None
    }
}

impl Ecosystem {
    pub fn name(self) -> (r: &'static str)
        ensures
            r@ == eco_name(self),
    {
        match self {
            Ecosystem::Cargo => "cargo",
            Ecosystem::Ci => "ci",
            Ecosystem::Go => "go",
            Ecosystem::Npm => "npm",
            Ecosystem::Python => "python",
        }
    }

    pub fn parse(text: &str) -> (r: Option<Ecosystem>)
        ensures
            r == eco_named(text@),
    {
        let t = chars_of(text);
        if same_str(&t, "cargo") {
            Some(Ecosystem::Cargo)
        } else if same_str(&t, "ci") {
            Some(Ecosystem::Ci)
        } else if same_str(&t, "go") {
            Some(Ecosystem::Go)
        } else if same_str(&t, "npm") {
            Some(Ecosystem::Npm)
        } else if same_str(&t, "python") {
            Some(Ecosystem::Python)
        } else {
            None
        }
    }

    /// The position of this ecosystem in the report's order.
    pub fn rank(self) -> (r: u8)
        ensures
            r == eco_rank(self),
    {
        match self {
            Ecosystem::Cargo => 0,
            Ecosystem::Ci => 1,
            Ecosystem::Go => 2,
            Ecosystem::Npm => 3,
            Ecosystem::Python => 4,
        }
    }
}

/// Every ecosystem's name reads back as that ecosystem.
pub proof fn lemma_ecosystem_round_trip(e: Ecosystem)
    ensures
        eco_named(eco_name(e)) == Some(e),
{
    reveal_strlit("cargo");
    reveal_strlit("ci");
    reveal_strlit("go");
    reveal_strlit("npm");
    reveal_strlit("python");
    assert("cargo"@.len() == 5 && "ci"@.len() == 2 && "go"@.len() == 2 && "npm"@.len() == 3
        && "python"@.len() == 6);
    assert("ci"@[0] != "go"@[0]);
}

#[derive(Clone, Copy, Debug, PartialEq, Eq, Structural)]
pub enum ManifestKind {
    PackageJson,
    CargoToml,
    PyprojectToml,
    GoMod,
    Workflow,
}

pub open spec fn kind_ecosystem(k: ManifestKind) -> Ecosystem {
    match k {
        ManifestKind::PackageJson => Ecosystem::Npm,
        ManifestKind::CargoToml => Ecosystem::Cargo,
        ManifestKind::PyprojectToml => Ecosystem::Python,
        ManifestKind::GoMod => Ecosystem::Go,
        ManifestKind::Workflow => Ecosystem::Ci,
    }
}

impl ManifestKind {
    pub fn ecosystem(self) -> (r: Ecosystem)
        ensures
            r == kind_ecosystem(self),
    {
        match self {
            ManifestKind::PackageJson => Ecosystem::Npm,
            ManifestKind::CargoToml => Ecosystem::Cargo,
            ManifestKind::PyprojectToml => Ecosystem::Python,
            ManifestKind::GoMod => Ecosystem::Go,
            ManifestKind::Workflow => Ecosystem::Ci,
        }
    }
}

// ---------------------------------------------------------------------
// Paths
// ---------------------------------------------------------------------

/// The text after the last `/` or `\`, or all of it.
pub open spec fn basename_of(s: Seq<char>) -> Seq<char> {
    match rsplit_once_by(s, Class::Separator) {
        Some(parts) => parts.1,
        None => s,
    }
}

pub fn basename(filepath: &str) -> (r: String)
    ensures
        r@ == basename_of(filepath@),
{
    let s = chars_of(filepath);
    match rsplit_once_class(&s, Class::Separator) {
        Some((_, name)) => string_of(&name),
        None => string_of(&s),
    }
}

/// Every `\` written as `/`.
pub open spec fn slashed(s: Seq<char>) -> Seq<char> {
    s.map_values(|c: char| if c == '\\' { '/' } else { c })
}

pub fn forward_slashed(s: &str) -> (r: String)
    ensures
        r@ == slashed(s@),
{
    let t = chars_of(s);
    let mut out: Vec<char> = Vec::new();
    let mut i: usize = 0;
    while i < t.len()
        invariant
            0 <= i <= t.len(),
            out@ == slashed(t@.take(i as int)),
        decreases t.len() - i,
    {
        let c = if t[i] == '\\' { '/' } else { t[i] };
        out.push(c);
        proof {
            assert(t@.take(i + 1) == t@.take(i as int).push(t@[i as int]));
            assert(slashed(t@.take(i + 1)) =~= slashed(t@.take(i as int)).push(c));
        }
        i = i + 1;
    }
    assert(t@.take(t.len() as int) == t@);
    string_of(&out)
}

/// A workflow is decided by its directory and its extension.
pub open spec fn workflow_path(path: Seq<char>) -> bool {
    (starts_with(path, ".github/workflows/"@) || contains(path, "/.github/workflows/"@)) && (
    ends_with(path, ".yml"@) || ends_with(path, ".yaml"@))
}

pub fn is_workflow(path: &str) -> (b: bool)
    ensures
        b == workflow_path(path@),
{
    let p = chars_of(path);
    let inside = has_prefix_str(&p, ".github/workflows/") || contains_str(
        &p,
        "/.github/workflows/",
    );
    inside && (has_suffix_str(&p, ".yml") || has_suffix_str(&p, ".yaml"))
}

pub open spec fn manifest_kind_of(filepath: Seq<char>) -> Option<ManifestKind> {
    let path = slashed(filepath);
    if workflow_path(path) {
        Some(ManifestKind::Workflow)
    } else {
        let name = basename_of(path);
        if name == "package.json"@ {
            Some(ManifestKind::PackageJson)
        } else if name == "Cargo.toml"@ {
            Some(ManifestKind::CargoToml)
        } else if name == "pyproject.toml"@ {
            Some(ManifestKind::PyprojectToml)
        } else if name == "go.mod"@ {
            Some(ManifestKind::GoMod)
        } else {
            None
        }
    }
}

/// Which manifest a path is, if it is one.
///
/// The workflow test is on the **directory**, not the extension: a
/// repository is full of YAML that is not a workflow.
pub fn manifest_kind(filepath: &str) -> (r: Option<ManifestKind>)
    ensures
        r == manifest_kind_of(filepath@),
{
    let path = forward_slashed(filepath);
    if is_workflow(path.as_str()) {
        return Some(ManifestKind::Workflow);
    }
    let name = basename(path.as_str());
    let n = chars_of(name.as_str());
    if same_str(&n, "package.json") {
        Some(ManifestKind::PackageJson)
    } else if same_str(&n, "Cargo.toml") {
        Some(ManifestKind::CargoToml)
    } else if same_str(&n, "pyproject.toml") {
        Some(ManifestKind::PyprojectToml)
    } else if same_str(&n, "go.mod") {
        Some(ManifestKind::GoMod)
    } else {
        None
    }
}

pub open spec fn vendored(name: Seq<char>) -> bool {
    name == "node_modules"@ || name == ".git"@ || name == "vendor"@
}

/// Directories never worth walking, whatever the ignore rules say: they
/// hold the resolver's output, not this repository's constraints.
pub fn is_vendored(name: &str) -> (b: bool)
    ensures
        b == vendored(name@),
{
    let n = chars_of(name);
    same_str(&n, "node_modules") || same_str(&n, ".git") || same_str(&n, "vendor")
}

// ---------------------------------------------------------------------
// The evidence gate
// ---------------------------------------------------------------------

pub open spec fn version_shaped(raw: Seq<char>) -> bool {
    let text = trim(raw);
    if text.len() == 0 || contains(text, "${{"@) || contains(text, ","@) || starts_with(
        text,
        "["@,
    ) {
        false
    } else if text[0] == 'v' || text[0] == 'V' {
        text.len() > 1 && in_digit(text[1])
    } else if in_digit(text[0]) || text[0] == '^' || text[0] == '~' || text[0] == '>' || text[0]
        == '<' || text[0] == '=' || text[0] == '*' {
        true
    } else {
        text == "latest"@ || text == "stable"@ || text == "nightly"@ || text == "beta"@ || text
            == "current"@ || text == "node"@ || text == "lts"@ || starts_with(text, "lts/"@)
    }
}

pub open spec fn in_digit(c: char) -> bool {
    '0' <= c && c <= '9'
}

/// Whether a string found outside a typed manifest key is evidently a
/// version at all. Anything that fails becomes an
/// `ambiguous_version_string` refusal instead of an invented entry.
pub fn looks_like_a_version(text: &str) -> (b: bool)
    ensures
        b == version_shaped(text@),
{
    let raw = chars_of(text);
    let t = trimmed(&raw);
    if t.len() == 0 || contains_str(&t, "${{") || contains_str(&t, ",") || has_prefix_str(
        &t,
        "[",
    ) {
        return false;
    }
    let first = t[0];
    if first == 'v' || first == 'V' {
        return t.len() > 1 && '0' <= t[1] && t[1] <= '9';
    }
    if ('0' <= first && first <= '9') || first == '^' || first == '~' || first == '>' || first
        == '<' || first == '=' || first == '*' {
        return true;
    }
    same_str(&t, "latest") || same_str(&t, "stable") || same_str(&t, "nightly") || same_str(
        &t,
        "beta",
    ) || same_str(&t, "current") || same_str(&t, "node") || same_str(&t, "lts")
        || has_prefix_str(&t, "lts/")
}

} // verus!

verus! {

// ---------------------------------------------------------------------
// Exclude patterns, compiled once by `globset`
// ---------------------------------------------------------------------

#[verifier::external_type_specification]
#[verifier::external_body]
pub struct ExGlobSet(globset::GlobSet);

#[verifier::external_type_specification]
#[verifier::external_body]
pub struct ExGlobSetBuilder(globset::GlobSetBuilder);

/// The patterns a `GlobSet` was built from, in the order they were added.
pub uninterp spec fn set_globs(s: globset::GlobSet) -> Seq<Seq<char>>;

/// The patterns added to a `GlobSetBuilder` so far.
pub uninterp spec fn builder_globs(b: globset::GlobSetBuilder) -> Seq<Seq<char>>;

/// Whether `GlobBuilder::new(pattern).literal_separator(true).build()`
/// succeeds.
pub uninterp spec fn glob_compiles(pattern: Seq<char>) -> bool;

/// Whether the glob `pattern`, compiled with `literal_separator(true)`,
/// matches `path`: globset's syntax, in which `*` and `?` stop at `/` and
/// `**` crosses it.
pub uninterp spec fn glob_matches(pattern: Seq<char>, path: Seq<char>) -> bool;

/// `GlobSetBuilder::new`, which starts with no pattern.
#[verifier::external_body]
fn new_glob_builder() -> (b: globset::GlobSetBuilder)
    ensures
        builder_globs(b) == Seq::<Seq<char>>::empty(),
{
    globset::GlobSetBuilder::new()
}

/// `GlobBuilder::new(pattern).literal_separator(true).build()`, and on
/// success `GlobSetBuilder::add` of the glob: the builder gains the
/// pattern exactly when it compiles, and the result says whether it did.
#[verifier::external_body]
fn add_glob(b: &mut globset::GlobSetBuilder, pattern: &str) -> (compiled: bool)
    ensures
        compiled == glob_compiles(pattern@),
        builder_globs(*final(b)) == (if compiled {
            builder_globs(*old(b)).push(pattern@)
        } else {
            builder_globs(*old(b))
        }),
{
    match globset::GlobBuilder::new(pattern).literal_separator(true).build() {
        Ok(glob) => {
            b.add(glob);
            true
        },
        Err(_) => false,
    }
}

/// Whether `GlobSetBuilder::build` succeeds on the globs compiled, with
/// `literal_separator(true)`, from these patterns in this order. The
/// outcome depends on the globs alone.
pub uninterp spec fn glob_set_builds(patterns: Seq<Seq<char>>) -> bool;

/// `GlobSetBuilder::build`: the set holds the builder's patterns when
/// globset builds the combined matcher, and there is no set exactly when
/// it does not.
#[verifier::external_body]
fn build_glob_set(b: &globset::GlobSetBuilder) -> (r: Option<globset::GlobSet>)
    ensures
        r is Some <==> glob_set_builds(builder_globs(*b)),
        r matches Some(s) ==> set_globs(s) == builder_globs(*b),
{
    b.build().ok()
}

/// `GlobSet::empty`, which matches nothing.
#[verifier::external_body]
fn empty_glob_set() -> (s: globset::GlobSet)
    ensures
        set_globs(s) == Seq::<Seq<char>>::empty(),
{
    globset::GlobSet::empty()
}

/// `GlobSet::is_match`: true when any glob of the set matches the path.
#[verifier::external_body]
fn glob_set_matches(s: &globset::GlobSet, path: &str) -> (r: bool)
    ensures
        r == (exists|i: int|
            0 <= i < set_globs(*s).len() && #[trigger] glob_matches(set_globs(*s)[i], path@)),
{
    s.is_match(path)
}

/// The patterns of `patterns` that compile, in order: those holding a
/// `/` when `with_slash`, the others when not.
pub open spec fn compiled(patterns: Seq<Seq<char>>, with_slash: bool) -> Seq<Seq<char>>
    decreases patterns.len(),
{
    if patterns.len() == 0 {
        Seq::empty()
    } else {
        let rest = compiled(patterns.drop_last(), with_slash);
        let p = patterns.last();
        if glob_compiles(p) && any_in(p, Class::Is('/')) == with_slash {
            rest.push(p)
        } else {
            rest
        }
    }
}

/// The patterns a set built from `patterns` holds: all of them, or none
/// when globset cannot build the set.
pub open spec fn built(patterns: Seq<Seq<char>>) -> Seq<Seq<char>> {
    if glob_set_builds(patterns) {
        patterns
    } else {
        Seq::empty()
    }
}

pub open spec fn any_glob_matches(globs: Seq<Seq<char>>, path: Seq<char>) -> bool {
    exists|i: int| 0 <= i < globs.len() && #[trigger] glob_matches(globs[i], path)
}

/// The exclude patterns, compiled once.
///
/// A pattern with a `/` matches the root-relative path and one without
/// matches the basename, gitignore-style.
pub struct Excludes {
    paths: globset::GlobSet,
    names: globset::GlobSet,
}

impl Excludes {
    /// The patterns matched against the whole path.
    pub closed spec fn path_globs(&self) -> Seq<Seq<char>> {
        set_globs(self.paths)
    }

    /// The patterns matched against the basename.
    pub closed spec fn name_globs(&self) -> Seq<Seq<char>> {
        set_globs(self.names)
    }

    /// A pattern that will not compile excludes **nothing**, rather than
    /// everything: a typo in a config must not silently hide the
    /// manifests this tool exists to compare. (Should globset fail to
    /// build a whole group, that group excludes nothing either.)
    pub fn new(patterns: &Vec<String>) -> (r: Excludes)
        ensures
            r.path_globs() == built(compiled(string_views(patterns@), true)),
            r.name_globs() == built(compiled(string_views(patterns@), false)),
    {
        let mut paths = new_glob_builder();
        let mut names = new_glob_builder();
        let mut i: usize = 0;
        while i < patterns.len()
            invariant
                0 <= i <= patterns.len(),
                builder_globs(paths) == compiled(string_views(patterns@).take(i as int), true),
                builder_globs(names) == compiled(string_views(patterns@).take(i as int), false),
            decreases patterns.len() - i,
        {
            let pattern = patterns[i].as_str();
            let p = chars_of(pattern);
            proof {
                let ps = string_views(patterns@);
                assert(ps.take(i + 1).drop_last() == ps.take(i as int));
                assert(ps.take(i + 1).last() == pattern@);
            }
            if contains_char(&p, '/') {
                add_glob(&mut paths, pattern);
            } else {
                add_glob(&mut names, pattern);
            }
            i = i + 1;
        }
        assert(string_views(patterns@).take(patterns.len() as int) == string_views(patterns@));
        let built_paths = match build_glob_set(&paths) {
            Some(set) => set,
            None => empty_glob_set(),
        };
        let built_names = match build_glob_set(&names) {
            Some(set) => set,
            None => empty_glob_set(),
        };
        Excludes { paths: built_paths, names: built_names }
    }

    /// Whether the path is excluded: its forward-slashed spelling by a
    /// path pattern, or its basename by a name pattern.
    pub fn matches(&self, filepath: &str) -> (r: bool)
        ensures
            r == (any_glob_matches(self.path_globs(), slashed(filepath@)) || any_glob_matches(
                self.name_globs(),
                basename_of(slashed(filepath@)),
            )),
    {
        let path = forward_slashed(filepath);
        let name = basename(path.as_str());
        glob_set_matches(&self.paths, path.as_str()) || glob_set_matches(&self.names, name.as_str())
    }
}

/// A pattern that does not compile is among neither group of patterns,
/// nor in either set built from them.
pub proof fn lemma_uncompilable_pattern_excludes_nothing(
    patterns: Seq<Seq<char>>,
    p: Seq<char>,
    with_slash: bool,
)
    requires
        !glob_compiles(p),
    ensures
        !compiled(patterns, with_slash).contains(p),
        !built(compiled(patterns, with_slash)).contains(p),
    decreases patterns.len(),
{
    if patterns.len() > 0 {
        lemma_uncompilable_pattern_excludes_nothing(patterns.drop_last(), p, with_slash);
    }
}

} // verus!
