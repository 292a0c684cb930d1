//! Character-sequence helpers shared by every grammar and reader.
//!
//! Text is handled as a `Vec<char>` whose view is the `Seq<char>` of the
//! string it came from, so every operation below has a contract over the
//! same sequence the specifications talk about. Each operation is the
//! one `str` offers under the same name, restated over sequences.

use vstd::prelude::*;

verus! {

// ---------------------------------------------------------------------
// Character classes
// ---------------------------------------------------------------------

/// The character sets the grammars and readers test against.
#[derive(Clone, Copy, PartialEq, Eq, Debug, Structural)]
pub enum Class {
    /// One particular character.
    Is(char),
    /// Unicode `White_Space`, which is what `char::is_whitespace` tests.
    Space,
    /// `'"'` or `'\''`.
    Quote,
    /// `0`-`9`.
    Digit,
    /// `a`-`z` or `A`-`Z`.
    Alpha,
    /// A digit or an ASCII letter.
    Alnum,
    /// A digit, an ASCII letter or `-`.
    AlnumDash,
    /// A hexadecimal digit.
    Hex,
    /// `v` or `V`.
    Vee,
    /// `/` or `\`.
    Separator,
    /// A digit, an ASCII letter, `.`, `-` or `_`.
    Name,
    /// `.` or `-`.
    DotDash,
}

pub open spec fn is_space(c: char) -> bool {
    ('\u{9}' <= c && c <= '\u{d}') || c == ' ' || c == '\u{85}' || c == '\u{a0}'
        || c == '\u{1680}' || ('\u{2000}' <= c && c <= '\u{200a}') || c == '\u{2028}'
        || c == '\u{2029}' || c == '\u{202f}' || c == '\u{205f}' || c == '\u{3000}'
}

pub open spec fn is_digit(c: char) -> bool {
    '0' <= c && c <= '9'
}

pub open spec fn is_alpha(c: char) -> bool {
    ('a' <= c && c <= 'z') || ('A' <= c && c <= 'Z')
}

pub open spec fn is_hex(c: char) -> bool {
    is_digit(c) || ('a' <= c && c <= 'f') || ('A' <= c && c <= 'F')
}

pub open spec fn in_class(c: char, class: Class) -> bool {
    match class {
        Class::Is(d) => c == d,
        Class::Space => is_space(c),
        Class::Quote => c == '"' || c == '\'',
        Class::Digit => is_digit(c),
        Class::Alpha => is_alpha(c),
        Class::Alnum => is_digit(c) || is_alpha(c),
        Class::AlnumDash => is_digit(c) || is_alpha(c) || c == '-',
        Class::Hex => is_hex(c),
        Class::Vee => c == 'v' || c == 'V',
        Class::Separator => c == '/' || c == '\\',
        Class::Name => is_digit(c) || is_alpha(c) || c == '.' || c == '-' || c == '_',
        Class::DotDash => c == '.' || c == '-',
    }
}

/// Whether `c` belongs to `class`.
pub fn class_has(c: char, class: Class) -> (b: bool)
    ensures
        b == in_class(c, class),
{
    let digit = '0' <= c && c <= '9';
    let alpha = ('a' <= c && c <= 'z') || ('A' <= c && c <= 'Z');
    match class {
        Class::Is(d) => c == d,
        Class::Space => ('\u{9}' <= c && c <= '\u{d}') || c == ' ' || c == '\u{85}' || c
            == '\u{a0}' || c == '\u{1680}' || ('\u{2000}' <= c && c <= '\u{200a}') || c
            == '\u{2028}' || c == '\u{2029}' || c == '\u{202f}' || c == '\u{205f}' || c
            == '\u{3000}',
        Class::Quote => c == '"' || c == '\'',
        Class::Digit => digit,
        Class::Alpha => alpha,
        Class::Alnum => digit || alpha,
        Class::AlnumDash => digit || alpha || c == '-',
        Class::Hex => digit || ('a' <= c && c <= 'f') || ('A' <= c && c <= 'F'),
        Class::Vee => c == 'v' || c == 'V',
        Class::Separator => c == '/' || c == '\\',
        Class::Name => digit || alpha || c == '.' || c == '-' || c == '_',
        Class::DotDash => c == '.' || c == '-',
    }
}

pub open spec fn all_in(s: Seq<char>, class: Class) -> bool {
    forall|i: int| 0 <= i < s.len() ==> in_class(#[trigger] s[i], class)
}

pub open spec fn any_in(s: Seq<char>, class: Class) -> bool {
    exists|i: int| 0 <= i < s.len() && in_class(#[trigger] s[i], class)
}

/// Whether every character of `s` is in `class` (true of the empty text).
pub fn all_of(s: &Vec<char>, class: Class) -> (b: bool)
    ensures
        b == all_in(s@, class),
{
    let mut i: usize = 0;
    while i < s.len()
        invariant
            0 <= i <= s.len(),
            forall|j: int| 0 <= j < i ==> in_class(#[trigger] s@[j], class),
        decreases s.len() - i,
    {
        if !class_has(s[i], class) {
            return false;
        }
        i = i + 1;
    }
    true
}

/// Whether some character of `s` is in `class`.
pub fn any_of(s: &Vec<char>, class: Class) -> (b: bool)
    ensures
        b == any_in(s@, class),
{
    let mut i: usize = 0;
    while i < s.len()
        invariant
            0 <= i <= s.len(),
            forall|j: int| 0 <= j < i ==> !in_class(#[trigger] s@[j], class),
        decreases s.len() - i,
    {
        if class_has(s[i], class) {
            return true;
        }
        i = i + 1;
    }
    false
}

// ---------------------------------------------------------------------
// Conversions
// ---------------------------------------------------------------------

/// The characters of a string, in order.
pub fn chars_of(s: &str) -> (out: Vec<char>)
    ensures
        out@ == s@,
{
    let mut out: Vec<char> = Vec::new();
    for c in it: s.chars()
        invariant
            out@ == it.seq().take(it.index() as int),
    {
        out.push(c);
    }
    assert(out@ == s@);
    out
}

/// A `String` holding exactly these characters.
///
/// Calls std's `FromIterator<&char>` for `String`, which appends each
/// character in order.
#[verifier::external_body]
pub fn string_of(s: &Vec<char>) -> (out: String)
    ensures
        out@ == s@,
{
    s.iter().collect()
}

/// A copy of `s[lo..hi]`.
pub fn slice(s: &Vec<char>, lo: usize, hi: usize) -> (out: Vec<char>)
    requires
        lo <= hi <= s.len(),
    ensures
        out@ == s@.subrange(lo as int, hi as int),
{
    let mut out: Vec<char> = Vec::new();
    let mut i = lo;
    while i < hi
        invariant
            lo <= i <= hi <= s.len(),
            out@ == s@.subrange(lo as int, i as int),
        decreases hi - i,
    {
        out.push(s[i]);
        i = i + 1;
    }
    out
}

/// `a` followed by `b`.
pub fn concat(a: &Vec<char>, b: &Vec<char>) -> (out: Vec<char>)
    ensures
        out@ == a@ + b@,
{
    let mut out = a.clone();
    let mut i: usize = 0;
    while i < b.len()
        invariant
            0 <= i <= b.len(),
            out@ == a@ + b@.take(i as int),
        decreases b.len() - i,
    {
        out.push(b[i]);
        i = i + 1;
        assert(b@.take(i as int) == b@.take(i - 1) .push(b@[i - 1]));
    }
    assert(b@.take(b.len() as int) == b@);
    out
}

/// Whether two character sequences are the same text.
pub fn same(a: &Vec<char>, b: &Vec<char>) -> (r: bool)
    ensures
        r == (a@ == b@),
{
    if a.len() != b.len() {
        return false;
    }
    let mut i: usize = 0;
    while i < a.len()
        invariant
            a.len() == b.len(),
            0 <= i <= a.len(),
            forall|j: int| 0 <= j < i ==> a@[j] == b@[j],
        decreases a.len() - i,
    {
        if a[i] != b[i] {
            return false;
        }
        i = i + 1;
    }
    assert(a@ =~= b@);
    true
}

/// Whether `a` and the string `b` are the same text.
pub fn same_str(a: &Vec<char>, b: &str) -> (r: bool)
    ensures
        r == (a@ == b@),
{
    let b = chars_of(b);
    same(a, &b)
}

// ---------------------------------------------------------------------
// Prefixes, suffixes and searching
// ---------------------------------------------------------------------

pub open spec fn starts_with(s: Seq<char>, p: Seq<char>) -> bool {
    p.len() <= s.len() && s.take(p.len() as int) == p
}

pub open spec fn ends_with(s: Seq<char>, p: Seq<char>) -> bool {
    p.len() <= s.len() && s.skip(s.len() - p.len()) == p
}

/// Whether `p` occurs in `s` starting at `i`.
pub open spec fn occurs_at(s: Seq<char>, p: Seq<char>, i: int) -> bool {
    0 <= i && i + p.len() <= s.len() && s.subrange(i, i + p.len()) == p
}

pub open spec fn contains(s: Seq<char>, p: Seq<char>) -> bool {
    exists|i: int| occurs_at(s, p, i)
}

/// Whether `p` is a prefix of `s` (by position).
pub fn has_prefix(s: &Vec<char>, p: &Vec<char>) -> (b: bool)
    ensures
        b == starts_with(s@, p@),
{
    occurs(s, p, 0)
}

/// Whether `s` begins with the string `p`.
pub fn has_prefix_str(s: &Vec<char>, p: &str) -> (b: bool)
    ensures
        b == starts_with(s@, p@),
{
    let p = chars_of(p);
    has_prefix(s, &p)
}

/// Whether `s` ends with the string `p`.
pub fn has_suffix_str(s: &Vec<char>, p: &str) -> (b: bool)
    ensures
        b == ends_with(s@, p@),
{
    let p = chars_of(p);
    if p.len() > s.len() {
        return false;
    }
    let r = occurs(s, &p, s.len() - p.len());
    assert(s@.subrange(s.len() - p.len(), s.len() as int) == s@.skip(s.len() - p.len()));
    r
}

/// Whether `p` occurs in `s` at index `i`.
pub fn occurs(s: &Vec<char>, p: &Vec<char>, i: usize) -> (b: bool)
    ensures
        b == occurs_at(s@, p@, i as int),
        i == 0 ==> b == starts_with(s@, p@),
{
    if p.len() > s.len() || i > s.len() - p.len() {
        return false;
    }
    let mut k: usize = 0;
    while k < p.len()
        invariant
            i + p.len() <= s.len(),
            0 <= k <= p.len(),
            forall|j: int| 0 <= j < k ==> s@[i + j] == p@[j],
        decreases p.len() - k,
    {
        if s[i + k] != p[k] {
            assert(s@.subrange(i as int, i + p.len())[k as int] != p@[k as int]);
            return false;
        }
        k = k + 1;
    }
    assert(s@.subrange(i as int, i + p.len()) =~= p@);
    true
}

/// The first index at which `p` occurs in `s` at or after `from`.
pub open spec fn first_occurrence_from(s: Seq<char>, p: Seq<char>, from: int, i: int) -> bool {
    from <= i && occurs_at(s, p, i) && forall|j: int| from <= j < i ==> !occurs_at(s, p, j)
}

/// Where `p` first occurs in `s`, if anywhere.
pub fn find(s: &Vec<char>, p: &Vec<char>) -> (r: Option<usize>)
    ensures
        match r {
            Some(i) => first_occurrence_from(s@, p@, 0, i as int),
            None => !contains(s@, p@),
        },
{
    if p.len() > s.len() {
        return None;
    }
    let last = s.len() - p.len();
    let mut i: usize = 0;
    loop
        invariant
            p.len() <= s.len(),
            last == s.len() - p.len(),
            0 <= i <= last,
            forall|j: int| 0 <= j < i ==> !occurs_at(s@, p@, j),
        decreases last - i,
    {
        if occurs(s, p, i) {
            return Some(i);
        }
        if i == last {
            return None;
        }
        i = i + 1;
    }
}

/// Whether the string `p` occurs in `s`.
pub fn contains_str(s: &Vec<char>, p: &str) -> (b: bool)
    ensures
        b == contains(s@, p@),
{
    let p = chars_of(p);
    find(s, &p).is_some()
}

/// Whether some character of `s` is `c`.
pub fn contains_char(s: &Vec<char>, c: char) -> (b: bool)
    ensures
        b == any_in(s@, Class::Is(c)),
{
    any_of(s, Class::Is(c))
}

pub open spec fn is_first_in(s: Seq<char>, class: Class, i: int) -> bool {
    0 <= i < s.len() && in_class(s[i], class) && forall|j: int|
        0 <= j < i ==> !in_class(#[trigger] s[j], class)
}

/// The index of the first character of `s` in `class`.
pub fn position(s: &Vec<char>, class: Class) -> (r: Option<usize>)
    ensures
        match r {
            Some(i) => is_first_in(s@, class, i as int),
            None => !any_in(s@, class),
        },
{
    let mut i: usize = 0;
    while i < s.len()
        invariant
            0 <= i <= s.len(),
            forall|j: int| 0 <= j < i ==> !in_class(#[trigger] s@[j], class),
        decreases s.len() - i,
    {
        if class_has(s[i], class) {
            return Some(i);
        }
        i = i + 1;
    }
    None
}

// ---------------------------------------------------------------------
// Trimming
// ---------------------------------------------------------------------

/// `s` without its leading characters in `class`.
pub open spec fn trim_start(s: Seq<char>, class: Class) -> Seq<char>
    decreases s.len(),
{
    if s.len() > 0 && in_class(s[0], class) {
        trim_start(s.drop_first(), class)
    } else {
        s
    }
}

/// `s` without its trailing characters in `class`.
pub open spec fn trim_end(s: Seq<char>, class: Class) -> Seq<char>
    decreases s.len(),
{
    if s.len() > 0 && in_class(s.last(), class) {
        trim_end(s.drop_last(), class)
    } else {
        s
    }
}

/// `str::trim`: without leading or trailing white space.
pub open spec fn trim(s: Seq<char>) -> Seq<char> {
    trim_end(trim_start(s, Class::Space), Class::Space)
}

proof fn lemma_trim_start_skip(s: Seq<char>, class: Class, k: int)
    requires
        0 <= k <= s.len(),
        forall|j: int| 0 <= j < k ==> in_class(#[trigger] s[j], class),
    ensures
        trim_start(s, class) == trim_start(s.skip(k), class),
    decreases k,
{
    if k > 0 {
        assert(s.skip(1) == s.drop_first());
        lemma_trim_start_skip(s.drop_first(), class, k - 1);
        assert(s.drop_first().skip(k - 1) == s.skip(k));
    } else {
        assert(s.skip(0) == s);
    }
}

proof fn lemma_trim_end_take(s: Seq<char>, class: Class, k: int)
    requires
        0 <= k <= s.len(),
        forall|j: int| k <= j < s.len() ==> in_class(#[trigger] s[j], class),
    ensures
        trim_end(s, class) == trim_end(s.take(k), class),
    decreases s.len() - k,
{
    if k < s.len() {
        assert(in_class(s[s.len() - 1], class));
        lemma_trim_end_take(s.drop_last(), class, k);
        assert(s.drop_last().take(k) == s.take(k));
    } else {
        assert(s.take(k) == s);
    }
}

/// `s` without its leading characters in `class`.
pub fn trimmed_start(s: &Vec<char>, class: Class) -> (out: Vec<char>)
    ensures
        out@ == trim_start(s@, class),
{
    let mut i: usize = 0;
    while i < s.len() && class_has(s[i], class)
        invariant
            0 <= i <= s.len(),
            forall|j: int| 0 <= j < i ==> in_class(#[trigger] s@[j], class),
        decreases s.len() - i,
    {
        i = i + 1;
    }
    proof {
        lemma_trim_start_skip(s@, class, i as int);
    }
    let out = slice(s, i, s.len());
    assert(out@ == s@.skip(i as int));
    out
}

/// `s` without its trailing characters in `class`.
pub fn trimmed_end(s: &Vec<char>, class: Class) -> (out: Vec<char>)
    ensures
        out@ == trim_end(s@, class),
{
    let mut k: usize = s.len();
    while k > 0 && class_has(s[k - 1], class)
        invariant
            0 <= k <= s.len(),
            forall|j: int| k <= j < s.len() ==> in_class(#[trigger] s@[j], class),
        decreases k,
    {
        k = k - 1;
    }
    proof {
        lemma_trim_end_take(s@, class, k as int);
    }
    let out = slice(s, 0, k);
    assert(out@ == s@.take(k as int));
    out
}

/// `str::trim`.
pub fn trimmed(s: &Vec<char>) -> (out: Vec<char>)
    ensures
        out@ == trim(s@),
{
    let a = trimmed_start(s, Class::Space);
    trimmed_end(&a, Class::Space)
}

/// `s` without one leading `p`, if it starts with one.
pub open spec fn strip_prefix(s: Seq<char>, p: Seq<char>) -> Option<Seq<char>> {
    if starts_with(s, p) {
        Some(s.skip(p.len() as int))
    } else {
        None
    }
}

/// `str::strip_prefix` with a string pattern.
pub fn stripped_prefix(s: &Vec<char>, p: &str) -> (r: Option<Vec<char>>)
    ensures
        opt_view(r) == strip_prefix(s@, p@),
{
    let p = chars_of(p);
    if has_prefix(s, &p) {
        Some(slice(s, p.len(), s.len()))
    } else {
        None
    }
}

/// `str::strip_suffix` with a string pattern.
pub open spec fn strip_suffix(s: Seq<char>, p: Seq<char>) -> Option<Seq<char>> {
    if ends_with(s, p) {
        Some(s.take(s.len() - p.len()))
    } else {
        None
    }
}

pub fn stripped_suffix(s: &Vec<char>, p: &str) -> (r: Option<Vec<char>>)
    ensures
        opt_view(r) == strip_suffix(s@, p@),
{
    let q = chars_of(p);
    if has_suffix_str(s, p) {
        Some(slice(s, 0, s.len() - q.len()))
    } else {
        None
    }
}

/// `str::trim_start_matches` with a string pattern: every leading
/// repetition of `p` removed.
pub open spec fn trim_start_str(s: Seq<char>, p: Seq<char>) -> Seq<char>
    decreases s.len(),
{
    if p.len() > 0 && starts_with(s, p) {
        trim_start_str(s.skip(p.len() as int), p)
    } else {
        s
    }
}

pub fn trimmed_start_str(s: &Vec<char>, p: &str) -> (out: Vec<char>)
    ensures
        out@ == trim_start_str(s@, p@),
{
    let p = chars_of(p);
    let mut cur = s.clone();
    if p.len() == 0 {
        return cur;
    }
    while has_prefix(&cur, &p)
        invariant
            p.len() > 0,
            trim_start_str(cur@, p@) == trim_start_str(s@, p@),
        decreases cur.len(),
    {
        cur = slice(&cur, p.len(), cur.len());
    }
    cur
}

// ---------------------------------------------------------------------
// Splitting
// ---------------------------------------------------------------------

/// `str::split` with a string separator, read left to right: a separator
/// where the text starts ends the current piece.
pub open spec fn split(s: Seq<char>, sep: Seq<char>) -> Seq<Seq<char>>
    decreases s.len(),
{
    if s.len() == 0 {
        seq![Seq::empty()]
    } else if sep.len() > 0 && starts_with(s, sep) {
        seq![Seq::empty()] + split(s.skip(sep.len() as int), sep)
    } else {
        let rest = split(s.drop_first(), sep);
        rest.update(0, seq![s[0]] + rest[0])
    }
}

/// `str::split` with a character-class separator.
pub open spec fn split_by(s: Seq<char>, class: Class) -> Seq<Seq<char>>
    decreases s.len(),
{
    if s.len() == 0 {
        seq![Seq::empty()]
    } else if in_class(s[0], class) {
        seq![Seq::empty()] + split_by(s.drop_first(), class)
    } else {
        let rest = split_by(s.drop_first(), class);
        rest.update(0, seq![s[0]] + rest[0])
    }
}

pub proof fn lemma_split_nonempty(s: Seq<char>, sep: Seq<char>)
    ensures
        split(s, sep).len() >= 1,
    decreases s.len(),
{
    if s.len() > 0 {
        if sep.len() > 0 && starts_with(s, sep) {
            lemma_split_nonempty(s.skip(sep.len() as int), sep);
        } else {
            lemma_split_nonempty(s.drop_first(), sep);
        }
    }
}

pub proof fn lemma_split_by_nonempty(s: Seq<char>, class: Class)
    ensures
        split_by(s, class).len() >= 1,
    decreases s.len(),
{
    if s.len() > 0 {
        lemma_split_by_nonempty(s.drop_first(), class);
    }
}

pub open spec fn prepend_first(c: Seq<char>, r: Seq<Seq<char>>) -> Seq<Seq<char>> {
    r.update(0, c + r[0])
}

pub open spec fn opt_view(r: Option<Vec<char>>) -> Option<Seq<char>> {
    match r {
        Some(v) => Some(v@),
        None => None,
    }
}

pub open spec fn pair_view(r: Option<(Vec<char>, Vec<char>)>) -> Option<(Seq<char>, Seq<char>)> {
    match r {
        Some(p) => Some((p.0@, p.1@)),
        None => None,
    }
}

pub open spec fn views(v: Seq<Vec<char>>) -> Seq<Seq<char>> {
    v.map_values(|x: Vec<char>| x@)
}

pub open spec fn string_opt(r: Option<String>) -> Option<Seq<char>> {
    match r {
        Some(s) => Some(s@),
        None => None,
    }
}

/// The texts of a list of strings.
pub open spec fn string_views(v: Seq<String>) -> Seq<Seq<char>> {
    v.map_values(|x: String| x@)
}

/// `str::split` with a string separator.
pub fn split_on(s: &Vec<char>, sep: &str) -> (out: Vec<Vec<char>>)
    ensures
        views(out@) == split(s@, sep@),
        out@.len() >= 1,
{
    let p = chars_of(sep);
    let mut done: Vec<Vec<char>> = Vec::new();
    let mut cur: Vec<char> = Vec::new();
    let mut i: usize = 0;
    assert(s@.skip(0) == s@);
    proof {
        lemma_split_nonempty(s@, p@);
        assert(prepend_first(cur@, split(s@.skip(0), p@)) =~= split(s@, p@)) by {
            assert(s@.skip(0) == s@);
        }
    }
    while i < s.len()
        invariant
            0 <= i <= s.len(),
            p@ == sep@,
            split(s@.skip(i as int), p@).len() >= 1,
            views(done@) + prepend_first(cur@, split(s@.skip(i as int), p@)) == split(s@, p@),
        decreases s.len() - i,
    {
        let ghost rest = s@.skip(i as int);
        if p.len() > 0 && occurs(s, &p, i) {
            proof {
                assert(rest.take(p.len() as int) =~= s@.subrange(i as int, i + p.len()));
                assert(rest.skip(p.len() as int) =~= s@.skip(i + p.len()));
                lemma_split_nonempty(s@.skip(i + p.len()), p@);
                let tail = split(s@.skip(i + p.len()), p@);
                assert(split(rest, p@) == seq![Seq::<char>::empty()] + tail);
                assert(prepend_first(cur@, seq![Seq::<char>::empty()] + tail) =~= seq![cur@] + tail);
                assert(views(done@.push(cur)) =~= views(done@).push(cur@));
                assert(views(done@).push(cur@) + tail =~= views(done@) + (seq![cur@] + tail));
            }
            done.push(cur);
            cur = Vec::new();
            i = i + p.len();
            proof {
                let tail = split(s@.skip(i as int), p@);
                assert(prepend_first(cur@, tail) =~= tail);
            }
        } else {
            proof {
                if p.len() > 0 {
                    assert(!starts_with(rest, p@)) by {
                        if starts_with(rest, p@) {
                            assert(rest.take(p.len() as int) =~= s@.subrange(i as int, i + p.len()));
                        }
                    }
                }
                assert(rest.drop_first() =~= s@.skip(i + 1));
                lemma_split_nonempty(s@.skip(i + 1), p@);
                let r = split(s@.skip(i + 1), p@);
                assert(split(rest, p@) == r.update(0, seq![rest[0]] + r[0]));
                assert(rest[0] == s@[i as int]);
                assert(cur@ + (seq![rest[0]] + r[0]) =~= cur@.push(s@[i as int]) + r[0]);
                assert(prepend_first(cur@, r.update(0, seq![rest[0]] + r[0])) =~= prepend_first(
                    cur@.push(s@[i as int]),
                    r,
                ));
            }
            cur.push(s[i]);
            i = i + 1;
        }
    }
    proof {
        assert(s@.skip(i as int) =~= Seq::<char>::empty());
        assert(prepend_first(cur@, seq![Seq::<char>::empty()]) =~= seq![cur@]);
        assert(views(done@.push(cur)) =~= views(done@).push(cur@));
        assert(views(done@) + seq![cur@] =~= views(done@).push(cur@));
    }
    done.push(cur);
    done
}

/// `str::split` with a character-class separator.
pub fn split_class(s: &Vec<char>, class: Class) -> (out: Vec<Vec<char>>)
    ensures
        views(out@) == split_by(s@, class),
        out@.len() >= 1,
{
    let mut done: Vec<Vec<char>> = Vec::new();
    let mut cur: Vec<char> = Vec::new();
    let mut i: usize = 0;
    assert(s@.skip(0) == s@);
    proof {
        lemma_split_by_nonempty(s@, class);
        assert(prepend_first(cur@, split_by(s@.skip(0), class)) =~= split_by(s@, class)) by {
            assert(s@.skip(0) == s@);
        }
    }
    while i < s.len()
        invariant
            0 <= i <= s.len(),
            split_by(s@.skip(i as int), class).len() >= 1,
            views(done@) + prepend_first(cur@, split_by(s@.skip(i as int), class)) == split_by(
                s@,
                class,
            ),
        decreases s.len() - i,
    {
        let ghost rest = s@.skip(i as int);
        proof {
            assert(rest.drop_first() =~= s@.skip(i + 1));
            lemma_split_by_nonempty(s@.skip(i + 1), class);
        }
        if class_has(s[i], class) {
            proof {
                let tail = split_by(s@.skip(i + 1), class);
                assert(prepend_first(cur@, seq![Seq::<char>::empty()] + tail) =~= seq![cur@] + tail);
                assert(views(done@.push(cur)) =~= views(done@).push(cur@));
                assert(views(done@).push(cur@) + tail =~= views(done@) + (seq![cur@] + tail));
            }
            done.push(cur);
            cur = Vec::new();
            i = i + 1;
            proof {
                let tail = split_by(s@.skip(i as int), class);
                assert(prepend_first(cur@, tail) =~= tail);
            }
        } else {
            proof {
                let r = split_by(s@.skip(i + 1), class);
                assert(rest[0] == s@[i as int]);
                assert(cur@ + (seq![rest[0]] + r[0]) =~= cur@.push(s@[i as int]) + r[0]);
                assert(prepend_first(cur@, r.update(0, seq![rest[0]] + r[0])) =~= prepend_first(
                    cur@.push(s@[i as int]),
                    r,
                ));
            }
            cur.push(s[i]);
            i = i + 1;
        }
    }
    proof {
        assert(s@.skip(i as int) =~= Seq::<char>::empty());
        assert(prepend_first(cur@, seq![Seq::<char>::empty()]) =~= seq![cur@]);
        assert(views(done@.push(cur)) =~= views(done@).push(cur@));
        assert(views(done@) + seq![cur@] =~= views(done@).push(cur@));
    }
    done.push(cur);
    done
}

/// `str::split_whitespace`: the non-empty pieces between white space.
pub open spec fn words(s: Seq<char>) -> Seq<Seq<char>> {
    split_by(s, Class::Space).filter(|w: Seq<char>| w.len() > 0)
}

pub fn split_words(s: &Vec<char>) -> (out: Vec<Vec<char>>)
    ensures
        views(out@) == words(s@),
{
    let pieces = split_class(s, Class::Space);
    let ghost all = views(pieces@);
    let mut out: Vec<Vec<char>> = Vec::new();
    let mut i: usize = 0;
    while i < pieces.len()
        invariant
            0 <= i <= pieces.len(),
            all == views(pieces@),
            all == split_by(s@, Class::Space),
            views(out@) == all.take(i as int).filter(|w: Seq<char>| w.len() > 0),
        decreases pieces.len() - i,
    {
        proof {
            assert(all.take(i + 1).drop_last() =~= all.take(i as int));
            reveal_with_fuel(Seq::filter, 1);
        }
        if pieces[i].len() > 0 {
            out.push(pieces[i].clone());
            proof {
                assert(views(out@) =~= all.take(i as int).filter(|w: Seq<char>| w.len() > 0).push(
                    all[i as int],
                ));
            }
        }
        i = i + 1;
    }
    assert(all.take(pieces.len() as int) =~= all);
    out
}

/// The piece before the first `sep` and the piece after it.
pub open spec fn split_once(s: Seq<char>, sep: Seq<char>) -> Option<(Seq<char>, Seq<char>)> {
    let parts = split(s, sep);
    if parts.len() < 2 {
        None
    } else {
        Some((parts[0], s.skip(parts[0].len() + sep.len() as int)))
    }
}

/// `str::split_once` with a string separator.
pub fn split_once_on(s: &Vec<char>, sep: &str) -> (r: Option<(Vec<char>, Vec<char>)>)
    requires
        sep@.len() > 0,
    ensures
        pair_view(r) == split_once(s@, sep@),
{
    let p = chars_of(sep);
    let parts = split_on(s, sep);
    if parts.len() < 2 {
        return None;
    }
    let head = parts[0].clone();
    proof {
        lemma_split_first_piece(s@, p@);
        assert(views(parts@)[0] == parts@[0]@);
        assert(head@ == split(s@, p@)[0]);
        assert(views(parts@).len() == parts@.len());
        assert(split(s@, p@).len() >= 2);
        assert(p@ == sep@);
        assert(split(s@, sep@)[0].len() + sep@.len() <= s@.len());
        assert(head@.len() + p@.len() <= s@.len());
    }
    let hl = head.len();
    let pl = p.len();
    assert(hl + pl <= s.len());
    let cut = hl + pl;
    Some((head, slice(s, cut, s.len())))
}

/// The first piece of a split is followed by the separator when there is
/// a second piece.
pub proof fn lemma_split_first_piece(s: Seq<char>, sep: Seq<char>)
    requires
        sep.len() > 0,
    ensures
        split(s, sep).len() >= 1,
        split(s, sep)[0].len() <= s.len(),
        s.take(split(s, sep)[0].len() as int) == split(s, sep)[0],
        split(s, sep).len() >= 2 ==> split(s, sep)[0].len() + sep.len() <= s.len()
            && occurs_at(s, sep, split(s, sep)[0].len() as int)
            && split(s, sep).drop_first() == split(s.skip(split(s, sep)[0].len() + sep.len() as int), sep),
        split(s, sep).len() == 1 ==> split(s, sep)[0] == s,
    decreases s.len(),
{
    lemma_split_nonempty(s, sep);
    if s.len() == 0 {
    } else if starts_with(s, sep) {
        lemma_split_nonempty(s.skip(sep.len() as int), sep);
        assert(s.subrange(0, sep.len() as int) == s.take(sep.len() as int));
        assert(split(s, sep).drop_first() =~= split(s.skip(sep.len() as int), sep));
        assert(s.skip(0 + sep.len() as int) == s.skip(sep.len() as int));
    } else {
        let t = s.drop_first();
        lemma_split_first_piece(t, sep);
        let r = split(t, sep);
        assert(split(s, sep)[0] == seq![s[0]] + r[0]);
        assert(s.take(1 + r[0].len() as int) =~= seq![s[0]] + t.take(r[0].len() as int));
        if r.len() >= 2 {
            assert(s.subrange(1 + r[0].len() as int, 1 + r[0].len() + sep.len() as int) =~= t.subrange(
                r[0].len() as int,
                r[0].len() + sep.len() as int,
            ));
            assert(split(s, sep).drop_first() =~= r.drop_first());
            assert(s.skip(1 + r[0].len() + sep.len() as int) =~= t.skip(r[0].len() + sep.len() as int));
        } else {
            assert(seq![s[0]] + t =~= s);
        }
    }
}

/// `str::lines`: pieces between `\n`, each without the `\r` of a `\r\n`,
/// and no empty piece after a final newline.
pub open spec fn lines(s: Seq<char>) -> Seq<Seq<char>> {
    let parts = split_by(s, Class::Is('\n'));
    let k = parts.len() - 1;
    let ended = parts.take(k).map_values(|p: Seq<char>| strip_cr(p));
    if parts[k].len() == 0 {
        ended
    } else {
        ended.push(parts[k])
    }
}

pub open spec fn strip_cr(p: Seq<char>) -> Seq<char> {
    if p.len() > 0 && p.last() == '\r' {
        p.drop_last()
    } else {
        p
    }
}

pub fn split_lines(s: &Vec<char>) -> (out: Vec<Vec<char>>)
    ensures
        views(out@) == lines(s@),
{
    let parts = split_class(s, Class::Is('\n'));
    let ghost all = views(parts@);
    let k = parts.len() - 1;
    let mut out: Vec<Vec<char>> = Vec::new();
    let mut i: usize = 0;
    while i < k
        invariant
            0 <= i <= k,
            k == parts.len() - 1,
            all == views(parts@),
            views(out@) == all.take(i as int).map_values(|p: Seq<char>| strip_cr(p)),
        decreases k - i,
    {
        let p = &parts[i];
        let line = if p.len() > 0 && p[p.len() - 1] == '\r' {
            slice(p, 0, p.len() - 1)
        } else {
            p.clone()
        };
        let ghost before = views(out@);
        out.push(line);
        proof {
            assert(views(out@) =~= before.push(line@));
            assert(line@ == strip_cr(all[i as int]));
            assert(all.take(i + 1).map_values(|p: Seq<char>| strip_cr(p)) =~= all.take(
                i as int,
            ).map_values(|p: Seq<char>| strip_cr(p)).push(strip_cr(all[i as int])));
        }
        i = i + 1;
    }
    if parts[k].len() > 0 {
        out.push(parts[k].clone());
        proof {
            assert(views(out@) =~= all.take(k as int).map_values(|p: Seq<char>| strip_cr(p)).push(
                all[k as int],
            ));
        }
    }
    out
}

// ---------------------------------------------------------------------
// Numbers
// ---------------------------------------------------------------------

/// The value of a run of decimal digits.
pub open spec fn digits_value(s: Seq<char>) -> nat
    decreases s.len(),
{
    if s.len() == 0 {
        0
    } else {
        digits_value(s.drop_last()) * 10 + ((s.last() as u32) - ('0' as u32)) as nat
    }
}

/// What `u64::from_str` accepts: an optional `+`, then one or more
/// decimal digits whose value fits.
pub open spec fn parse_u64(s: Seq<char>) -> Option<u64> {
    let d = if s.len() > 0 && s[0] == '+' {
        s.drop_first()
    } else {
        s
    };
    if d.len() > 0 && all_in(d, Class::Digit) && digits_value(d) <= u64::MAX {
        Some(digits_value(d) as u64)
    } else {
        None
    }
}

proof fn lemma_digits_value_step(s: Seq<char>, i: int)
    requires
        0 <= i < s.len(),
    ensures
        digits_value(s.take(i + 1)) == digits_value(s.take(i)) * 10 + ((s[i] as u32) - (
        '0' as u32)) as nat,
{
    assert(s.take(i + 1).drop_last() =~= s.take(i));
}

/// `u64::from_str`.
pub fn parsed_u64(s: &Vec<char>) -> (r: Option<u64>)
    ensures
        r == parse_u64(s@),
{
    let start: usize = if s.len() > 0 && s[0] == '+' {
        1
    } else {
        0
    };
    let ghost d = s@.skip(start as int);
    assert(d == (if s@.len() > 0 && s@[0] == '+' {
        s@.drop_first()
    } else {
        s@
    })) by {
        assert(s@.skip(0) == s@);
    }
    if start >= s.len() {
        return None;
    }
    let mut value: u64 = 0;
    let mut i: usize = start;
    while i < s.len()
        invariant
            start <= i <= s.len(),
            d == s@.skip(start as int),
            d == (if s@.len() > 0 && s@[0] == '+' {
                s@.drop_first()
            } else {
                s@
            }),
            forall|j: int| start <= j < i ==> is_digit(#[trigger] s@[j]),
            value as nat == digits_value(d.take(i - start)),
        decreases s.len() - i,
    {
        let c = s[i];
        if !('0' <= c && c <= '9') {
            assert(d[i - start] == s@[i as int]);
            assert(!in_class(d[i - start], Class::Digit));
            assert(!all_in(d, Class::Digit));
            return None;
        }
        proof {
            lemma_digits_value_step(d, i - start);
        }
        let digit = ((c as u32) - ('0' as u32)) as u64;
        if value > (u64::MAX - digit) / 10 {
            proof {
                assert(digits_value(d.take(i - start + 1)) > u64::MAX) by (nonlinear_arith)
                    requires
                        value > (u64::MAX - digit) / 10,
                        digits_value(d.take(i - start + 1)) == value * 10 + digit,
                        digit <= 9,
                ;
                lemma_digits_value_prefix_monotone(d, i - start + 1);
                assert(digits_value(d) > u64::MAX);
            }
            return None;
        }
        value = value * 10 + digit;
        i = i + 1;
    }
    assert(d.take(s.len() - start) =~= d);
    Some(value)
}

/// A longer run of digits is worth at least as much as its prefix.
pub proof fn lemma_digits_value_prefix_monotone(s: Seq<char>, k: int)
    requires
        0 <= k <= s.len(),
    ensures
        digits_value(s.take(k)) <= digits_value(s),
    decreases s.len() - k,
{
    if k < s.len() {
        lemma_digits_value_prefix_monotone(s.drop_last(), k);
        assert(s.drop_last().take(k) =~= s.take(k));
        assert(digits_value(s) >= digits_value(s.drop_last()));
    } else {
        assert(s.take(k) =~= s);
    }
}

/// The decimal spelling of `n`, as `Display` writes an integer.
pub open spec fn decimal(n: nat) -> Seq<char>
    decreases n,
{
    if n < 10 {
        seq![digit_char(n)]
    } else {
        decimal(n / 10).push(digit_char(n % 10))
    }
}

pub open spec fn digit_char(d: nat) -> char {
    if d == 0 {
        '0'
    } else if d == 1 {
        '1'
    } else if d == 2 {
        '2'
    } else if d == 3 {
        '3'
    } else if d == 4 {
        '4'
    } else if d == 5 {
        '5'
    } else if d == 6 {
        '6'
    } else if d == 7 {
        '7'
    } else if d == 8 {
        '8'
    } else {
        '9'
    }
}

fn digit_of(d: u64) -> (c: char)
    requires
        d < 10,
    ensures
        c == digit_char(d as nat),
{
    if d == 0 {
        '0'
    } else if d == 1 {
        '1'
    } else if d == 2 {
        '2'
    } else if d == 3 {
        '3'
    } else if d == 4 {
        '4'
    } else if d == 5 {
        '5'
    } else if d == 6 {
        '6'
    } else if d == 7 {
        '7'
    } else if d == 8 {
        '8'
    } else {
        '9'
    }
}

/// The decimal spelling of `n`.
pub fn decimal_of(n: u64) -> (out: Vec<char>)
    ensures
        out@ == decimal(n as nat),
    decreases n,
{
    if n < 10 {
        let mut out = Vec::new();
        out.push(digit_of(n));
        out
    } else {
        let mut out = decimal_of(n / 10);
        out.push(digit_of(n % 10));
        out
    }
}

} // verus!

verus! {

/// A copy of a list of texts.
pub fn copy_texts(v: &Vec<Vec<char>>) -> (out: Vec<Vec<char>>)
    ensures
        views(out@) == views(v@),
{
    let mut out: Vec<Vec<char>> = Vec::new();
    let mut i: usize = 0;
    while i < v.len()
        invariant
            0 <= i <= v.len(),
            views(out@) == views(v@).take(i as int),
        decreases v.len() - i,
    {
        let c = v[i].clone();
        assert(c@ =~= v@[i as int]@);
        let ghost before = out@;
        out.push(c);
        assert(out@ == before.push(c));
        assert(views(out@) =~= views(before).push(c@));
        assert(views(v@).take(i + 1) =~= views(v@).take(i as int).push(v@[i as int]@));
        i = i + 1;
    }
    assert(views(v@).take(v.len() as int) =~= views(v@));
    out
}

} // verus!

verus! {

/// The piece before the first character in `class`, and the text after
/// that character.
pub open spec fn split_once_by(s: Seq<char>, class: Class) -> Option<(Seq<char>, Seq<char>)> {
    let parts = split_by(s, class);
    if parts.len() < 2 {
        None
    } else {
        Some((parts[0], s.skip(parts[0].len() + 1int)))
    }
}

/// The text before the last character in `class`, and the piece after it.
pub open spec fn rsplit_once_by(s: Seq<char>, class: Class) -> Option<(Seq<char>, Seq<char>)> {
    let parts = split_by(s, class);
    if parts.len() < 2 {
        None
    } else {
        Some((s.take(s.len() - parts.last().len() - 1), parts.last()))
    }
}

/// What the first piece of a split by class is.
pub proof fn lemma_split_by_first_piece(s: Seq<char>, class: Class)
    ensures
        split_by(s, class).len() >= 1,
        split_by(s, class)[0].len() <= s.len(),
        s.take(split_by(s, class)[0].len() as int) == split_by(s, class)[0],
        !any_in(split_by(s, class)[0], class),
        split_by(s, class).len() >= 2 ==> split_by(s, class)[0].len() < s.len() && in_class(
            s[split_by(s, class)[0].len() as int],
            class,
        ) && split_by(s, class).drop_first() == split_by(
            s.skip(split_by(s, class)[0].len() + 1int),
            class,
        ),
        split_by(s, class).len() == 1 ==> split_by(s, class)[0] == s,
    decreases s.len(),
{
    lemma_split_by_nonempty(s, class);
    if s.len() == 0 {
    } else if in_class(s[0], class) {
        lemma_split_by_nonempty(s.drop_first(), class);
        assert(split_by(s, class).drop_first() =~= split_by(s.drop_first(), class));
        assert(s.skip(1) == s.drop_first());
    } else {
        let t = s.drop_first();
        lemma_split_by_first_piece(t, class);
        let r = split_by(t, class);
        assert(split_by(s, class)[0] == seq![s[0]] + r[0]);
        assert(s.take(1 + r[0].len() as int) =~= seq![s[0]] + t.take(r[0].len() as int));
        if r.len() >= 2 {
            assert(split_by(s, class).drop_first() =~= r.drop_first());
            assert(s.skip(1 + r[0].len() as int + 1) =~= t.skip(r[0].len() as int + 1));
        } else {
            assert(seq![s[0]] + t =~= s);
        }
        assert forall|i: int| 0 <= i < split_by(s, class)[0].len() implies !in_class(
            #[trigger] split_by(s, class)[0][i],
            class,
        ) by {
            if i > 0 {
                assert(split_by(s, class)[0][i] == r[0][i - 1]);
            }
        }
    }
}

/// `str::split_once` with a character-class separator.
pub fn split_once_class(s: &Vec<char>, class: Class) -> (r: Option<(Vec<char>, Vec<char>)>)
    ensures
        pair_view(r) == split_once_by(s@, class),
{
    match position(s, class) {
        None => {
            proof {
                lemma_split_by_first_piece(s@, class);
                if split_by(s@, class).len() >= 2 {
                    assert(in_class(s@[split_by(s@, class)[0].len() as int], class));
                }
            }
            None
        },
        Some(k) => {
            proof {
                lemma_split_by_first_piece(s@, class);
                let p0 = split_by(s@, class)[0];
                if split_by(s@, class).len() < 2 {
                    assert(p0 == s@);
                    assert(!in_class(p0[k as int], class));
                }
                if p0.len() < k {
                    assert(in_class(s@[p0.len() as int], class));
                }
                if p0.len() > k {
                    assert(s@.take(p0.len() as int)[k as int] == s@[k as int]);
                    assert(!in_class(p0[k as int], class));
                }
                assert(p0.len() == k);
                assert(p0 =~= s@.subrange(0, k as int));
            }
            assert(k < s.len());
            Some((slice(s, 0, k), slice(s, k + 1, s.len())))
        },
    }
}

/// `str::rsplit_once` with a character-class separator.
pub fn rsplit_once_class(s: &Vec<char>, class: Class) -> (r: Option<(Vec<char>, Vec<char>)>)
    ensures
        pair_view(r) == rsplit_once_by(s@, class),
{
    let parts = split_class(s, class);
    if parts.len() < 2 {
        return None;
    }
    let last = parts[parts.len() - 1].clone();
    proof {
        lemma_split_by_last_piece(s@, class);
        assert(views(parts@).last() == parts@[parts.len() - 1]@);
    }
    let cut = s.len() - last.len() - 1;
    Some((slice(s, 0, cut), last))
}

/// What the last piece of a split by class is.
pub proof fn lemma_split_by_last_piece(s: Seq<char>, class: Class)
    ensures
        split_by(s, class).len() >= 1,
        split_by(s, class).last().len() <= s.len(),
        s.skip(s.len() - split_by(s, class).last().len()) == split_by(s, class).last(),
        split_by(s, class).len() >= 2 ==> split_by(s, class).last().len() < s.len(),
    decreases s.len(),
{
    lemma_split_by_nonempty(s, class);
    if s.len() > 0 {
        let t = s.drop_first();
        lemma_split_by_last_piece(t, class);
        lemma_split_by_nonempty(t, class);
        let r = split_by(t, class);
        if in_class(s[0], class) {
            assert(split_by(s, class).last() == r.last());
            assert(s.skip(s.len() - r.last().len()) =~= t.skip(t.len() - r.last().len()));
        } else {
            if r.len() == 1 {
                lemma_split_by_first_piece(t, class);
                assert(split_by(s, class).last() == seq![s[0]] + r[0]);
                assert(t.skip(0) == t);
                assert(s.skip(0) =~= seq![s[0]] + t);
            } else {
                assert(split_by(s, class).last() == r.last());
                assert(s.skip(s.len() - r.last().len()) =~= t.skip(t.len() - r.last().len()));
            }
        }
    } else {
        assert(s.skip(0) =~= s);
    }
}

} // verus!

verus! {

/// Where the first character in `class` is, if anywhere.
pub open spec fn first_in(s: Seq<char>, class: Class) -> Option<int> {
    if split_by(s, class).len() >= 2 {
        Some(split_by(s, class)[0].len() as int)
    } else {
        None
    }
}

/// `str::find` with a character-class pattern.
pub fn find_class(s: &Vec<char>, class: Class) -> (r: Option<usize>)
    ensures
        match r {
            Some(i) => first_in(s@, class) == Some(i as int) && i < s.len(),
            None => first_in(s@, class) is None,
        },
{
    let r = position(s, class);
    proof {
        lemma_split_by_first_piece(s@, class);
        let parts = split_by(s@, class);
        match r {
            Some(k) => {
                if parts.len() < 2 {
                    assert(parts[0] == s@);
                    assert(!in_class(parts[0][k as int], class));
                }
                let p0 = parts[0];
                if p0.len() < k {
                    assert(in_class(s@[p0.len() as int], class));
                }
                if p0.len() > k {
                    assert(s@.take(p0.len() as int)[k as int] == s@[k as int]);
                    assert(!in_class(p0[k as int], class));
                }
            },
            None => {
                if parts.len() >= 2 {
                    assert(in_class(s@[parts[0].len() as int], class));
                }
            },
        }
    }
    r
}

} // verus!

verus! {

proof fn lemma_trim_start_fixed(s: Seq<char>, class: Class)
    ensures
        trim_start(trim_start(s, class), class) == trim_start(s, class),
        trim_start(s, class).len() > 0 ==> !in_class(trim_start(s, class)[0], class),
    decreases s.len(),
{
    if s.len() > 0 && in_class(s[0], class) {
        lemma_trim_start_fixed(s.drop_first(), class);
    }
}

proof fn lemma_trim_end_fixed(s: Seq<char>, class: Class)
    ensures
        trim_end(trim_end(s, class), class) == trim_end(s, class),
        trim_end(s, class).len() > 0 ==> !in_class(trim_end(s, class).last(), class),
    decreases s.len(),
{
    if s.len() > 0 && in_class(s.last(), class) {
        lemma_trim_end_fixed(s.drop_last(), class);
    }
}

proof fn lemma_trim_end_keeps_start(s: Seq<char>, class: Class)
    requires
        s.len() > 0 ==> !in_class(s[0], class),
    ensures
        trim_end(s, class).len() > 0 ==> !in_class(trim_end(s, class)[0], class),
        trim_end(s, class).len() > 0 ==> trim_end(s, class)[0] == s[0],
    decreases s.len(),
{
    if s.len() > 0 && in_class(s.last(), class) {
        lemma_trim_end_keeps_start(s.drop_last(), class);
    }
}

/// Trimming twice is trimming once.
pub proof fn lemma_trim_idempotent(s: Seq<char>)
    ensures
        trim(trim(s)) == trim(s),
{
    let a = trim_start(s, Class::Space);
    let b = trim_end(a, Class::Space);
    lemma_trim_start_fixed(s, Class::Space);
    lemma_trim_end_keeps_start(a, Class::Space);
    lemma_trim_end_fixed(a, Class::Space);
    if b.len() > 0 {
        assert(trim_start(b, Class::Space) == b);
    } else {
        assert(trim_start(b, Class::Space) == b);
    }
}

} // verus!

verus! {

/// Texts joined with a separator between each two: `[T]::join`.
pub open spec fn join_with(parts: Seq<Seq<char>>, sep: Seq<char>) -> Seq<char>
    decreases parts.len(),
{
    if parts.len() == 0 {
        Seq::empty()
    } else if parts.len() == 1 {
        parts[0]
    } else {
        join_with(parts.drop_last(), sep) + sep + parts.last()
    }
}

pub fn joined_with(parts: &Vec<Vec<char>>, sep: &str) -> (out: Vec<char>)
    ensures
        out@ == join_with(views(parts@), sep@),
{
    let s = chars_of(sep);
    let mut out: Vec<char> = Vec::new();
    let mut i: usize = 0;
    while i < parts.len()
        invariant
            0 <= i <= parts.len(),
            s@ == sep@,
            out@ == join_with(views(parts@).take(i as int), sep@),
        decreases parts.len() - i,
    {
        if i > 0 {
            out = concat(&out, &s);
        }
        out = concat(&out, &parts[i]);
        proof {
            let t = views(parts@).take(i + 1);
            assert(t.drop_last() =~= views(parts@).take(i as int));
            if i == 0 {
                assert(t.len() == 1);
            }
        }
        i = i + 1;
    }
    assert(views(parts@).take(parts.len() as int) =~= views(parts@));
    out
}

} // verus!
