//! Sequences put in order, and their repeats removed.
//!
//! The sort is insertion by a strict "goes before" relation: a new
//! element lands after every element it does not go before, so elements
//! that tie keep the order they came in. That is the stable sort the
//! report's order rests on.

use vstd::prelude::*;

verus! {

/// `x` placed before the first element it goes before.
pub open spec fn insert_by<T>(s: Seq<T>, x: T, before: spec_fn(T, T) -> bool) -> Seq<T>
    decreases s.len(),
{
    if s.len() == 0 {
        seq![x]
    } else if before(x, s[0]) {
        seq![x] + s
    } else {
        seq![s[0]] + insert_by(s.drop_first(), x, before)
    }
}

/// Stable insertion sort.
pub open spec fn sort_by<T>(s: Seq<T>, before: spec_fn(T, T) -> bool) -> Seq<T>
    decreases s.len(),
{
    if s.len() == 0 {
        Seq::empty()
    } else {
        insert_by(sort_by(s.drop_last(), before), s.last(), before)
    }
}

/// Where `insert_by` puts `x`: at the first element it goes before.
pub open spec fn insertion_point<T>(s: Seq<T>, x: T, before: spec_fn(T, T) -> bool) -> int
    decreases s.len(),
{
    if s.len() == 0 {
        0
    } else if before(x, s[0]) {
        0
    } else {
        1 + insertion_point(s.drop_first(), x, before)
    }
}

pub proof fn lemma_insert_by<T>(s: Seq<T>, x: T, before: spec_fn(T, T) -> bool)
    ensures
        0 <= insertion_point(s, x, before) <= s.len(),
        insert_by(s, x, before) == s.insert(insertion_point(s, x, before), x),
        forall|k: int| 0 <= k < insertion_point(s, x, before) ==> !before(x, #[trigger] s[k]),
        insertion_point(s, x, before) < s.len() ==> before(x, s[insertion_point(s, x, before)]),
    decreases s.len(),
{
    if s.len() > 0 && !before(x, s[0]) {
        lemma_insert_by(s.drop_first(), x, before);
        let p = insertion_point(s.drop_first(), x, before);
        assert(seq![s[0]] + s.drop_first().insert(p, x) =~= s.insert(p + 1, x));
        assert forall|k: int| 0 <= k < p + 1 implies !before(x, #[trigger] s[k]) by {
            if k > 0 {
                assert(s[k] == s.drop_first()[k - 1]);
            }
        }
        if p + 1 < s.len() {
            assert(s[p + 1] == s.drop_first()[p]);
        }
    } else if s.len() > 0 {
        assert(seq![x] + s =~= s.insert(0, x));
    } else {
        assert(seq![x] =~= s.insert(0, x));
    }
}

/// The first element `x` goes before is where it is inserted.
pub proof fn lemma_insertion_point_is_first<T>(
    s: Seq<T>,
    x: T,
    before: spec_fn(T, T) -> bool,
    j: int,
)
    requires
        0 <= j <= s.len(),
        forall|k: int| 0 <= k < j ==> !before(x, #[trigger] s[k]),
        j < s.len() ==> before(x, s[j]),
    ensures
        j == insertion_point(s, x, before),
{
    lemma_insert_by(s, x, before);
    let p = insertion_point(s, x, before);
    if p < j {
        assert(!before(x, s[p]));
    } else if j < p {
        assert(!before(x, s[j]));
    }
}

/// `x` added unless an equal element is already there.
pub open spec fn insert_unique<T>(s: Seq<T>, x: T, before: spec_fn(T, T) -> bool) -> Seq<T> {
    if s.contains(x) {
        s
    } else {
        insert_by(s, x, before)
    }
}

/// Sorted, each element once.
pub open spec fn sorted_unique<T>(s: Seq<T>, before: spec_fn(T, T) -> bool) -> Seq<T>
    decreases s.len(),
{
    if s.len() == 0 {
        Seq::empty()
    } else {
        insert_unique(sorted_unique(s.drop_last(), before), s.last(), before)
    }
}

/// Nothing occurs twice in a sorted-unique sequence.
pub proof fn lemma_sorted_unique_unique<T>(s: Seq<T>, before: spec_fn(T, T) -> bool)
    ensures
        forall|i: int, j: int|
            0 <= i < j < sorted_unique(s, before).len() ==> #[trigger] sorted_unique(s, before)[i]
                != #[trigger] sorted_unique(s, before)[j],
    decreases s.len(),
{
    if s.len() > 0 {
        lemma_sorted_unique_unique(s.drop_last(), before);
        let r = sorted_unique(s.drop_last(), before);
        let x = s.last();
        if !r.contains(x) {
            lemma_insert_by(r, x, before);
            let p = insertion_point(r, x, before);
            let t = r.insert(p, x);
            assert forall|i: int, j: int| 0 <= i < j < t.len() implies #[trigger] t[i] != #[trigger] t[j] by {
                if i == p {
                    let jj = j - 1;
                    assert(t[j] == r[jj]);
                    if t[i] == t[j] {
                        assert(r.contains(x));
                    }
                } else if j == p {
                    assert(t[i] == r[i]);
                    if t[i] == t[j] {
                        assert(r.contains(x));
                    }
                } else {
                    let ii = if i < p { i } else { i - 1 };
                    let jj = if j < p { j } else { j - 1 };
                    assert(t[i] == r[ii]);
                    assert(t[j] == r[jj]);
                    assert(ii < jj);
                }
            }
        }
    }
}

/// Runs of equal elements reduced to one: `Vec::dedup`.
pub open spec fn dedup<T>(s: Seq<T>) -> Seq<T>
    decreases s.len(),
{
    if s.len() == 0 {
        Seq::empty()
    } else {
        let r = dedup(s.drop_last());
        if r.len() > 0 && r.last() == s.last() {
            r
        } else {
            r.push(s.last())
        }
    }
}

/// Each element once, where it first appears.
pub open spec fn distinct<T>(s: Seq<T>) -> Seq<T>
    decreases s.len(),
{
    if s.len() == 0 {
        Seq::empty()
    } else {
        let r = distinct(s.drop_last());
        if r.contains(s.last()) {
            r
        } else {
            r.push(s.last())
        }
    }
}

/// The distinct elements are the elements.
pub proof fn lemma_distinct_contains<T>(s: Seq<T>, x: T)
    ensures
        distinct(s).contains(x) <==> s.contains(x),
    decreases s.len(),
{
    if s.len() > 0 {
        lemma_distinct_contains(s.drop_last(), x);
        let r = distinct(s.drop_last());
        if s.contains(x) && !s.drop_last().contains(x) {
            let k = choose|k: int| 0 <= k < s.len() && s[k] == x;
            if k < s.len() - 1 {
                assert(s.drop_last()[k] == x);
            }
            assert(x == s.last());
        }
        if s.drop_last().contains(x) {
            let k = choose|k: int| 0 <= k < s.drop_last().len() && s.drop_last()[k] == x;
            assert(s[k] == x);
        }
        if !r.contains(s.last()) {
            assert(r.push(s.last()).last() == s.last());
            if r.contains(x) {
                let k = choose|k: int| 0 <= k < r.len() && r[k] == x;
                assert(r.push(s.last())[k] == x);
            }
            if r.push(s.last()).contains(x) && !r.contains(x) {
                let k = choose|k: int| 0 <= k < r.len() + 1 && r.push(s.last())[k] == x;
                if k < r.len() {
                    assert(r[k] == x);
                }
            }
        }
    }
}


/// Nothing occurs twice among the distinct elements.
pub proof fn lemma_distinct_unique<T>(s: Seq<T>)
    ensures
        forall|i: int, j: int|
            0 <= i < j < distinct(s).len() ==> #[trigger] distinct(s)[i] != #[trigger] distinct(s)[j],
    decreases s.len(),
{
    if s.len() > 0 {
        lemma_distinct_unique(s.drop_last());
        let r = distinct(s.drop_last());
        if !r.contains(s.last()) {
            let d = r.push(s.last());
            assert forall|i: int, j: int| 0 <= i < j < d.len() implies #[trigger] d[i] != #[trigger] d[j] by {
                if j == d.len() - 1 {
                    if d[i] == d[j] {
                        assert(r[i] == s.last());
                        assert(r.contains(s.last()));
                    }
                } else {
                    assert(d[i] == r[i] && d[j] == r[j]);
                }
            }
        }
    }
}

/// Inserting adds exactly the inserted element.
pub proof fn lemma_insert_by_contains<T>(s: Seq<T>, x: T, before: spec_fn(T, T) -> bool, y: T)
    ensures
        insert_by(s, x, before).contains(y) <==> (y == x || s.contains(y)),
{
    lemma_insert_by(s, x, before);
    let p = insertion_point(s, x, before);
    let t = s.insert(p, x);
    assert(t[p] == x);
    if s.contains(y) {
        let k = choose|k: int| 0 <= k < s.len() && s[k] == y;
        if k < p {
            assert(t[k] == y);
        } else {
            assert(t[k + 1] == y);
        }
    }
    if t.contains(y) && y != x {
        let k = choose|k: int| 0 <= k < t.len() && t[k] == y;
        if k < p {
            assert(s[k] == y);
        } else if k > p {
            assert(s[k - 1] == y);
        }
    }
}

/// Sorting keeps exactly the elements.
pub proof fn lemma_sort_by_contains<T>(s: Seq<T>, before: spec_fn(T, T) -> bool, y: T)
    ensures
        sort_by(s, before).contains(y) <==> s.contains(y),
    decreases s.len(),
{
    if s.len() > 0 {
        lemma_sort_by_contains(s.drop_last(), before, y);
        lemma_insert_by_contains(sort_by(s.drop_last(), before), s.last(), before, y);
        if s.contains(y) && y != s.last() {
            let k = choose|k: int| 0 <= k < s.len() && s[k] == y;
            assert(s.drop_last()[k] == y);
        }
        if s.drop_last().contains(y) {
            let k = choose|k: int| 0 <= k < s.drop_last().len() && s.drop_last()[k] == y;
            assert(s[k] == y);
        }
    }
}

/// Removing repeats keeps exactly the elements.
pub proof fn lemma_dedup_contains<T>(s: Seq<T>, y: T)
    ensures
        dedup(s).contains(y) <==> s.contains(y),
    decreases s.len(),
{
    if s.len() > 0 {
        let d = s.drop_last();
        let x = s.last();
        lemma_dedup_contains(d, y);
        lemma_dedup_contains(d, x);
        let r = dedup(d);
        assert(s.contains(y) <==> (d.contains(y) || y == x)) by {
            if s.contains(y) {
                let k = choose|k: int| 0 <= k < s.len() && s[k] == y;
                if k < s.len() - 1 {
                    assert(d[k] == y);
                }
            }
            if d.contains(y) {
                let k = choose|k: int| 0 <= k < d.len() && d[k] == y;
                assert(s[k] == y);
            }
            if y == x {
                assert(s[s.len() - 1] == y);
            }
        }
        if r.len() > 0 && r.last() == x {
            assert(r[r.len() - 1] == x);
        } else {
            let t = r.push(x);
            assert(t[r.len() as int] == x);
            if t.contains(y) {
                let k = choose|k: int| 0 <= k < t.len() && t[k] == y;
                if k < r.len() {
                    assert(r[k] == y);
                }
            }
            if r.contains(y) {
                let k = choose|k: int| 0 <= k < r.len() && r[k] == y;
                assert(t[k] == y);
            }
        }
    }
}


/// No later element goes before an earlier one.
pub open spec fn sorted_by<T>(s: Seq<T>, before: spec_fn(T, T) -> bool) -> bool {
    forall|i: int, j: int| 0 <= i < j < s.len() ==> !before(#[trigger] s[j], #[trigger] s[i])
}

/// A strict order: nothing goes before itself, and going before chains.
pub open spec fn strict_order<T>(before: spec_fn(T, T) -> bool) -> bool {
    &&& forall|a: T| !#[trigger] before(a, a)
    &&& forall|a: T, b: T, c: T| #[trigger] before(a, b) && #[trigger] before(b, c) ==> before(a, c)
}

proof fn lemma_insert_by_sorted<T>(s: Seq<T>, x: T, before: spec_fn(T, T) -> bool)
    requires
        strict_order(before),
        sorted_by(s, before),
    ensures
        sorted_by(insert_by(s, x, before), before),
{
    lemma_insert_by(s, x, before);
    let p = insertion_point(s, x, before);
    let t = s.insert(p, x);
    assert forall|i: int, j: int| 0 <= i < j < t.len() implies !before(#[trigger] t[j], #[trigger] t[i]) by {
        if j < p {
            assert(t[i] == s[i] && t[j] == s[j]);
        } else if j == p {
            assert(t[i] == s[i]);
        } else if i < p {
            assert(t[i] == s[i] && t[j] == s[j - 1]);
        } else if i == p {
            assert(t[j] == s[j - 1]);
            assert(before(x, s[p]));
            if before(s[j - 1], x) {
                assert(before(s[j - 1], s[p]));
                if p < j - 1 {
                    assert(!before(s[j - 1], s[p]));
                }
            }
        } else {
            assert(t[i] == s[i - 1] && t[j] == s[j - 1]);
        }
    }
}

/// Insertion sort by a strict order sorts.
pub proof fn lemma_sort_by_sorted<T>(s: Seq<T>, before: spec_fn(T, T) -> bool)
    requires
        strict_order(before),
    ensures
        sorted_by(sort_by(s, before), before),
    decreases s.len(),
{
    if s.len() > 0 {
        lemma_sort_by_sorted(s.drop_last(), before);
        lemma_insert_by_sorted(sort_by(s.drop_last(), before), s.last(), before);
    }
}

/// Sorting keeps apart what was apart: if no two elements are related,
/// no two elements of the sorted sequence are.
pub proof fn lemma_sort_by_keeps_apart<T>(
    s: Seq<T>,
    before: spec_fn(T, T) -> bool,
    related: spec_fn(T, T) -> bool,
)
    requires
        forall|a: T, b: T| #[trigger] related(a, b) ==> related(b, a),
        forall|i: int, j: int| 0 <= i < j < s.len() ==> !related(#[trigger] s[i], #[trigger] s[j]),
    ensures
        forall|i: int, j: int|
            0 <= i < j < sort_by(s, before).len() ==> !related(
                #[trigger] sort_by(s, before)[i],
                #[trigger] sort_by(s, before)[j],
            ),
    decreases s.len(),
{
    if s.len() > 0 {
        let d = s.drop_last();
        let x = s.last();
        assert forall|i: int, j: int| 0 <= i < j < d.len() implies !related(#[trigger] d[i], #[trigger] d[j]) by {
            assert(d[i] == s[i] && d[j] == s[j]);
        }
        lemma_sort_by_keeps_apart(d, before, related);
        let r = sort_by(d, before);
        lemma_insert_by(r, x, before);
        let p = insertion_point(r, x, before);
        let t = r.insert(p, x);
        assert forall|k: int| 0 <= k < r.len() implies !related(#[trigger] r[k], x) by {
            assert(r.contains(r[k]));
            lemma_sort_by_contains(d, before, r[k]);
            let m = choose|m: int| 0 <= m < d.len() && d[m] == r[k];
            assert(s[m] == r[k]);
            assert(!related(s[m], s[s.len() - 1]));
        }
        assert forall|i: int, j: int| 0 <= i < j < t.len() implies !related(#[trigger] t[i], #[trigger] t[j]) by {
            if i == p {
                assert(t[j] == r[j - 1]);
                assert(!related(r[j - 1], x));
            } else if j == p {
                assert(t[i] == r[i]);
                assert(!related(r[i], x));
            } else {
                let ii = if i < p { i } else { i - 1 };
                let jj = if j < p { j } else { j - 1 };
                assert(t[i] == r[ii]);
                assert(t[j] == r[jj]);
            }
        }
    }
}

} // verus!
