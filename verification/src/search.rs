//! Lookups in slices: binary search in a sorted slice, and a linear
//! membership test.

use vstd::prelude::*;
use vstd::laws_cmp::obeys_cmp;
use vstd::laws_cmp::obeys_partial_cmp_spec_properties;
use vstd::laws_cmp::obeys_cmp_ord;
use vstd::laws_cmp::obeys_cmp_partial_ord;
use vstd::laws_eq::obeys_eq_spec_properties;
use core::cmp::Ordering;
use crate::text::text_lt;
use crate::text::str_lt;
use crate::text::str_eq;
use crate::text::lemma_text_lt_irreflexive;
use crate::text::lemma_text_lt_asymmetric;
use crate::text::lemma_text_lt_transitive;
use crate::text::lemma_text_lt_total;
use vstd::std_specs::cmp::OrdSpec;
use vstd::std_specs::cmp::PartialOrdSpec;
use vstd::std_specs::cmp::PartialEqSpec;

verus! {

/// The element of `s` at position `i`.
pub open spec fn item_at<T>(s: Seq<T>, i: usize) -> T {
    s[i as int]
}

/// `T`'s `Ord` implementation is a total order that agrees with its `==`
/// (which holds of integers, and of tuples and options of them).
pub open spec fn lawful_order<T: Ord>() -> bool {
    obeys_cmp::<T>()
}

/// Every element of `s` orders at or before each element that follows it.
pub open spec fn sorted<T: Ord>(s: Seq<T>) -> bool {
    forall|i: int, j: int| 0 <= i < j < s.len() ==> s[i].cmp_spec(&s[j]) != Ordering::Greater
}

/// Position `i` of `s` holds an element that compares equal to `q`.
pub open spec fn found_at<T: Ord>(s: Seq<T>, q: T, i: usize) -> bool {
    i < s.len() && item_at(s, i).cmp_spec(&q) == Ordering::Equal
}

/// Inserting `q` at position `i` keeps `s` sorted, and nothing in `s`
/// compares equal to `q`: everything before `i` orders before `q`, and
/// everything from `i` on orders after it.
pub open spec fn insertion_point<T: Ord>(s: Seq<T>, q: T, i: usize) -> bool {
    &&& i <= s.len()
    &&& forall|j: int| 0 <= j < i ==> s[j].cmp_spec(&q) == Ordering::Less
    &&& forall|j: int| i <= j < s.len() ==> s[j].cmp_spec(&q) == Ordering::Greater
}

/// What a binary search may answer: `Ok(i)` with a position that holds an
/// element equal to `q`; `Err(i)` with a position no further than the end,
/// which, in a sorted slice under a lawful order, is where `q` would be
/// inserted.
pub open spec fn search_result<T: Ord>(s: Seq<T>, q: T, r: Result<usize, usize>) -> bool {
    match r {
        Ok(i) => i < s.len() && (T::obeys_cmp_spec() ==> found_at(s, q, i)),
        Err(i) => i <= s.len() && (lawful_order::<T>() && sorted(s) ==> insertion_point(s, q, i)),
    }
}

/// `s` holds an element equal to `q`.
pub open spec fn slice_has<T: PartialEq>(s: Seq<T>, q: T) -> bool {
    exists|j: int| 0 <= j < s.len() && s[j].eq_spec(&q)
}

/// Under a lawful order, `x <= y < z` gives `x < z`.
proof fn lemma_le_lt<T: Ord>(x: T, y: T, z: T)
    requires
        lawful_order::<T>(),
        x.cmp_spec(&y) != Ordering::Greater,
        y.cmp_spec(&z) == Ordering::Less,
    ensures
        x.cmp_spec(&z) == Ordering::Less,
{
    reveal(obeys_partial_cmp_spec_properties);
    reveal(obeys_cmp_ord);
    reveal(obeys_cmp_partial_ord);
    reveal(obeys_eq_spec_properties);
    assert(x.partial_cmp_spec(&y) == Some(x.cmp_spec(&y)));
    assert(y.partial_cmp_spec(&z) == Some(y.cmp_spec(&z)));
    assert(x.partial_cmp_spec(&z) == Some(x.cmp_spec(&z)));
    assert(z.partial_cmp_spec(&y) == Some(z.cmp_spec(&y)));
    assert(y.partial_cmp_spec(&x) == Some(y.cmp_spec(&x)));
    assert(z.partial_cmp_spec(&x) == Some(z.cmp_spec(&x)));
}

/// Under a lawful order, `x >= y > z` gives `x > z`.
proof fn lemma_ge_gt<T: Ord>(x: T, y: T, z: T)
    requires
        lawful_order::<T>(),
        x.cmp_spec(&y) != Ordering::Less,
        y.cmp_spec(&z) == Ordering::Greater,
    ensures
        x.cmp_spec(&z) == Ordering::Greater,
{
    reveal(obeys_partial_cmp_spec_properties);
    reveal(obeys_cmp_ord);
    reveal(obeys_cmp_partial_ord);
    reveal(obeys_eq_spec_properties);
    assert(x.partial_cmp_spec(&y) == Some(x.cmp_spec(&y)));
    assert(y.partial_cmp_spec(&z) == Some(y.cmp_spec(&z)));
    assert(x.partial_cmp_spec(&z) == Some(x.cmp_spec(&z)));
    assert(z.partial_cmp_spec(&y) == Some(z.cmp_spec(&y)));
    assert(y.partial_cmp_spec(&x) == Some(y.cmp_spec(&x)));
    assert(z.partial_cmp_spec(&x) == Some(z.cmp_spec(&x)));
}

/// Binary searches the sorted slice `s` for `query`. Returns `Ok` with the
/// position of an element that compares equal to `query` (any one of them
/// where several do), or `Err` with the position where `query` could be
/// inserted while keeping `s` sorted. On a slice that is not sorted the
/// answer carries no meaning beyond what `search_result` states.
pub fn binary_search<T: Ord>(s: &[T], query: &T) -> (r: Result<usize, usize>)
    ensures
        search_result(s@, *query, r),
{
    let mut lo: usize = 0;
    let mut hi: usize = s.len();
    while lo < hi
        invariant
            lo <= hi <= s@.len(),
            lawful_order::<T>() && sorted(s@) ==> forall|j: int|
                0 <= j < lo ==> s@[j].cmp_spec(query) == Ordering::Less,
            lawful_order::<T>() && sorted(s@) ==> forall|j: int|
                hi <= j < s@.len() ==> s@[j].cmp_spec(query) == Ordering::Greater,
        decreases hi - lo,
    {
        let mid = lo + (hi - lo) / 2;
        let o = s[mid].cmp(query);
        match o {
            Ordering::Less => {
                proof {
                    if lawful_order::<T>() && sorted(s@) {
                        reveal(obeys_cmp_ord);
                        assert forall|j: int| 0 <= j < mid + 1 implies s@[j].cmp_spec(query)
                            == Ordering::Less by {
                            if j < mid {
                                lemma_le_lt(s@[j], s@[mid + 0], *query);
                            }
                        }
                    }
                }
                lo = mid + 1;
            },
            Ordering::Greater => {
                proof {
                    if lawful_order::<T>() && sorted(s@) {
                        reveal(obeys_cmp_ord);
                        assert forall|j: int| mid <= j < s@.len() implies s@[j].cmp_spec(query)
                            == Ordering::Greater by {
                            if j > mid {
                                lemma_flip(s@[mid + 0], s@[j]);
                                lemma_ge_gt(s@[j], s@[mid + 0], *query);
                            }
                        }
                    }
                }
                hi = mid;
            },
            Ordering::Equal => {
                return Ok(mid);
            },
        }
    }
    Err(lo)
}

/// Under a lawful order, `x <= y` gives `y >= x`.
proof fn lemma_flip<T: Ord>(x: T, y: T)
    requires
        lawful_order::<T>(),
        x.cmp_spec(&y) != Ordering::Greater,
    ensures
        y.cmp_spec(&x) != Ordering::Less,
{
    reveal(obeys_partial_cmp_spec_properties);
    reveal(obeys_cmp_ord);
    assert(x.partial_cmp_spec(&y) == Some(x.cmp_spec(&y)));
    assert(y.partial_cmp_spec(&x) == Some(y.cmp_spec(&x)));
}

/// Whether `s` holds an element equal to `query`.
pub fn contains<T: PartialEq>(s: &[T], query: &T) -> (r: bool)
    ensures
        T::obeys_eq_spec() ==> (r == slice_has(s@, *query)),
{
    let n = s.len();
    for i in 0..n
        invariant
            n == s@.len(),
            T::obeys_eq_spec() ==> forall|j: int| 0 <= j < i ==> !s@[j].eq_spec(query),
    {
        if s[i] == *query {
            return true;
        }
    }
    false
}

/// In a sorted slice under a lawful order, binary search finds an element
/// exactly when the linear membership test does.
pub proof fn lemma_search_agrees_with_contains<T: Ord>(
    s: Seq<T>,
    q: T,
    r: Result<usize, usize>,
)
    requires
        lawful_order::<T>(),
        sorted(s),
        search_result(s, q, r),
    ensures
        (r is Ok) == slice_has(s, q),
{
    reveal(obeys_partial_cmp_spec_properties);
    reveal(obeys_cmp_partial_ord);
    reveal(obeys_cmp_ord);
    match r {
        Ok(i) => {
            let k: int = i + 0;
            assert(s[k].partial_cmp_spec(&q) == Some(s[k].cmp_spec(&q)));
            assert(s[k].eq_spec(&q));
        },
        Err(i) => {
            if slice_has(s, q) {
                let j = choose|j: int| 0 <= j < s.len() && s[j].eq_spec(&q);
                assert(s[j].partial_cmp_spec(&q) == Some(s[j].cmp_spec(&q)));
            }
        },
    }
}

/// The position a binary search answers with, found or not.
pub open spec fn result_index(r: Result<usize, usize>) -> usize {
    match r {
        Ok(i) => i,
        Err(i) => i,
    }
}

/// Under a lawful order, every element of `s` orders strictly before each
/// element that follows it.
pub open spec fn strictly_sorted<T: Ord>(s: Seq<T>) -> bool {
    forall|i: int, j: int| 0 <= i < j < s.len() ==> s[i].cmp_spec(&s[j]) == Ordering::Less
}

/// In a slice sorted without repeats under a lawful order, a larger query
/// is answered with a position no smaller than a smaller query is: the
/// position is the number of elements that order before the query.
pub proof fn lemma_search_is_monotonic<T: Ord>(
    s: Seq<T>,
    q1: T,
    q2: T,
    r1: Result<usize, usize>,
    r2: Result<usize, usize>,
)
    requires
        lawful_order::<T>(),
        strictly_sorted(s),
        q1.cmp_spec(&q2) != Ordering::Greater,
        search_result(s, q1, r1),
        search_result(s, q2, r2),
    ensures
        result_index(r1) <= result_index(r2),
{
    reveal(obeys_cmp_ord);
    reveal(obeys_partial_cmp_spec_properties);
    reveal(obeys_cmp_partial_ord);
    reveal(obeys_eq_spec_properties);
    assert(sorted(s)) by {
        assert forall|i: int, j: int| 0 <= i < j < s.len() implies s[i].cmp_spec(&s[j])
            != Ordering::Greater by {
            assert(s[i].cmp_spec(&s[j]) == Ordering::Less);
        }
    }
    let i1 = result_index(r1);
    let i2 = result_index(r2);
    if i2 < i1 {
        let k: int = i2 + 0;
        assert(s[k].cmp_spec(&q1) == Ordering::Less) by {
            match r1 {
                Ok(i) => {
                    let m: int = i + 0;
                    lemma_le_lt_eq(s[k], s[m], q1);
                },
                Err(i) => {},
            }
        }
        lemma_lt_le(s[k], q1, q2);
        match r2 {
            Ok(i) => {
                assert(s[k].partial_cmp_spec(&q2) == Some(s[k].cmp_spec(&q2)));
            },
            Err(i) => {
                assert(s[k].partial_cmp_spec(&q2) == Some(s[k].cmp_spec(&q2)));
            },
        }
    }
}

/// Under a lawful order, `x < y` and `y == z` give `x < z`.
proof fn lemma_le_lt_eq<T: Ord>(x: T, y: T, z: T)
    requires
        lawful_order::<T>(),
        x.cmp_spec(&y) == Ordering::Less,
        y.cmp_spec(&z) == Ordering::Equal,
    ensures
        x.cmp_spec(&z) == Ordering::Less,
{
    reveal(obeys_partial_cmp_spec_properties);
    reveal(obeys_cmp_ord);
    reveal(obeys_cmp_partial_ord);
    reveal(obeys_eq_spec_properties);
    assert(x.partial_cmp_spec(&y) == Some(x.cmp_spec(&y)));
    assert(y.partial_cmp_spec(&z) == Some(y.cmp_spec(&z)));
    assert(x.partial_cmp_spec(&z) == Some(x.cmp_spec(&z)));
    assert(z.partial_cmp_spec(&y) == Some(z.cmp_spec(&y)));
    assert(y.partial_cmp_spec(&x) == Some(y.cmp_spec(&x)));
    assert(z.partial_cmp_spec(&x) == Some(z.cmp_spec(&x)));
}

/// Under a lawful order, `x < y <= z` gives `x < z`.
proof fn lemma_lt_le<T: Ord>(x: T, y: T, z: T)
    requires
        lawful_order::<T>(),
        x.cmp_spec(&y) == Ordering::Less,
        y.cmp_spec(&z) != Ordering::Greater,
    ensures
        x.cmp_spec(&z) == Ordering::Less,
{
    reveal(obeys_partial_cmp_spec_properties);
    reveal(obeys_cmp_ord);
    reveal(obeys_cmp_partial_ord);
    reveal(obeys_eq_spec_properties);
    assert(x.partial_cmp_spec(&y) == Some(x.cmp_spec(&y)));
    assert(y.partial_cmp_spec(&z) == Some(y.cmp_spec(&z)));
    assert(x.partial_cmp_spec(&z) == Some(x.cmp_spec(&z)));
    assert(z.partial_cmp_spec(&y) == Some(z.cmp_spec(&y)));
    assert(y.partial_cmp_spec(&x) == Some(y.cmp_spec(&x)));
    assert(z.partial_cmp_spec(&x) == Some(z.cmp_spec(&x)));
}

/// A slice that holds an element equal to `q` still does with more
/// elements put before or after it.
pub proof fn lemma_slice_has_extends<T: PartialEq>(s: Seq<T>, t: Seq<T>, q: T)
    requires
        slice_has(s, q),
    ensures
        slice_has(s + t, q),
        slice_has(t + s, q),
{
    let j = choose|j: int| 0 <= j < s.len() && s[j].eq_spec(&q);
    assert((s + t)[j] == s[j]);
    assert((t + s)[t.len() + j] == s[j]);
}

/// Whether a slice holds an element equal to `q` does not depend on the
/// order of its elements.
pub proof fn lemma_slice_has_permutation<T: PartialEq>(s: Seq<T>, p: Seq<T>, q: T)
    requires
        s.to_multiset() == p.to_multiset(),
    ensures
        slice_has(s, q) == slice_has(p, q),
{
    broadcast use vstd::seq_lib::group_to_multiset_ensures;
    if slice_has(s, q) {
        let j = choose|j: int| 0 <= j < s.len() && s[j].eq_spec(&q);
        assert(s.contains(s[j]));
        assert(s.to_multiset().count(s[j]) > 0);
        assert(p.to_multiset().count(s[j]) > 0);
        assert(p.contains(s[j]));
        let k = choose|k: int| 0 <= k < p.len() && p[k] == s[j];
        assert(p[k].eq_spec(&q));
    }
    if slice_has(p, q) {
        let j = choose|j: int| 0 <= j < p.len() && p[j].eq_spec(&q);
        assert(p.contains(p[j]));
        assert(p.to_multiset().count(p[j]) > 0);
        assert(s.to_multiset().count(p[j]) > 0);
        assert(s.contains(p[j]));
        let k = choose|k: int| 0 <= k < s.len() && s[k] == p[j];
        assert(s[k].eq_spec(&q));
    }
}

/// `s` holds a string with the characters of `q`.
pub open spec fn has_text(s: Seq<String>, q: Seq<char>) -> bool {
    exists|j: int| 0 <= j < s.len() && s[j]@ == q
}

/// The strings of `s` never decrease in character order.
pub open spec fn text_sorted(s: Seq<String>) -> bool {
    forall|i: int, j: int| 0 <= i < j < s.len() ==> !text_lt(#[trigger] s[j]@, #[trigger] s[i]@)
}

/// The strings of `s` strictly increase in character order.
pub open spec fn text_strictly_sorted(s: Seq<String>) -> bool {
    forall|i: int, j: int| 0 <= i < j < s.len() ==> text_lt(#[trigger] s[i]@, #[trigger] s[j]@)
}

/// Inserting `q` at position `i` keeps `s` sorted and `s` holds no string
/// equal to `q`: everything before `i` sorts before `q`, everything from
/// `i` on after it.
pub open spec fn text_insertion_point(s: Seq<String>, q: Seq<char>, i: usize) -> bool {
    &&& i <= s.len()
    &&& forall|j: int| 0 <= j < i ==> text_lt(#[trigger] s[j]@, q)
    &&& forall|j: int| i <= j < s.len() ==> text_lt(q, #[trigger] s[j]@)
}

/// What a binary search among strings answers: `Ok(i)` with a position
/// that holds `q`; `Err(i)` with a position no further than the end, which
/// in a sorted slice is where `q` would be inserted.
pub open spec fn text_search_result(s: Seq<String>, q: Seq<char>, r: Result<usize, usize>) -> bool {
    match r {
        Ok(i) => i < s.len() && item_at(s, i)@ == q,
        Err(i) => i <= s.len() && (text_sorted(s) ==> text_insertion_point(s, q, i)),
    }
}

/// Binary searches the sorted strings `s` for `query`, comparing by
/// character order. Returns `Ok` with a position holding `query`, or `Err`
/// with the position where `query` could be inserted keeping `s` sorted.
pub fn binary_search_str(s: &[String], query: &str) -> (r: Result<usize, usize>)
    ensures
        text_search_result(s@, query@, r),
{
    let mut lo: usize = 0;
    let mut hi: usize = s.len();
    while lo < hi
        invariant
            lo <= hi <= s@.len(),
            text_sorted(s@) ==> forall|j: int| 0 <= j < lo ==> text_lt(#[trigger] s@[j]@, query@),
            text_sorted(s@) ==> forall|j: int|
                hi <= j < s@.len() ==> text_lt(query@, #[trigger] s@[j]@),
        decreases hi - lo,
    {
        let mid = lo + (hi - lo) / 2;
        let m = s[mid].as_str();
        if str_lt(m, query) {
            proof {
                if text_sorted(s@) {
                    assert forall|j: int| 0 <= j < mid + 1 implies text_lt(#[trigger] s@[j]@, query@) by {
                        if j < mid {
                            let a = s@[j]@;
                            let b = s@[mid as int]@;
                            assert(!text_lt(b, a));
                            if a != b {
                                lemma_text_lt_total(a, b);
                                lemma_text_lt_transitive(a, b, query@);
                            }
                        }
                    }
                }
            }
            lo = mid + 1;
        } else if str_lt(query, m) {
            proof {
                if text_sorted(s@) {
                    assert forall|j: int| mid <= j < s@.len() implies text_lt(query@, #[trigger] s@[j]@) by {
                        if j > mid {
                            let a = s@[mid as int]@;
                            let b = s@[j]@;
                            assert(!text_lt(b, a));
                            if a != b {
                                lemma_text_lt_total(a, b);
                                lemma_text_lt_transitive(query@, a, b);
                            }
                        }
                    }
                }
            }
            hi = mid;
        } else {
            proof {
                if m@ != query@ {
                    lemma_text_lt_total(m@, query@);
                }
            }
            return Ok(mid);
        }
    }
    Err(lo)
}

/// Whether `s` holds a string with the characters of `query`.
pub fn contains_str(s: &[String], query: &str) -> (r: bool)
    ensures
        r == has_text(s@, query@),
{
    let n = s.len();
    for i in 0..n
        invariant
            n == s@.len(),
            forall|j: int| 0 <= j < i ==> s@[j]@ != query@,
    {
        if str_eq(s[i].as_str(), query) {
            return true;
        }
    }
    false
}

/// In sorted strings, binary search finds `q` exactly when the linear
/// membership test does.
pub proof fn lemma_text_search_agrees_with_contains(
    s: Seq<String>,
    q: Seq<char>,
    r: Result<usize, usize>,
)
    requires
        text_sorted(s),
        text_search_result(s, q, r),
    ensures
        (r is Ok) == has_text(s, q),
{
    match r {
        Ok(i) => {
            assert(s[i as int]@ == q);
        },
        Err(i) => {
            if has_text(s, q) {
                let j = choose|j: int| 0 <= j < s.len() && s[j]@ == q;
                lemma_text_lt_irreflexive(q);
                if j < i {
                    assert(text_lt(s[j]@, q));
                } else {
                    assert(text_lt(q, s[j]@));
                }
            }
        },
    }
}

/// In strings sorted without repeats, a query that sorts later is answered
/// with a position no smaller than one that sorts earlier: the position is
/// the number of strings that sort before the query.
pub proof fn lemma_text_search_is_monotonic(
    s: Seq<String>,
    q1: Seq<char>,
    q2: Seq<char>,
    r1: Result<usize, usize>,
    r2: Result<usize, usize>,
)
    requires
        text_strictly_sorted(s),
        !text_lt(q2, q1),
        text_search_result(s, q1, r1),
        text_search_result(s, q2, r2),
    ensures
        result_index(r1) <= result_index(r2),
{
    assert(text_sorted(s)) by {
        assert forall|i: int, j: int| 0 <= i < j < s.len() implies !text_lt(
            #[trigger] s[j]@,
            #[trigger] s[i]@,
        ) by {
            lemma_text_lt_asymmetric(s[i]@, s[j]@);
        }
    }
    let i1 = result_index(r1);
    let i2 = result_index(r2);
    if i2 < i1 {
        let k = i2 as int;
        assert(text_lt(s[k]@, q1)) by {
            match r1 {
                Ok(i) => {
                    assert(text_lt(s[k]@, s[i as int]@));
                },
                Err(i) => {},
            }
        }
        assert(text_lt(s[k]@, q2)) by {
            if q1 != q2 {
                lemma_text_lt_total(q1, q2);
                lemma_text_lt_transitive(s[k]@, q1, q2);
            }
        }
        match r2 {
            Ok(i) => {
                lemma_text_lt_irreflexive(q2);
            },
            Err(i) => {
                assert(text_lt(q2, s[k]@));
                lemma_text_lt_asymmetric(q2, s[k]@);
            },
        }
    }
}

/// Strings that hold `q` still do with more strings put before or after.
pub proof fn lemma_has_text_extends(s: Seq<String>, t: Seq<String>, q: Seq<char>)
    requires
        has_text(s, q),
    ensures
        has_text(s + t, q),
        has_text(t + s, q),
{
    let j = choose|j: int| 0 <= j < s.len() && s[j]@ == q;
    assert((s + t)[j] == s[j]);
    assert((t + s)[t.len() + j] == s[j]);
}

/// Whether strings hold `q` does not depend on their order.
pub proof fn lemma_has_text_permutation(s: Seq<String>, p: Seq<String>, q: Seq<char>)
    requires
        s.to_multiset() == p.to_multiset(),
    ensures
        has_text(s, q) == has_text(p, q),
{
    broadcast use vstd::seq_lib::group_to_multiset_ensures;
    if has_text(s, q) {
        let j = choose|j: int| 0 <= j < s.len() && s[j]@ == q;
        assert(s.contains(s[j]));
        assert(s.to_multiset().count(s[j]) > 0);
        assert(p.to_multiset().count(s[j]) > 0);
        assert(p.contains(s[j]));
        let k = choose|k: int| 0 <= k < p.len() && p[k] == s[j];
        assert(p[k]@ == q);
    }
    if has_text(p, q) {
        let j = choose|j: int| 0 <= j < p.len() && p[j]@ == q;
        assert(p.contains(p[j]));
        assert(p.to_multiset().count(p[j]) > 0);
        assert(s.to_multiset().count(p[j]) > 0);
        assert(s.contains(p[j]));
        let k = choose|k: int| 0 <= k < s.len() && s[k] == p[j];
        assert(s[k]@ == q);
    }
}

} // verus!
