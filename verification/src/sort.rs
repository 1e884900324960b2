//! Stable sorting of named items by their names.

use vstd::prelude::*;
use crate::text::text_lt;
use crate::text::str_lt;
use crate::text::lemma_text_lt_irreflexive;
use crate::text::lemma_text_lt_asymmetric;
use crate::text::lemma_text_lt_transitive;
use crate::text::lemma_text_lt_total;

verus! {

/// An item together with the name it sorts by.
pub struct Named<T> {
    pub name: String,
    pub value: T,
}

/// The names in `s` never decrease.
pub open spec fn names_sorted<T>(s: Seq<Named<T>>) -> bool {
    forall|i: int, j: int| 0 <= i < j < s.len() ==> !text_lt(#[trigger] s[j].name@, #[trigger] s[i].name@)
}

/// `output` is `input` reordered by the permutation `p` (position `i` of
/// `output` holds item `p[i]` of `input`), sorted by name, with items of
/// equal names left in the order they had in `input`.
pub open spec fn stable_sort_witness<T>(input: Seq<Named<T>>, output: Seq<Named<T>>, p: Seq<int>) -> bool {
    &&& p.len() == input.len()
    &&& output.len() == input.len()
    &&& forall|i: int| 0 <= i < p.len() ==> 0 <= #[trigger] p[i] < input.len()
    &&& forall|i: int, j: int| 0 <= i < j < p.len() ==> #[trigger] p[i] != #[trigger] p[j]
    &&& forall|i: int| 0 <= i < output.len() ==> #[trigger] output[i] == input[p[i]]
    &&& names_sorted(output)
    &&& forall|i: int, j: int|
        0 <= i < j < output.len() && #[trigger] output[i].name@ == #[trigger] output[j].name@
            ==> p[i] < p[j]
}

/// `output` is the stable sort of `input` by name.
pub open spec fn is_stable_name_sort<T>(input: Seq<Named<T>>, output: Seq<Named<T>>) -> bool {
    exists|p: Seq<int>| stable_sort_witness(input, output, p)
}

/// Sorts `items` by name, stably: items with equal names keep their order.
pub fn sort_by_name<T>(items: Vec<Named<T>>) -> (out: Vec<Named<T>>)
    ensures
        is_stable_name_sort(items@, out@),
{
    let ghost input = items@;
    let n = items.len();
    let mut rest = items;
    let mut out: Vec<Named<T>> = Vec::new();
    let ghost mut p: Seq<int> = Seq::empty();
    let mut k: usize = 0;
    while k < n
        invariant
            n == input.len(),
            k <= n,
            rest@ == input.subrange(k as int, n as int),
            out@.len() == k,
            p.len() == k,
            forall|i: int| 0 <= i < k ==> 0 <= #[trigger] p[i] < k,
            forall|i: int, j: int| 0 <= i < j < k ==> #[trigger] p[i] != #[trigger] p[j],
            forall|i: int| 0 <= i < k ==> #[trigger] out@[i] == input[p[i]],
            names_sorted(out@),
            forall|i: int, j: int|
                0 <= i < j < k && #[trigger] out@[i].name@ == #[trigger] out@[j].name@ ==> p[i] < p[j],
        decreases n - k,
    {
        let e = rest.remove(0);
        assert(e == input[k as int]);
        assert(rest@ =~= input.subrange(k + 1, n as int));
        let mut pos: usize = 0;
        while pos < out.len() && !str_lt(e.name.as_str(), out[pos].name.as_str())
            invariant
                pos <= out@.len(),
                forall|i: int| 0 <= i < pos ==> !text_lt(e.name@, #[trigger] out@[i].name@),
            decreases out@.len() - pos,
        {
            pos = pos + 1;
        }
        let ghost old_out = out@;
        let ghost old_p = p;
        proof {
            assert forall|j: int| pos <= j < old_out.len() implies text_lt(
                e.name@,
                #[trigger] old_out[j].name@,
            ) by {
                assert(text_lt(e.name@, old_out[pos as int].name@));
                if j > pos {
                    let a = old_out[pos as int].name@;
                    let b = old_out[j].name@;
                    assert(!text_lt(b, a));
                    if a != b {
                        lemma_text_lt_total(a, b);
                        lemma_text_lt_transitive(e.name@, a, b);
                    }
                }
            }
        }
        out.insert(pos, e);
        proof {
            p = old_p.insert(pos as int, k as int);
            assert forall|i: int, j: int| 0 <= i < j < out@.len() implies !text_lt(
                #[trigger] out@[j].name@,
                #[trigger] out@[i].name@,
            ) by {
                if j == pos {
                    assert(out@[i] == old_out[i]);
                } else if i == pos {
                    assert(out@[j] == old_out[j - 1]);
                    lemma_text_lt_asymmetric(e.name@, old_out[j - 1].name@);
                } else {
                    let oi = if i < pos { i } else { i - 1 };
                    let oj = if j < pos { j } else { j - 1 };
                    assert(out@[i] == old_out[oi]);
                    assert(out@[j] == old_out[oj]);
                }
            }
            assert forall|i: int, j: int|
                0 <= i < j < k + 1 && #[trigger] out@[i].name@ == #[trigger] out@[j].name@
                    implies p[i] < p[j] by {
                if j == pos {
                    assert(p[i] == old_p[i]);
                } else if i == pos {
                    assert(out@[j] == old_out[j - 1]);
                    lemma_text_lt_irreflexive(e.name@);
                } else {
                    let oi = if i < pos { i } else { i - 1 };
                    let oj = if j < pos { j } else { j - 1 };
                    assert(out@[i] == old_out[oi]);
                    assert(out@[j] == old_out[oj]);
                    assert(p[i] == old_p[oi]);
                    assert(p[j] == old_p[oj]);
                }
            }
            assert forall|i: int| 0 <= i < k + 1 implies #[trigger] out@[i] == input[p[i]] by {
                if i < pos {
                    assert(p[i] == old_p[i]);
                } else if i > pos {
                    assert(p[i] == old_p[i - 1]);
                }
            }
            assert forall|i: int| 0 <= i < k + 1 implies 0 <= #[trigger] p[i] < k + 1 by {
                if i < pos {
                    assert(p[i] == old_p[i]);
                } else if i > pos {
                    assert(p[i] == old_p[i - 1]);
                }
            }
            assert forall|i: int, j: int| 0 <= i < j < k + 1 implies #[trigger] p[i] != #[trigger] p[j] by {
                let oi = if i < pos { i } else { i - 1 };
                let oj = if j < pos { j } else { j - 1 };
                if i != pos && j != pos {
                    assert(p[i] == old_p[oi]);
                    assert(p[j] == old_p[oj]);
                } else if i == pos {
                    assert(p[j] == old_p[oj]);
                } else {
                    assert(p[i] == old_p[oi]);
                }
            }
        }
        k = k + 1;
    }
    proof {
        assert(stable_sort_witness(input, out@, p));
    }
    out
}

} // verus!
