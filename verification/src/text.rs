//! Text helpers: the order in which strings sort, and the rewrite of
//! old-style license expressions into SPDX form.

use vstd::prelude::*;

verus! {

broadcast use vstd::string::group_string_axioms;

/// `a` sorts strictly before `b`: the lexicographic order on characters,
/// each character compared by its code point. Rust orders `str` by its
/// UTF-8 bytes, which orders code points the same way.
pub open spec fn text_lt(a: Seq<char>, b: Seq<char>) -> bool
    decreases a.len(),
{
    if b.len() == 0 {
        false
    } else if a.len() == 0 {
        true
    } else if a[0] != b[0] {
        a[0] < b[0]
    } else {
        text_lt(a.drop_first(), b.drop_first())
    }
}

/// Whether `a` sorts strictly before `b`.
pub fn str_lt(a: &str, b: &str) -> (r: bool)
    ensures
        r == text_lt(a@, b@),
{
    let mut ia = a.chars();
    let mut ib = b.chars();
    let ghost mut k: int = 0;
    loop
        invariant
            0 <= k <= a@.len(),
            k <= b@.len(),
            vstd::std_specs::iter::IteratorSpec::remaining(&ia) == a@.skip(k),
            vstd::std_specs::iter::IteratorSpec::remaining(&ib) == b@.skip(k),
            text_lt(a@, b@) == text_lt(a@.skip(k), b@.skip(k)),
        decreases a@.len() - k,
    {
        let ca = ia.next();
        let cb = ib.next();
        match (ca, cb) {
            (_, None) => {
                return false;
            },
            (None, Some(_)) => {
                return true;
            },
            (Some(x), Some(y)) => {
                if x != y {
                    return x < y;
                }
                proof {
                    assert(a@.skip(k).drop_first() =~= a@.skip(k + 1));
                    assert(b@.skip(k).drop_first() =~= b@.skip(k + 1));
                    k = k + 1;
                }
            },
        }
    }
}

/// What one character of a license expression becomes: cargo once let `/`
/// stand for `OR`, which SPDX does not accept, so a `/` becomes ` OR `.
pub open spec fn spdx_piece(c: char) -> Seq<char> {
    if c == '/' {
        seq![' ', 'O', 'R', ' ']
    } else {
        seq![c]
    }
}

/// A license expression with every `/` written as ` OR `.
pub open spec fn spdx_license(s: Seq<char>) -> Seq<char>
    decreases s.len(),
{
    if s.len() == 0 {
        Seq::empty()
    } else {
        spdx_license(s.drop_last()) + spdx_piece(s.last())
    }
}

/// `String::push`: appends one character at the end.
#[verifier::external_body]
fn push_char(s: &mut String, c: char)
    ensures
        final(s)@ == old(s)@.push(c),
{
    s.push(c);
}

/// Whether `s` holds a `/`.
pub fn has_slash(s: &str) -> (r: bool)
    ensures
        r == s@.contains('/'),
{
    let mut it = s.chars();
    let ghost mut k: int = 0;
    loop
        invariant
            0 <= k <= s@.len(),
            vstd::std_specs::iter::IteratorSpec::remaining(&it) == s@.skip(k),
            forall|i: int| 0 <= i < k ==> s@[i] != '/',
        decreases s@.len() - k,
    {
        match it.next() {
            None => {
                assert(k == s@.len());
                return false;
            },
            Some(c) => {
                assert(c == s@[k]);
                if c == '/' {
                    return true;
                }
                proof {
                    assert(s@.skip(k).drop_first() =~= s@.skip(k + 1));
                    k = k + 1;
                }
            },
        }
    }
}

/// Rewrites a license expression into SPDX form: cargo used to allow `/`
/// in place of `OR`, which is not valid in an SPDX expression, so each `/`
/// becomes ` OR `; an expression without `/` is handed back as it is.
pub fn normalize_license(lf: String) -> (r: String)
    ensures
        r@ == spdx_license(lf@),
{
    if !has_slash(lf.as_str()) {
        proof {
            lemma_spdx_license_without_slash(lf@);
        }
        return lf;
    }
    let mut out = String::new();
    let mut it = lf.as_str().chars();
    let ghost s = lf@;
    let ghost mut k: int = 0;
    proof {
        assert(s.take(0) =~= Seq::<char>::empty());
    }
    loop
        invariant
            0 <= k <= s.len(),
            s == lf@,
            vstd::std_specs::iter::IteratorSpec::remaining(&it) == s.skip(k),
            out@ == spdx_license(s.take(k)),
        decreases s.len() - k,
    {
        match it.next() {
            None => {
                assert(s.take(k) =~= s);
                return out;
            },
            Some(c) => {
                assert(c == s[k]);
                if c == '/' {
                    proof {
                        reveal_strlit(" OR ");
                    }
                    out.append(" OR ");
                } else {
                    push_char(&mut out, c);
                }
                proof {
                    assert(s.take(k + 1).drop_last() =~= s.take(k));
                    assert(s.skip(k).drop_first() =~= s.skip(k + 1));
                    k = k + 1;
                }
            },
        }
    }
}

/// A license expression without `/` is left as it is.
pub proof fn lemma_spdx_license_without_slash(s: Seq<char>)
    requires
        !s.contains('/'),
    ensures
        spdx_license(s) == s,
    decreases s.len(),
{
    if s.len() > 0 {
        assert(!s.drop_last().contains('/')) by {
            if s.drop_last().contains('/') {
                let i = choose|i: int| 0 <= i < s.drop_last().len() && s.drop_last()[i] == '/';
                assert(s[i] == '/');
            }
        }
        lemma_spdx_license_without_slash(s.drop_last());
        assert(s.last() != '/') by {
            assert(s[s.len() - 1] == s.last());
        }
        assert(s.drop_last().push(s.last()) =~= s);
        assert(spdx_license(s) =~= s);
    }
}

/// A rewritten license expression holds no `/`.
pub proof fn lemma_spdx_license_has_no_slash(s: Seq<char>)
    ensures
        !spdx_license(s).contains('/'),
    decreases s.len(),
{
    if s.len() > 0 {
        lemma_spdx_license_has_no_slash(s.drop_last());
        let a = spdx_license(s.drop_last());
        let b = spdx_piece(s.last());
        assert(!b.contains('/'));
        assert forall|i: int| 0 <= i < (a + b).len() implies (a + b)[i] != '/' by {
            if i < a.len() {
                assert((a + b)[i] == a[i]);
            } else {
                assert((a + b)[i] == b[i - a.len()]);
            }
        }
    }
}

/// Rewriting twice gives what rewriting once gives.
pub proof fn lemma_spdx_license_idempotent(s: Seq<char>)
    ensures
        spdx_license(spdx_license(s)) == spdx_license(s),
{
    lemma_spdx_license_has_no_slash(s);
    lemma_spdx_license_without_slash(spdx_license(s));
}

/// No string sorts before itself.
pub proof fn lemma_text_lt_irreflexive(a: Seq<char>)
    ensures
        !text_lt(a, a),
    decreases a.len(),
{
    if a.len() > 0 {
        lemma_text_lt_irreflexive(a.drop_first());
    }
}

/// Two strings never each sort before the other.
pub proof fn lemma_text_lt_asymmetric(a: Seq<char>, b: Seq<char>)
    ensures
        text_lt(a, b) ==> !text_lt(b, a),
    decreases a.len(),
{
    if a.len() > 0 && b.len() > 0 && a[0] == b[0] {
        lemma_text_lt_asymmetric(a.drop_first(), b.drop_first());
    }
}

/// Sorting before is transitive.
pub proof fn lemma_text_lt_transitive(a: Seq<char>, b: Seq<char>, c: Seq<char>)
    requires
        text_lt(a, b),
        text_lt(b, c),
    ensures
        text_lt(a, c),
    decreases a.len(),
{
    if a.len() > 0 && a[0] == b[0] && b[0] == c[0] {
        lemma_text_lt_transitive(a.drop_first(), b.drop_first(), c.drop_first());
    }
}

/// Of two different strings, one sorts before the other.
pub proof fn lemma_text_lt_total(a: Seq<char>, b: Seq<char>)
    requires
        a != b,
    ensures
        text_lt(a, b) || text_lt(b, a),
    decreases a.len(),
{
    if a.len() == 0 {
        assert(b.len() != 0) by {
            if b.len() == 0 {
                assert(a =~= b);
            }
        }
    } else if b.len() == 0 {
    } else if a[0] == b[0] {
        assert(a.drop_first() != b.drop_first()) by {
            if a.drop_first() == b.drop_first() {
                assert(a =~= b) by {
                    assert(a.drop_first().len() == a.len() - 1);
                    assert(b.drop_first().len() == b.len() - 1);
                    assert(a.len() == b.len());
                    assert forall|i: int| 0 <= i < a.len() implies a[i] == b[i] by {
                        if i > 0 {
                            assert(a[i] == a.drop_first()[i - 1]);
                            assert(b[i] == b.drop_first()[i - 1]);
                        }
                    }
                }
            }
        }
        lemma_text_lt_total(a.drop_first(), b.drop_first());
    }
}

/// Whether `a` and `b` hold the same characters.
pub fn str_eq(a: &str, b: &str) -> (r: bool)
    ensures
        r == (a@ == b@),
{
    let r = !str_lt(a, b) && !str_lt(b, a);
    proof {
        lemma_text_lt_irreflexive(a@);
        if a@ != b@ {
            lemma_text_lt_total(a@, b@);
        }
    }
    r
}

/// String order is the lexicographic order: `a` sorts before `b` exactly
/// when, after a common prefix of some length `k`, either `a` ends while
/// `b` goes on, or both go on and `a`'s next character has the smaller
/// code point.
pub proof fn lemma_text_lt_is_lexicographic(a: Seq<char>, b: Seq<char>)
    ensures
        text_lt(a, b) == exists|k: int|
            #![trigger a.take(k), b.take(k)]
            0 <= k <= a.len() && k <= b.len() && a.take(k) == b.take(k) && ((k == a.len() && k
                < b.len()) || (k < a.len() && k < b.len() && a[k] < b[k])),
    decreases a.len(),
{
    if text_lt(a, b) {
        if a.len() == 0 || a[0] != b[0] {
            assert(a.take(0) =~= b.take(0));
        } else {
            lemma_text_lt_is_lexicographic(a.drop_first(), b.drop_first());
            let a1 = a.drop_first();
            let b1 = b.drop_first();
            let k1 = choose|k: int|
                #![trigger a1.take(k), b1.take(k)]
                0 <= k <= a1.len() && k <= b1.len() && a1.take(k) == b1.take(k) && ((k
                    == a1.len() && k < b1.len()) || (k < a1.len() && k < b1.len() && a1[k]
                    < b1[k]));
            let k = k1 + 1;
            assert(a.take(k) =~= b.take(k)) by {
                assert forall|i: int| 0 <= i < k implies a.take(k)[i] == b.take(k)[i] by {
                    if i > 0 {
                        assert(a1.take(k1)[i - 1] == b1.take(k1)[i - 1]);
                    }
                }
            }
            assert(k < a.len() ==> a[k] == a1[k1]);
            assert(k < b.len() ==> b[k] == b1[k1]);
        }
    }
    if exists|k: int|
        #![trigger a.take(k), b.take(k)]
        0 <= k <= a.len() && k <= b.len() && a.take(k) == b.take(k) && ((k == a.len() && k
            < b.len()) || (k < a.len() && k < b.len() && a[k] < b[k])) {
        let k = choose|k: int|
            #![trigger a.take(k), b.take(k)]
            0 <= k <= a.len() && k <= b.len() && a.take(k) == b.take(k) && ((k == a.len() && k
                < b.len()) || (k < a.len() && k < b.len() && a[k] < b[k]));
        if k > 0 {
            assert(a[0] == a.take(k)[0]);
            assert(b[0] == b.take(k)[0]);
            let a1 = a.drop_first();
            let b1 = b.drop_first();
            let k1 = k - 1;
            assert(a1.take(k1) =~= b1.take(k1)) by {
                assert forall|i: int| 0 <= i < k1 implies a1.take(k1)[i] == b1.take(k1)[i] by {
                    assert(a.take(k)[i + 1] == b.take(k)[i + 1]);
                }
            }
            assert(k1 < a1.len() ==> a1[k1] == a[k]);
            assert(k1 < b1.len() ==> b1[k1] == b[k]);
            lemma_text_lt_is_lexicographic(a1, b1);
        }
    }
}

/// Each `/` of a license expression becomes the four characters ` OR `,
/// whatever stands around it, and every other character is kept as it is:
/// the rewrite of `p`, a `/` and `q` is the rewrite of `p`, then ` OR `,
/// then the rewrite of `q`; the rewrite of `p`, another character `c` and
/// `q` keeps `c` between the two rewrites; and the empty expression stays
/// empty.
pub proof fn lemma_spdx_license_rewrites_each_slash(p: Seq<char>, c: char, q: Seq<char>)
    ensures
        spdx_license(Seq::<char>::empty()) == Seq::<char>::empty(),
        c == '/' ==> spdx_license(p + seq![c] + q) == spdx_license(p) + seq![' ', 'O', 'R', ' ']
            + spdx_license(q),
        c != '/' ==> spdx_license(p + seq![c] + q) == spdx_license(p) + seq![c] + spdx_license(q),
{
    lemma_spdx_license_concat(p + seq![c], q);
    lemma_spdx_license_concat(p, seq![c]);
    reveal_with_fuel(spdx_license, 2);
    assert(seq![c].drop_last() =~= Seq::<char>::empty());
    assert(spdx_license(seq![c]) =~= spdx_piece(c));
}

/// Rewriting distributes over concatenation.
proof fn lemma_spdx_license_concat(a: Seq<char>, b: Seq<char>)
    ensures
        spdx_license(a + b) == spdx_license(a) + spdx_license(b),
    decreases b.len(),
{
    if b.len() == 0 {
        assert(a + b =~= a);
        assert(spdx_license(b) =~= Seq::<char>::empty());
        assert(spdx_license(a) + spdx_license(b) =~= spdx_license(a));
    } else {
        lemma_spdx_license_concat(a, b.drop_last());
        assert((a + b).drop_last() =~= a + b.drop_last());
        assert((a + b).last() == b.last());
        assert(spdx_license(a + b) =~= spdx_license(a) + spdx_license(b));
    }
}

} // verus!
