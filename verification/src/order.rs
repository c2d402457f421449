//! Ordering of texts and sorted sets of texts.
//!
//! Texts are ordered character by character by code point, a shorter text
//! coming before every longer text that it begins. This is the order of
//! `String` in Rust: UTF-8 keeps the order of code points, so comparing the
//! bytes and comparing the characters agree.

use vstd::prelude::*;

verus! {

/// `a` comes strictly before `b`.
pub open spec fn lex_lt(a: Seq<char>, b: Seq<char>) -> bool
    decreases a.len(),
{
    if a.len() == 0 {
        b.len() > 0
    } else if b.len() == 0 {
        false
    } else if a[0] != b[0] {
        a[0] < b[0]
    } else {
        lex_lt(a.drop_first(), b.drop_first())
    }
}

/// Each text comes strictly before the next: sorted, without repetitions.
pub open spec fn strictly_sorted(s: Seq<Seq<char>>) -> bool {
    forall|i: int, j: int| 0 <= i < j < s.len() ==> lex_lt(#[trigger] s[i], #[trigger] s[j])
}

/// The texts held by a vector of character vectors.
pub open spec fn texts(v: Seq<Vec<char>>) -> Seq<Seq<char>> {
    v.map_values(|x: Vec<char>| x@)
}

/// The texts held by a vector of strings.
pub open spec fn string_texts(v: Seq<String>) -> Seq<Seq<char>> {
    v.map_values(|x: String| x@)
}

pub proof fn lemma_lex_lt_irreflexive(a: Seq<char>)
    ensures
        !lex_lt(a, a),
    decreases a.len(),
{
    if a.len() > 0 {
        lemma_lex_lt_irreflexive(a.drop_first());
    }
}

pub proof fn lemma_lex_lt_transitive(a: Seq<char>, b: Seq<char>, c: Seq<char>)
    requires
        lex_lt(a, b),
        lex_lt(b, c),
    ensures
        lex_lt(a, c),
    decreases a.len(),
{
    if a.len() > 0 && b.len() > 0 && c.len() > 0 {
        if a[0] == b[0] && b[0] == c[0] {
            lemma_lex_lt_transitive(a.drop_first(), b.drop_first(), c.drop_first());
        }
    }
}

pub proof fn lemma_lex_lt_total(a: Seq<char>, b: Seq<char>)
    ensures
        a == b || lex_lt(a, b) || lex_lt(b, a),
    decreases a.len(),
{
    if a.len() > 0 && b.len() > 0 && a[0] == b[0] {
        lemma_lex_lt_total(a.drop_first(), b.drop_first());
        if a.drop_first() == b.drop_first() {
            assert(a =~= seq![a[0]] + a.drop_first());
            assert(b =~= seq![b[0]] + b.drop_first());
        }
    } else if a.len() == 0 && b.len() == 0 {
        assert(a =~= b);
    } else if a.len() > 0 && b.len() > 0 {
    }
}

pub proof fn lemma_lex_lt_asymmetric(a: Seq<char>, b: Seq<char>)
    requires
        lex_lt(a, b),
    ensures
        !lex_lt(b, a),
        a != b,
{
    lemma_lex_lt_irreflexive(a);
    if lex_lt(b, a) {
        lemma_lex_lt_transitive(a, b, a);
    }
}

/// `s` holds, sorted and each once, exactly the texts of `items`.
pub open spec fn is_sorted_set_of(s: Seq<Seq<char>>, items: Seq<Seq<char>>) -> bool {
    &&& strictly_sorted(s)
    &&& forall|x: Seq<char>| #[trigger] s.contains(x) <==> items.contains(x)
}

/// A sorted sequence without repetitions is fixed by what it holds.
pub proof fn lemma_strictly_sorted_unique(s1: Seq<Seq<char>>, s2: Seq<Seq<char>>)
    requires
        strictly_sorted(s1),
        strictly_sorted(s2),
        forall|x: Seq<char>| #[trigger] s1.contains(x) <==> s2.contains(x),
    ensures
        s1 == s2,
    decreases s1.len(),
{
    if s1.len() == 0 {
        if s2.len() > 0 {
            assert(s2.contains(s2[0]));
            assert(s1.contains(s2[0]));
            assert(false);
        }
        assert(s1 =~= s2);
    } else {
        assert(s1.contains(s1[0]));
        assert(s2.contains(s1[0]));
        assert(s2.len() > 0);
        assert(s2.contains(s2[0]));
        assert(s1.contains(s2[0]));
        // Both begin with the least text they hold.
        let i = choose|i: int| 0 <= i < s2.len() && s2[i] == s1[0];
        let j = choose|j: int| 0 <= j < s1.len() && s1[j] == s2[0];
        if i > 0 && j > 0 {
            assert(lex_lt(s2[0], s2[i]));
            assert(lex_lt(s1[0], s1[j]));
            lemma_lex_lt_transitive(s2[0], s1[0], s2[0]);
            lemma_lex_lt_irreflexive(s2[0]);
        }
        assert(s1[0] == s2[0]);
        let t1 = s1.drop_first();
        let t2 = s2.drop_first();
        assert forall|x: Seq<char>| #[trigger] t1.contains(x) <==> t2.contains(x) by {
            if t1.contains(x) {
                let k = choose|k: int| 0 <= k < t1.len() && t1[k] == x;
                assert(s1[k + 1] == x);
                assert(s1.contains(x));
                assert(s2.contains(x));
                let m = choose|m: int| 0 <= m < s2.len() && s2[m] == x;
                assert(lex_lt(s1[0], s1[k + 1]));
                lemma_lex_lt_asymmetric(s1[0], s1[k + 1]);
                assert(m != 0);
                assert(t2[m - 1] == x);
            }
            if t2.contains(x) {
                let k = choose|k: int| 0 <= k < t2.len() && t2[k] == x;
                assert(s2[k + 1] == x);
                assert(s2.contains(x));
                assert(s1.contains(x));
                let m = choose|m: int| 0 <= m < s1.len() && s1[m] == x;
                assert(lex_lt(s2[0], s2[k + 1]));
                lemma_lex_lt_asymmetric(s2[0], s2[k + 1]);
                assert(m != 0);
                assert(t1[m - 1] == x);
            }
        }
        assert(strictly_sorted(t1)) by {
            assert forall|p: int, q: int| 0 <= p < q < t1.len() implies lex_lt(#[trigger] t1[p], #[trigger] t1[q]) by {
                assert(t1[p] == s1[p + 1] && t1[q] == s1[q + 1]);
            }
        }
        assert(strictly_sorted(t2)) by {
            assert forall|p: int, q: int| 0 <= p < q < t2.len() implies lex_lt(#[trigger] t2[p], #[trigger] t2[q]) by {
                assert(t2[p] == s2[p + 1] && t2[q] == s2[q + 1]);
            }
        }
        lemma_strictly_sorted_unique(t1, t2);
        assert(s1 =~= seq![s1[0]] + t1);
        assert(s2 =~= seq![s2[0]] + t2);
    }
}

/// Whether `a` comes strictly before `b`.
pub fn text_less(a: &Vec<char>, b: &Vec<char>) -> (r: bool)
    ensures
        r == lex_lt(a@, b@),
{
    let mut i: usize = 0;
    assert(a@.skip(0) =~= a@);
    assert(b@.skip(0) =~= b@);
    while i < a.len() && i < b.len() && a[i] == b[i]
        invariant
            i <= a.len(),
            i <= b.len(),
            lex_lt(a@, b@) == lex_lt(a@.skip(i as int), b@.skip(i as int)),
        decreases a.len() - i,
    {
        assert(a@.skip(i as int).drop_first() =~= a@.skip(i + 1));
        assert(b@.skip(i as int).drop_first() =~= b@.skip(i + 1));
        i += 1;
    }
    if i == a.len() {
        i < b.len()
    } else if i == b.len() {
        false
    } else {
        a[i] < b[i]
    }
}

/// Merges two sorted sets of texts into the sorted set of their union.
pub fn merge_unique(a: &Vec<Vec<char>>, b: &Vec<Vec<char>>) -> (out: Vec<Vec<char>>)
    requires
        strictly_sorted(texts(a@)),
        strictly_sorted(texts(b@)),
    ensures
        strictly_sorted(texts(out@)),
        forall|x: Seq<char>|
            #[trigger] texts(out@).contains(x) <==> texts(a@).contains(x) || texts(
                b@,
            ).contains(x),
{
    let ghost ta = texts(a@);
    let ghost tb = texts(b@);
    let mut out: Vec<Vec<char>> = Vec::new();
    let mut i: usize = 0;
    let mut j: usize = 0;
    while i < a.len() || j < b.len()
        invariant
            ta == texts(a@),
            tb == texts(b@),
            strictly_sorted(ta),
            strictly_sorted(tb),
            i <= a.len(),
            j <= b.len(),
            strictly_sorted(texts(out@)),
            forall|x: Seq<char>|
                #[trigger] texts(out@).contains(x) <==> ta.subrange(0, i as int).contains(x)
                    || tb.subrange(0, j as int).contains(x),
            out@.len() > 0 && i < a.len() ==> lex_lt(texts(out@).last(), ta[i as int]),
            out@.len() > 0 && j < b.len() ==> lex_lt(texts(out@).last(), tb[j as int]),
        decreases a.len() + b.len() - i - j,
    {
        let ghost old_out = texts(out@);
        let take_a: bool;
        let take_b: bool;
        if i < a.len() && j < b.len() {
            if text_less(&a[i], &b[j]) {
                take_a = true;
                take_b = false;
            } else if text_less(&b[j], &a[i]) {
                take_a = false;
                take_b = true;
            } else {
                proof {
                    lemma_lex_lt_total(ta[i as int], tb[j as int]);
                }
                take_a = true;
                take_b = true;
            }
        } else if i < a.len() {
            take_a = true;
            take_b = false;
        } else {
            take_a = false;
            take_b = true;
        }
        let ghost item: Seq<char> = if take_a {
            ta[i as int]
        } else {
            tb[j as int]
        };
        if take_a {
            out.push(a[i].clone());
        } else {
            out.push(b[j].clone());
        }
        proof {
            assert(texts(out@) =~= old_out.push(item));
            // The new item comes after everything already emitted.
            assert forall|p: int, q: int|
                0 <= p < q < texts(out@).len() implies lex_lt(
                #[trigger] texts(out@)[p],
                #[trigger] texts(out@)[q],
            ) by {
                if q == texts(out@).len() - 1 && p < q {
                    if p < old_out.len() - 1 {
                        lemma_lex_lt_transitive(old_out[p], old_out.last(), item);
                    }
                }
            }
            let ni: int = if take_a {
                i + 1
            } else {
                i as int
            };
            let nj: int = if take_b {
                j + 1
            } else {
                j as int
            };
            assert forall|x: Seq<char>| #[trigger]
                texts(out@).contains(x) <==> ta.subrange(0, ni).contains(x) || tb.subrange(
                    0,
                    nj,
                ).contains(x) by {
                if texts(out@).contains(x) {
                    let k = choose|k: int| 0 <= k < texts(out@).len() && texts(out@)[k] == x;
                    if k < old_out.len() {
                        assert(old_out[k] == x);
                        assert(old_out.contains(x));
                        if ta.subrange(0, i as int).contains(x) {
                            let r = choose|r: int| 0 <= r < i && ta.subrange(0, i as int)[r] == x;
                            assert(ta.subrange(0, ni)[r] == x);
                        } else {
                            let r = choose|r: int| 0 <= r < j && tb.subrange(0, j as int)[r] == x;
                            assert(tb.subrange(0, nj)[r] == x);
                        }
                    } else if take_a {
                        assert(ta.subrange(0, ni)[i as int] == x);
                    } else {
                        assert(tb.subrange(0, nj)[j as int] == x);
                    }
                }
                if ta.subrange(0, ni).contains(x) {
                    let r = choose|r: int| 0 <= r < ni && ta.subrange(0, ni)[r] == x;
                    if r < i {
                        assert(ta.subrange(0, i as int)[r] == x);
                        assert(old_out.contains(x));
                        let k = choose|k: int| 0 <= k < old_out.len() && old_out[k] == x;
                        assert(texts(out@)[k] == x);
                    } else {
                        assert(texts(out@)[old_out.len() as int] == x);
                    }
                }
                if tb.subrange(0, nj).contains(x) {
                    let r = choose|r: int| 0 <= r < nj && tb.subrange(0, nj)[r] == x;
                    if r < j {
                        assert(tb.subrange(0, j as int)[r] == x);
                        assert(old_out.contains(x));
                        let k = choose|k: int| 0 <= k < old_out.len() && old_out[k] == x;
                        assert(texts(out@)[k] == x);
                    } else {
                        assert(texts(out@)[old_out.len() as int] == x);
                    }
                }
            }
            if ni < a.len() {
                assert(lex_lt(ta[ni - 1], ta[ni]) || !take_a);
                if !take_a {
                    // item came from b and is before ta[i].
                    lemma_lex_lt_total(ta[i as int], tb[j as int]);
                    lemma_lex_lt_asymmetric(tb[j as int], ta[i as int]);
                }
            }
            if nj < b.len() {
                assert(lex_lt(tb[nj - 1], tb[nj]) || !take_b);
                if !take_b {
                    lemma_lex_lt_total(ta[i as int], tb[j as int]);
                }
                if take_a && take_b {
                    assert(item == tb[j as int]);
                }
            }
            if take_a && take_b {
                assert(item == tb[j as int]);
            }
        }
        if take_a {
            i += 1;
        }
        if take_b {
            j += 1;
        }
    }
    proof {
        assert(ta.subrange(0, a.len() as int) =~= ta);
        assert(tb.subrange(0, b.len() as int) =~= tb);
    }
    out
}

/// The sorted set of the texts `v[lo..hi]`.
pub fn sort_unique_range(v: &Vec<Vec<char>>, lo: usize, hi: usize) -> (out: Vec<Vec<char>>)
    requires
        lo <= hi <= v.len(),
    ensures
        strictly_sorted(texts(out@)),
        forall|x: Seq<char>| #[trigger]
            texts(out@).contains(x) <==> texts(v@).subrange(lo as int, hi as int).contains(x),
    decreases hi - lo,
{
    if hi - lo == 0 {
        let out: Vec<Vec<char>> = Vec::new();
        proof {
            assert(texts(out@) =~= Seq::<Seq<char>>::empty());
        }
        return out;
    }
    if hi - lo == 1 {
        let mut out: Vec<Vec<char>> = Vec::new();
        out.push(v[lo].clone());
        proof {
            assert(texts(out@) =~= texts(v@).subrange(lo as int, hi as int));
        }
        return out;
    }
    let mid = lo + (hi - lo) / 2;
    let left = sort_unique_range(v, lo, mid);
    let right = sort_unique_range(v, mid, hi);
    let out = merge_unique(&left, &right);
    proof {
        let whole = texts(v@).subrange(lo as int, hi as int);
        let l = texts(v@).subrange(lo as int, mid as int);
        let r = texts(v@).subrange(mid as int, hi as int);
        assert(whole =~= l + r);
        assert forall|x: Seq<char>| #[trigger] whole.contains(x) <==> l.contains(x) || r.contains(
            x,
        ) by {
            if whole.contains(x) {
                let k = choose|k: int| 0 <= k < whole.len() && whole[k] == x;
                if k < l.len() {
                    assert(l[k] == x);
                } else {
                    assert(r[k - l.len()] == x);
                }
            }
            if l.contains(x) {
                let k = choose|k: int| 0 <= k < l.len() && l[k] == x;
                assert(whole[k] == x);
            }
            if r.contains(x) {
                let k = choose|k: int| 0 <= k < r.len() && r[k] == x;
                assert(whole[k + l.len()] == x);
            }
        }
    }
    out
}

/// The sorted set of the texts in `v`.
pub fn sort_unique(v: &Vec<Vec<char>>) -> (out: Vec<Vec<char>>)
    ensures
        strictly_sorted(texts(out@)),
        forall|x: Seq<char>| #[trigger] texts(out@).contains(x) <==> texts(v@).contains(x),
{
    let out = sort_unique_range(v, 0, v.len());
    assert(texts(v@).subrange(0, v.len() as int) =~= texts(v@));
    out
}

/// Strings holding the given texts, in the same order.
pub fn strings_of(v: &Vec<Vec<char>>) -> (out: Vec<String>)
    ensures
        string_texts(out@) == texts(v@),
{
    let mut out: Vec<String> = Vec::new();
    let mut k: usize = 0;
    while k < v.len()
        invariant
            k <= v.len(),
            string_texts(out@) =~= texts(v@).take(k as int),
        decreases v.len() - k,
    {
        let s = crate::text::string_of(&v[k]);
        let ghost before = string_texts(out@);
        assert(texts(v@)[k as int] == s@);
        out.push(s);
        assert(string_texts(out@) =~= before.push(s@));
        assert(string_texts(out@) =~= texts(v@).take(k + 1));
        k += 1;
    }
    assert(texts(v@).take(k as int) =~= texts(v@));
    out
}

} // verus!
