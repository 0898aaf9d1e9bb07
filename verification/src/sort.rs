//! Stable insertion sorts, by an ascending string key or by a descending
//! numeric key.
//!
//! The sorted result is pinned exactly by the spec-level insertion sort, so
//! callers get determinism and ordering from one equality.

use vstd::prelude::*;

use crate::text::lex_lt;

verus! {

/// A type ordered by a string key, ascending.
pub trait AscChars: Sized {
    spec fn skey(&self) -> Seq<char>;

    fn key_lt(&self, other: &Self) -> (r: bool)
        ensures
            r == lex_lt(self.skey(), other.skey()),
    ;
}

/// A type ordered by a numeric key, descending.
pub trait DescU64: Sized {
    spec fn dkey(&self) -> u64;

    fn key_gt(&self, other: &Self) -> (r: bool)
        ensures
            r == (self.dkey() > other.dkey()),
    ;
}

/// Stable insertion of `x` into an ascending-sorted sequence: `x` goes
/// after every element whose key is not greater than its own.
pub open spec fn insert_asc<T: AscChars>(sorted: Seq<T>, x: T) -> Seq<T>
    decreases sorted.len(),
{
    if sorted.len() == 0 {
        seq![x]
    } else if lex_lt(x.skey(), sorted.last().skey()) {
        insert_asc(sorted.drop_last(), x).push(sorted.last())
    } else {
        sorted.push(x)
    }
}

/// Stable ascending insertion sort.
pub open spec fn sort_asc<T: AscChars>(s: Seq<T>) -> Seq<T>
    decreases s.len(),
{
    if s.len() == 0 {
        Seq::empty()
    } else {
        insert_asc(sort_asc(s.drop_last()), s.last())
    }
}

proof fn lemma_insert_asc_at<T: AscChars>(sorted: Seq<T>, x: T, j: int)
    requires
        0 <= j <= sorted.len(),
        forall|m: int| j <= m < sorted.len() ==> lex_lt(x.skey(), (#[trigger] sorted[m]).skey()),
        j > 0 ==> !lex_lt(x.skey(), sorted[j - 1].skey()),
    ensures
        insert_asc(sorted, x) == sorted.take(j) + seq![x] + sorted.skip(j),
    decreases sorted.len(),
{
    if sorted.len() == 0 {
        assert(insert_asc(sorted, x) =~= sorted.take(j) + seq![x] + sorted.skip(j));
    } else if lex_lt(x.skey(), sorted.last().skey()) {
        assert(j < sorted.len());
        lemma_insert_asc_at(sorted.drop_last(), x, j);
        assert(insert_asc(sorted, x) =~= sorted.take(j) + seq![x] + sorted.skip(j));
    } else {
        assert(j == sorted.len());
        assert(insert_asc(sorted, x) =~= sorted.take(j) + seq![x] + sorted.skip(j));
    }
}

pub fn sort_by_key_asc<T: AscChars>(v: Vec<T>) -> (r: Vec<T>)
    ensures
        r@ == sort_asc(v@),
{
    let ghost orig = v@;
    let mut v = v;
    let mut r: Vec<T> = Vec::new();
    let mut k: usize = 0;
    let n: usize = v.len();
    while k < n
        invariant
            k <= n,
            n == orig.len(),
            v@ == orig.skip(k as int),
            r@ == sort_asc(orig.take(k as int)),
        decreases n - k,
    {
        let x = v.remove(0);
        proof {
            assert(x == orig[k as int]);
            assert(orig.skip(k as int).remove(0) =~= orig.skip(k + 1));
        }
        let mut j: usize = r.len();
        while j > 0 && x.key_lt(&r[j - 1])
            invariant
                j <= r@.len(),
                forall|m: int|
                    j <= m < r@.len() ==> lex_lt(x.skey(), (#[trigger] r@[m]).skey()),
            decreases j,
        {
            j = j - 1;
        }
        let ghost r0 = r@;
        let ghost gx = x;
        proof {
            lemma_insert_asc_at(r@, x, j as int);
        }
        r.insert(j, x);
        k = k + 1;
        proof {
            assert(orig.take(k as int).drop_last() =~= orig.take(k - 1));
            assert(orig.take(k as int).last() == orig[k - 1]);
            assert(r0.insert(j as int, gx) =~= r0.take(j as int) + seq![gx] + r0.skip(j as int));
        }
    }
    proof {
        assert(orig.take(n as int) =~= orig);
    }
    r
}

/// Stable insertion of `x` into a descending-sorted sequence.
pub open spec fn insert_desc<T: DescU64>(sorted: Seq<T>, x: T) -> Seq<T>
    decreases sorted.len(),
{
    if sorted.len() == 0 {
        seq![x]
    } else if x.dkey() > sorted.last().dkey() {
        insert_desc(sorted.drop_last(), x).push(sorted.last())
    } else {
        sorted.push(x)
    }
}

/// Stable descending insertion sort.
pub open spec fn sort_desc<T: DescU64>(s: Seq<T>) -> Seq<T>
    decreases s.len(),
{
    if s.len() == 0 {
        Seq::empty()
    } else {
        insert_desc(sort_desc(s.drop_last()), s.last())
    }
}

proof fn lemma_insert_desc_at<T: DescU64>(sorted: Seq<T>, x: T, j: int)
    requires
        0 <= j <= sorted.len(),
        forall|m: int| j <= m < sorted.len() ==> x.dkey() > (#[trigger] sorted[m]).dkey(),
        j > 0 ==> !(x.dkey() > sorted[j - 1].dkey()),
    ensures
        insert_desc(sorted, x) == sorted.take(j) + seq![x] + sorted.skip(j),
    decreases sorted.len(),
{
    if sorted.len() == 0 {
        assert(insert_desc(sorted, x) =~= sorted.take(j) + seq![x] + sorted.skip(j));
    } else if x.dkey() > sorted.last().dkey() {
        assert(j < sorted.len());
        lemma_insert_desc_at(sorted.drop_last(), x, j);
        assert(insert_desc(sorted, x) =~= sorted.take(j) + seq![x] + sorted.skip(j));
    } else {
        assert(j == sorted.len());
        assert(insert_desc(sorted, x) =~= sorted.take(j) + seq![x] + sorted.skip(j));
    }
}

pub fn sort_by_key_desc<T: DescU64>(v: Vec<T>) -> (r: Vec<T>)
    ensures
        r@ == sort_desc(v@),
{
    let ghost orig = v@;
    let mut v = v;
    let mut r: Vec<T> = Vec::new();
    let mut k: usize = 0;
    let n: usize = v.len();
    while k < n
        invariant
            k <= n,
            n == orig.len(),
            v@ == orig.skip(k as int),
            r@ == sort_desc(orig.take(k as int)),
        decreases n - k,
    {
        let x = v.remove(0);
        proof {
            assert(x == orig[k as int]);
            assert(orig.skip(k as int).remove(0) =~= orig.skip(k + 1));
        }
        let mut j: usize = r.len();
        while j > 0 && x.key_gt(&r[j - 1])
            invariant
                j <= r@.len(),
                forall|m: int| j <= m < r@.len() ==> x.dkey() > (#[trigger] r@[m]).dkey(),
            decreases j,
        {
            j = j - 1;
        }
        let ghost r0 = r@;
        let ghost gx = x;
        proof {
            lemma_insert_desc_at(r@, x, j as int);
        }
        r.insert(j, x);
        k = k + 1;
        proof {
            assert(orig.take(k as int).drop_last() =~= orig.take(k - 1));
            assert(orig.take(k as int).last() == orig[k - 1]);
            assert(r0.insert(j as int, gx) =~= r0.take(j as int) + seq![gx] + r0.skip(j as int));
        }
    }
    proof {
        assert(orig.take(n as int) =~= orig);
    }
    r
}

/// The element-wise deep view of a sequence.
pub open spec fn dv_seq<T: DeepView>(s: Seq<T>) -> Seq<T::V> {
    s.map_values(|t: T| t.deep_view())
}

/// Model-level stable ascending insertion, keyed by `key`.
pub open spec fn insert_asc_m<P>(sorted: Seq<P>, x: P, key: spec_fn(P) -> Seq<char>) -> Seq<P>
    decreases sorted.len(),
{
    if sorted.len() == 0 {
        seq![x]
    } else if lex_lt(key(x), key(sorted.last())) {
        insert_asc_m(sorted.drop_last(), x, key).push(sorted.last())
    } else {
        sorted.push(x)
    }
}

/// Model-level stable ascending insertion sort, keyed by `key`.
pub open spec fn sort_asc_m<P>(s: Seq<P>, key: spec_fn(P) -> Seq<char>) -> Seq<P>
    decreases s.len(),
{
    if s.len() == 0 {
        Seq::empty()
    } else {
        insert_asc_m(sort_asc_m(s.drop_last(), key), s.last(), key)
    }
}

proof fn lemma_insert_asc_commute<T: AscChars + DeepView>(
    sorted: Seq<T>,
    x: T,
    key: spec_fn(T::V) -> Seq<char>,
)
    requires
        forall|t: T| key(#[trigger] t.deep_view()) == t.skey(),
    ensures
        dv_seq(insert_asc(sorted, x)) == insert_asc_m(dv_seq(sorted), x.deep_view(), key),
    decreases sorted.len(),
{
    if sorted.len() == 0 {
        assert(dv_seq(insert_asc(sorted, x)) =~= insert_asc_m(
            dv_seq(sorted),
            x.deep_view(),
            key,
        ));
    } else {
        assert(dv_seq(sorted).last() == sorted.last().deep_view());
        assert(dv_seq(sorted.drop_last()) =~= dv_seq(sorted).drop_last());
        if lex_lt(x.skey(), sorted.last().skey()) {
            lemma_insert_asc_commute(sorted.drop_last(), x, key);
            assert(dv_seq(insert_asc(sorted, x)) =~= dv_seq(
                insert_asc(sorted.drop_last(), x),
            ).push(sorted.last().deep_view()));
            assert(insert_asc_m(dv_seq(sorted), x.deep_view(), key) == insert_asc_m(
                dv_seq(sorted).drop_last(),
                x.deep_view(),
                key,
            ).push(dv_seq(sorted).last()));
        } else {
            assert(dv_seq(insert_asc(sorted, x)) =~= dv_seq(sorted).push(x.deep_view()));
        }
    }
}

/// Sorting commutes with taking deep views, when the exec key is the model
/// key of the view.
pub proof fn lemma_sort_asc_commute<T: AscChars + DeepView>(
    s: Seq<T>,
    key: spec_fn(T::V) -> Seq<char>,
)
    requires
        forall|t: T| key(#[trigger] t.deep_view()) == t.skey(),
    ensures
        dv_seq(sort_asc(s)) == sort_asc_m(dv_seq(s), key),
    decreases s.len(),
{
    if s.len() == 0 {
        assert(dv_seq(sort_asc(s)) =~= sort_asc_m(dv_seq(s), key));
    } else {
        lemma_sort_asc_commute(s.drop_last(), key);
        lemma_insert_asc_commute(sort_asc(s.drop_last()), s.last(), key);
        assert(dv_seq(s.drop_last()) =~= dv_seq(s).drop_last());
        assert(dv_seq(s).last() == s.last().deep_view());
    }
}

/// Model-level stable descending insertion, by a numeric key.
pub open spec fn insert_desc_m<P>(sorted: Seq<P>, x: P, key: spec_fn(P) -> u64) -> Seq<P>
    decreases sorted.len(),
{
    if sorted.len() == 0 {
        seq![x]
    } else if key(x) > key(sorted.last()) {
        insert_desc_m(sorted.drop_last(), x, key).push(sorted.last())
    } else {
        sorted.push(x)
    }
}

/// Model-level stable descending insertion sort, by a numeric key.
pub open spec fn sort_desc_m<P>(s: Seq<P>, key: spec_fn(P) -> u64) -> Seq<P>
    decreases s.len(),
{
    if s.len() == 0 {
        Seq::empty()
    } else {
        insert_desc_m(sort_desc_m(s.drop_last(), key), s.last(), key)
    }
}

proof fn lemma_insert_desc_commute<T: DescU64 + DeepView>(
    sorted: Seq<T>,
    x: T,
    key: spec_fn(T::V) -> u64,
)
    requires
        forall|t: T| key(#[trigger] t.deep_view()) == t.dkey(),
    ensures
        dv_seq(insert_desc(sorted, x)) == insert_desc_m(dv_seq(sorted), x.deep_view(), key),
    decreases sorted.len(),
{
    if sorted.len() == 0 {
        assert(dv_seq(insert_desc(sorted, x)) =~= insert_desc_m(
            dv_seq(sorted),
            x.deep_view(),
            key,
        ));
    } else {
        assert(dv_seq(sorted).last() == sorted.last().deep_view());
        assert(dv_seq(sorted.drop_last()) =~= dv_seq(sorted).drop_last());
        if x.dkey() > sorted.last().dkey() {
            lemma_insert_desc_commute(sorted.drop_last(), x, key);
            assert(dv_seq(insert_desc(sorted, x)) =~= dv_seq(
                insert_desc(sorted.drop_last(), x),
            ).push(sorted.last().deep_view()));
            assert(insert_desc_m(dv_seq(sorted), x.deep_view(), key) == insert_desc_m(
                dv_seq(sorted).drop_last(),
                x.deep_view(),
                key,
            ).push(dv_seq(sorted).last()));
        } else {
            assert(dv_seq(insert_desc(sorted, x)) =~= dv_seq(sorted).push(x.deep_view()));
        }
    }
}

/// Descending sorting commutes with taking deep views as well.
pub proof fn lemma_sort_desc_commute<T: DescU64 + DeepView>(
    s: Seq<T>,
    key: spec_fn(T::V) -> u64,
)
    requires
        forall|t: T| key(#[trigger] t.deep_view()) == t.dkey(),
    ensures
        dv_seq(sort_desc(s)) == sort_desc_m(dv_seq(s), key),
    decreases s.len(),
{
    if s.len() == 0 {
        assert(dv_seq(sort_desc(s)) =~= sort_desc_m(dv_seq(s), key));
    } else {
        lemma_sort_desc_commute(s.drop_last(), key);
        lemma_insert_desc_commute(sort_desc(s.drop_last()), s.last(), key);
        assert(dv_seq(s.drop_last()) =~= dv_seq(s).drop_last());
        assert(dv_seq(s).last() == s.last().deep_view());
    }
}



/// No inversion: earlier keys are never strictly greater.
pub open spec fn sorted_by_key_m<P>(s: Seq<P>, key: spec_fn(P) -> Seq<char>) -> bool {
    forall|i: int, j: int| 0 <= i < j < s.len() ==> !lex_lt(key(#[trigger] s[j]), key(#[trigger] s[i]))
}

proof fn lemma_lex_lt_asym(a: Seq<char>, b: Seq<char>)
    ensures
        lex_lt(a, b) ==> !lex_lt(b, a),
    decreases a.len(),
{
    if a.len() > 0 && b.len() > 0 && a.first() == b.first() {
        lemma_lex_lt_asym(a.drop_first(), b.drop_first());
    }
}

proof fn lemma_insert_asc_m_sorted<P>(sorted: Seq<P>, x: P, key: spec_fn(P) -> Seq<char>)
    requires
        sorted_by_key_m(sorted, key),
    ensures
        sorted_by_key_m(insert_asc_m(sorted, x, key), key),
        forall|j: int|
            0 <= j < insert_asc_m(sorted, x, key).len() ==> (#[trigger] insert_asc_m(
                sorted,
                x,
                key,
            )[j]) == x || sorted.contains(insert_asc_m(sorted, x, key)[j]),
    decreases sorted.len(),
{
    let out = insert_asc_m(sorted, x, key);
    if sorted.len() == 0 {
        assert(out =~= seq![x]);
    } else if lex_lt(key(x), key(sorted.last())) {
        let d = sorted.drop_last();
        assert forall|i: int, j: int| 0 <= i < j < d.len() implies !lex_lt(
            key(#[trigger] d[j]),
            key(#[trigger] d[i]),
        ) by {
            assert(d[i] == sorted[i] && d[j] == sorted[j]);
        }
        lemma_insert_asc_m_sorted(d, x, key);
        let inner = insert_asc_m(d, x, key);
        lemma_insert_asc_m_len(d, x, key);
        assert(out =~= inner.push(sorted.last()));
        lemma_lex_lt_asym(key(x), key(sorted.last()));
        assert forall|i: int, j: int| 0 <= i < j < out.len() implies !lex_lt(
            key(#[trigger] out[j]),
            key(#[trigger] out[i]),
        ) by {
            if j == out.len() - 1 {
                assert(out[j] == sorted.last());
                assert(out[i] == inner[i]);
                if inner[i] == x {
                    assert(!lex_lt(key(sorted.last()), key(x)));
                } else {
                    assert(sorted.contains(inner[i]));
                    let w = choose|w: int| 0 <= w < sorted.len() && sorted[w] == inner[i];
                    if w < sorted.len() - 1 {
                        assert(!lex_lt(key(sorted.last()), key(sorted[w])));
                    }
                }
            } else {
                assert(out[i] == inner[i] && out[j] == inner[j]);
            }
        }
        assert forall|j: int| 0 <= j < out.len() implies (#[trigger] out[j]) == x
            || sorted.contains(out[j]) by {
            if j == out.len() - 1 {
                assert(sorted.contains(sorted.last()));
            } else {
                assert(out[j] == inner[j]);
                if inner[j] != x {
                    assert(d.contains(inner[j]));
                    let w = choose|w: int| 0 <= w < d.len() && d[w] == inner[j];
                    assert(sorted[w] == d[w]);
                }
            }
        }
    } else {
        assert(out =~= sorted.push(x));
        assert forall|i: int, j: int| 0 <= i < j < out.len() implies !lex_lt(
            key(#[trigger] out[j]),
            key(#[trigger] out[i]),
        ) by {
            if j == out.len() - 1 {
                assert(out[j] == x && out[i] == sorted[i]);
                // x is not below the last element, and the last is not
                // below any earlier one, so x is not below any element
                if i < sorted.len() - 1 {
                    assert(!lex_lt(key(sorted.last()), key(sorted[i])));
                    lemma_lex_lt_helper(key(x), key(sorted.last()), key(sorted[i]));
                }
            }
        }
        assert(forall|j: int|
            0 <= j < sorted.len() ==> sorted.contains(#[trigger] sorted[j]));
    }
}

/// From not(a < b) and not(b < c) follows not(a < c).
proof fn lemma_lex_lt_helper(a: Seq<char>, b: Seq<char>, c: Seq<char>)
    requires
        !lex_lt(a, b),
        !lex_lt(b, c),
    ensures
        !lex_lt(a, c),
    decreases a.len() + b.len() + c.len(),
{
    if c.len() == 0 {
    } else if b.len() == 0 {
        assert(lex_lt(b, c));
    } else if a.len() == 0 {
        assert(lex_lt(a, b));
    } else {
        let au = a.first() as u32;
        let bu = b.first() as u32;
        let cu = c.first() as u32;
        assert(au >= bu && bu >= cu);
        if a.first() == b.first() && b.first() == c.first() {
            lemma_lex_lt_helper(a.drop_first(), b.drop_first(), c.drop_first());
        } else if a.first() != b.first() {
            vstd::utf8::char_u32_cast(a.first(), au);
            vstd::utf8::char_u32_cast(b.first(), bu);
            assert(au != bu);
            assert(au > cu);
        } else {
            vstd::utf8::char_u32_cast(b.first(), bu);
            vstd::utf8::char_u32_cast(c.first(), cu);
            assert(bu != cu);
            assert(au > cu);
        }
    }
}

/// The model sort is sorted by its key and draws every element from its
/// input.
pub proof fn lemma_sort_asc_m_sorted<P>(s: Seq<P>, key: spec_fn(P) -> Seq<char>)
    ensures
        sorted_by_key_m(sort_asc_m(s, key), key),
        forall|j: int|
            0 <= j < sort_asc_m(s, key).len() ==> s.contains(#[trigger] sort_asc_m(s, key)[j]),
    decreases s.len(),
{
    if s.len() > 0 {
        lemma_sort_asc_m_sorted(s.drop_last(), key);
        lemma_insert_asc_m_sorted(sort_asc_m(s.drop_last(), key), s.last(), key);
        let out = sort_asc_m(s, key);
        let inner = sort_asc_m(s.drop_last(), key);
        assert forall|j: int| 0 <= j < out.len() implies s.contains(#[trigger] out[j]) by {
            if out[j] == s.last() {
                assert(s[s.len() - 1] == s.last());
            } else {
                assert(inner.contains(out[j]));
                let w = choose|w: int| 0 <= w < inner.len() && inner[w] == out[j];
                assert(s.drop_last().contains(out[j]));
                let v = choose|v: int| 0 <= v < s.drop_last().len() && s.drop_last()[v] == out[
                    j];
                assert(s[v] == s.drop_last()[v]);
            }
        }
    }
}

/// The identity key on character sequences, as one shared term.
pub open spec fn str_key_fn() -> spec_fn(Seq<char>) -> Seq<char> {
    |x: Seq<char>| x
}

/// Plain ascending sort of character sequences.
pub open spec fn sort_str(s: Seq<Seq<char>>) -> Seq<Seq<char>> {
    sort_asc_m(s, str_key_fn())
}

/// Exec sorting of character vectors matches `sort_str` of the views.
pub proof fn lemma_sort_str(s: Seq<Vec<char>>)
    ensures
        dv_seq(sort_asc(s)) == sort_str(dv_seq(s)),
{
    assert forall|t: Vec<char>| str_key_fn()(#[trigger] t.deep_view()) == t.skey() by {
        assert(t.deep_view() =~= t@);
    }
    lemma_sort_asc_commute(s, str_key_fn());
}


pub proof fn lemma_insert_asc_m_len<P>(sorted: Seq<P>, x: P, key: spec_fn(P) -> Seq<char>)
    ensures
        insert_asc_m(sorted, x, key).len() == sorted.len() + 1,
    decreases sorted.len(),
{
    if sorted.len() > 0 && lex_lt(key(x), key(sorted.last())) {
        lemma_insert_asc_m_len(sorted.drop_last(), x, key);
    }
}

/// Sorting keeps the length.
pub proof fn lemma_sort_asc_m_len<P>(s: Seq<P>, key: spec_fn(P) -> Seq<char>)
    ensures
        sort_asc_m(s, key).len() == s.len(),
    decreases s.len(),
{
    if s.len() > 0 {
        lemma_sort_asc_m_len(s.drop_last(), key);
        lemma_insert_asc_m_len(sort_asc_m(s.drop_last(), key), s.last(), key);
    }
}

impl AscChars for Vec<char> {
    open spec fn skey(&self) -> Seq<char> {
        self@
    }

    fn key_lt(&self, other: &Self) -> (r: bool) {
        crate::text::chars_lt(self, other)
    }
}

} // verus!
