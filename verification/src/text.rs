//! Algorithms on character sequences: equality, case folding, trimming,
//! splitting, substring search and lexicographic order.
//!
//! Every executable function returns exactly the value of its spec-level
//! counterpart, so the higher layers can state their contracts as equalities.

use vstd::prelude::*;

use crate::chars::char_is_ascii_alnum;
use crate::chars::char_is_space;
use crate::chars::char_to_lower;
use crate::chars::is_ascii_alnum_c;
use crate::chars::is_space_c;
use crate::chars::to_lower_c;

verus! {

broadcast use crate::chars::lemma_dv;

/// ASCII lowering of every character.
pub open spec fn lower_seq(s: Seq<char>) -> Seq<char> {
    s.map_values(|c: char| to_lower_c(c))
}

/// Keep ASCII alphanumerics only, lowered: the normalized key of a name.
pub open spec fn normalize_seq(s: Seq<char>) -> Seq<char>
    decreases s.len(),
{
    if s.len() == 0 {
        Seq::empty()
    } else if is_ascii_alnum_c(s.last()) {
        normalize_seq(s.drop_last()).push(to_lower_c(s.last()))
    } else {
        normalize_seq(s.drop_last())
    }
}

pub fn chars_eq(a: &Vec<char>, b: &Vec<char>) -> (r: bool)
    ensures
        r == (a@ == b@),
{
    if a.len() != b.len() {
        proof {
            assert(a@ != b@);
        }
        return false;
    }
    let n: usize = a.len();
    let mut i: usize = 0;
    while i < n
        invariant
            i <= n,
            n == a@.len() && n == b@.len(),
            forall|j: int| 0 <= j < i ==> a@[j] == b@[j],
        decreases n - i,
    {
        if a[i] != b[i] {
            proof {
                assert(a@[i as int] != b@[i as int]);
            }
            return false;
        }
        i = i + 1;
    }
    proof {
        assert(a@ =~= b@);
    }
    true
}

pub fn lower_chars(s: &Vec<char>) -> (r: Vec<char>)
    ensures
        r@ == lower_seq(s@),
{
    let n: usize = s.len();
    let mut r: Vec<char> = Vec::new();
    let mut i: usize = 0;
    while i < n
        invariant
            i <= n,
            n == s@.len(),
            r@ == lower_seq(s@.subrange(0, i as int)),
        decreases n - i,
    {
        r.push(char_to_lower(s[i]));
        i = i + 1;
        proof {
            assert(r@ =~= lower_seq(s@.subrange(0, i as int)));
        }
    }
    proof {
        assert(s@.subrange(0, n as int) =~= s@);
    }
    r
}

pub fn normalize_chars(s: &Vec<char>) -> (r: Vec<char>)
    ensures
        r@ == normalize_seq(s@),
{
    let n: usize = s.len();
    let mut r: Vec<char> = Vec::new();
    let mut i: usize = 0;
    while i < n
        invariant
            i <= n,
            n == s@.len(),
            r@ == normalize_seq(s@.subrange(0, i as int)),
        decreases n - i,
    {
        let c = s[i];
        if char_is_ascii_alnum(c) {
            r.push(char_to_lower(c));
        }
        i = i + 1;
        proof {
            let pre = s@.subrange(0, i as int);
            assert(pre.drop_last() =~= s@.subrange(0, i - 1));
            assert(pre.last() == s@[i - 1]);
        }
    }
    proof {
        assert(s@.subrange(0, n as int) =~= s@);
    }
    r
}

pub open spec fn trim_start_seq(s: Seq<char>) -> Seq<char>
    decreases s.len(),
{
    if s.len() == 0 {
        Seq::empty()
    } else if is_space_c(s.first()) {
        trim_start_seq(s.drop_first())
    } else {
        s
    }
}

pub open spec fn trim_end_seq(s: Seq<char>) -> Seq<char>
    decreases s.len(),
{
    if s.len() == 0 {
        Seq::empty()
    } else if is_space_c(s.last()) {
        trim_end_seq(s.drop_last())
    } else {
        s
    }
}

/// Leading and trailing ASCII whitespace removed.
pub open spec fn trim_seq(s: Seq<char>) -> Seq<char> {
    trim_end_seq(trim_start_seq(s))
}

/// A fresh vector holding `s[lo..hi]`.
pub fn copy_range(s: &Vec<char>, lo: usize, hi: usize) -> (r: Vec<char>)
    requires
        lo <= hi <= s@.len(),
    ensures
        r@ == s@.subrange(lo as int, hi as int),
{
    let mut r: Vec<char> = Vec::new();
    let mut i: usize = lo;
    while i < hi
        invariant
            lo <= i <= hi <= s@.len(),
            r@ == s@.subrange(lo as int, i as int),
        decreases hi - i,
    {
        r.push(s[i]);
        i = i + 1;
        proof {
            assert(r@ =~= s@.subrange(lo as int, i as int));
        }
    }
    r
}

pub fn trim_chars(s: &Vec<char>) -> (r: Vec<char>)
    ensures
        r@ == trim_seq(s@),
{
    let n: usize = s.len();
    proof {
        assert(s@.subrange(0, n as int) =~= s@);
    }
    let mut lo: usize = 0;
    while lo < n && char_is_space(s[lo])
        invariant
            lo <= n,
            n == s@.len(),
            trim_start_seq(s@) == trim_start_seq(s@.subrange(lo as int, n as int)),
        decreases n - lo,
    {
        proof {
            let t = s@.subrange(lo as int, n as int);
            assert(t.drop_first() =~= s@.subrange(lo + 1, n as int));
        }
        lo = lo + 1;
    }
    proof {
        let t = s@.subrange(lo as int, n as int);
        if lo < n {
            assert(!is_space_c(t.first()));
        }
        assert(trim_start_seq(s@) == t);
    }
    let mut hi: usize = n;
    while hi > lo && char_is_space(s[hi - 1])
        invariant
            lo <= hi <= n,
            n == s@.len(),
            trim_start_seq(s@) == s@.subrange(lo as int, n as int),
            trim_end_seq(s@.subrange(lo as int, n as int)) == trim_end_seq(
                s@.subrange(lo as int, hi as int),
            ),
        decreases hi,
    {
        proof {
            let t = s@.subrange(lo as int, hi as int);
            assert(t.last() == s@[hi - 1]);
            assert(t.drop_last() =~= s@.subrange(lo as int, hi - 1));
        }
        hi = hi - 1;
    }
    proof {
        let t = s@.subrange(lo as int, hi as int);
        if hi > lo {
            assert(!is_space_c(t.last()));
        }
        assert(trim_seq(s@) == t);
    }
    copy_range(s, lo, hi)
}

/// The needle `n` occurs in `h` starting at index `i`.
pub open spec fn is_sub_at(h: Seq<char>, n: Seq<char>, i: int) -> bool {
    0 <= i && i + n.len() <= h.len() && h.subrange(i, i + n.len()) == n
}

/// Substring containment, as `str::contains` reports it for string needles.
pub open spec fn contains_seq(h: Seq<char>, n: Seq<char>) -> bool {
    exists|i: int| is_sub_at(h, n, i)
}

fn window_eq(h: &Vec<char>, n: &Vec<char>, i: usize) -> (r: bool)
    requires
        i + n@.len() <= h@.len(),
    ensures
        r == is_sub_at(h@, n@, i as int),
{
    let m: usize = n.len();
    let hl: usize = h.len();
    let mut j: usize = 0;
    while j < m
        invariant
            j <= m,
            m == n@.len(),
            hl == h@.len(),
            i + m <= hl,
            forall|k: int| 0 <= k < j ==> h@[i + k] == n@[k],
        decreases m - j,
    {
        if h[i + j] != n[j] {
            proof {
                assert(h@.subrange(i as int, i + n@.len())[j as int] == h@[i + j]);
            }
            return false;
        }
        j = j + 1;
    }
    proof {
        assert(h@.subrange(i as int, i + n@.len()) =~= n@);
    }
    true
}

pub fn contains_chars(h: &Vec<char>, n: &Vec<char>) -> (r: bool)
    ensures
        r == contains_seq(h@, n@),
{
    let hn: usize = h.len();
    let m: usize = n.len();
    if m > hn {
        proof {
            assert(forall|i: int| !is_sub_at(h@, n@, i));
        }
        return false;
    }
    if m == 0 {
        proof {
            assert(h@.subrange(0, 0) =~= n@);
            assert(is_sub_at(h@, n@, 0));
        }
        return true;
    }
    let last: usize = hn - m;
    let mut i: usize = 0;
    while i <= last
        invariant
            1 <= m <= hn,
            hn == h@.len() && m == n@.len(),
            last == hn - m,
            i <= last + 1,
            forall|k: int| 0 <= k < i ==> !is_sub_at(h@, n@, k),
        decreases last + 1 - i,
    {
        if window_eq(h, n, i) {
            return true;
        }
        i = i + 1;
    }
    proof {
        assert(forall|k: int| k >= i ==> !is_sub_at(h@, n@, k));
    }
    false
}

/// Strict lexicographic order on character sequences by scalar value;
/// the order `str` comparison uses.
pub open spec fn lex_lt(a: Seq<char>, b: Seq<char>) -> bool
    decreases a.len(),
{
    if b.len() == 0 {
        false
    } else if a.len() == 0 {
        true
    } else if (a.first() as u32) < (b.first() as u32) {
        true
    } else if a.first() != b.first() {
        false
    } else {
        lex_lt(a.drop_first(), b.drop_first())
    }
}

pub fn chars_lt(a: &Vec<char>, b: &Vec<char>) -> (r: bool)
    ensures
        r == lex_lt(a@, b@),
{
    let na: usize = a.len();
    let nb: usize = b.len();
    proof {
        assert(a@.subrange(0, na as int) =~= a@);
        assert(b@.subrange(0, nb as int) =~= b@);
    }
    let mut i: usize = 0;
    loop
        invariant
            i <= na && i <= nb,
            na == a@.len() && nb == b@.len(),
            lex_lt(a@, b@) == lex_lt(
                a@.subrange(i as int, na as int),
                b@.subrange(i as int, nb as int),
            ),
        decreases na - i,
    {
        if i >= nb {
            proof {
                assert(b@.subrange(i as int, nb as int).len() == 0);
            }
            return false;
        }
        if i >= na {
            proof {
                assert(a@.subrange(i as int, na as int).len() == 0);
                assert(b@.subrange(i as int, nb as int).len() > 0);
            }
            return true;
        }
        let ca = a[i];
        let cb = b[i];
        proof {
            let sa = a@.subrange(i as int, na as int);
            let sb = b@.subrange(i as int, nb as int);
            assert(sa.first() == a@[i as int] && sb.first() == b@[i as int]);
            assert(sa.drop_first() =~= a@.subrange(i + 1, na as int));
            assert(sb.drop_first() =~= b@.subrange(i + 1, nb as int));
        }
        if (ca as u32) < (cb as u32) {
            return true;
        }
        if ca != cb {
            return false;
        }
        i = i + 1;
    }
}

/// The maximal non-whitespace runs of `s`, in order.
pub open spec fn split_ws(s: Seq<char>) -> Seq<Seq<char>>
    decreases s.len(),
{
    if s.len() == 0 {
        Seq::empty()
    } else {
        let rest = split_ws(s.drop_first());
        if is_space_c(s.first()) {
            rest
        } else if s.len() >= 2 && !is_space_c(s[1]) {
            seq![seq![s.first()] + rest.first()] + rest.drop_first()
        } else {
            seq![seq![s.first()]] + rest
        }
    }
}

/// Every word that `split_ws` yields is non-empty, and splitting a string
/// that starts with a non-space yields at least one word.
pub proof fn lemma_split_ws_words(s: Seq<char>)
    ensures
        forall|i: int| 0 <= i < split_ws(s).len() ==> (#[trigger] split_ws(s)[i]).len() > 0,
        s.len() > 0 && !is_space_c(s.first()) ==> split_ws(s).len() > 0,
    decreases s.len(),
{
    if s.len() > 0 {
        lemma_split_ws_words(s.drop_first());
        let rest = split_ws(s.drop_first());
        if !is_space_c(s.first()) && s.len() >= 2 && !is_space_c(s[1]) {
            assert(s.drop_first().first() == s[1]);
            assert forall|i: int| 0 <= i < split_ws(s).len() implies (#[trigger] split_ws(
                s,
            )[i]).len() > 0 by {
                if i > 0 {
                    assert(split_ws(s)[i] == rest.drop_first()[i - 1]);
                    assert(rest.drop_first()[i - 1] == rest[i]);
                }
            }
        }
    }
}

pub fn split_ws_chars(s: &Vec<char>) -> (r: Vec<Vec<char>>)
    ensures
        r.deep_view() == split_ws(s@),
{
    let n: usize = s.len();
    let mut r: Vec<Vec<char>> = Vec::new();
    let mut i: usize = n;
    proof {
        assert(s@.subrange(n as int, n as int) =~= Seq::<char>::empty());
    }
    while i > 0
        invariant
            i <= n,
            n == s@.len(),
            r.deep_view() == split_ws(s@.subrange(i as int, n as int)),
        decreases i,
    {
        i = i - 1;
        let c = s[i];
        proof {
            let suf = s@.subrange(i as int, n as int);
            assert(suf.first() == s@[i as int]);
            assert(suf.drop_first() =~= s@.subrange(i + 1, n as int));
            if suf.len() >= 2 {
                assert(suf[1] == s@[i + 1]);
            }
            lemma_split_ws_words(s@.subrange(i + 1, n as int));
        }
        if char_is_space(c) {
            // no word starts here
        } else if i + 1 < n && !char_is_space(s[i + 1]) {
            let ghost suf = s@.subrange(i as int, n as int);
            let ghost rest = split_ws(suf.drop_first());
            let mut w: Vec<char> = Vec::new();
            w.push(c);
            let mut head = r.remove(0);
            proof {
                assert(head@ == rest.first());
            }
            w.append(&mut head);
            proof {
                assert(w@ =~= seq![suf.first()] + rest.first());
            }
            r.insert(0, w);
            proof {
                assert(r.deep_view() =~= seq![seq![suf.first()] + rest.first()]
                    + rest.drop_first());
            }
        } else {
            let mut w: Vec<char> = Vec::new();
            w.push(c);
            proof {
                let suf = s@.subrange(i as int, n as int);
                assert(w@ =~= seq![suf.first()]);
            }
            r.insert(0, w);
            proof {
                let suf = s@.subrange(i as int, n as int);
                let rest = split_ws(suf.drop_first());
                assert(r.deep_view() =~= seq![seq![suf.first()]] + rest);
            }
        }
    }
    proof {
        assert(s@.subrange(0, n as int) =~= s@);
    }
    r
}

/// The words joined with a single space between neighbours.
pub open spec fn join_space(parts: Seq<Seq<char>>) -> Seq<char>
    decreases parts.len(),
{
    if parts.len() == 0 {
        Seq::empty()
    } else if parts.len() == 1 {
        parts[0]
    } else {
        join_space(parts.drop_last()) + seq![' '] + parts.last()
    }
}

pub fn join_space_chars(parts: &Vec<Vec<char>>) -> (r: Vec<char>)
    ensures
        r@ == join_space(parts.deep_view()),
{
    let n: usize = parts.len();
    let mut r: Vec<char> = Vec::new();
    let mut i: usize = 0;
    while i < n
        invariant
            i <= n,
            n == parts.deep_view().len(),
            n == parts@.len(),
            r@ == join_space(parts.deep_view().take(i as int)),
        decreases n - i,
    {
        if i > 0 {
            r.push(' ');
        }
        let mut j: usize = 0;
        let m: usize = parts[i].len();
        while j < m
            invariant
                j <= m,
                i < n,
                n == parts@.len(),
                m == parts@[i as int]@.len(),
                r@ == join_space(parts.deep_view().take(i as int)) + (if i > 0 {
                    seq![' ']
                } else {
                    Seq::<char>::empty()
                }) + parts@[i as int]@.subrange(0, j as int),
            decreases m - j,
        {
            let c = parts[i][j];
            r.push(c);
            j = j + 1;
            proof {
                assert(parts@[i as int]@.subrange(0, j as int) =~= parts@[
                    i as int]@.subrange(0, j - 1).push(parts@[i as int]@[j - 1]));
            }
        }
        i = i + 1;
        proof {
            let pv = parts.deep_view();
            assert(pv[i - 1] == parts@[i - 1]@);
            assert(parts@[i - 1]@.subrange(0, m as int) =~= pv[i - 1]);
            assert(pv.take(i as int).drop_last() =~= pv.take(i - 1));
            assert(pv.take(i as int).last() == pv[i - 1]);
            if i - 1 == 0 {
                assert(r@ =~= pv.take(i as int)[0]);
            }
        }
    }
    proof {
        assert(parts.deep_view().take(n as int) =~= parts.deep_view());
    }
    r
}

/// Index of the last occurrence of `c`, or -1 when absent.
pub open spec fn last_idx_of(s: Seq<char>, c: char) -> int
    decreases s.len(),
{
    if s.len() == 0 {
        -1
    } else if s.last() == c {
        s.len() - 1
    } else {
        last_idx_of(s.drop_last(), c)
    }
}

pub proof fn lemma_last_idx_of_range(s: Seq<char>, c: char)
    ensures
        -1 <= last_idx_of(s, c) < s.len(),
        last_idx_of(s, c) >= 0 ==> s[last_idx_of(s, c)] == c,
    decreases s.len(),
{
    if s.len() > 0 && s.last() != c {
        lemma_last_idx_of_range(s.drop_last(), c);
    }
}

pub fn find_last_idx(s: &Vec<char>, c: char) -> (r: Option<usize>)
    ensures
        match r {
            Some(i) => i < s@.len() && last_idx_of(s@, c) == i as int,
            None => last_idx_of(s@, c) == -1,
        },
{
    let mut i: usize = s.len();
    proof {
        assert(s@.subrange(0, s@.len() as int) =~= s@);
    }
    while i > 0
        invariant
            i <= s@.len(),
            last_idx_of(s@, c) == last_idx_of(s@.subrange(0, i as int), c),
        decreases i,
    {
        i = i - 1;
        proof {
            let pre = s@.subrange(0, i + 1);
            assert(pre.last() == s@[i as int]);
            assert(pre.drop_last() =~= s@.subrange(0, i as int));
        }
        if s[i] == c {
            return Some(i);
        }
    }
    None
}

/// `s` with every trailing occurrence of `c` removed.
pub open spec fn drop_trailing(s: Seq<char>, c: char) -> Seq<char>
    decreases s.len(),
{
    if s.len() == 0 {
        Seq::empty()
    } else if s.last() == c {
        drop_trailing(s.drop_last(), c)
    } else {
        s
    }
}

pub fn drop_trailing_chars(s: &Vec<char>, c: char) -> (r: Vec<char>)
    ensures
        r@ == drop_trailing(s@, c),
{
    let mut hi: usize = s.len();
    proof {
        assert(s@.subrange(0, s@.len() as int) =~= s@);
    }
    while hi > 0 && s[hi - 1] == c
        invariant
            hi <= s@.len(),
            drop_trailing(s@, c) == drop_trailing(s@.subrange(0, hi as int), c),
        decreases hi,
    {
        proof {
            let pre = s@.subrange(0, hi as int);
            assert(pre.last() == s@[hi - 1]);
            assert(pre.drop_last() =~= s@.subrange(0, hi - 1));
        }
        hi = hi - 1;
    }
    proof {
        let pre = s@.subrange(0, hi as int);
        if hi > 0 {
            assert(pre.last() == s@[hi - 1]);
        }
        assert(drop_trailing(s@, c) == pre);
    }
    copy_range(s, 0, hi)
}

/// Adjacent duplicates removed, keeping the first of each run.
pub open spec fn dedup_adj(s: Seq<Seq<char>>) -> Seq<Seq<char>>
    decreases s.len(),
{
    if s.len() <= 1 {
        s
    } else if s.last() == s[s.len() - 2] {
        dedup_adj(s.drop_last())
    } else {
        dedup_adj(s.drop_last()).push(s.last())
    }
}

pub proof fn lemma_dedup_adj_last(s: Seq<Seq<char>>)
    ensures
        s.len() > 0 ==> dedup_adj(s).len() > 0 && dedup_adj(s).last() == s.last(),
    decreases s.len(),
{
    if s.len() > 1 && s.last() == s[s.len() - 2] {
        lemma_dedup_adj_last(s.drop_last());
        assert(s.drop_last().last() == s[s.len() - 2]);
    }
}

pub fn dedup_adj_chars(v: Vec<Vec<char>>) -> (r: Vec<Vec<char>>)
    ensures
        r.deep_view() == dedup_adj(v.deep_view()),
{
    let n: usize = v.len();
    let mut r: Vec<Vec<char>> = Vec::new();
    let mut i: usize = 0;
    while i < n
        invariant
            i <= n,
            n == v@.len(),
            r.deep_view() == dedup_adj(v.deep_view().take(i as int)),
        decreases n - i,
    {
        proof {
            let pre = v.deep_view().take(i + 1);
            assert(pre.drop_last() =~= v.deep_view().take(i as int));
            assert(pre.last() == v.deep_view()[i as int]);
            lemma_dedup_adj_last(v.deep_view().take(i as int));
        }
        if r.len() > 0 && chars_eq(&r[r.len() - 1], &v[i]) {
            // equal to the previous element: skip
            proof {
                let pre = v.deep_view().take(i + 1);
                assert(pre[pre.len() - 2] == v.deep_view().take(i as int).last());
            }
        } else {
            let w = copy_range(&v[i], 0, v[i].len());
            proof {
                assert(w@ =~= v@[i as int]@);
                let pre = v.deep_view().take(i + 1);
                if i > 0 {
                    assert(pre[pre.len() - 2] == v.deep_view().take(i as int).last());
                }
            }
            r.push(w);
            proof {
                assert(r.deep_view() =~= dedup_adj(v.deep_view().take(i + 1)));
            }
        }
        i = i + 1;
    }
    proof {
        assert(v.deep_view().take(n as int) =~= v.deep_view());
    }
    r
}

/// Character-wise comparison of a string with a character vector.
pub fn str_eq_chars(s: &str, v: &Vec<char>) -> (r: bool)
    ensures
        r == (s@ == v@),
{
    let sv = crate::chars::string_to_chars(s);
    chars_eq(&sv, v)
}

/// Index of the first occurrence of `k` among `ks`, or -1 when absent.
pub open spec fn find_str_idx(ks: Seq<Seq<char>>, k: Seq<char>) -> int
    decreases ks.len(),
{
    if ks.len() == 0 {
        -1
    } else if ks[0] == k {
        0
    } else {
        let r = find_str_idx(ks.drop_first(), k);
        if r < 0 {
            -1
        } else {
            r + 1
        }
    }
}

pub proof fn lemma_find_str_idx(ks: Seq<Seq<char>>, k: Seq<char>)
    ensures
        -1 <= find_str_idx(ks, k) < ks.len(),
        find_str_idx(ks, k) >= 0 ==> ks[find_str_idx(ks, k)] == k,
        find_str_idx(ks, k) == -1 ==> forall|i: int| 0 <= i < ks.len() ==> ks[i] != k,
        forall|i: int| 0 <= i < find_str_idx(ks, k) ==> ks[i] != k,
    decreases ks.len(),
{
    if ks.len() > 0 && ks[0] != k {
        let d = ks.drop_first();
        lemma_find_str_idx(d, k);
        let r = find_str_idx(d, k);
        if r == -1 {
            assert forall|i: int| 0 <= i < ks.len() implies ks[i] != k by {
                if i >= 1 {
                    assert(d[i - 1] == ks[i]);
                }
            }
        } else {
            assert(ks[r + 1] == d[r]);
            assert forall|i: int| 0 <= i < r + 1 implies ks[i] != k by {
                if i >= 1 {
                    assert(d[i - 1] == ks[i]);
                }
            }
        }
    }
}

/// Appending a fresh pair leaves earlier lookups alone and makes the new
/// key found last.
pub proof fn lemma_find_str_idx_push(ks: Seq<Seq<char>>, k: Seq<char>, q: Seq<char>)
    ensures
        q != k ==> find_str_idx(ks.push(k), q) == (if find_str_idx(ks, q) >= 0 {
            find_str_idx(ks, q)
        } else {
            -1int
        }),
        find_str_idx(ks, k) < 0 ==> find_str_idx(ks.push(k), k) == ks.len(),
    decreases ks.len(),
{
    if ks.len() == 0 {
        assert(ks.push(k)[0] == k);
        assert(ks.push(k).drop_first() =~= Seq::<Seq<char>>::empty());
        assert(find_str_idx(ks, q) == -1);
        assert(find_str_idx(Seq::<Seq<char>>::empty(), q) == -1);
        if q != k {
            assert(find_str_idx(ks.push(k), q) == -1);
        }
        assert(find_str_idx(ks.push(k), k) == 0);
    } else {
        let d = ks.drop_first();
        lemma_find_str_idx_push(d, k, q);
        lemma_find_str_idx(d, q);
        lemma_find_str_idx(d, k);
        lemma_find_str_idx(d.push(k), q);
        lemma_find_str_idx(d.push(k), k);
        assert(ks.push(k)[0] == ks[0]);
        assert(ks.push(k).drop_first() =~= d.push(k));
        if q != k {
            if ks[0] == q {
                assert(find_str_idx(ks, q) == 0);
                assert(find_str_idx(ks.push(k), q) == 0);
            } else {
                assert(find_str_idx(ks.push(k), q) == (if find_str_idx(d.push(k), q) < 0 {
                    -1int
                } else {
                    find_str_idx(d.push(k), q) + 1
                }));
                assert(find_str_idx(ks, q) == (if find_str_idx(d, q) < 0 {
                    -1int
                } else {
                    find_str_idx(d, q) + 1
                }));
            }
        }
        if find_str_idx(ks, k) < 0 {
            assert(ks[0] != k);
            assert(find_str_idx(d, k) < 0);
            assert(find_str_idx(d.push(k), k) == d.len());
            assert(find_str_idx(ks.push(k), k) == d.len() + 1);
        }
    }
}

pub fn find_str(keys: &Vec<Vec<char>>, k: &Vec<char>) -> (r: Option<usize>)
    ensures
        match r {
            Some(i) => i < keys@.len() && find_str_idx(keys.deep_view(), k@) == i as int,
            None => find_str_idx(keys.deep_view(), k@) == -1,
        },
{
    let n: usize = keys.len();
    let mut i: usize = 0;
    proof {
        assert(keys.deep_view().skip(0) =~= keys.deep_view());
    }
    while i < n
        invariant
            i <= n,
            n == keys@.len(),
            find_str_idx(keys.deep_view(), k@) == (if find_str_idx(
                keys.deep_view().skip(i as int),
                k@,
            ) >= 0 {
                i + find_str_idx(keys.deep_view().skip(i as int), k@)
            } else {
                -1int
            }),
        decreases n - i,
    {
        proof {
            let suf = keys.deep_view().skip(i as int);
            assert(suf[0] == keys.deep_view()[i as int]);
            assert(suf.drop_first() =~= keys.deep_view().skip(i + 1));
            lemma_find_str_idx(keys.deep_view().skip(i + 1), k@);
        }
        if chars_eq(&keys[i], k) {
            return Some(i);
        }
        i = i + 1;
    }
    proof {
        assert(keys.deep_view().skip(n as int).len() == 0);
    }
    None
}

/// Membership of a character sequence in a list of them.
pub fn contains_string(v: &Vec<Vec<char>>, t: &Vec<char>) -> (r: bool)
    ensures
        r == v.deep_view().contains(t@),
{
    let n: usize = v.len();
    let mut i: usize = 0;
    while i < n
        invariant
            i <= n,
            n == v@.len(),
            forall|j: int| 0 <= j < i ==> v.deep_view()[j] != t@,
        decreases n - i,
    {
        if chars_eq(&v[i], t) {
            proof {
                assert(v.deep_view()[i as int] == t@);
            }
            return true;
        }
        i = i + 1;
    }
    proof {
        assert(forall|j: int| 0 <= j < v.deep_view().len() ==> v.deep_view()[j] != t@);
    }
    false
}


proof fn lemma_trim_start_first(s: Seq<char>)
    ensures
        trim_start_seq(s).len() > 0 ==> !is_space_c(trim_start_seq(s).first()),
    decreases s.len(),
{
    if s.len() > 0 && is_space_c(s.first()) {
        lemma_trim_start_first(s.drop_first());
    }
}

proof fn lemma_trim_end_prefix(s: Seq<char>)
    ensures
        trim_end_seq(s).len() <= s.len(),
        trim_end_seq(s) == s.take(trim_end_seq(s).len() as int),
        trim_end_seq(s).len() > 0 ==> !is_space_c(trim_end_seq(s).last()),
    decreases s.len(),
{
    if s.len() > 0 && is_space_c(s.last()) {
        lemma_trim_end_prefix(s.drop_last());
        assert(s.drop_last().take(trim_end_seq(s).len() as int) =~= s.take(
            trim_end_seq(s).len() as int,
        ));
    } else if s.len() > 0 {
        assert(trim_end_seq(s) == s);
        assert(s.take(s.len() as int) =~= s);
    } else {
        assert(s.take(0) =~= s);
    }
}

/// Trimming is idempotent.
pub proof fn lemma_trim_idem(s: Seq<char>)
    ensures
        trim_seq(trim_seq(s)) == trim_seq(s),
{
    let u = trim_start_seq(s);
    let t = trim_end_seq(u);
    lemma_trim_start_first(s);
    lemma_trim_end_prefix(u);
    if t.len() == 0 {
        assert(trim_start_seq(t) == t);
        assert(trim_end_seq(t) == t);
    } else {
        assert(t.first() == u.first()) by {
            assert(t == u.take(t.len() as int));
        }
        assert(u.len() > 0);
        assert(!is_space_c(t.first()));
        assert(trim_start_seq(t) == t);
        assert(!is_space_c(t.last()));
        assert(trim_end_seq(t) == t);
    }
}

} // verus!
