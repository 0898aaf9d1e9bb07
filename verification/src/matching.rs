//! Token derivation and the scored folder attribution.

use vstd::prelude::*;

use crate::chars::is_ascii_alnum_c;
use crate::chars::is_ascii_digit_c;
use crate::chars::char_is_ascii_alnum;
use crate::chars::char_is_ascii_digit;
use crate::chars::string_to_chars;
use crate::chars::chars_to_string;
use crate::text::chars_eq;
use crate::text::contains_seq;
use crate::text::contains_chars;
use crate::text::contains_string;
use crate::text::dedup_adj;
use crate::text::dedup_adj_chars;
use crate::text::lower_seq;
use crate::text::lower_chars;
use crate::text::normalize_seq;
use crate::text::normalize_chars;
use crate::text::split_ws;
use crate::text::split_ws_chars;
use crate::text::find_str_idx;
use crate::sort::sort_by_key_asc;
use crate::sort::dv_seq;
use crate::uninstall::UninstallEntry;
use crate::uninstall::EntryModel;

verus! {

broadcast use {crate::chars::lemma_dv, crate::chars::lemma_vec_dv};

/// A name stop word: too generic to attribute a folder to a program.
pub open spec fn spec_is_stop_name(t: Seq<char>) -> bool {
    ||| t == seq!['w', 'i', 'n', 'd', 'o', 'w', 's']
    ||| t == seq!['u', 'p', 'd', 'a', 't', 'e']
    ||| t == seq!['i', 'n', 's', 't', 'a', 'l', 'l', 'e', 'r']
    ||| t == seq!['s', 'e', 't', 'u', 'p']
    ||| t == seq!['r', 'u', 'n', 't', 'i', 'm', 'e']
    ||| t == seq!['r', 'e', 'd', 'i', 's', 't', 'r', 'i', 'b', 'u', 't', 'a', 'b', 'l', 'e']
    ||| t == seq!['d', 'r', 'i', 'v', 'e', 'r']
    ||| t == seq!['t', 'o', 'o', 'l']
    ||| t == seq!['t', 'o', 'o', 'l', 's']
    ||| t == seq!['p', 'l', 'u', 'g', 'i', 'n']
    ||| t == seq!['s', 'e', 'r', 'v', 'i', 'c', 'e']
    ||| t == seq!['s', 'd', 'k']
    ||| t == seq!['f', 'o', 'r']
    ||| t == seq!['a', 'n', 'd']
    ||| t == seq!['t', 'h', 'e']
    ||| t == seq!['a', 'p', 'p']
}

/// A publisher stop word: a legal form or a generic industry word.
pub open spec fn spec_is_stop_publisher(t: Seq<char>) -> bool {
    ||| t == seq!['m', 'i', 'c', 'r', 'o', 's', 'o', 'f', 't']
    ||| t == seq!['n', 'v', 'i', 'd', 'i', 'a']
    ||| t == seq!['c', 'o', 'r', 'p', 'o', 'r', 'a', 't', 'i', 'o', 'n']
    ||| t == seq!['c', 'o', 'r', 'p']
    ||| t == seq!['i', 'n', 'c']
    ||| t == seq!['l', 't', 'd']
    ||| t == seq!['l', 'l', 'c']
    ||| t == seq!['c', 'o']
    ||| t == seq!['c', 'o', 'm', 'p', 'a', 'n', 'y']
    ||| t == seq!['l', 'i', 'm', 'i', 't', 'e', 'd']
    ||| t == seq!['g', 'm', 'b', 'h']
    ||| t == seq!['s', 'a', 'r', 'l']
    ||| t == seq!['p', 't', 'y']
    ||| t == seq!['p', 'l', 'c']
    ||| t == seq!['s', 'o', 'f', 't', 'w', 'a', 'r', 'e']
    ||| t == seq!['s', 'y', 's', 't', 'e', 'm', 's']
    ||| t == seq!['s', 'y', 's', 't', 'e', 'm']
    ||| t == seq!['t', 'e', 'c', 'h', 'n', 'o', 'l', 'o', 'g', 'i', 'e', 's']
    ||| t == seq!['t', 'e', 'c', 'h', 'n', 'o', 'l', 'o', 'g', 'y']
    ||| t == seq!['s', 'o', 'l', 'u', 't', 'i', 'o', 'n']
    ||| t == seq!['s', 'o', 'l', 'u', 't', 'i', 'o', 'n', 's']
}

fn is_stop_name_chars(t: &Vec<char>) -> (r: bool)
    ensures
        r == spec_is_stop_name(t@),
{
    {
        let w: Vec<char> = vec!['w', 'i', 'n', 'd', 'o', 'w', 's'];
        proof {
            assert(w@ =~= seq!['w', 'i', 'n', 'd', 'o', 'w', 's']);
        }
        if chars_eq(t, &w) {
            return true;
        }
    }
    {
        let w: Vec<char> = vec!['u', 'p', 'd', 'a', 't', 'e'];
        proof {
            assert(w@ =~= seq!['u', 'p', 'd', 'a', 't', 'e']);
        }
        if chars_eq(t, &w) {
            return true;
        }
    }
    {
        let w: Vec<char> = vec!['i', 'n', 's', 't', 'a', 'l', 'l', 'e', 'r'];
        proof {
            assert(w@ =~= seq!['i', 'n', 's', 't', 'a', 'l', 'l', 'e', 'r']);
        }
        if chars_eq(t, &w) {
            return true;
        }
    }
    {
        let w: Vec<char> = vec!['s', 'e', 't', 'u', 'p'];
        proof {
            assert(w@ =~= seq!['s', 'e', 't', 'u', 'p']);
        }
        if chars_eq(t, &w) {
            return true;
        }
    }
    {
        let w: Vec<char> = vec!['r', 'u', 'n', 't', 'i', 'm', 'e'];
        proof {
            assert(w@ =~= seq!['r', 'u', 'n', 't', 'i', 'm', 'e']);
        }
        if chars_eq(t, &w) {
            return true;
        }
    }
    {
        let w: Vec<char> = vec!['r', 'e', 'd', 'i', 's', 't', 'r', 'i', 'b', 'u', 't', 'a', 'b', 'l', 'e'];
        proof {
            assert(w@ =~= seq!['r', 'e', 'd', 'i', 's', 't', 'r', 'i', 'b', 'u', 't', 'a', 'b', 'l', 'e']);
        }
        if chars_eq(t, &w) {
            return true;
        }
    }
    {
        let w: Vec<char> = vec!['d', 'r', 'i', 'v', 'e', 'r'];
        proof {
            assert(w@ =~= seq!['d', 'r', 'i', 'v', 'e', 'r']);
        }
        if chars_eq(t, &w) {
            return true;
        }
    }
    {
        let w: Vec<char> = vec!['t', 'o', 'o', 'l'];
        proof {
            assert(w@ =~= seq!['t', 'o', 'o', 'l']);
        }
        if chars_eq(t, &w) {
            return true;
        }
    }
    {
        let w: Vec<char> = vec!['t', 'o', 'o', 'l', 's'];
        proof {
            assert(w@ =~= seq!['t', 'o', 'o', 'l', 's']);
        }
        if chars_eq(t, &w) {
            return true;
        }
    }
    {
        let w: Vec<char> = vec!['p', 'l', 'u', 'g', 'i', 'n'];
        proof {
            assert(w@ =~= seq!['p', 'l', 'u', 'g', 'i', 'n']);
        }
        if chars_eq(t, &w) {
            return true;
        }
    }
    {
        let w: Vec<char> = vec!['s', 'e', 'r', 'v', 'i', 'c', 'e'];
        proof {
            assert(w@ =~= seq!['s', 'e', 'r', 'v', 'i', 'c', 'e']);
        }
        if chars_eq(t, &w) {
            return true;
        }
    }
    {
        let w: Vec<char> = vec!['s', 'd', 'k'];
        proof {
            assert(w@ =~= seq!['s', 'd', 'k']);
        }
        if chars_eq(t, &w) {
            return true;
        }
    }
    {
        let w: Vec<char> = vec!['f', 'o', 'r'];
        proof {
            assert(w@ =~= seq!['f', 'o', 'r']);
        }
        if chars_eq(t, &w) {
            return true;
        }
    }
    {
        let w: Vec<char> = vec!['a', 'n', 'd'];
        proof {
            assert(w@ =~= seq!['a', 'n', 'd']);
        }
        if chars_eq(t, &w) {
            return true;
        }
    }
    {
        let w: Vec<char> = vec!['t', 'h', 'e'];
        proof {
            assert(w@ =~= seq!['t', 'h', 'e']);
        }
        if chars_eq(t, &w) {
            return true;
        }
    }
    {
        let w: Vec<char> = vec!['a', 'p', 'p'];
        proof {
            assert(w@ =~= seq!['a', 'p', 'p']);
        }
        if chars_eq(t, &w) {
            return true;
        }
    }
    false
}

fn is_stop_publisher_chars(t: &Vec<char>) -> (r: bool)
    ensures
        r == spec_is_stop_publisher(t@),
{
    {
        let w: Vec<char> = vec!['m', 'i', 'c', 'r', 'o', 's', 'o', 'f', 't'];
        proof {
            assert(w@ =~= seq!['m', 'i', 'c', 'r', 'o', 's', 'o', 'f', 't']);
        }
        if chars_eq(t, &w) {
            return true;
        }
    }
    {
        let w: Vec<char> = vec!['n', 'v', 'i', 'd', 'i', 'a'];
        proof {
            assert(w@ =~= seq!['n', 'v', 'i', 'd', 'i', 'a']);
        }
        if chars_eq(t, &w) {
            return true;
        }
    }
    {
        let w: Vec<char> = vec!['c', 'o', 'r', 'p', 'o', 'r', 'a', 't', 'i', 'o', 'n'];
        proof {
            assert(w@ =~= seq!['c', 'o', 'r', 'p', 'o', 'r', 'a', 't', 'i', 'o', 'n']);
        }
        if chars_eq(t, &w) {
            return true;
        }
    }
    {
        let w: Vec<char> = vec!['c', 'o', 'r', 'p'];
        proof {
            assert(w@ =~= seq!['c', 'o', 'r', 'p']);
        }
        if chars_eq(t, &w) {
            return true;
        }
    }
    {
        let w: Vec<char> = vec!['i', 'n', 'c'];
        proof {
            assert(w@ =~= seq!['i', 'n', 'c']);
        }
        if chars_eq(t, &w) {
            return true;
        }
    }
    {
        let w: Vec<char> = vec!['l', 't', 'd'];
        proof {
            assert(w@ =~= seq!['l', 't', 'd']);
        }
        if chars_eq(t, &w) {
            return true;
        }
    }
    {
        let w: Vec<char> = vec!['l', 'l', 'c'];
        proof {
            assert(w@ =~= seq!['l', 'l', 'c']);
        }
        if chars_eq(t, &w) {
            return true;
        }
    }
    {
        let w: Vec<char> = vec!['c', 'o'];
        proof {
            assert(w@ =~= seq!['c', 'o']);
        }
        if chars_eq(t, &w) {
            return true;
        }
    }
    {
        let w: Vec<char> = vec!['c', 'o', 'm', 'p', 'a', 'n', 'y'];
        proof {
            assert(w@ =~= seq!['c', 'o', 'm', 'p', 'a', 'n', 'y']);
        }
        if chars_eq(t, &w) {
            return true;
        }
    }
    {
        let w: Vec<char> = vec!['l', 'i', 'm', 'i', 't', 'e', 'd'];
        proof {
            assert(w@ =~= seq!['l', 'i', 'm', 'i', 't', 'e', 'd']);
        }
        if chars_eq(t, &w) {
            return true;
        }
    }
    {
        let w: Vec<char> = vec!['g', 'm', 'b', 'h'];
        proof {
            assert(w@ =~= seq!['g', 'm', 'b', 'h']);
        }
        if chars_eq(t, &w) {
            return true;
        }
    }
    {
        let w: Vec<char> = vec!['s', 'a', 'r', 'l'];
        proof {
            assert(w@ =~= seq!['s', 'a', 'r', 'l']);
        }
        if chars_eq(t, &w) {
            return true;
        }
    }
    {
        let w: Vec<char> = vec!['p', 't', 'y'];
        proof {
            assert(w@ =~= seq!['p', 't', 'y']);
        }
        if chars_eq(t, &w) {
            return true;
        }
    }
    {
        let w: Vec<char> = vec!['p', 'l', 'c'];
        proof {
            assert(w@ =~= seq!['p', 'l', 'c']);
        }
        if chars_eq(t, &w) {
            return true;
        }
    }
    {
        let w: Vec<char> = vec!['s', 'o', 'f', 't', 'w', 'a', 'r', 'e'];
        proof {
            assert(w@ =~= seq!['s', 'o', 'f', 't', 'w', 'a', 'r', 'e']);
        }
        if chars_eq(t, &w) {
            return true;
        }
    }
    {
        let w: Vec<char> = vec!['s', 'y', 's', 't', 'e', 'm', 's'];
        proof {
            assert(w@ =~= seq!['s', 'y', 's', 't', 'e', 'm', 's']);
        }
        if chars_eq(t, &w) {
            return true;
        }
    }
    {
        let w: Vec<char> = vec!['s', 'y', 's', 't', 'e', 'm'];
        proof {
            assert(w@ =~= seq!['s', 'y', 's', 't', 'e', 'm']);
        }
        if chars_eq(t, &w) {
            return true;
        }
    }
    {
        let w: Vec<char> = vec!['t', 'e', 'c', 'h', 'n', 'o', 'l', 'o', 'g', 'i', 'e', 's'];
        proof {
            assert(w@ =~= seq!['t', 'e', 'c', 'h', 'n', 'o', 'l', 'o', 'g', 'i', 'e', 's']);
        }
        if chars_eq(t, &w) {
            return true;
        }
    }
    {
        let w: Vec<char> = vec!['t', 'e', 'c', 'h', 'n', 'o', 'l', 'o', 'g', 'y'];
        proof {
            assert(w@ =~= seq!['t', 'e', 'c', 'h', 'n', 'o', 'l', 'o', 'g', 'y']);
        }
        if chars_eq(t, &w) {
            return true;
        }
    }
    {
        let w: Vec<char> = vec!['s', 'o', 'l', 'u', 't', 'i', 'o', 'n'];
        proof {
            assert(w@ =~= seq!['s', 'o', 'l', 'u', 't', 'i', 'o', 'n']);
        }
        if chars_eq(t, &w) {
            return true;
        }
    }
    {
        let w: Vec<char> = vec!['s', 'o', 'l', 'u', 't', 'i', 'o', 'n', 's'];
        proof {
            assert(w@ =~= seq!['s', 'o', 'l', 'u', 't', 'i', 'o', 'n', 's']);
        }
        if chars_eq(t, &w) {
            return true;
        }
    }
    false
}

/// Whether a token is a name stop word.
pub fn is_stop_token_name(token: &str) -> (r: bool)
    ensures
        r == spec_is_stop_name(token@),
{
    let t = string_to_chars(token);
    is_stop_name_chars(&t)
}

/// Whether a token is a publisher stop word.
pub fn is_stop_token_publisher(token: &str) -> (r: bool)
    ensures
        r == spec_is_stop_publisher(token@),
{
    let t = string_to_chars(token);
    is_stop_publisher_chars(&t)
}

/// Non-alphanumeric characters blanked out, so that whitespace splitting
/// yields the alphanumeric runs.
pub open spec fn blank_non_alnum(s: Seq<char>) -> Seq<char> {
    s.map_values(|c: char| if is_ascii_alnum_c(c) { c } else { ' ' })
}

/// The lowered alphanumeric runs of a string, in order.
pub open spec fn spec_split_tokens(s: Seq<char>) -> Seq<Seq<char>> {
    split_ws(blank_non_alnum(s)).map_values(|t: Seq<char>| lower_seq(t))
}

/// Split a string into its lowered alphanumeric runs.
pub fn split_tokens(s: &str) -> (r: Vec<String>)
    ensures
        r.deep_view() == spec_split_tokens(s@),
{
    let v = string_to_chars(s);
    let n: usize = v.len();
    let mut blanked: Vec<char> = Vec::new();
    let mut i: usize = 0;
    while i < n
        invariant
            i <= n,
            n == v@.len(),
            v@ == s@,
            blanked@ == blank_non_alnum(s@.subrange(0, i as int)),
        decreases n - i,
    {
        let c = v[i];
        if char_is_ascii_alnum(c) {
            blanked.push(c);
        } else {
            blanked.push(' ');
        }
        i = i + 1;
        proof {
            assert(blanked@ =~= blank_non_alnum(s@.subrange(0, i as int)));
        }
    }
    proof {
        assert(s@.subrange(0, n as int) =~= s@);
    }
    let words = split_ws_chars(&blanked);
    let m: usize = words.len();
    let mut out: Vec<String> = Vec::new();
    let mut j: usize = 0;
    while j < m
        invariant
            j <= m,
            m == words@.len(),
            words.deep_view() == split_ws(blank_non_alnum(s@)),
            out.deep_view() == spec_split_tokens(s@).take(j as int),
            out@.len() == j,
        decreases m - j,
    {
        let lw = lower_chars(&words[j]);
        out.push(chars_to_string(&lw));
        j = j + 1;
        proof {
            assert(words.deep_view()[j - 1] == words@[j - 1]@);
            assert(spec_split_tokens(s@)[j - 1] == lower_seq(words@[j - 1]@));
            assert(out.deep_view() =~= spec_split_tokens(s@).take(j as int));
        }
    }
    proof {
        assert(spec_split_tokens(s@).take(m as int) =~= spec_split_tokens(s@));
    }
    out
}

/// A token made of digits alone.
pub open spec fn spec_all_digits(t: Seq<char>) -> bool {
    forall|i: int| 0 <= i < t.len() ==> is_ascii_digit_c(#[trigger] t[i])
}

fn all_digits_chars(t: &Vec<char>) -> (r: bool)
    ensures
        r == spec_all_digits(t@),
{
    let n: usize = t.len();
    let mut i: usize = 0;
    while i < n
        invariant
            i <= n,
            n == t@.len(),
            forall|j: int| 0 <= j < i ==> is_ascii_digit_c(#[trigger] t@[j]),
        decreases n - i,
    {
        if !char_is_ascii_digit(t[i]) {
            return false;
        }
        i = i + 1;
    }
    true
}

/// One split token folded into the name bag: kept when long enough, not a
/// stop word, not all digits, and not already present.
pub open spec fn add_name_token(acc: Seq<Seq<char>>, t: Seq<char>) -> Seq<Seq<char>> {
    if t.len() >= 3 && !spec_is_stop_name(t) && !spec_all_digits(t) && !acc.contains(t) {
        acc.push(t)
    } else {
        acc
    }
}

pub open spec fn fold_name_tokens(acc: Seq<Seq<char>>, ts: Seq<Seq<char>>) -> Seq<Seq<char>>
    decreases ts.len(),
{
    if ts.len() == 0 {
        acc
    } else {
        fold_name_tokens(add_name_token(acc, ts[0]), ts.drop_first())
    }
}

/// The name token bag: the collapsed normalized key first (when at least
/// 3 characters), then the filtered split tokens in first-seen order.
pub open spec fn spec_build_name_tokens(name: Seq<char>) -> Seq<Seq<char>> {
    let key = normalize_seq(name);
    let base: Seq<Seq<char>> = if key.len() >= 3 {
        seq![key]
    } else {
        Seq::empty()
    };
    fold_name_tokens(base, spec_split_tokens(name))
}

/// Derive the name token bag of a display name.
pub fn build_name_tokens(name: &str) -> (r: Vec<String>)
    ensures
        r.deep_view() == spec_build_name_tokens(name@),
{
    let nv = string_to_chars(name);
    let key = normalize_chars(&nv);
    let mut toks: Vec<Vec<char>> = Vec::new();
    if key.len() >= 3 {
        toks.push(key);
    }
    let ghost base = toks.deep_view();
    proof {
        if normalize_seq(name@).len() >= 3 {
            assert(base =~= seq![normalize_seq(name@)]);
        } else {
            assert(base =~= Seq::<Seq<char>>::empty());
        }
    }
    let words = split_tokens(name);
    let ghost ts = spec_split_tokens(name@);
    proof {
        assert(ts.skip(0) =~= ts);
    }
    let m: usize = words.len();
    let mut j: usize = 0;
    while j < m
        invariant
            j <= m,
            m == words@.len(),
            words.deep_view() == ts,
            fold_name_tokens(base, ts) == fold_name_tokens(toks.deep_view(), ts.skip(j as int)),
        decreases m - j,
    {
        let t = string_to_chars(words[j].as_str());
        proof {
            assert(t@ == ts[j as int]);
            assert(ts.skip(j as int)[0] == ts[j as int]);
            assert(ts.skip(j as int).drop_first() =~= ts.skip(j + 1));
        }
        let ghost pre = toks.deep_view();
        if t.len() >= 3 && !is_stop_name_chars(&t) && !all_digits_chars(&t) && !contains_string(
            &toks,
            &t,
        ) {
            toks.push(t);
            proof {
                assert(toks.deep_view() =~= add_name_token(pre, ts[j as int]));
            }
        } else {
            proof {
                assert(toks.deep_view() == add_name_token(pre, ts[j as int]));
            }
        }
        j = j + 1;
    }
    proof {
        assert(ts.skip(m as int).len() == 0);
    }
    let n2: usize = toks.len();
    let mut out: Vec<String> = Vec::new();
    let mut i: usize = 0;
    while i < n2
        invariant
            i <= n2,
            n2 == toks@.len(),
            out.deep_view() == toks.deep_view().take(i as int),
            out@.len() == i,
        decreases n2 - i,
    {
        out.push(chars_to_string(&toks[i]));
        i = i + 1;
        proof {
            assert(out.deep_view() =~= toks.deep_view().take(i as int));
        }
    }
    proof {
        assert(toks.deep_view().take(n2 as int) =~= toks.deep_view());
    }
    out
}

/// One split token folded into the publisher bag: length at least 4, not
/// a stop word, not all digits, first occurrence only.
pub open spec fn add_publisher_token(acc: Seq<Seq<char>>, t: Seq<char>) -> Seq<Seq<char>> {
    if t.len() >= 4 && !spec_is_stop_publisher(t) && !spec_all_digits(t) && !acc.contains(t) {
        acc.push(t)
    } else {
        acc
    }
}

pub open spec fn fold_publisher_tokens(acc: Seq<Seq<char>>, ts: Seq<Seq<char>>) -> Seq<
    Seq<char>,
>
    decreases ts.len(),
{
    if ts.len() == 0 {
        acc
    } else {
        fold_publisher_tokens(add_publisher_token(acc, ts[0]), ts.drop_first())
    }
}

/// The publisher token bag.
pub open spec fn spec_build_publisher_tokens(publisher: Seq<char>) -> Seq<Seq<char>> {
    fold_publisher_tokens(Seq::empty(), spec_split_tokens(publisher))
}

/// Derive the publisher token bag.
pub fn build_publisher_tokens(publisher: &str) -> (r: Vec<String>)
    ensures
        r.deep_view() == spec_build_publisher_tokens(publisher@),
{
    let mut toks: Vec<Vec<char>> = Vec::new();
    let ghost base = toks.deep_view();
    proof {
        assert(base =~= Seq::<Seq<char>>::empty());
    }
    let words = split_tokens(publisher);
    let ghost ts = spec_split_tokens(publisher@);
    proof {
        assert(ts.skip(0) =~= ts);
    }
    let m: usize = words.len();
    let mut j: usize = 0;
    while j < m
        invariant
            j <= m,
            m == words@.len(),
            words.deep_view() == ts,
            fold_publisher_tokens(base, ts) == fold_publisher_tokens(
                toks.deep_view(),
                ts.skip(j as int),
            ),
        decreases m - j,
    {
        let t = string_to_chars(words[j].as_str());
        proof {
            assert(t@ == ts[j as int]);
            assert(ts.skip(j as int)[0] == ts[j as int]);
            assert(ts.skip(j as int).drop_first() =~= ts.skip(j + 1));
        }
        let ghost pre = toks.deep_view();
        if t.len() >= 4 && !is_stop_publisher_chars(&t) && !all_digits_chars(&t)
            && !contains_string(&toks, &t) {
            toks.push(t);
            proof {
                assert(toks.deep_view() =~= add_publisher_token(pre, ts[j as int]));
            }
        } else {
            proof {
                assert(toks.deep_view() == add_publisher_token(pre, ts[j as int]));
            }
        }
        j = j + 1;
    }
    proof {
        assert(ts.skip(m as int).len() == 0);
    }
    let n2: usize = toks.len();
    let mut out: Vec<String> = Vec::new();
    let mut i: usize = 0;
    while i < n2
        invariant
            i <= n2,
            n2 == toks@.len(),
            out.deep_view() == toks.deep_view().take(i as int),
            out@.len() == i,
        decreases n2 - i,
    {
        out.push(chars_to_string(&toks[i]));
        i = i + 1;
        proof {
            assert(out.deep_view() =~= toks.deep_view().take(i as int));
        }
    }
    proof {
        assert(toks.deep_view().take(n2 as int) =~= toks.deep_view());
    }
    out
}


/// The matching key of one canonical entry.
pub struct AppTokens {
    pub app_id: String,
    pub name_tokens: Vec<String>,
    pub publisher_tokens: Vec<String>,
    pub allow_publisher_only: bool,
}

pub ghost struct TokModel {
    pub app_id: Seq<char>,
    pub name_tokens: Seq<Seq<char>>,
    pub publisher_tokens: Seq<Seq<char>>,
    pub allow_publisher_only: bool,
}

impl View for AppTokens {
    type V = TokModel;

    open spec fn view(&self) -> TokModel {
        TokModel {
            app_id: self.app_id@,
            name_tokens: self.name_tokens.deep_view(),
            publisher_tokens: self.publisher_tokens.deep_view(),
            allow_publisher_only: self.allow_publisher_only,
        }
    }
}

impl DeepView for AppTokens {
    type V = TokModel;

    open spec fn deep_view(&self) -> TokModel {
        self.view()
    }
}

/// The token bags of one entry; publisher-only scoring is allowed exactly
/// when the name yields no tokens.
pub open spec fn spec_app_tokens(m: EntryModel) -> TokModel {
    TokModel {
        app_id: m.id,
        name_tokens: spec_build_name_tokens(m.name),
        publisher_tokens: match m.publisher {
            Option::Some(p) => spec_build_publisher_tokens(p),
            Option::None => Seq::empty(),
        },
        allow_publisher_only: spec_build_name_tokens(m.name).len() == 0,
    }
}

/// Derive the token bags of every canonical entry, in order.
pub fn build_app_tokens(entries: &Vec<UninstallEntry>) -> (r: Vec<AppTokens>)
    ensures
        r.deep_view() == entries.deep_view().map_values(|m: EntryModel| spec_app_tokens(m)),
{
    let n: usize = entries.len();
    let mut out: Vec<AppTokens> = Vec::new();
    let mut i: usize = 0;
    while i < n
        invariant
            i <= n,
            n == entries@.len(),
            out@.len() == i,
            forall|j: int|
                0 <= j < i ==> out.deep_view()[j] == spec_app_tokens(
                    #[trigger] entries.deep_view()[j],
                ),
        decreases n - i,
    {
        let e = &entries[i];
        let name_tokens = build_name_tokens(e.name.as_str());
        let publisher_tokens: Vec<String> = match &e.publisher {
            Some(p) => build_publisher_tokens(p.as_str()),
            None => Vec::new(),
        };
        let allow_publisher_only = name_tokens.len() == 0;
        proof {
            if name_tokens@.len() == 0 {
                assert(name_tokens.deep_view() =~= Seq::<Seq<char>>::empty());
            }
            assert(entries.deep_view()[i as int] == entries@[i as int]@);
        }
        let t = AppTokens {
            app_id: e.id.clone(),
            name_tokens,
            publisher_tokens,
            allow_publisher_only,
        };
        proof {
            match &e.publisher {
                Some(p) => {},
                None => {
                    assert(t.publisher_tokens.deep_view() =~= Seq::<Seq<char>>::empty());
                },
            }
            assert(t@ == spec_app_tokens(entries.deep_view()[i as int]));
        }
        out.push(t);
        i = i + 1;
    }
    proof {
        assert(out.deep_view() =~= entries.deep_view().map_values(
            |m: EntryModel| spec_app_tokens(m),
        ));
    }
    out
}

/// A sequence length clipped into u64.
pub open spec fn len_u64(t: Seq<char>) -> u64 {
    if t.len() <= u64::MAX {
        t.len() as u64
    } else {
        u64::MAX
    }
}

/// Saturating addition.
pub open spec fn sat_add_u64(a: u64, b: u64) -> u64 {
    if a + b <= u64::MAX {
        (a + b) as u64
    } else {
        u64::MAX
    }
}

/// Saturating multiplication by a constant factor.
pub open spec fn sat_mul_u64(a: u64, k: u64) -> u64 {
    if a * k <= u64::MAX {
        (a * k) as u64
    } else {
        u64::MAX
    }
}

pub(crate) fn exec_sat_add(a: u64, b: u64) -> (r: u64)
    ensures
        r == sat_add_u64(a, b),
{
    if a <= u64::MAX - b {
        a + b
    } else {
        u64::MAX
    }
}

/// The summed lengths of the tokens contained in the folder key,
/// saturating.
pub open spec fn spec_token_score(folder: Seq<char>, ts: Seq<Seq<char>>) -> u64
    decreases ts.len(),
{
    if ts.len() == 0 {
        0
    } else {
        let rest = spec_token_score(folder, ts.drop_last());
        if contains_seq(folder, ts.last()) {
            sat_add_u64(rest, len_u64(ts.last()))
        } else {
            rest
        }
    }
}

fn token_score_chars(folder: &Vec<char>, ts: &Vec<String>) -> (r: u64)
    ensures
        r == spec_token_score(folder@, ts.deep_view()),
{
    let n: usize = ts.len();
    let mut acc: u64 = 0;
    let mut i: usize = 0;
    proof {
        assert(ts.deep_view().take(0) =~= Seq::<Seq<char>>::empty());
    }
    while i < n
        invariant
            i <= n,
            n == ts@.len(),
            acc == spec_token_score(folder@, ts.deep_view().take(i as int)),
        decreases n - i,
    {
        let t = string_to_chars(ts[i].as_str());
        proof {
            assert(t@ == ts.deep_view()[i as int]);
            assert(ts.deep_view().take(i + 1).drop_last() =~= ts.deep_view().take(i as int));
            assert(ts.deep_view().take(i + 1).last() == ts.deep_view()[i as int]);
        }
        if contains_chars(folder, &t) {
            let tl: usize = t.len();
            acc = exec_sat_add(acc, tl as u64);
        }
        i = i + 1;
    }
    proof {
        assert(ts.deep_view().take(n as int) =~= ts.deep_view());
    }
    acc
}

/// The attribution score of a folder key for one app: name evidence is
/// worth 100 per matched character and must reach 300; publisher-only
/// evidence is worth 50 per matched character, must reach 200, and counts
/// only when the app has no name tokens.
pub open spec fn spec_score_folder(folder: Seq<char>, t: TokModel) -> u64 {
    let ns = spec_token_score(folder, t.name_tokens);
    let ps = spec_token_score(folder, t.publisher_tokens);
    if ns > 0 {
        let total = sat_add_u64(sat_mul_u64(ns, 100), ps);
        if total >= 300 {
            total
        } else {
            0
        }
    } else if t.allow_publisher_only && ps > 0 {
        let total = sat_mul_u64(ps, 50);
        if total >= 200 {
            total
        } else {
            0
        }
    } else {
        0
    }
}

pub(crate) fn score_chars(folder: &Vec<char>, tokens: &AppTokens) -> (r: u64)
    ensures
        r == spec_score_folder(folder@, tokens@),
{
    let ns = token_score_chars(folder, &tokens.name_tokens);
    let ps = token_score_chars(folder, &tokens.publisher_tokens);
    if ns > 0 {
        let h: u64 = if ns <= u64::MAX / 100 {
            ns * 100
        } else {
            u64::MAX
        };
        proof {
            assert(h == sat_mul_u64(ns, 100)) by (nonlinear_arith)
                requires
                    h == (if ns <= u64::MAX / 100 {
                        (ns * 100) as u64
                    } else {
                        u64::MAX
                    }),
            ;
        }
        let total = exec_sat_add(h, ps);
        if total >= 300 {
            total
        } else {
            0
        }
    } else if tokens.allow_publisher_only && ps > 0 {
        let total: u64 = if ps <= u64::MAX / 50 {
            ps * 50
        } else {
            u64::MAX
        };
        proof {
            assert(total == sat_mul_u64(ps, 50)) by (nonlinear_arith)
                requires
                    total == (if ps <= u64::MAX / 50 {
                        (ps * 50) as u64
                    } else {
                        u64::MAX
                    }),
            ;
        }
        if total >= 200 {
            total
        } else {
            0
        }
    } else {
        0
    }
}

/// The attribution score, over strings.
pub fn score_folder(folder_key: &str, tokens: &AppTokens) -> (r: u64)
    ensures
        r == spec_score_folder(folder_key@, tokens@),
{
    let f = string_to_chars(folder_key);
    score_chars(&f, tokens)
}


/// The tokens whose length lies in `lo..=hi`, in order.
pub open spec fn filter_len_range(ts: Seq<Seq<char>>, lo: int, hi: int) -> Seq<Seq<char>>
    decreases ts.len(),
{
    if ts.len() == 0 {
        Seq::empty()
    } else {
        let rest = filter_len_range(ts.drop_last(), lo, hi);
        if lo <= ts.last().len() <= hi {
            rest.push(ts.last())
        } else {
            rest
        }
    }
}

fn append_len_range(acc: Vec<Vec<char>>, ts: &Vec<String>, lo: usize, hi: usize) -> (r: Vec<
    Vec<char>,
>)
    ensures
        r.deep_view() == acc.deep_view() + filter_len_range(ts.deep_view(), lo as int, hi as int),
{
    let ghost base = acc.deep_view();
    let mut out = acc;
    let n: usize = ts.len();
    let mut i: usize = 0;
    proof {
        assert(ts.deep_view().take(0) =~= Seq::<Seq<char>>::empty());
        assert(out.deep_view() =~= base + filter_len_range(
            ts.deep_view().take(0),
            lo as int,
            hi as int,
        ));
    }
    while i < n
        invariant
            i <= n,
            n == ts@.len(),
            out.deep_view() == base + filter_len_range(
                ts.deep_view().take(i as int),
                lo as int,
                hi as int,
            ),
        decreases n - i,
    {
        let t = string_to_chars(ts[i].as_str());
        proof {
            assert(t@ == ts.deep_view()[i as int]);
            assert(ts.deep_view().take(i + 1).drop_last() =~= ts.deep_view().take(i as int));
            assert(ts.deep_view().take(i + 1).last() == ts.deep_view()[i as int]);
        }
        if lo <= t.len() && t.len() <= hi {
            let ghost pre_deep = out.deep_view();
            let ghost pre_at = out@;
            let ghost gt = t@;
            out.push(t);
            proof {
                assert(out@.len() == pre_at.len() + 1);
                assert forall|j: int| 0 <= j < pre_at.len() implies out.deep_view()[j]
                    == pre_deep[j] by {
                    assert(out.deep_view()[j] == out@[j]@);
                    assert(out@[j] == pre_at[j]);
                    assert(pre_at[j]@ == pre_deep[j]);
                }
                assert(out.deep_view()[pre_at.len() as int] == gt);
                let tk = ts.deep_view().take(i + 1);
                assert(tk.len() == i + 1);
                assert(tk.drop_last() == ts.deep_view().take(i as int));
                assert(tk.last() == gt);
                assert(lo as int <= gt.len() <= hi as int);
                assert(filter_len_range(tk, lo as int, hi as int) == filter_len_range(
                    tk.drop_last(),
                    lo as int,
                    hi as int,
                ).push(tk.last()));
                let rhs = base + filter_len_range(tk, lo as int, hi as int);
                assert(rhs.len() == base.len() + filter_len_range(
                    tk.drop_last(),
                    lo as int,
                    hi as int,
                ).len() + 1);
                assert(pre_deep.len() == pre_at.len());
                assert(out.deep_view().len() == rhs.len());
                assert forall|j: int| 0 <= j < out.deep_view().len() implies out.deep_view()[j]
                    == rhs[j] by {
                    if j < pre_at.len() {
                        assert(out.deep_view()[j] == pre_deep[j]);
                        assert(pre_deep[j] == (base + filter_len_range(
                            tk.drop_last(),
                            lo as int,
                            hi as int,
                        ))[j]);
                    } else {
                        assert(out.deep_view()[j] == gt);
                        assert(rhs[j] == gt);
                    }
                }
                assert(out.deep_view() =~= rhs);
            }
        } else {
            proof {
                assert(out.deep_view() == base + filter_len_range(
                    ts.deep_view().take(i + 1),
                    lo as int,
                    hi as int,
                ));
            }
        }
        i = i + 1;
    }
    proof {
        assert(ts.deep_view().take(n as int) =~= ts.deep_view());
    }
    out
}

/// The candidate folder keys of one app: its name and publisher tokens of
/// length 3..=32, the first two publisher tokens joined (length 4..=32),
/// and the first three joined (length 5..=32); sorted, duplicates removed.
pub open spec fn spec_candidates(t: TokModel) -> Seq<Seq<char>> {
    let c1 = filter_len_range(t.name_tokens, 3, 32) + filter_len_range(
        t.publisher_tokens,
        3,
        32,
    );
    let c2 = if t.publisher_tokens.len() >= 2 && 4 <= (t.publisher_tokens[0]
        + t.publisher_tokens[1]).len() <= 32 {
        c1.push(t.publisher_tokens[0] + t.publisher_tokens[1])
    } else {
        c1
    };
    let c3 = if t.publisher_tokens.len() >= 3 && 5 <= (t.publisher_tokens[0]
        + t.publisher_tokens[1] + t.publisher_tokens[2]).len() <= 32 {
        c2.push(t.publisher_tokens[0] + t.publisher_tokens[1] + t.publisher_tokens[2])
    } else {
        c2
    };
    dedup_adj(crate::sort::sort_str(c3))
}

pub(crate) fn candidates_chars(tokens: &AppTokens) -> (r: Vec<Vec<char>>)
    ensures
        r.deep_view() == spec_candidates(tokens@),
{
    let mut cands: Vec<Vec<char>> = Vec::new();
    proof {
        assert(cands.deep_view() =~= Seq::<Seq<char>>::empty());
    }
    cands = append_len_range(cands, &tokens.name_tokens, 3, 32);
    cands = append_len_range(cands, &tokens.publisher_tokens, 3, 32);
    proof {
        assert(cands.deep_view() =~= filter_len_range(tokens@.name_tokens, 3, 32)
            + filter_len_range(tokens@.publisher_tokens, 3, 32));
    }
    let ghost tv = tokens@;
    let ghost c1 = cands.deep_view();
    let pn: usize = tokens.publisher_tokens.len();
    if pn >= 2 {
        let mut j2 = string_to_chars(tokens.publisher_tokens[0].as_str());
        let mut p1 = string_to_chars(tokens.publisher_tokens[1].as_str());
        j2.append(&mut p1);
        proof {
            assert(j2@ == tv.publisher_tokens[0] + tv.publisher_tokens[1]);
        }
        if 4 <= j2.len() && j2.len() <= 32 {
            cands.push(j2);
        }
    }
    proof {
        if tv.publisher_tokens.len() >= 2 && 4 <= (tv.publisher_tokens[0]
            + tv.publisher_tokens[1]).len() <= 32 {
            assert(cands.deep_view() =~= c1.push(tv.publisher_tokens[0]
                + tv.publisher_tokens[1]));
        } else {
            assert(cands.deep_view() == c1);
        }
    }
    let ghost c2 = cands.deep_view();
    if pn >= 3 {
        let mut j3 = string_to_chars(tokens.publisher_tokens[0].as_str());
        let mut q1 = string_to_chars(tokens.publisher_tokens[1].as_str());
        let mut q2 = string_to_chars(tokens.publisher_tokens[2].as_str());
        j3.append(&mut q1);
        j3.append(&mut q2);
        proof {
            assert(j3@ == tv.publisher_tokens[0] + tv.publisher_tokens[1]
                + tv.publisher_tokens[2]);
        }
        if 5 <= j3.len() && j3.len() <= 32 {
            cands.push(j3);
        }
    }
    proof {
        if tv.publisher_tokens.len() >= 3 && 5 <= (tv.publisher_tokens[0]
            + tv.publisher_tokens[1] + tv.publisher_tokens[2]).len() <= 32 {
            assert(cands.deep_view() =~= c2.push(tv.publisher_tokens[0]
                + tv.publisher_tokens[1] + tv.publisher_tokens[2]));
        } else {
            assert(cands.deep_view() == c2);
        }
    }
    let ghost c3 = cands.deep_view();
    let ghost c3_at = cands@;
    let sorted = sort_by_key_asc(cands);
    proof {
        crate::sort::lemma_sort_str(c3_at);
        assert(dv_seq(c3_at) =~= c3);
        assert(sorted.deep_view() =~= dv_seq(sorted@));
        assert(sorted.deep_view() == crate::sort::sort_str(c3));
    }
    dedup_adj_chars(sorted)
}


/// The candidate folder keys of one app, over strings.
pub fn build_candidate_folder_keys(tokens: &AppTokens) -> (r: Vec<String>)
    ensures
        r.deep_view() == spec_candidates(tokens@),
{
    let cands = candidates_chars(tokens);
    let n: usize = cands.len();
    let mut out: Vec<String> = Vec::new();
    let mut i: usize = 0;
    while i < n
        invariant
            i <= n,
            n == cands@.len(),
            out.deep_view() == cands.deep_view().take(i as int),
            out@.len() == i,
        decreases n - i,
    {
        out.push(chars_to_string(&cands[i]));
        i = i + 1;
        proof {
            assert(out.deep_view() =~= cands.deep_view().take(i as int));
        }
    }
    proof {
        assert(cands.deep_view().take(n as int) =~= cands.deep_view());
    }
    out
}

/// One folder ownership claim: the folder key, the winning score and the
/// winning app.
pub struct OwnerSlot {
    pub folder: String,
    pub score: u64,
    pub app_id: String,
}

pub ghost struct OwnerModel {
    pub folder: Seq<char>,
    pub score: u64,
    pub app_id: Seq<char>,
}

impl View for OwnerSlot {
    type V = OwnerModel;

    open spec fn view(&self) -> OwnerModel {
        OwnerModel { folder: self.folder@, score: self.score, app_id: self.app_id@ }
    }
}

impl DeepView for OwnerSlot {
    type V = OwnerModel;

    open spec fn deep_view(&self) -> OwnerModel {
        self.view()
    }
}

pub open spec fn owner_keys(os: Seq<OwnerModel>) -> Seq<Seq<char>> {
    os.map_values(|o: OwnerModel| o.folder)
}

/// One candidate folded into the owners: an existing folder key keeps its
/// owner unless the new score is strictly higher; a fresh folder key with
/// a positive score is claimed.
pub open spec fn owners_step(
    os: Seq<OwnerModel>,
    root: crate::roots::RootFolders,
    t: TokModel,
    c: Seq<char>,
) -> Seq<OwnerModel> {
    let sc = spec_score_folder(c, t);
    if root.spec_contains_key(c) && sc > 0 {
        let i = find_str_idx(owner_keys(os), c);
        if i >= 0 {
            if os[i].score >= sc {
                os
            } else {
                os.update(i, OwnerModel { folder: c, score: sc, app_id: t.app_id })
            }
        } else {
            os.push(OwnerModel { folder: c, score: sc, app_id: t.app_id })
        }
    } else {
        os
    }
}

pub open spec fn owners_fold_cands(
    os: Seq<OwnerModel>,
    root: crate::roots::RootFolders,
    t: TokModel,
    cs: Seq<Seq<char>>,
) -> Seq<OwnerModel>
    decreases cs.len(),
{
    if cs.len() == 0 {
        os
    } else {
        owners_fold_cands(owners_step(os, root, t, cs[0]), root, t, cs.drop_first())
    }
}

pub open spec fn owners_fold_apps(
    os: Seq<OwnerModel>,
    root: crate::roots::RootFolders,
    ts: Seq<TokModel>,
) -> Seq<OwnerModel>
    decreases ts.len(),
{
    if ts.len() == 0 {
        os
    } else {
        owners_fold_apps(
            owners_fold_cands(os, root, ts[0], spec_candidates(ts[0])),
            root,
            ts.drop_first(),
        )
    }
}

/// The owner of every claimed folder key of one root, in claim order;
/// apps are visited in entry order and candidates in sorted order, and on
/// equal scores the first claim stands.
pub open spec fn spec_owners(
    root: crate::roots::RootFolders,
    ts: Seq<TokModel>,
) -> Seq<OwnerModel> {
    owners_fold_apps(Seq::empty(), root, ts)
}

pub(crate) fn find_owner(os: &Vec<OwnerSlot>, c: &Vec<char>) -> (r: Option<usize>)
    ensures
        match r {
            Some(i) => i < os@.len() && find_str_idx(owner_keys(os.deep_view()), c@) == i as int,
            None => find_str_idx(owner_keys(os.deep_view()), c@) == -1,
        },
{
    let n: usize = os.len();
    let mut i: usize = 0;
    proof {
        crate::text::lemma_find_str_idx(owner_keys(os.deep_view()), c@);
    }
    while i < n
        invariant
            i <= n,
            n == os@.len(),
            -1 <= find_str_idx(owner_keys(os.deep_view()), c@) < n as int,
            find_str_idx(owner_keys(os.deep_view()), c@) >= 0 ==> owner_keys(os.deep_view())[
                find_str_idx(owner_keys(os.deep_view()), c@)] == c@,
            find_str_idx(owner_keys(os.deep_view()), c@) == -1 ==> forall|j: int|
                0 <= j < n ==> owner_keys(os.deep_view())[j] != c@,
            forall|j: int| 0 <= j < find_str_idx(owner_keys(os.deep_view()), c@)
                ==> owner_keys(os.deep_view())[j] != c@,
            forall|j: int| 0 <= j < i ==> owner_keys(os.deep_view())[j] != c@,
        decreases n - i,
    {
        proof {
            assert(owner_keys(os.deep_view())[i as int] == os@[i as int]@.folder);
        }
        if crate::text::str_eq_chars(os[i].folder.as_str(), c) {
            return Some(i);
        }
        i = i + 1;
    }
    None
}

/// Build the owners of one root's folders from every app's candidates.
pub fn build_owners(root: &crate::roots::RootFolders, tokens: &Vec<AppTokens>) -> (r: Vec<
    OwnerSlot,
>)
    ensures
        r.deep_view() == spec_owners(*root, tokens.deep_view()),
{
    let mut os: Vec<OwnerSlot> = Vec::new();
    let ghost ts = tokens.deep_view();
    let na: usize = tokens.len();
    let mut a: usize = 0;
    proof {
        assert(ts.skip(0) =~= ts);
        assert(os.deep_view() =~= Seq::<OwnerModel>::empty());
    }
    while a < na
        invariant
            a <= na,
            na == tokens@.len(),
            ts == tokens.deep_view(),
            spec_owners(*root, ts) == owners_fold_apps(os.deep_view(), *root, ts.skip(a as int)),
        decreases na - a,
    {
        let app = &tokens[a];
        proof {
            assert(app@ == ts[a as int]);
            assert(ts.skip(a as int)[0] == ts[a as int]);
            assert(ts.skip(a as int).drop_first() =~= ts.skip(a + 1));
        }
        let cands = candidates_chars(app);
        let ghost cs = spec_candidates(app@);
        let ghost os_at_app = os.deep_view();
        let nc: usize = cands.len();
        let mut ci: usize = 0;
        proof {
            assert(cs.skip(0) =~= cs);
        }
        while ci < nc
            invariant
                ci <= nc,
                nc == cands@.len(),
                cands.deep_view() == cs,
                app@ == ts[a as int],
                owners_fold_cands(os.deep_view(), *root, app@, cs.skip(ci as int))
                    == owners_fold_cands(os_at_app, *root, app@, cs),
            decreases nc - ci,
        {
            let c = &cands[ci];
            proof {
                assert(c@ == cs[ci as int]);
                assert(cs.skip(ci as int)[0] == cs[ci as int]);
                assert(cs.skip(ci as int).drop_first() =~= cs.skip(ci + 1));
            }
            let ghost pre = os.deep_view();
            if root.contains_key(c) {
                let sc = score_chars(c, app);
                if sc > 0 {
                    match find_owner(&os, c) {
                        Some(i) => {
                            if os[i].score >= sc {
                                proof {
                                    assert(os.deep_view()[i as int] == os@[i as int]@);
                                    assert(owners_step(pre, *root, app@, cs[ci as int]) == pre);
                                }
                            } else {
                                let ghost pre_at = os@;
                                let slot = OwnerSlot {
                                    folder: chars_to_string(c),
                                    score: sc,
                                    app_id: app.app_id.clone(),
                                };
                                let _ = os.remove(i);
                                os.insert(i, slot);
                                proof {
                                    assert(os.deep_view()[i as int] == os@[i as int]@);
                                    assert forall|j: int| 0 <= j < os@.len() implies
                                        os.deep_view()[j] == owners_step(
                                        pre,
                                        *root,
                                        app@,
                                        cs[ci as int],
                                    )[j] by {
                                        assert(os.deep_view()[j] == os@[j]@);
                                        if j != i {
                                            assert(os@[j] == pre_at[j]);
                                            assert(pre_at[j]@ == pre[j]);
                                        }
                                    }
                                    assert(os.deep_view() =~= owners_step(
                                        pre,
                                        *root,
                                        app@,
                                        cs[ci as int],
                                    ));
                                }
                            }
                        },
                        None => {
                            let ghost pre_at = os@;
                            let slot = OwnerSlot {
                                folder: chars_to_string(c),
                                score: sc,
                                app_id: app.app_id.clone(),
                            };
                            os.push(slot);
                            proof {
                                assert forall|j: int| 0 <= j < os@.len() implies
                                    os.deep_view()[j] == owners_step(
                                    pre,
                                    *root,
                                    app@,
                                    cs[ci as int],
                                )[j] by {
                                    assert(os.deep_view()[j] == os@[j]@);
                                    if j < os@.len() - 1 {
                                        assert(os@[j] == pre_at[j]);
                                        assert(pre_at[j]@ == pre[j]);
                                    }
                                }
                                assert(os.deep_view() =~= owners_step(
                                    pre,
                                    *root,
                                    app@,
                                    cs[ci as int],
                                ));
                            }
                        },
                    }
                } else {
                    proof {
                        assert(owners_step(pre, *root, app@, cs[ci as int]) == pre);
                    }
                }
            } else {
                proof {
                    assert(owners_step(pre, *root, app@, cs[ci as int]) == pre);
                }
            }
            ci = ci + 1;
        }
        proof {
            assert(cs.skip(nc as int).len() == 0);
            assert(os.deep_view() == owners_fold_cands(os_at_app, *root, app@, cs));
        }
        a = a + 1;
    }
    proof {
        assert(ts.skip(na as int).len() == 0);
    }
    os
}


/// The folders assigned to one app in one root.
pub struct AppFolders {
    pub app_id: String,
    pub paths: Vec<String>,
}

pub ghost struct AppFoldersModel {
    pub app_id: Seq<char>,
    pub paths: Seq<Seq<char>>,
}

impl View for AppFolders {
    type V = AppFoldersModel;

    open spec fn view(&self) -> AppFoldersModel {
        AppFoldersModel { app_id: self.app_id@, paths: self.paths.deep_view() }
    }
}

impl DeepView for AppFolders {
    type V = AppFoldersModel;

    open spec fn deep_view(&self) -> AppFoldersModel {
        self.view()
    }
}

pub open spec fn assigned_ids(asg: Seq<AppFoldersModel>) -> Seq<Seq<char>> {
    asg.map_values(|af: AppFoldersModel| af.app_id)
}

/// One ownership claim folded into the per-app folder lists: the owned
/// folder's path joins the owner's list, in claim order.
pub open spec fn assign_step(
    asg: Seq<AppFoldersModel>,
    root: crate::roots::RootFolders,
    o: OwnerModel,
) -> Seq<AppFoldersModel> {
    match root.spec_get(o.folder) {
        Option::Some(p) => {
            let i = find_str_idx(assigned_ids(asg), o.app_id);
            if i >= 0 {
                asg.update(
                    i,
                    AppFoldersModel { app_id: asg[i].app_id, paths: asg[i].paths.push(p) },
                )
            } else {
                asg.push(AppFoldersModel { app_id: o.app_id, paths: seq![p] })
            }
        },
        Option::None => asg,
    }
}

pub open spec fn assign_fold(
    asg: Seq<AppFoldersModel>,
    root: crate::roots::RootFolders,
    os: Seq<OwnerModel>,
) -> Seq<AppFoldersModel>
    decreases os.len(),
{
    if os.len() == 0 {
        asg
    } else {
        assign_fold(assign_step(asg, root, os[0]), root, os.drop_first())
    }
}

/// The per-app folder assignment of one root.
pub open spec fn spec_assign_root(
    root: crate::roots::RootFolders,
    ts: Seq<TokModel>,
) -> Seq<AppFoldersModel> {
    assign_fold(Seq::empty(), root, spec_owners(root, ts))
}

fn find_assigned(asg: &Vec<AppFolders>, id: &Vec<char>) -> (r: Option<usize>)
    ensures
        match r {
            Some(i) => i < asg@.len() && find_str_idx(
                assigned_ids(asg.deep_view()),
                id@,
            ) == i as int,
            None => find_str_idx(assigned_ids(asg.deep_view()), id@) == -1,
        },
{
    let n: usize = asg.len();
    let mut i: usize = 0;
    proof {
        crate::text::lemma_find_str_idx(assigned_ids(asg.deep_view()), id@);
    }
    while i < n
        invariant
            i <= n,
            n == asg@.len(),
            -1 <= find_str_idx(assigned_ids(asg.deep_view()), id@) < n as int,
            find_str_idx(assigned_ids(asg.deep_view()), id@) >= 0 ==> assigned_ids(
                asg.deep_view(),
            )[find_str_idx(assigned_ids(asg.deep_view()), id@)] == id@,
            find_str_idx(assigned_ids(asg.deep_view()), id@) == -1 ==> forall|j: int|
                0 <= j < n ==> assigned_ids(asg.deep_view())[j] != id@,
            forall|j: int| 0 <= j < find_str_idx(assigned_ids(asg.deep_view()), id@)
                ==> assigned_ids(asg.deep_view())[j] != id@,
            forall|j: int| 0 <= j < i ==> assigned_ids(asg.deep_view())[j] != id@,
        decreases n - i,
    {
        proof {
            assert(assigned_ids(asg.deep_view())[i as int] == asg@[i as int]@.app_id);
        }
        if crate::text::str_eq_chars(asg[i].app_id.as_str(), id) {
            return Some(i);
        }
        i = i + 1;
    }
    None
}

/// Assign each owned folder's path to its owning app, for one root.
pub fn assign_for_root(root: Option<&crate::roots::RootFolders>, tokens: &Vec<AppTokens>) -> (r:
    Vec<AppFolders>)
    ensures
        match root {
            Some(rt) => r.deep_view() == spec_assign_root(*rt, tokens.deep_view()),
            None => r.deep_view() == Seq::<AppFoldersModel>::empty(),
        },
{
    let rt = match root {
        Some(rt) => rt,
        None => {
            let out: Vec<AppFolders> = Vec::new();
            proof {
                assert(out.deep_view() =~= Seq::<AppFoldersModel>::empty());
            }
            return out;
        },
    };
    let owners = build_owners(rt, tokens);
    let ghost os = spec_owners(*rt, tokens.deep_view());
    let mut asg: Vec<AppFolders> = Vec::new();
    let n: usize = owners.len();
    let mut i: usize = 0;
    proof {
        assert(os.skip(0) =~= os);
        assert(asg.deep_view() =~= Seq::<AppFoldersModel>::empty());
    }
    while i < n
        invariant
            i <= n,
            n == owners@.len(),
            owners.deep_view() == os,
            spec_assign_root(*rt, tokens.deep_view()) == assign_fold(
                asg.deep_view(),
                *rt,
                os.skip(i as int),
            ),
        decreases n - i,
    {
        let o = &owners[i];
        proof {
            assert(o@ == os[i as int]);
            assert(os.skip(i as int)[0] == os[i as int]);
            assert(os.skip(i as int).drop_first() =~= os.skip(i + 1));
        }
        let fc = string_to_chars(o.folder.as_str());
        let ghost pre = asg.deep_view();
        match rt.get_path(&fc) {
            Some(p) => {
                match find_assigned(&asg, &string_to_chars(o.app_id.as_str())) {
                    Some(ai) => {
                        let ghost pre_at = asg@;
                        let mut cur = asg.remove(ai);
                        let ghost cur_pre = cur@;
                        cur.paths.push(p);
                        proof {
                            assert(cur.paths.deep_view() =~= cur_pre.paths.push(p@));
                        }
                        asg.insert(ai, cur);
                        proof {
                            let st = assign_step(pre, *rt, os[i as int]);
                            assert(pre_at[ai as int]@ == pre[ai as int]);
                            assert(asg.deep_view()[ai as int] == asg@[ai as int]@);
                            assert forall|j: int| 0 <= j < asg@.len() implies
                                asg.deep_view()[j] == st[j] by {
                                assert(asg.deep_view()[j] == asg@[j]@);
                                if j != ai {
                                    assert(asg@[j] == pre_at[j]);
                                    assert(pre_at[j]@ == pre[j]);
                                }
                            }
                            assert(asg.deep_view() =~= st);
                        }
                    },
                    None => {
                        let ghost pre_at = asg@;
                        let mut paths: Vec<String> = Vec::new();
                        paths.push(p);
                        let slot = AppFolders { app_id: o.app_id.clone(), paths };
                        proof {
                            assert(slot@.paths =~= seq![p@]);
                        }
                        asg.push(slot);
                        proof {
                            let st = assign_step(pre, *rt, os[i as int]);
                            assert forall|j: int| 0 <= j < asg@.len() implies
                                asg.deep_view()[j] == st[j] by {
                                assert(asg.deep_view()[j] == asg@[j]@);
                                if j < asg@.len() - 1 {
                                    assert(asg@[j] == pre_at[j]);
                                    assert(pre_at[j]@ == pre[j]);
                                }
                            }
                            assert(asg.deep_view() =~= st);
                        }
                    },
                }
            },
            None => {
                proof {
                    assert(assign_step(pre, *rt, os[i as int]) == pre);
                }
            },
        }
        i = i + 1;
    }
    proof {
        assert(os.skip(n as int).len() == 0);
    }
    asg
}

/// The assignments of the four roots.
pub struct AssignedFolders {
    pub local: Vec<AppFolders>,
    pub roaming: Vec<AppFolders>,
    pub local_low: Vec<AppFolders>,
    pub program_data: Vec<AppFolders>,
}

/// Compute the folder assignment of every root.
pub fn assign_folders(roots: &crate::roots::Roots, tokens: &Vec<AppTokens>) -> (r:
    AssignedFolders)
    ensures
        (match roots.local {
            Some(rt) => r.local.deep_view() == spec_assign_root(rt, tokens.deep_view()),
            None => r.local.deep_view() == Seq::<AppFoldersModel>::empty(),
        }),
        (match roots.roaming {
            Some(rt) => r.roaming.deep_view() == spec_assign_root(rt, tokens.deep_view()),
            None => r.roaming.deep_view() == Seq::<AppFoldersModel>::empty(),
        }),
        (match roots.local_low {
            Some(rt) => r.local_low.deep_view() == spec_assign_root(rt, tokens.deep_view()),
            None => r.local_low.deep_view() == Seq::<AppFoldersModel>::empty(),
        }),
        (match roots.program_data {
            Some(rt) => r.program_data.deep_view() == spec_assign_root(rt, tokens.deep_view()),
            None => r.program_data.deep_view() == Seq::<AppFoldersModel>::empty(),
        }),
{
    AssignedFolders {
        local: assign_for_root(roots.local.as_ref(), tokens),
        roaming: assign_for_root(roots.roaming.as_ref(), tokens),
        local_low: assign_for_root(roots.local_low.as_ref(), tokens),
        program_data: assign_for_root(roots.program_data.as_ref(), tokens),
    }
}

/// The folder-to-app ownership of one root, as the audit reads it.
pub fn build_owner_keys(root: Option<&crate::roots::RootFolders>, tokens: &Vec<AppTokens>) -> (r:
    Vec<OwnerSlot>)
    ensures
        match root {
            Some(rt) => r.deep_view() == spec_owners(*rt, tokens.deep_view()),
            None => r.deep_view() == Seq::<OwnerModel>::empty(),
        },
{
    match root {
        Some(rt) => build_owners(rt, tokens),
        None => {
            let out: Vec<OwnerSlot> = Vec::new();
            proof {
                assert(out.deep_view() =~= Seq::<OwnerModel>::empty());
            }
            out
        },
    }
}


/// Every ownership claim names a folder key that exists in the root.
pub proof fn lemma_owners_step_in_root(
    os: Seq<OwnerModel>,
    root: crate::roots::RootFolders,
    t: TokModel,
    c: Seq<char>,
)
    requires
        forall|i: int| 0 <= i < os.len() ==> root.spec_contains_key(
            (#[trigger] os[i]).folder,
        ),
    ensures
        forall|i: int|
            0 <= i < owners_step(os, root, t, c).len() ==> root.spec_contains_key(
                (#[trigger] owners_step(os, root, t, c)[i]).folder,
            ),
{
    let os1 = owners_step(os, root, t, c);
    let sc = spec_score_folder(c, t);
    if root.spec_contains_key(c) && sc > 0 {
        let keys = owner_keys(os);
        crate::text::lemma_find_str_idx(keys, c);
        assert(keys.len() == os.len());
        let i = find_str_idx(keys, c);
        assert forall|j: int| 0 <= j < os1.len() implies root.spec_contains_key(
            (os1[j]).folder,
        ) by {
            if i >= 0 {
                if os[i].score >= sc {
                    assert(os1[j] == os[j]);
                } else if j != i {
                    assert(os1[j] == os[j]);
                } else {
                    assert(os1[j].folder == c);
                }
            } else {
                if j < os.len() {
                    assert(os1[j] == os[j]);
                } else {
                    assert(os1[j].folder == c);
                }
            }
        }
    }
}

proof fn lemma_owners_fold_cands_props(
    os: Seq<OwnerModel>,
    root: crate::roots::RootFolders,
    t: TokModel,
    cs: Seq<Seq<char>>,
)
    requires
        crate::uninstall::distinct_strs(owner_keys(os)),
        forall|i: int| 0 <= i < os.len() ==> root.spec_contains_key(
            (#[trigger] os[i]).folder,
        ),
    ensures
        crate::uninstall::distinct_strs(owner_keys(owners_fold_cands(os, root, t, cs))),
        forall|i: int|
            0 <= i < owners_fold_cands(os, root, t, cs).len() ==> root.spec_contains_key(
                (#[trigger] owners_fold_cands(os, root, t, cs)[i]).folder,
            ),
    decreases cs.len(),
{
    if cs.len() > 0 {
        let os1 = owners_step(os, root, t, cs[0]);
        let sc = spec_score_folder(cs[0], t);
        let keys = owner_keys(os);
        crate::text::lemma_find_str_idx(keys, cs[0]);
        assert(keys.len() == os.len());
        if root.spec_contains_key(cs[0]) && sc > 0 {
            let i = find_str_idx(keys, cs[0]);
            if i >= 0 {
                if os[i].score >= sc {
                    assert(os1 == os);
                } else {
                    assert(owner_keys(os1) =~= keys.update(i, cs[0]));
                    assert(keys[i] == cs[0]);
                    assert(owner_keys(os1) =~= keys);
                }
            } else {
                assert(owner_keys(os1) =~= keys.push(cs[0]));
                assert forall|a: int, b: int|
                    0 <= a < b < owner_keys(os1).len() implies owner_keys(os1)[a]
                    != owner_keys(os1)[b] by {
                    if b == keys.len() {
                        assert(owner_keys(os1)[b] == cs[0] && owner_keys(os1)[a] == keys[a]);
                    }
                }
            }
        } else {
            assert(os1 == os);
        }
        lemma_owners_step_in_root(os, root, t, cs[0]);
        lemma_owners_fold_cands_props(os1, root, t, cs.drop_first());
    }
}

proof fn lemma_owners_fold_apps_props(
    os: Seq<OwnerModel>,
    root: crate::roots::RootFolders,
    ts: Seq<TokModel>,
)
    requires
        crate::uninstall::distinct_strs(owner_keys(os)),
        forall|i: int| 0 <= i < os.len() ==> root.spec_contains_key(
            (#[trigger] os[i]).folder,
        ),
    ensures
        crate::uninstall::distinct_strs(owner_keys(owners_fold_apps(os, root, ts))),
        forall|i: int|
            0 <= i < owners_fold_apps(os, root, ts).len() ==> root.spec_contains_key(
                (#[trigger] owners_fold_apps(os, root, ts)[i]).folder,
            ),
    decreases ts.len(),
{
    if ts.len() > 0 {
        lemma_owners_fold_cands_props(os, root, ts[0], spec_candidates(ts[0]));
        lemma_owners_fold_apps_props(
            owners_fold_cands(os, root, ts[0], spec_candidates(ts[0])),
            root,
            ts.drop_first(),
        );
    }
}

/// Folder exclusivity: in the computed ownership of one root, every
/// folder key is claimed by at most one app, and every claimed key names
/// a folder of that root.
pub proof fn lemma_owners_exclusive(root: crate::roots::RootFolders, ts: Seq<TokModel>)
    ensures
        crate::uninstall::distinct_strs(owner_keys(spec_owners(root, ts))),
        forall|i: int|
            0 <= i < spec_owners(root, ts).len() ==> root.spec_contains_key(
                (#[trigger] spec_owners(root, ts)[i]).folder,
            ),
{
    lemma_owners_fold_apps_props(Seq::empty(), root, ts);
}


proof fn lemma_sat_add_ge(a: u64, b: u64)
    ensures
        sat_add_u64(a, b) >= a,
        sat_add_u64(a, b) >= b,
{
}

proof fn lemma_sat_add_mono(a1: u64, a2: u64, b: u64)
    requires
        a1 <= a2,
    ensures
        sat_add_u64(a1, b) <= sat_add_u64(a2, b),
{
}

proof fn lemma_sat_mul_mono(a1: u64, a2: u64, k: u64)
    requires
        a1 <= a2,
    ensures
        sat_mul_u64(a1, k) <= sat_mul_u64(a2, k),
{
    assert(a1 * k <= a2 * k) by (nonlinear_arith)
        requires
            a1 <= a2,
    ;
}

/// Appending a token that the folder key contains never lowers a token
/// score.
pub proof fn lemma_token_score_extend(folder: Seq<char>, ts: Seq<Seq<char>>, x: Seq<char>)
    requires
        contains_seq(folder, x),
    ensures
        spec_token_score(folder, ts.push(x)) >= spec_token_score(folder, ts),
{
    assert(ts.push(x).drop_last() =~= ts);
    assert(ts.push(x).last() == x);
    lemma_sat_add_ge(spec_token_score(folder, ts), len_u64(x));
}

/// Score monotonicity, publisher side: extending the publisher tokens
/// with a token that appears in the folder key never lowers the score.
pub proof fn lemma_score_monotone_publisher(folder: Seq<char>, t: TokModel, x: Seq<char>)
    requires
        contains_seq(folder, x),
    ensures
        spec_score_folder(
            folder,
            TokModel { publisher_tokens: t.publisher_tokens.push(x), ..t },
        ) >= spec_score_folder(folder, t),
{
    let t2 = TokModel { publisher_tokens: t.publisher_tokens.push(x), ..t };
    let ns = spec_token_score(folder, t.name_tokens);
    let ps = spec_token_score(folder, t.publisher_tokens);
    let ps2 = spec_token_score(folder, t2.publisher_tokens);
    lemma_token_score_extend(folder, t.publisher_tokens, x);
    assert(ps2 >= ps);
    if ns > 0 {
        lemma_sat_add_mono(ps, ps2, sat_mul_u64(ns, 100));
        lemma_sat_add_ge(sat_mul_u64(ns, 100), ps2);
        assert(sat_add_u64(sat_mul_u64(ns, 100), ps2) >= sat_add_u64(sat_mul_u64(ns, 100), ps));
    } else if t.allow_publisher_only && ps > 0 {
        lemma_sat_mul_mono(ps, ps2, 50);
    }
}

/// Score monotonicity, name side: extending the name tokens with a token
/// that appears in the folder key never lowers the score, provided the
/// app is not in publisher-only mode with no matching name token (there
/// a weak name match can replace a strong publisher-only score).
pub proof fn lemma_score_monotone_name(folder: Seq<char>, t: TokModel, x: Seq<char>)
    requires
        contains_seq(folder, x),
        !t.allow_publisher_only || spec_token_score(folder, t.name_tokens) > 0,
    ensures
        spec_score_folder(folder, TokModel { name_tokens: t.name_tokens.push(x), ..t })
            >= spec_score_folder(folder, t),
{
    let t2 = TokModel { name_tokens: t.name_tokens.push(x), ..t };
    let ns = spec_token_score(folder, t.name_tokens);
    let ns2 = spec_token_score(folder, t2.name_tokens);
    let ps = spec_token_score(folder, t.publisher_tokens);
    lemma_token_score_extend(folder, t.name_tokens, x);
    assert(ns2 >= ns);
    if ns > 0 {
        lemma_sat_mul_mono(ns, ns2, 100);
        lemma_sat_add_mono(sat_mul_u64(ns, 100), sat_mul_u64(ns2, 100), ps);
        assert(sat_add_u64(sat_mul_u64(ns2, 100), ps) >= sat_add_u64(sat_mul_u64(ns, 100), ps));
    }
}

proof fn lemma_fold_pub_no_stop(acc: Seq<Seq<char>>, ts: Seq<Seq<char>>)
    requires
        forall|i: int| 0 <= i < acc.len() ==> !spec_is_stop_publisher(#[trigger] acc[i]),
    ensures
        forall|i: int|
            0 <= i < fold_publisher_tokens(acc, ts).len() ==> !spec_is_stop_publisher(
                #[trigger] fold_publisher_tokens(acc, ts)[i],
            ),
    decreases ts.len(),
{
    if ts.len() > 0 {
        let acc2 = add_publisher_token(acc, ts[0]);
        assert forall|i: int| 0 <= i < acc2.len() implies !spec_is_stop_publisher(
            acc2[i],
        ) by {
            if i < acc.len() {
                assert(acc2[i] == acc[i]);
            }
        }
        lemma_fold_pub_no_stop(acc2, ts.drop_first());
        assert(fold_publisher_tokens(acc, ts) == fold_publisher_tokens(acc2, ts.drop_first()));
        assert forall|i: int| 0 <= i < fold_publisher_tokens(acc, ts).len() implies
            !spec_is_stop_publisher(#[trigger] fold_publisher_tokens(acc, ts)[i]) by {
            assert(fold_publisher_tokens(acc, ts)[i] == fold_publisher_tokens(
                acc2,
                ts.drop_first(),
            )[i]);
        }
    }
}

/// Stop-word neutrality, publisher side: no publisher stop word enters
/// the bag.
pub proof fn lemma_publisher_tokens_no_stop(publisher: Seq<char>)
    ensures
        forall|i: int|
            0 <= i < spec_build_publisher_tokens(publisher).len() ==> !spec_is_stop_publisher(
                #[trigger] spec_build_publisher_tokens(publisher)[i],
            ),
{
    lemma_fold_pub_no_stop(Seq::empty(), spec_split_tokens(publisher));
}

proof fn lemma_fold_name_no_stop(acc: Seq<Seq<char>>, ts: Seq<Seq<char>>, b: int)
    requires
        0 <= b,
        forall|i: int| b <= i < acc.len() ==> !spec_is_stop_name(#[trigger] acc[i]),
    ensures
        forall|i: int|
            b <= i < fold_name_tokens(acc, ts).len() ==> !spec_is_stop_name(
                #[trigger] fold_name_tokens(acc, ts)[i],
            ),
    decreases ts.len(),
{
    if ts.len() > 0 {
        let acc2 = add_name_token(acc, ts[0]);
        assert forall|i: int| b <= i < acc2.len() implies !spec_is_stop_name(acc2[i]) by {
            if i < acc.len() {
                assert(acc2[i] == acc[i]);
            }
        }
        lemma_fold_name_no_stop(acc2, ts.drop_first(), b);
        assert(fold_name_tokens(acc, ts) == fold_name_tokens(acc2, ts.drop_first()));
        assert forall|i: int| b <= i < fold_name_tokens(acc, ts).len() implies
            !spec_is_stop_name(#[trigger] fold_name_tokens(acc, ts)[i]) by {
            assert(fold_name_tokens(acc, ts)[i] == fold_name_tokens(acc2, ts.drop_first())[i]);
        }
    }
}

/// Stop-word neutrality, name side: no name stop word enters the bag,
/// except that the collapsed normalized key stands first whatever it is.
pub proof fn lemma_name_tokens_no_stop(name: Seq<char>)
    ensures
        forall|i: int|
            1 <= i < spec_build_name_tokens(name).len() ==> !spec_is_stop_name(
                #[trigger] spec_build_name_tokens(name)[i],
            ),
        spec_build_name_tokens(name).len() > 0 && spec_is_stop_name(
            spec_build_name_tokens(name)[0],
        ) ==> spec_build_name_tokens(name)[0] == normalize_seq(name),
{
    let key = normalize_seq(name);
    let base: Seq<Seq<char>> = if key.len() >= 3 {
        seq![key]
    } else {
        Seq::empty()
    };
    lemma_fold_name_no_stop(base, spec_split_tokens(name), 1);
    if key.len() < 3 {
        lemma_fold_name_no_stop(base, spec_split_tokens(name), 0);
    } else {
        lemma_fold_name_prefix(base, spec_split_tokens(name));
    }
}

/// Folding tokens only appends: the accumulator stays a prefix.
proof fn lemma_fold_name_prefix(acc: Seq<Seq<char>>, ts: Seq<Seq<char>>)
    ensures
        fold_name_tokens(acc, ts).len() >= acc.len(),
        forall|i: int|
            0 <= i < acc.len() ==> #[trigger] fold_name_tokens(acc, ts)[i] == acc[i],
    decreases ts.len(),
{
    if ts.len() > 0 {
        let acc2 = add_name_token(acc, ts[0]);
        lemma_fold_name_prefix(acc2, ts.drop_first());
        assert forall|i: int| 0 <= i < acc.len() implies fold_name_tokens(acc, ts)[i]
            == acc[i] by {
            assert(fold_name_tokens(acc, ts)[i] == fold_name_tokens(acc2, ts.drop_first())[i]);
            assert(acc2[i] == acc[i]);
        }
    }
}


/// One step of the ownership fold treats roots with equal folder models
/// alike.
proof fn lemma_owners_step_root_eq(
    os: Seq<OwnerModel>,
    r1: crate::roots::RootFolders,
    r2: crate::roots::RootFolders,
    t: TokModel,
    c: Seq<char>,
)
    requires
        r1.model() == r2.model(),
    ensures
        owners_step(os, r1, t, c) == owners_step(os, r2, t, c),
{
}

proof fn lemma_owners_fold_cands_root_eq(
    os: Seq<OwnerModel>,
    r1: crate::roots::RootFolders,
    r2: crate::roots::RootFolders,
    t: TokModel,
    cs: Seq<Seq<char>>,
)
    requires
        r1.model() == r2.model(),
    ensures
        owners_fold_cands(os, r1, t, cs) == owners_fold_cands(os, r2, t, cs),
    decreases cs.len(),
{
    if cs.len() > 0 {
        lemma_owners_step_root_eq(os, r1, r2, t, cs[0]);
        lemma_owners_fold_cands_root_eq(
            owners_step(os, r1, t, cs[0]),
            r1,
            r2,
            t,
            cs.drop_first(),
        );
    }
}

proof fn lemma_owners_fold_apps_root_eq(
    os: Seq<OwnerModel>,
    r1: crate::roots::RootFolders,
    r2: crate::roots::RootFolders,
    ts: Seq<TokModel>,
)
    requires
        r1.model() == r2.model(),
    ensures
        owners_fold_apps(os, r1, ts) == owners_fold_apps(os, r2, ts),
    decreases ts.len(),
{
    if ts.len() > 0 {
        lemma_owners_fold_cands_root_eq(os, r1, r2, ts[0], spec_candidates(ts[0]));
        lemma_owners_fold_apps_root_eq(
            owners_fold_cands(os, r1, ts[0], spec_candidates(ts[0])),
            r1,
            r2,
            ts.drop_first(),
        );
    }
}

proof fn lemma_assign_fold_root_eq(
    asg: Seq<AppFoldersModel>,
    r1: crate::roots::RootFolders,
    r2: crate::roots::RootFolders,
    os: Seq<OwnerModel>,
)
    requires
        r1.model() == r2.model(),
    ensures
        assign_fold(asg, r1, os) == assign_fold(asg, r2, os),
    decreases os.len(),
{
    if os.len() > 0 {
        assert(assign_step(asg, r1, os[0]) == assign_step(asg, r2, os[0]));
        lemma_assign_fold_root_eq(assign_step(asg, r1, os[0]), r1, r2, os.drop_first());
    }
}

/// Two roots with the same folder model are assigned alike.
pub proof fn lemma_assign_root_eq(
    r1: crate::roots::RootFolders,
    r2: crate::roots::RootFolders,
    ts: Seq<TokModel>,
)
    requires
        r1.model() == r2.model(),
    ensures
        spec_owners(r1, ts) == spec_owners(r2, ts),
        spec_assign_root(r1, ts) == spec_assign_root(r2, ts),
{
    lemma_owners_fold_apps_root_eq(Seq::empty(), r1, r2, ts);
    lemma_assign_fold_root_eq(Seq::empty(), r1, r2, spec_owners(r1, ts));
}

} // verus!
