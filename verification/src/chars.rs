//! Character classification and case folding.
//!
//! All folding is locale-independent ASCII lowering applied per character;
//! characters outside the ASCII range pass through unchanged.

use vstd::prelude::*;

verus! {

/// The deep view of a list of character vectors is the sequence of their
/// views, element by element.
pub broadcast proof fn lemma_dv(v: Vec<Vec<char>>)
    ensures
        (#[trigger] v.deep_view()).len() == v@.len(),
        forall|i: int| 0 <= i < v@.len() ==> v.deep_view()[i] == v@[i]@,
{
    assert forall|i: int| 0 <= i < v@.len() implies v.deep_view()[i] == v@[i]@ by {
        assert(v@[i].deep_view() =~= v@[i]@);
    }
}

/// The deep view of a vector indexes to its elements' deep views.
pub broadcast proof fn lemma_vec_dv<T: DeepView>(v: Vec<T>)
    ensures
        (#[trigger] v.deep_view()).len() == v@.len(),
        forall|i: int| 0 <= i < v@.len() ==> v.deep_view()[i] == v@[i].deep_view(),
{
}

pub open spec fn is_ascii_digit_c(c: char) -> bool {
    48 <= c as u32 && c as u32 <= 57
}

pub open spec fn is_ascii_upper_c(c: char) -> bool {
    65 <= c as u32 && c as u32 <= 90
}

pub open spec fn is_ascii_lower_c(c: char) -> bool {
    97 <= c as u32 && c as u32 <= 122
}

pub open spec fn is_ascii_alnum_c(c: char) -> bool {
    is_ascii_digit_c(c) || is_ascii_upper_c(c) || is_ascii_lower_c(c)
}

/// ASCII whitespace: space, tab, line feed, carriage return.
pub open spec fn is_space_c(c: char) -> bool {
    c == ' ' || c == '\t' || c == '\n' || c == '\r'
}

/// ASCII lowering of one character; non-ASCII-uppercase characters pass
/// through unchanged.
pub open spec fn to_lower_c(c: char) -> char {
    if is_ascii_upper_c(c) {
        ((c as u8) + 32) as char
    } else {
        c
    }
}

pub fn char_is_ascii_digit(c: char) -> (r: bool)
    ensures
        r == is_ascii_digit_c(c),
{
    let u: u32 = c as u32;
    48 <= u && u <= 57
}

pub fn char_is_ascii_alnum(c: char) -> (r: bool)
    ensures
        r == is_ascii_alnum_c(c),
{
    let u: u32 = c as u32;
    (48 <= u && u <= 57) || (65 <= u && u <= 90) || (97 <= u && u <= 122)
}

pub fn char_is_space(c: char) -> (r: bool)
    ensures
        r == is_space_c(c),
{
    c == ' ' || c == '\t' || c == '\n' || c == '\r'
}

pub fn char_to_lower(c: char) -> (r: char)
    ensures
        r == to_lower_c(c),
{
    let u: u32 = c as u32;
    if 65 <= u && u <= 90 {
        ((c as u8) + 32) as char
    } else {
        c
    }
}

/// The characters of a string, as a vector with the same view.
pub fn string_to_chars(s: &str) -> (v: Vec<char>)
    ensures
        v@ == s@,
{
    let n: usize = s.unicode_len();
    let mut v: Vec<char> = Vec::new();
    let mut i: usize = 0;
    while i < n
        invariant
            i <= n,
            n == s@.len(),
            v@ == s@.subrange(0, i as int),
        decreases n - i,
    {
        v.push(s.get_char(i));
        i = i + 1;
        proof {
            assert(v@ =~= s@.subrange(0, i as int));
        }
    }
    proof {
        assert(v@ =~= s@);
    }
    v
}

/// Relies on `<String as FromIterator<char>>::from_iter`: collecting the
/// characters of the vector yields the string with exactly those characters.
#[verifier::external_body]
pub fn chars_to_string(v: &Vec<char>) -> (s: String)
    ensures
        s@ == v@,
{
    v.iter().collect()
}

} // verus!
