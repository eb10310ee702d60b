//! Letters, character sequences and the conversions between `str` and `Vec<char>`.
use vstd::prelude::*;

verus! {

/// A lowercase ASCII letter.
pub open spec fn is_lower(c: char) -> bool {
    'a' <= c && c <= 'z'
}

/// Every character of `w` is a lowercase ASCII letter.
pub open spec fn all_lower(w: Seq<char>) -> bool {
    forall|i: int| 0 <= i < w.len() ==> is_lower(#[trigger] w[i])
}

/// Position of a lowercase letter in the alphabet (`'a'` is 0).
pub open spec fn letter_index(c: char) -> int {
    c as int - 'a' as int
}

/// The letter at position `i` of the alphabet.
pub open spec fn letter_at(i: int) -> char {
    (i + 'a' as int) as char
}

pub proof fn lemma_letter_index_injective(a: char, b: char)
    requires
        letter_index(a) == letter_index(b),
    ensures
        a == b,
{
    assert(a as u32 == b as u32);
}

pub fn index_of_letter(c: char) -> (r: usize)
    requires
        is_lower(c),
    ensures
        r == letter_index(c),
        r < 26,
{
    (c as u32 - 'a' as u32) as usize
}

pub fn letter_of_index(i: usize) -> (c: char)
    requires
        i < 26,
    ensures
        c == letter_at(i as int),
        is_lower(c),
        letter_index(c) == i,
{
    ((i as u8) + 97u8) as char
}

/// The two character vectors are equal.
pub fn same_chars(a: &Vec<char>, b: &Vec<char>) -> (r: bool)
    ensures
        r == (a@ == b@),
{
    if a.len() != b.len() {
        return false;
    }
    let mut m: usize = 0;
    while m < a.len()
        invariant
            a@.len() == b@.len(),
            m <= a@.len(),
            forall|m2: int| 0 <= m2 < m ==> a@[m2] == b@[m2],
        decreases a@.len() - m,
    {
        if a[m] != b[m] {
            return false;
        }
        m = m + 1;
    }
    assert(a@ =~= b@);
    true
}

/// The characters of `s`, in order.
pub fn chars_of(s: &str) -> (r: Vec<char>)
    ensures
        r@ == s@,
{
    broadcast use vstd::string::group_string_axioms;

    let mut v: Vec<char> = Vec::new();
    for c in it: s.chars()
        invariant
            v@ == it.seq().take(it.index() as int),
            it.seq() == s@,
    {
        proof {
            assert(it.seq().take(it.index() + 1) =~= v@.push(c));
        }
        v.push(c);
    }
    v
}

/// Relies on `String: FromIterator<&char>`: a string of the given characters, in order.
#[verifier::external_body]
pub(crate) fn string_of(v: &Vec<char>) -> (r: String)
    ensures
        r@ == v@,
{
    v.iter().collect()
}

/// Relies on `char::from_u32`: `Some` exactly for the valid scalar values.
#[verifier::external_body]
pub(crate) fn char_from_code(code: u32) -> (r: Option<char>)
    ensures
        (code < 0xD800 || (0xE000 <= code && code < 0x110000)) ==> r == Some(code as char),
        !(code < 0xD800 || (0xE000 <= code && code < 0x110000)) ==> r is None,
{
    char::from_u32(code)
}

} // verus!
