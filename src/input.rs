//! Reading user input: starting keys, raw text and ciphertext words.
use vstd::prelude::*;
use vstd::string::StringExecFns;

use crate::clean::{lemma_split_pieces, lower_or_space, nonempty, tokenize, words};
use crate::dictionary::Dictionary;
use crate::key::{injective, key_wf, lemma_injective_at};
use crate::pattern::{shape, shape_chars};
use crate::word::Word;

pub use crate::clean::clean_input;
use crate::text::{all_lower, chars_of, index_of_letter, is_lower, letter_at, letter_index, letter_of_index, string_of};

verus! {

/// What `{:?}` prints for a character.
pub uninterp spec fn char_debug_of(c: char) -> Seq<char>;

/// What `{:?}` prints for a string.
pub uninterp spec fn str_debug_of(s: Seq<char>) -> Seq<char>;

/// Relies on `<char as Debug>::fmt`: the quoted, escaped form of `c`.
#[verifier::external_body]
fn char_debug(c: char) -> (r: String)
    ensures
        r@ == char_debug_of(c),
{
    format!("{c:?}")
}

/// Relies on `<str as Debug>::fmt`: the quoted, escaped form of `s`.
#[verifier::external_body]
fn str_debug(s: &str) -> (r: String)
    ensures
        r@ == str_debug_of(s@),
{
    format!("{s:?}")
}

pub open spec fn invalid_msg(c: char) -> Seq<char> {
    "Invalid key character: "@ + char_debug_of(c) + " (should be in lowercase alphabet)"@
}

pub open spec fn dup_mapping_msg(value: char, first: char, second: char) -> Seq<char> {
    "Duplicate mapping of "@ + char_debug_of(value) + " to "@ + char_debug_of(first) + " and "@
        + char_debug_of(second)
}

pub open spec fn dup_key_msg(c: char) -> Seq<char> {
    "Duplicate key character: "@ + char_debug_of(c)
}

pub open spec fn empty_pair_msg(key: Seq<char>) -> Seq<char> {
    "No first character in key: "@ + str_debug_of(key)
}

/// The empty key.
pub open spec fn empty_key() -> Seq<Option<char>> {
    Seq::new(26, |i: int| None::<char>)
}

/// Some ciphertext letter is already sent to `b`.
pub open spec fn holds(k: Seq<Option<char>>, b: char) -> bool {
    exists|i: int| 0 <= i < 26 && k[i] == Some(b)
}

/// The ciphertext letter that is sent to `b`.
pub open spec fn owner(k: Seq<Option<char>>, b: char) -> int {
    choose|i: int| 0 <= i < 26 && k[i] == Some(b)
}

/// Adds the pair `a -> b` to `k` under the rules of both key formats: `b` must be a lowercase
/// letter that no other letter is sent to yet.
pub open spec fn add_target(k: Seq<Option<char>>, a: int, b: char) -> Result<Seq<Option<char>>, Seq<char>> {
    if !is_lower(b) {
        Err(invalid_msg(b))
    } else if holds(k, b) {
        Err(dup_mapping_msg(b, letter_at(owner(k, b)), letter_at(a)))
    } else {
        Ok(k.update(a, Some(b)))
    }
}

/// The wildcard format read over its first `n` positions: position `i` gives the image of
/// the `i`-th letter, `?` none.
pub open spec fn wildcard_upto(key: Seq<char>, n: int) -> Result<Seq<Option<char>>, Seq<char>>
    decreases n,
{
    if n <= 0 {
        Ok(empty_key())
    } else {
        match wildcard_upto(key, n - 1) {
            Err(e) => Err(e),
            Ok(k) => if key[n - 1] == '?' {
                Ok(k)
            } else {
                add_target(k, n - 1, key[n - 1])
            },
        }
    }
}

/// `s` cut at every `sep`.
pub open spec fn split_on(s: Seq<char>, sep: char) -> Seq<Seq<char>>
    decreases s.len(),
{
    if s.len() == 0 {
        seq![Seq::<char>::empty()]
    } else {
        let rest = split_on(s.drop_last(), sep);
        if s.last() == sep {
            rest.push(Seq::<char>::empty())
        } else {
            rest.update(rest.len() - 1, rest.last().push(s.last()))
        }
    }
}

/// The delimiter format read over its first `n` pairs: the first character of each pair is
/// sent to its last.
pub open spec fn pairs_upto(key: Seq<char>, pairs: Seq<Seq<char>>, n: int) -> Result<Seq<Option<char>>, Seq<char>>
    decreases n,
{
    if n <= 0 {
        Ok(empty_key())
    } else {
        match pairs_upto(key, pairs, n - 1) {
            Err(e) => Err(e),
            Ok(k) => {
                let p = pairs[n - 1];
                if p.len() == 0 {
                    Err(empty_pair_msg(key))
                } else if !is_lower(p[0]) {
                    Err(invalid_msg(p[0]))
                } else if !is_lower(p.last()) {
                    Err(invalid_msg(p.last()))
                } else if k[letter_index(p[0])] is Some {
                    Err(dup_key_msg(p[0]))
                } else {
                    add_target(k, letter_index(p[0]), p.last())
                }
            },
        }
    }
}

/// A starting key as written by a user.
pub open spec fn parsed_key(key: Seq<char>) -> Result<Seq<Option<char>>, Seq<char>> {
    if key.contains('?') {
        wildcard_upto(key, if key.len() < 26 { key.len() as int } else { 26 })
    } else {
        let pairs = split_on(key, ',');
        pairs_upto(key, pairs, pairs.len() as int)
    }
}

fn invalid_message(c: char) -> (r: String)
    ensures
        r@ == invalid_msg(c),
{
    let d = char_debug(c);
    let mut r = String::from_str("Invalid key character: ");
    r.append(d.as_str());
    r.append(" (should be in lowercase alphabet)");
    r
}

fn dup_mapping_message(value: char, first: char, second: char) -> (r: String)
    ensures
        r@ == dup_mapping_msg(value, first, second),
{
    let mut r = String::from_str("Duplicate mapping of ");
    r.append(char_debug(value).as_str());
    r.append(" to ");
    r.append(char_debug(first).as_str());
    r.append(" and ");
    r.append(char_debug(second).as_str());
    r
}

fn dup_key_message(c: char) -> (r: String)
    ensures
        r@ == dup_key_msg(c),
{
    let mut r = String::from_str("Duplicate key character: ");
    r.append(char_debug(c).as_str());
    r
}

fn empty_pair_message(key: &str) -> (r: String)
    ensures
        r@ == empty_pair_msg(key@),
{
    let mut r = String::from_str("No first character in key: ");
    r.append(str_debug(key).as_str());
    r
}

/// The ciphertext letter sent to `b`, if any.
fn find_owner(k: &Vec<Option<char>>, b: char) -> (r: Option<usize>)
    requires
        k@.len() == 26,
        injective(k@),
    ensures
        match r {
            Some(i) => i < 26 && k@[i as int] == Some(b) && holds(k@, b) && i == owner(k@, b),
            None => !holds(k@, b),
        },
{
    let mut i: usize = 0;
    while i < 26
        invariant
            k@.len() == 26,
            injective(k@),
            i <= 26,
            forall|j: int| 0 <= j < i ==> k@[j] != Some(b),
        decreases 26 - i,
    {
        match k[i] {
            Some(c) => {
                if c == b {
                    proof {
                        assert(holds(k@, b));
                        let j = owner(k@, b);
                        assert(j == i as int) by {
                            if j != i {
                                lemma_injective_at(k@, j, i as int);
                            }
                        }
                    }
                    return Some(i);
                }
            },
            None => {},
        }
        i = i + 1;
    }
    None
}

/// Applies `add_target` to the key in place; on an error the key is left as it was.
fn add_target_exec(k: &mut Vec<Option<char>>, a: usize, b: char) -> (r: Result<(), String>)
    requires
        key_wf(old(k)@),
        injective(old(k)@),
        a < 26,
        old(k)@[a as int] is None,
    ensures
        match r {
            Ok(()) => add_target(old(k)@, a as int, b) == Ok::<Seq<Option<char>>, Seq<char>>(final(k)@),
            Err(e) => add_target(old(k)@, a as int, b) == Err::<Seq<Option<char>>, Seq<char>>(e@),
        },
        key_wf(final(k)@),
        injective(final(k)@),
{
    if !('a' <= b && b <= 'z') {
        return Err(invalid_message(b));
    }
    match find_owner(k, b) {
        Some(i) => {
            let first = letter_of_index(i);
            let second = letter_of_index(a);
            Err(dup_mapping_message(b, first, second))
        },
        None => {
            let ghost k0 = k@;
            k.set(a, Some(b));
            proof {
                assert forall|i: int, j: int|
                    0 <= i < 26 && 0 <= j < 26 && i != j && k@[i] is Some && k@[j] is Some implies #[trigger] k@[i]
                        != #[trigger] k@[j] by {
                    if i == a {
                        assert(k0[j] != Some(b));
                    } else if j == a {
                        assert(k0[i] != Some(b));
                    } else {
                        assert(k0[i] != k0[j]);
                    }
                }
            }
            Ok(())
        },
    }
}

proof fn lemma_wildcard_err(key: Seq<char>, i: int, n: int)
    requires
        0 <= i <= n,
        wildcard_upto(key, i) is Err,
    ensures
        wildcard_upto(key, n) == wildcard_upto(key, i),
    decreases n - i,
{
    if n > i {
        lemma_wildcard_err(key, i, n - 1);
    }
}

proof fn lemma_pairs_err(key: Seq<char>, pairs: Seq<Seq<char>>, i: int, n: int)
    requires
        0 <= i <= n,
        pairs_upto(key, pairs, i) is Err,
    ensures
        pairs_upto(key, pairs, n) == pairs_upto(key, pairs, i),
    decreases n - i,
{
    if n > i {
        lemma_pairs_err(key, pairs, i, n - 1);
    }
}

fn new_key() -> (k: Vec<Option<char>>)
    ensures
        k@ == empty_key(),
        key_wf(k@),
        injective(k@),
{
    let mut k: Vec<Option<char>> = Vec::new();
    let mut i: usize = 0;
    while i < 26
        invariant
            i <= 26,
            k@.len() == i,
            forall|j: int| 0 <= j < i ==> k@[j] is None,
        decreases 26 - i,
    {
        k.push(None);
        i = i + 1;
    }
    assert(k@ =~= empty_key());
    k
}

/// `s` cut at every `sep`.
pub fn split_chars(s: &Vec<char>, sep: char) -> (r: Vec<Vec<char>>)
    ensures
        r.deep_view() == split_on(s@, sep),
        r@.len() >= 1,
{
    let mut pieces: Vec<Vec<char>> = Vec::new();
    pieces.push(Vec::new());
    proof {
        assert(s@.take(0) =~= Seq::<char>::empty());
        assert(pieces.deep_view() =~~= split_on(s@.take(0), sep));
    }
    let mut i: usize = 0;
    while i < s.len()
        invariant
            i <= s@.len(),
            pieces.deep_view() == split_on(s@.take(i as int), sep),
            pieces@.len() >= 1,
        decreases s@.len() - i,
    {
        let c = s[i];
        let ghost before = pieces.deep_view();
        proof {
            assert(s@.take(i + 1).drop_last() =~= s@.take(i as int));
            assert(s@.take(i + 1).last() == c);
        }
        if c == sep {
            pieces.push(Vec::new());
            assert(pieces.deep_view() =~~= before.push(Seq::<char>::empty()));
        } else {
            let mut last = pieces.pop().unwrap();
            last.push(c);
            pieces.push(last);
            assert(pieces.deep_view() =~~= before.update(before.len() - 1, before.last().push(c)));
        }
        i = i + 1;
    }
    proof {
        assert(s@.take(s@.len() as int) =~= s@);
    }
    pieces
}

/// Reads a starting key, either in the wildcard format (`"b?d?f???..."`: the `i`-th character
/// is the image of the `i`-th letter, `?` for none) or in the delimiter format (`"a:b,c:d"` or
/// `"ab,cd"`: each comma-separated pair sends its first character to its last).
pub fn parse_key(key: &str) -> (r: Result<Vec<Option<char>>, String>)
    ensures
        match r {
            Ok(k) => parsed_key(key@) == Ok::<Seq<Option<char>>, Seq<char>>(k@) && key_wf(k@) && injective(k@),
            Err(e) => parsed_key(key@) == Err::<Seq<Option<char>>, Seq<char>>(e@),
        },
{
    let chars = chars_of(key);
    let mut wildcard = false;
    let mut i: usize = 0;
    while i < chars.len()
        invariant
            chars@ == key@,
            i <= chars@.len(),
            wildcard <==> exists|j: int| 0 <= j < i && chars@[j] == '?',
        decreases chars@.len() - i,
    {
        if chars[i] == '?' {
            wildcard = true;
        }
        i = i + 1;
    }
    let mut result = new_key();
    if wildcard {
        proof {
            let j = choose|j: int| 0 <= j < i && chars@[j] == '?';
            assert(key@[j] == '?');
            assert(key@.contains('?'));
        }
        let n: usize = if chars.len() < 26 { chars.len() } else { 26 };
        let mut i: usize = 0;
        while i < n
            invariant
                chars@ == key@,
                n <= chars@.len(),
                n <= 26,
                key@.contains('?'),
                n as int == (if key@.len() < 26 { key@.len() as int } else { 26 }),
                i <= n,
                key_wf(result@),
                injective(result@),
                wildcard_upto(key@, i as int) == Ok::<Seq<Option<char>>, Seq<char>>(result@),
                forall|j: int| i <= j < 26 ==> result@[j] is None,
            decreases n - i,
        {
            let b = chars[i];
            if b != '?' {
                match add_target_exec(&mut result, i, b) {
                    Ok(()) => {},
                    Err(e) => {
                        proof {
                            assert(b == key@[i as int]);
                            lemma_wildcard_err(key@, i + 1, n as int);
                        }
                        return Err(e);
                    },
                }
            }
            i = i + 1;
        }
        Ok(result)
    } else {
        let pairs = split_chars(&chars, ',');
        let ghost ps = pairs.deep_view();
        let mut j: usize = 0;
        while j < pairs.len()
            invariant
                chars@ == key@,
                ps == pairs.deep_view(),
                ps == split_on(key@, ','),
                !key@.contains('?'),
                j <= ps.len(),
                key_wf(result@),
                injective(result@),
                pairs_upto(key@, ps, j as int) == Ok::<Seq<Option<char>>, Seq<char>>(result@),
            decreases ps.len() - j,
        {
            let pair = &pairs[j];
            assert(pair@ == ps[j as int]);
            if pair.len() == 0 {
                proof {
                    lemma_pairs_err(key@, ps, j + 1, ps.len() as int);
                }
                return Err(empty_pair_message(key));
            }
            let a = pair[0];
            let b = pair[pair.len() - 1];
            assert(b == ps[j as int].last());
            if !('a' <= a && a <= 'z') {
                proof {
                    lemma_pairs_err(key@, ps, j + 1, ps.len() as int);
                }
                return Err(invalid_message(a));
            }
            if !('a' <= b && b <= 'z') {
                proof {
                    lemma_pairs_err(key@, ps, j + 1, ps.len() as int);
                }
                return Err(invalid_message(b));
            }
            let x = index_of_letter(a);
            if result[x].is_some() {
                proof {
                    lemma_pairs_err(key@, ps, j + 1, ps.len() as int);
                }
                return Err(dup_key_message(a));
            }
            match add_target_exec(&mut result, x, b) {
                Ok(()) => {},
                Err(e) => {
                    proof {
                        lemma_pairs_err(key@, ps, j + 1, ps.len() as int);
                    }
                    return Err(e);
                },
            }
            j = j + 1;
        }
        proof {
            assert(!key@.contains('?')) by {
                if key@.contains('?') {
                    let j = choose|j: int| 0 <= j < key@.len() && key@[j] == '?';
                    assert(chars@[j] == '?');
                }
            }
        }
        Ok(result)
    }
}

pub open spec fn unknown_word_msg(w: Seq<char>) -> Seq<char> {
    "Word "@ + str_debug_of(w) + " is not possible in the dictionary"@
}

fn unknown_word_message(w: &str) -> (r: String)
    ensures
        r@ == unknown_word_msg(w@),
{
    let mut r = String::from_str("Word ");
    r.append(str_debug(w).as_str());
    r.append(" is not possible in the dictionary");
    r
}

/// The words of a cleaned text are non-empty runs of lowercase letters.
proof fn lemma_words_lower(s: Seq<char>)
    requires
        lower_or_space(s),
    ensures
        forall|i: int| 0 <= i < words(s).len() ==> all_lower(#[trigger] words(s)[i]) && words(s)[i].len() > 0,
{
    reveal(Seq::filter);
    lemma_split_pieces(s, ' ');
    let ps = split_on(s, ' ');
    let ws = words(s);
    assert forall|i: int| 0 <= i < ws.len() implies all_lower(#[trigger] ws[i]) && ws[i].len() > 0 by {
        assert(ws.contains(ws[i]));
        ps.lemma_filter_contains_rev(|w: Seq<char>| nonempty(w), ws[i]);
        ps.lemma_filter_pred(|w: Seq<char>| nonempty(w), i);
        let j = choose|j: int| 0 <= j < ps.len() && ps[j] == ws[i];
        assert forall|m: int| 0 <= m < ws[i].len() implies is_lower(#[trigger] ws[i][m]) by {
            assert(ps[j][m] == ws[i][m]);
            assert(s.contains(ps[j][m]));
        }
    }
}

/// Binds each word of a cleaned ciphertext to the dictionary words of its shape; fails on the
/// first word whose shape the dictionary lacks.
pub fn input_to_words(input: &str, dictionary: &Dictionary) -> (r: Result<Vec<Word>, String>)
    requires
        dictionary.wf(),
        lower_or_space(input@),
    ensures
        match r {
            Ok(ws) => {
                &&& forall|i: int| 0 <= i < words(input@).len() ==> dictionary.has_shape(shape(#[trigger] words(input@)[i]))
                &&& ws@.len() == words(input@).len()
                &&& forall|i: int|
                    0 <= i < ws@.len() ==> {
                        &&& (#[trigger] ws@[i]).wf()
                        &&& ws@[i].word@ == words(input@)[i]
                        &&& ws@[i].cands() == dictionary.words_of(shape(words(input@)[i]))
                    }
            },
            Err(e) => exists|i: int|
                0 <= i < words(input@).len() && !dictionary.has_shape(shape(#[trigger] words(input@)[i]))
                    && (forall|i2: int| 0 <= i2 < i ==> dictionary.has_shape(shape(#[trigger] words(input@)[i2])))
                    && e@ == unknown_word_msg(words(input@)[i]),
        },
{
    let chars = chars_of(input);
    let tokens = tokenize(&chars);
    let ghost ts = tokens.deep_view();
    proof {
        lemma_words_lower(input@);
    }
    let mut result: Vec<Word> = Vec::new();
    let mut i: usize = 0;
    while i < tokens.len()
        invariant
            dictionary.wf(),
            ts == tokens.deep_view(),
            ts == words(input@),
            forall|k: int| 0 <= k < ts.len() ==> all_lower(#[trigger] ts[k]) && ts[k].len() > 0,
            i <= ts.len(),
            result@.len() == i,
            forall|k: int| 0 <= k < i ==> dictionary.has_shape(shape(#[trigger] ts[k])),
            forall|k: int|
                0 <= k < i ==> {
                    &&& (#[trigger] result@[k]).wf()
                    &&& result@[k].word@ == ts[k]
                    &&& result@[k].cands() == dictionary.words_of(shape(ts[k]))
                },
        decreases ts.len() - i,
    {
        let token = &tokens[i];
        assert(token@ =~= ts[i as int]);
        let sig = shape_chars(token);
        let text = string_of(token);
        match dictionary.get(&sig) {
            Some(candidates) => {
                proof {
                    let j = choose|j: int|
                        0 <= j < dictionary.shapes@.len() && dictionary.shapes.deep_view()[j] == sig@;
                    assert(dictionary.bucket(j) == candidates.deep_view());
                    assert forall|c: int| 0 <= c < candidates.deep_view().len() implies all_lower(
                        #[trigger] candidates.deep_view()[c],
                    ) && shape(candidates.deep_view()[c]) == shape(text@) by {
                        assert(crate::dictionary::is_entry(dictionary.bucket(j)[c]));
                    }
                }
                let word = Word::new(text.as_str(), candidates);
                result.push(word);
            },
            None => {
                let e = unknown_word_message(text.as_str());
                return Err(e);
            },
        }
        i = i + 1;
    }
    Ok(result)
}

} // verus!
