//! Substitution keys: for each ciphertext letter, the plaintext letter it stands for, if known.
use vstd::prelude::*;

use crate::text::{all_lower, index_of_letter, is_lower, lemma_letter_index_injective, letter_index, same_chars, chars_of, string_of};

verus! {

/// A key: 26 slots, one per ciphertext letter, each holding a lowercase letter or nothing.
pub open spec fn key_wf(k: Seq<Option<char>>) -> bool {
    &&& k.len() == 26
    &&& forall|i: int| 0 <= i < 26 && (#[trigger] k[i]) is Some ==> is_lower(k[i].unwrap())
}

/// No two ciphertext letters stand for the same plaintext letter.
pub open spec fn injective(k: Seq<Option<char>>) -> bool {
    forall|i: int, j: int|
        0 <= i < k.len() && 0 <= j < k.len() && i != j && k[i] is Some && k[j] is Some ==> #[trigger] k[i]
            != #[trigger] k[j]
}

pub proof fn lemma_injective_at(k: Seq<Option<char>>, i: int, j: int)
    requires
        injective(k),
        0 <= i < k.len(),
        0 <= j < k.len(),
        i != j,
        k[i] is Some,
        k[j] is Some,
    ensures
        k[i] != k[j],
{
}

/// Every slot of `small` that is filled holds the same letter in `big`.
pub open spec fn extends(big: Seq<Option<char>>, small: Seq<Option<char>>) -> bool {
    forall|i: int| 0 <= i < small.len() && (#[trigger] small[i]) is Some ==> big[i] == small[i]
}

/// The key assigns every letter of `w`.
pub open spec fn covers(k: Seq<Option<char>>, w: Seq<char>) -> bool {
    forall|m: int| 0 <= m < w.len() ==> (#[trigger] k[letter_index(w[m])]) is Some
}

/// `w` read through a key that covers it.
pub open spec fn apply_key(k: Seq<Option<char>>, w: Seq<char>) -> Seq<char> {
    Seq::new(w.len(), |m: int| k[letter_index(w[m])].unwrap())
}

/// Where the key assigns a letter of `w`, it assigns the letter that `c` has there.
pub open spec fn agrees(k: Seq<Option<char>>, w: Seq<char>, c: Seq<char>) -> bool {
    forall|m: int|
        0 <= m < w.len() && (#[trigger] k[letter_index(w[m])]) is Some ==> k[letter_index(w[m])] == Some(
            c[m],
        )
}

/// What `c` has at the first of the first `n` positions where `w` holds letter number `i`.
pub open spec fn first_image(w: Seq<char>, c: Seq<char>, i: int, n: int) -> Option<char>
    decreases n,
{
    if n <= 0 {
        None
    } else {
        let r = first_image(w, c, i, n - 1);
        if r is Some {
            r
        } else if letter_index(w[n - 1]) == i {
            Some(c[n - 1])
        } else {
            None
        }
    }
}

/// The key `k` with each unassigned letter of `w` sent to the letter of `c` at its position.
pub open spec fn extend(k: Seq<Option<char>>, w: Seq<char>, c: Seq<char>) -> Seq<Option<char>> {
    Seq::new(
        26,
        |i: int|
            if k[i] is Some {
                k[i]
            } else {
                first_image(w, c, i, w.len() as int)
            },
    )
}

/// `c` repeats a letter wherever `w` does.
pub open spec fn follows_repeats(w: Seq<char>, c: Seq<char>) -> bool {
    forall|a: int, b: int| 0 <= a < w.len() && 0 <= b < w.len() && w[a] == w[b] ==> #[trigger] c[a] == #[trigger] c[b]
}

pub proof fn lemma_first_image(w: Seq<char>, c: Seq<char>, i: int, n: int)
    requires
        all_lower(w),
        c.len() == w.len(),
        follows_repeats(w, c),
        0 <= n <= w.len(),
    ensures
        first_image(w, c, i, n) is Some <==> exists|m: int| 0 <= m < n && letter_index(#[trigger] w[m]) == i,
        forall|m: int| 0 <= m < n && letter_index(#[trigger] w[m]) == i ==> first_image(w, c, i, n) == Some(c[m]),
    decreases n,
{
    if n > 0 {
        lemma_first_image(w, c, i, n - 1);
        assert forall|m: int| 0 <= m < n && letter_index(#[trigger] w[m]) == i implies first_image(w, c, i, n)
            == Some(c[m]) by {
            if first_image(w, c, i, n - 1) is Some {
                let m0 = choose|m0: int| 0 <= m0 < n - 1 && letter_index(#[trigger] w[m0]) == i;
                lemma_letter_index_injective(w[m0], w[m]);
            }
        }
        if first_image(w, c, i, n) is Some {
            if first_image(w, c, i, n - 1) is None {
                assert(letter_index(w[n - 1]) == i);
            }
        }
    }
}

/// The key as a slot vector is injective, tested by marking each plaintext letter used.
pub fn is_consistent(map: &Vec<Option<char>>) -> (r: bool)
    requires
        key_wf(map@),
    ensures
        r == injective(map@),
{
    let mut seen: Vec<bool> = Vec::new();
    let mut k: usize = 0;
    while k < 26
        invariant
            k <= 26,
            seen@.len() == k,
            forall|y: int| 0 <= y < k ==> !seen@[y],
        decreases 26 - k,
    {
        seen.push(false);
        k = k + 1;
    }
    let mut i: usize = 0;
    while i < 26
        invariant
            key_wf(map@),
            i <= 26,
            seen@.len() == 26,
            forall|y: int|
                0 <= y < 26 ==> (seen@[y] <==> exists|a: int|
                    0 <= a < i && (#[trigger] map@[a]) is Some && letter_index(map@[a].unwrap()) == y),
            forall|a: int, b: int|
                0 <= a < i && 0 <= b < i && a != b && map@[a] is Some && map@[b] is Some ==> #[trigger] map@[a]
                    != #[trigger] map@[b],
        decreases 26 - i,
    {
        match map[i] {
            Some(p) => {
                let y = index_of_letter(p);
                if seen[y] {
                    proof {
                        let a = choose|a: int|
                            0 <= a < i && (#[trigger] map@[a]) is Some && letter_index(map@[a].unwrap()) == y;
                        lemma_letter_index_injective(map@[a].unwrap(), p);
                        assert(map@[a] == map@[i as int]);
                    }
                    return false;
                }
                let ghost before = seen@;
                seen.set(y, true);
                proof {
                    assert forall|y2: int| 0 <= y2 < 26 implies (seen@[y2] <==> exists|a: int|
                        0 <= a < i + 1 && (#[trigger] map@[a]) is Some && letter_index(map@[a].unwrap())
                            == y2) by {
                        if y2 == y {
                            assert(map@[i as int] is Some);
                        } else {
                            assert(seen@[y2] == before[y2]);
                        }
                    }
                    assert forall|a: int, b: int|
                        0 <= a < i + 1 && 0 <= b < i + 1 && a != b && map@[a] is Some
                            && map@[b] is Some implies #[trigger] map@[a] != #[trigger] map@[b] by {
                        if a == i && b < i {
                            if map@[a] == map@[b] {
                                assert(before[y as int]);
                            }
                        } else if b == i && a < i {
                            if map@[a] == map@[b] {
                                assert(before[y as int]);
                            }
                        }
                    }
                }
            },
            None => {},
        }
        i = i + 1;
    }
    true
}

/// `cipher` read through the key, taking the letter of `plain` wherever the key has none.
fn apply_map(cipher: &Vec<char>, plain: &Vec<char>, map: &Vec<Option<char>>) -> (r: Vec<char>)
    requires
        key_wf(map@),
        all_lower(cipher@),
        plain@.len() == cipher@.len(),
    ensures
        r@.len() == cipher@.len(),
        forall|m: int|
            0 <= m < cipher@.len() ==> #[trigger] r@[m] == match map@[letter_index(cipher@[m])] {
                Some(p) => p,
                None => plain@[m],
            },
{
    let mut result: Vec<char> = Vec::new();
    let mut m: usize = 0;
    while m < cipher.len()
        invariant
            key_wf(map@),
            all_lower(cipher@),
            plain@.len() == cipher@.len(),
            m <= cipher@.len(),
            result@.len() == m,
            forall|m2: int|
                0 <= m2 < m ==> #[trigger] result@[m2] == match map@[letter_index(cipher@[m2])] {
                    Some(p) => p,
                    None => plain@[m2],
                },
        decreases cipher@.len() - m,
    {
        assert(is_lower(cipher@[m as int]));
        let x = index_of_letter(cipher[m]);
        let c = match map[x] {
            Some(p) => p,
            None => plain[m],
        };
        result.push(c);
        m = m + 1;
    }
    result
}

/// Trial application of the key to `cipher` reproduces `plain`.
pub fn key_accepts(cipher: &Vec<char>, plain: &Vec<char>, map: &Vec<Option<char>>) -> (r: bool)
    requires
        key_wf(map@),
        all_lower(cipher@),
        plain@.len() == cipher@.len(),
    ensures
        r == agrees(map@, cipher@, plain@),
{
    let applied = apply_map(cipher, plain, map);
    let r = same_chars(&applied, plain);
    proof {
        if r {
            assert forall|m: int|
                0 <= m < cipher@.len() && (#[trigger] map@[letter_index(cipher@[m])]) is Some implies map@[letter_index(
                cipher@[m],
            )] == Some(plain@[m]) by {
                assert(applied@[m] == plain@[m]);
            }
        } else {
            if agrees(map@, cipher@, plain@) {
                assert forall|m: int| 0 <= m < cipher@.len() implies applied@[m] == plain@[m] by {
                    assert(is_lower(cipher@[m]));
                }
                assert(applied@ =~= plain@);
            }
        }
    }
    r
}

/// The key extended by `cipher` -> `plain` on the letters that it leaves unassigned.
pub fn update_map(cipher: &Vec<char>, plain: &Vec<char>, map: &Vec<Option<char>>) -> (r: Vec<
    Option<char>,
>)
    requires
        key_wf(map@),
        all_lower(cipher@),
        all_lower(plain@),
        plain@.len() == cipher@.len(),
    ensures
        r@ == extend(map@, cipher@, plain@),
        key_wf(r@),
{
    let mut result = map.clone();
    let mut m: usize = 0;
    while m < cipher.len()
        invariant
            key_wf(map@),
            all_lower(cipher@),
            all_lower(plain@),
            plain@.len() == cipher@.len(),
            m <= cipher@.len(),
            result@ =~= Seq::new(
                26,
                |i: int|
                    if map@[i] is Some {
                        map@[i]
                    } else {
                        first_image(cipher@, plain@, i, m as int)
                    },
            ),
            key_wf(result@),
        decreases cipher@.len() - m,
    {
        assert(is_lower(cipher@[m as int]));
        assert(is_lower(plain@[m as int]));
        let x = index_of_letter(cipher[m]);
        if result[x].is_none() {
            result.set(x, Some(plain[m]));
        }
        m = m + 1;
        assert(result@ =~= Seq::new(
            26,
            |i: int|
                if map@[i] is Some {
                    map@[i]
                } else {
                    first_image(cipher@, plain@, i, m as int)
                },
        ));
    }
    result
}

/// One character read through a key, kept as it is where the key has no letter for it.
pub open spec fn substitute_char(k: Seq<Option<char>>, c: char) -> char {
    if is_lower(c) && k[letter_index(c)] is Some {
        k[letter_index(c)].unwrap()
    } else {
        c
    }
}

/// Reads a text through a key, keeping every character the key does not assign.
pub fn apply_solution(ciphertext: &str, solution: &Vec<Option<char>>) -> (r: String)
    requires
        key_wf(solution@),
    ensures
        r@ == ciphertext@.map_values(|c: char| substitute_char(solution@, c)),
{
    let chars = chars_of(ciphertext);
    let mut out: Vec<char> = Vec::new();
    let mut i: usize = 0;
    while i < chars.len()
        invariant
            key_wf(solution@),
            chars@ == ciphertext@,
            i <= chars@.len(),
            out@ == chars@.take(i as int).map_values(|c: char| substitute_char(solution@, c)),
        decreases chars@.len() - i,
    {
        let c = chars[i];
        let mut d = c;
        if 'a' <= c && c <= 'z' {
            match solution[index_of_letter(c)] {
                Some(p) => {
                    d = p;
                },
                None => {},
            }
        }
        out.push(d);
        proof {
            assert(chars@.take(i + 1).map_values(|c: char| substitute_char(solution@, c)) =~= chars@.take(
                i as int,
            ).map_values(|c: char| substitute_char(solution@, c)).push(substitute_char(solution@, c)));
        }
        i = i + 1;
    }
    proof {
        assert(chars@.take(chars@.len() as int) =~= chars@);
    }
    string_of(&out)
}

} // verus!
