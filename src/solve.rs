//! Backtracking search for every key that turns each ciphertext word into one of its candidates.
use vstd::prelude::*;

use crate::key::{
    agrees, apply_key, covers, extend, extends, follows_repeats, injective, is_consistent,
    key_accepts, key_wf, lemma_first_image, update_map,
};
use crate::pattern::lemma_shape_repeats;
use crate::input::{holds, owner};
use crate::text::{all_lower, chars_of, index_of_letter, is_lower, letter_at, letter_index, letter_of_index, string_of};
use crate::word::{cell, Word};

verus! {

/// Some ciphertext word at depth `d` or deeper holds letter number `i`.
pub open spec fn uses(ws: Seq<Word>, d: int, i: int) -> bool {
    exists|j: int, m: int|
        d <= j < ws.len() && 0 <= m < ws[j].word@.len() && letter_index(#[trigger] ws[j].word@[m]) == i
}

/// `kk` is a complete answer for the words from depth `d` on, reached from the partial key `k`:
/// it keeps `k`, is injective, assigns exactly the letters of `k` and of those words, and
/// turns each of those words into one of its candidates.
pub open spec fn solves_from(ws: Seq<Word>, d: int, k: Seq<Option<char>>, kk: Seq<Option<char>>) -> bool {
    &&& kk.len() == 26
    &&& extends(kk, k)
    &&& injective(kk)
    &&& forall|i: int| 0 <= i < 26 && (#[trigger] kk[i]) is Some ==> (k[i] is Some || uses(ws, d, i))
    &&& forall|j: int|
        d <= j < ws.len() ==> covers(kk, #[trigger] ws[j].word@) && ws[j].cands().contains(
            apply_key(kk, ws[j].word@),
        )
}

/// `kk` is an answer for all the words, starting from `start`.
pub open spec fn solves(ws: Seq<Word>, start: Seq<Option<char>>, kk: Seq<Option<char>>) -> bool {
    solves_from(ws, 0, start, kk)
}

/// Choosing candidate `c` for the word at depth `d` is accepted by `k` and leads on to `kk`.
pub open spec fn step_to(ws: Seq<Word>, d: int, k: Seq<Option<char>>, c: int, kk: Seq<Option<char>>) -> bool {
    let w = ws[d].word@;
    let cand = ws[d].cands()[c];
    agrees(k, w, cand) && solves_from(ws, d + 1, extend(k, w, cand), kk)
}

/// Some of the first `n` candidates at depth `d` leads on to `kk`.
#[verifier::opaque]
pub open spec fn found_before(ws: Seq<Word>, d: int, k: Seq<Option<char>>, n: int, kk: Seq<Option<char>>) -> bool {
    exists|c: int| 0 <= c < n && #[trigger] step_to(ws, d, k, c, kk)
}

/// Some solution in `out` holds the key `kk`.
pub open spec fn has_key(out: Seq<Solution>, kk: Seq<Option<char>>) -> bool {
    exists|i: int| 0 <= i < out.len() && (#[trigger] out[i]).key@ == kk
}

/// No key occurs twice in `out`.
pub open spec fn keys_distinct(out: Seq<Solution>) -> bool {
    forall|i: int, j: int| 0 <= i < out.len() && 0 <= j < out.len() && i != j ==> (#[trigger] out[i]).key@ != (
    #[trigger] out[j]).key@
}

pub open spec fn all_keys_wf(out: Seq<Solution>) -> bool {
    forall|i: int| 0 <= i < out.len() ==> key_wf((#[trigger] out[i]).key@)
}

pub open spec fn words_wf(ws: Seq<Word>) -> bool {
    forall|j: int| 0 <= j < ws.len() ==> (#[trigger] ws[j]).wf()
}

proof fn lemma_follows(w: &Word, c: int)
    requires
        w.wf(),
        0 <= c < w.cands().len(),
    ensures
        follows_repeats(w.word@, w.cands()[c]),
        all_lower(w.cands()[c]),
        w.cands()[c].len() == w.word@.len(),
{
    lemma_shape_repeats(w.word@, w.cands()[c]);
}

/// A key with an injectivity violation has no injective extension.
proof fn lemma_inconsistent(ws: Seq<Word>, d: int, k: Seq<Option<char>>, kk: Seq<Option<char>>)
    requires
        k.len() == 26,
        !injective(k),
    ensures
        !solves_from(ws, d, k, kk),
{
    if solves_from(ws, d, k, kk) {
        let (i, j) = choose|i: int, j: int|
            0 <= i < k.len() && 0 <= j < k.len() && i != j && k[i] is Some && k[j] is Some && #[trigger] k[i]
                == #[trigger] k[j];
        assert(kk[i] == k[i]);
        assert(kk[j] == k[j]);
    }
}

/// With no words left, the only answer is the key itself.
proof fn lemma_last(ws: Seq<Word>, k: Seq<Option<char>>, kk: Seq<Option<char>>)
    requires
        k.len() == 26,
        injective(k),
    ensures
        solves_from(ws, ws.len() as int, k, kk) <==> kk == k,
{
    if solves_from(ws, ws.len() as int, k, kk) {
        assert forall|i: int| 0 <= i < 26 implies kk[i] == k[i] by {
            if kk[i] is Some {
                assert(k[i] is Some);
            }
        }
        assert(kk =~= k);
    }
}

/// The answers from depth `d` are those reached through some accepted candidate of word `d`.
/// Through candidate `c`, the word at depth `d` is read as exactly that candidate.
proof fn lemma_step_image(ws: Seq<Word>, d: int, k: Seq<Option<char>>, c: int, kk: Seq<Option<char>>)
    requires
        words_wf(ws),
        0 <= d < ws.len(),
        k.len() == 26,
        0 <= c < ws[d].cands().len(),
        step_to(ws, d, k, c, kk),
    ensures
        covers(kk, ws[d].word@),
        apply_key(kk, ws[d].word@) == ws[d].cands()[c],
{
    let wd = ws[d];
    let w = wd.word@;
    let cand = wd.cands()[c];
    assert(wd.wf());
    lemma_follows(&wd, c);
    let e = extend(k, w, cand);
    assert forall|m: int| 0 <= m < w.len() implies kk[letter_index(w[m])] == Some(#[trigger] cand[m]) by {
        let i = letter_index(w[m]);
        assert(is_lower(w[m]));
        lemma_first_image(w, cand, i, w.len() as int);
        if k[i] is Some {
            assert(k[letter_index(w[m])] == Some(cand[m]));
        }
        assert(e[i] == Some(cand[m]));
    }
    assert forall|m: int| 0 <= m < w.len() implies (#[trigger] kk[letter_index(w[m])]) is Some by {
        assert(kk[letter_index(w[m])] == Some(cand[m]));
    }
    assert(apply_key(kk, w) =~= cand);
}

#[verifier::spinoff_prover]
proof fn lemma_step(ws: Seq<Word>, d: int, k: Seq<Option<char>>, kk: Seq<Option<char>>)
    requires
        words_wf(ws),
        0 <= d < ws.len(),
        k.len() == 26,
    ensures
        solves_from(ws, d, k, kk) <==> found_before(ws, d, k, ws[d].cands().len() as int, kk),
{
    reveal(found_before);
    let wd = ws[d];
    let w = wd.word@;
    let cs = wd.cands();
    assert(wd.wf());
    if solves_from(ws, d, k, kk) {
        let a = apply_key(kk, w);
        assert(covers(kk, w));
        assert(cs.contains(a));
        let c = choose|c: int| 0 <= c < cs.len() && cs[c] == a;
        lemma_follows(&wd, c);
        let e = extend(k, w, a);
        assert forall|m: int| 0 <= m < w.len() && (#[trigger] k[letter_index(w[m])]) is Some implies k[letter_index(
            w[m],
        )] == Some(a[m]) by {
            assert(is_lower(w[m]));
            assert(kk[letter_index(w[m])] is Some);
        }
        assert forall|i: int| 0 <= i < 26 && (#[trigger] e[i]) is Some implies kk[i] == e[i] by {
            if k[i] is None {
                lemma_first_image(w, a, i, w.len() as int);
                let m = choose|m: int| 0 <= m < w.len() && letter_index(#[trigger] w[m]) == i;
                assert(kk[letter_index(w[m])] is Some);
            }
        }
        assert forall|i: int| 0 <= i < 26 && (#[trigger] kk[i]) is Some implies (e[i] is Some || uses(
            ws,
            d + 1,
            i,
        )) by {
            if k[i] is None && !uses(ws, d + 1, i) {
                assert(uses(ws, d, i));
                let (j, m) = choose|j: int, m: int|
                    d <= j < ws.len() && 0 <= m < ws[j].word@.len() && letter_index(#[trigger] ws[j].word@[m])
                        == i;
                if j > d {
                    assert(uses(ws, d + 1, i));
                }
                lemma_first_image(w, a, i, w.len() as int);
            }
        }
        assert(step_to(ws, d, k, c, kk));
    }
    if found_before(ws, d, k, cs.len() as int, kk) {
        let c = choose|c: int| 0 <= c < cs.len() && #[trigger] step_to(ws, d, k, c, kk);
        let cand = cs[c];
        lemma_follows(&wd, c);
        let e = extend(k, w, cand);
        assert forall|i: int| 0 <= i < 26 && (#[trigger] k[i]) is Some implies kk[i] == k[i] by {
            assert(e[i] == k[i]);
        }
        assert forall|i: int| 0 <= i < 26 && (#[trigger] kk[i]) is Some implies (k[i] is Some || uses(
            ws,
            d,
            i,
        )) by {
            if k[i] is None && !uses(ws, d + 1, i) {
                assert(e[i] is Some);
                lemma_first_image(w, cand, i, w.len() as int);
                let m = choose|m: int| 0 <= m < w.len() && letter_index(#[trigger] w[m]) == i;
                assert(ws[d].word@[m] == w[m]);
            }
            if uses(ws, d + 1, i) {
                let (j, m) = choose|j: int, m: int|
                    d + 1 <= j < ws.len() && 0 <= m < ws[j].word@.len() && letter_index(
                        #[trigger] ws[j].word@[m],
                    ) == i;
                assert(letter_index(ws[j].word@[m]) == i);
            }
        }
        lemma_step_image(ws, d, k, c, kk);
        assert(cs.contains(cand));
        assert forall|j: int| d <= j < ws.len() implies covers(kk, #[trigger] ws[j].word@) && ws[j].cands().contains(
            apply_key(kk, ws[j].word@),
        ) by {
            if j == d {
                assert(apply_key(kk, ws[j].word@) == cand);
            }
        }
    }
}

/// Every ciphertext word that holds letter number `x` allows plaintext letter number `y` for it.
pub open spec fn domain_allows(ws: Seq<Word>, x: int, y: int) -> bool {
    forall|j: int, m: int|
        0 <= j < ws.len() && 0 <= m < ws[j].word@.len() && letter_index(#[trigger] ws[j].word@[m]) == x
            ==> ws[j].letter_map@[cell(x, y)]
}

/// Each letter of candidate `c` lies in the domain of the ciphertext letter of `w` it stands for.
pub open spec fn fits_domain(ws: Seq<Word>, w: Seq<char>, c: Seq<char>) -> bool {
    forall|m: int| 0 <= m < w.len() ==> domain_allows(ws, letter_index(w[m]), letter_index(#[trigger] c[m]))
}

/// `after` is `before` with each word's candidates filtered by the letter domains of `before`.
pub open spec fn pruned_from(before: Seq<Word>, after: Seq<Word>) -> bool {
    &&& after.len() == before.len()
    &&& forall|j: int|
        0 <= j < before.len() ==> {
            &&& (#[trigger] after[j]).word@ == before[j].word@
            &&& after[j].letter_map@ == before[j].letter_map@
            &&& after[j].cands() == before[j].cands().filter(|c: Seq<char>| fits_domain(before, before[j].word@, c))
        }
}

proof fn lemma_filter_no_duplicates(s: Seq<Seq<char>>, p: spec_fn(Seq<char>) -> bool)
    requires
        s.no_duplicates(),
    ensures
        s.filter(p).no_duplicates(),
        forall|x: Seq<char>| s.filter(p).contains(x) ==> s.contains(x) && p(x),
    decreases s.len(),
{
    reveal(Seq::filter);
    if s.len() > 0 {
        let v = s.drop_last();
        assert(v.no_duplicates()) by {
            assert forall|i: int, j: int| 0 <= i < v.len() && 0 <= j < v.len() && i != j implies v[i] != v[j] by {
                assert(v[i] == s[i] && v[j] == s[j]);
            }
        }
        lemma_filter_no_duplicates(v, p);
        assert forall|x: Seq<char>| v.contains(x) implies s.contains(x) by {
            let i = choose|i: int| 0 <= i < v.len() && v[i] == x;
            assert(s[i] == x);
        }
        if p(s.last()) {
            let f = v.filter(p);
            assert(!f.contains(s.last())) by {
                if f.contains(s.last()) {
                    assert(v.contains(s.last()));
                    let i = choose|i: int| 0 <= i < v.len() && v[i] == s.last();
                    assert(s[i] == s[s.len() - 1]);
                }
            }
            let g = f.push(s.last());
            assert forall|i: int, j: int| 0 <= i < g.len() && 0 <= j < g.len() && i != j implies g[i] != g[j] by {
                if i < f.len() && j < f.len() {
                    assert(g[i] == f[i] && g[j] == f[j]);
                } else if i < f.len() {
                    assert(g[i] == f[i]);
                    assert(f.contains(f[i]));
                } else {
                    assert(g[j] == f[j]);
                    assert(f.contains(f[j]));
                }
            }
            assert forall|x: Seq<char>| g.contains(x) implies s.contains(x) && p(x) by {
                let i = choose|i: int| 0 <= i < g.len() && g[i] == x;
                if i < f.len() {
                    assert(f[i] == x);
                    assert(f.contains(x));
                }
            }
        }
    }
}

proof fn lemma_filter_again(s: Seq<Seq<char>>, p: spec_fn(Seq<char>) -> bool)
    ensures
        s.filter(p).filter(p) == s.filter(p),
    decreases s.len(),
{
    reveal(Seq::filter);
    if s.len() > 0 {
        lemma_filter_again(s.drop_last(), p);
        let f = s.drop_last().filter(p);
        if p(s.last()) {
            assert(f.push(s.last()).drop_last() =~= f);
        }
    }
}

/// Pruning a second time removes nothing more: the candidates stay as the first pruning left them.
pub proof fn lemma_prune_idempotent(ws: Seq<Word>, once: Seq<Word>, twice: Seq<Word>)
    requires
        pruned_from(ws, once),
        pruned_from(once, twice),
    ensures
        forall|j: int| 0 <= j < ws.len() ==> (#[trigger] twice[j]).cands() == once[j].cands(),
{
    assert forall|x: int, y: int| domain_allows(once, x, y) == domain_allows(ws, x, y) by {
        if domain_allows(ws, x, y) {
            assert forall|j: int, m: int|
                0 <= j < once.len() && 0 <= m < once[j].word@.len() && letter_index(#[trigger] once[j].word@[m]) == x
                    implies once[j].letter_map@[cell(x, y)] by {
                assert(once[j].word@ == ws[j].word@);
            }
        }
        if domain_allows(once, x, y) {
            assert forall|j: int, m: int|
                0 <= j < ws.len() && 0 <= m < ws[j].word@.len() && letter_index(#[trigger] ws[j].word@[m]) == x
                    implies ws[j].letter_map@[cell(x, y)] by {
                assert(once[j].word@ == ws[j].word@);
                assert(letter_index(once[j].word@[m]) == x);
            }
        }
    }
    assert forall|j: int| 0 <= j < ws.len() implies (#[trigger] twice[j]).cands() == once[j].cands() by {
        let w = ws[j].word@;
        let p = |c: Seq<char>| fits_domain(ws, w, c);
        let q = |c: Seq<char>| fits_domain(once, once[j].word@, c);
        assert(once[j].word@ == w);
        assert(p =~= q);
        lemma_filter_again(ws[j].cands(), p);
    }
}

/// Pruning keeps every solution: the words before and after pruning have the same answers.
pub proof fn lemma_prune_keeps_solutions(
    ws: Seq<Word>,
    after: Seq<Word>,
    start: Seq<Option<char>>,
    kk: Seq<Option<char>>,
)
    requires
        words_wf(ws),
        pruned_from(ws, after),
    ensures
        solves(ws, start, kk) <==> solves(after, start, kk),
{
    assert forall|i: int| uses(ws, 0, i) <==> uses(after, 0, i) by {
        if uses(ws, 0, i) {
            let (j, m) = choose|j: int, m: int|
                0 <= j < ws.len() && 0 <= m < ws[j].word@.len() && letter_index(#[trigger] ws[j].word@[m]) == i;
            assert(after[j].word@ == ws[j].word@);
            assert(letter_index(after[j].word@[m]) == i);
        }
        if uses(after, 0, i) {
            let (j, m) = choose|j: int, m: int|
                0 <= j < after.len() && 0 <= m < after[j].word@.len() && letter_index(#[trigger] after[j].word@[m])
                    == i;
            assert(after[j].word@ == ws[j].word@);
            assert(letter_index(ws[j].word@[m]) == i);
        }
    }
    if solves(ws, start, kk) {
        assert forall|j: int| 0 <= j < after.len() implies covers(kk, #[trigger] after[j].word@) && after[j].cands().contains(
            apply_key(kk, after[j].word@),
        ) by {
            let w = ws[j].word@;
            let a = apply_key(kk, w);
            assert(after[j].word@ == w);
            assert(covers(kk, ws[j].word@));
            assert(ws[j].cands().contains(a));
            assert forall|m: int| 0 <= m < w.len() implies domain_allows(
                ws,
                letter_index(w[m]),
                letter_index(#[trigger] a[m]),
            ) by {
                let x = letter_index(w[m]);
                assert forall|j2: int, m2: int|
                    0 <= j2 < ws.len() && 0 <= m2 < ws[j2].word@.len() && letter_index(#[trigger] ws[j2].word@[m2])
                        == x implies ws[j2].letter_map@[cell(x, letter_index(a[m]))] by {
                    let w2 = ws[j2].word@;
                    let a2 = apply_key(kk, w2);
                    assert(covers(kk, w2));
                    assert(ws[j2].cands().contains(a2));
                    let c2 = choose|c2: int| 0 <= c2 < ws[j2].cands().len() && ws[j2].cands()[c2] == a2;
                    assert(ws[j2].wf());
                    assert(is_lower(w[m]));
                    assert(is_lower(w2[m2]));
                    crate::text::lemma_letter_index_injective(w2[m2], w[m]);
                    assert(a2[m2] == a[m]);
                    assert(ws[j2].cands()[c2][m2] == a2[m2]);
                }
            }
            let p = |c: Seq<char>| fits_domain(ws, w, c);
            assert(p(a));
            let c = choose|c: int| 0 <= c < ws[j].cands().len() && ws[j].cands()[c] == a;
            ws[j].cands().lemma_filter_contains(p, c);
        }
    }
    if solves(after, start, kk) {
        assert forall|j: int| 0 <= j < ws.len() implies covers(kk, #[trigger] ws[j].word@) && ws[j].cands().contains(
            apply_key(kk, ws[j].word@),
        ) by {
            let w = ws[j].word@;
            assert(after[j].word@ == w);
            assert(covers(kk, after[j].word@));
            assert(after[j].cands().contains(apply_key(kk, w)));
            ws[j].cands().lemma_filter_contains_rev(|c: Seq<char>| fits_domain(ws, w, c), apply_key(kk, w));
        }
    }
}

/// Narrows the domain of ciphertext letter number `x` to the plaintext letters that the
/// letter map `allowed` also admits for it.
fn intersect(domain: &mut Vec<bool>, allowed: &Vec<bool>, x: usize)
    requires
        old(domain)@.len() == 676,
        allowed@.len() == 676,
        x < 26,
    ensures
        final(domain)@.len() == 676,
        forall|x2: int, y2: int|
            0 <= x2 < 26 && 0 <= y2 < 26 ==> #[trigger] final(domain)@[cell(x2, y2)] == if x2 == x {
                old(domain)@[cell(x2, y2)] && allowed@[cell(x2, y2)]
            } else {
                old(domain)@[cell(x2, y2)]
            },
{
    let ghost d0 = domain@;
    let mut y: usize = 0;
    while y < 26
        invariant
            domain@.len() == 676,
            allowed@.len() == 676,
            x < 26,
            y <= 26,
            forall|x2: int, y2: int|
                0 <= x2 < 26 && 0 <= y2 < 26 ==> #[trigger] domain@[cell(x2, y2)] == if x2 == x && y2 < y {
                    d0[cell(x2, y2)] && allowed@[cell(x2, y2)]
                } else {
                    d0[cell(x2, y2)]
                },
        decreases 26 - y,
    {
        let narrowed = domain[x * 26 + y] && allowed[x * 26 + y];
        domain.set(x * 26 + y, narrowed);
        proof {
            assert forall|x2: int, y2: int| 0 <= x2 < 26 && 0 <= y2 < 26 && cell(x2, y2) == cell(
                x as int,
                y as int,
            ) implies x2 == x && y2 == y by {}
        }
        y = y + 1;
    }
}

/// Removes the candidates that some letter domain rules out. The domain of a ciphertext letter is
/// the set of plaintext letters that the letter map of every word holding it allows.
#[verifier::spinoff_prover]
pub fn prune(cipher_words: &mut Vec<Word>)
    requires
        words_wf(old(cipher_words)@),
    ensures
        pruned_from(old(cipher_words)@, final(cipher_words)@),
        words_wf(final(cipher_words)@),
{
    let ghost ws = cipher_words@;
    let mut domain: Vec<bool> = Vec::new();
    let mut k: usize = 0;
    while k < 676
        invariant
            k <= 676,
            domain@.len() == k,
            forall|i: int| 0 <= i < k ==> domain@[i],
        decreases 676 - k,
    {
        domain.push(true);
        k = k + 1;
    }
    // Narrow each letter's domain by the letter map of every word that holds it.
    let mut j: usize = 0;
    while j < cipher_words.len()
        invariant
            cipher_words@ == ws,
            words_wf(ws),
            j <= ws.len(),
            domain@.len() == 676,
            forall|x: int, y: int|
                0 <= x < 26 && 0 <= y < 26 ==> (#[trigger] domain@[cell(x, y)] <==> domain_allows(
                    ws.take(j as int),
                    x,
                    y,
                )),
        decreases ws.len() - j,
    {
        let word = &cipher_words[j];
        assert(word.wf());
        let mut m: usize = 0;
        while m < word.word.len()
            invariant
                cipher_words@ == ws,
                *word == ws[j as int],
                word.wf(),
                j < ws.len(),
                m <= word.word@.len(),
                domain@.len() == 676,
                forall|x: int, y: int|
                    0 <= x < 26 && 0 <= y < 26 ==> (#[trigger] domain@[cell(x, y)] <==> (domain_allows(
                        ws.take(j as int),
                        x,
                        y,
                    ) && forall|m2: int|
                        0 <= m2 < m && letter_index(#[trigger] word.word@[m2]) == x ==> word.letter_map@[cell(
                            x,
                            y,
                        )])),
            decreases word.word@.len() - m,
        {
            assert(is_lower(word.word@[m as int]));
            let x = index_of_letter(word.word[m]);
            let ghost before = domain@;
            intersect(&mut domain, &word.letter_map, x);
            proof {
                assert forall|x2: int, y2: int| 0 <= x2 < 26 && 0 <= y2 < 26 implies (#[trigger] domain@[cell(
                    x2,
                    y2,
                )] <==> (domain_allows(ws.take(j as int), x2, y2) && forall|m2: int|
                    0 <= m2 < m + 1 && letter_index(#[trigger] word.word@[m2]) == x2 ==> word.letter_map@[cell(
                        x2,
                        y2,
                    )])) by {
                    assert(before[cell(x2, y2)] <==> (domain_allows(ws.take(j as int), x2, y2) && forall|m2: int|
                        0 <= m2 < m && letter_index(#[trigger] word.word@[m2]) == x2 ==> word.letter_map@[cell(
                            x2,
                            y2,
                        )]));
                }
            }
            m = m + 1;
        }
        proof {
            let t = ws.take(j + 1);
            assert forall|x: int, y: int| 0 <= x < 26 && 0 <= y < 26 implies (#[trigger] domain@[cell(x, y)]
                <==> domain_allows(t, x, y)) by {
                if domain_allows(t, x, y) {
                    assert forall|j2: int, m2: int|
                        0 <= j2 < j && 0 <= m2 < ws.take(j as int)[j2].word@.len() && letter_index(
                            #[trigger] ws.take(j as int)[j2].word@[m2],
                        ) == x implies ws.take(j as int)[j2].letter_map@[cell(x, y)] by {
                        assert(t[j2] == ws.take(j as int)[j2]);
                    }
                    assert forall|m2: int| 0 <= m2 < word.word@.len() && letter_index(
                        #[trigger] word.word@[m2],
                    ) == x implies word.letter_map@[cell(x, y)] by {
                        assert(t[j as int] == *word);
                    }
                }
                if domain@[cell(x, y)] {
                    assert forall|j2: int, m2: int|
                        0 <= j2 < t.len() && 0 <= m2 < t[j2].word@.len() && letter_index(#[trigger] t[j2].word@[m2])
                            == x implies t[j2].letter_map@[cell(x, y)] by {
                        if j2 < j {
                            assert(t[j2] == ws.take(j as int)[j2]);
                        } else {
                            assert(t[j2] == *word);
                        }
                    }
                }
            }
        }
        j = j + 1;
    }
    proof {
        assert(ws.take(ws.len() as int) =~= ws);
    }
    // Keep the candidates whose every letter lies in its domain.
    let mut j: usize = 0;
    while j < cipher_words.len()
        invariant
            words_wf(ws),
            words_wf(cipher_words@),
            cipher_words@.len() == ws.len(),
            j <= ws.len(),
            domain@.len() == 676,
            forall|x: int, y: int|
                0 <= x < 26 && 0 <= y < 26 ==> (#[trigger] domain@[cell(x, y)] <==> domain_allows(ws, x, y)),
            forall|j2: int| j <= j2 < ws.len() ==> #[trigger] cipher_words@[j2] == ws[j2],
            forall|j2: int|
                0 <= j2 < j ==> {
                    &&& (#[trigger] cipher_words@[j2]).word@ == ws[j2].word@
                    &&& cipher_words@[j2].letter_map@ == ws[j2].letter_map@
                    &&& cipher_words@[j2].cands() == ws[j2].cands().filter(
                        |c: Seq<char>| fits_domain(ws, ws[j2].word@, c),
                    )
                },
        decreases ws.len() - j,
    {
        let ghost wj = ws[j as int];
        let ghost p = |c: Seq<char>| fits_domain(ws, wj.word@, c);
        let word = &cipher_words[j];
        assert(*word == wj);
        assert(word.wf());
        let mut kept: Vec<Vec<char>> = Vec::new();
        let mut ci: usize = 0;
        while ci < word.candidates.len()
            invariant
                *word == wj,
                wj == ws[j as int],
                word.wf(),
                j < ws.len(),
                ci <= word.cands().len(),
                domain@.len() == 676,
                forall|x: int, y: int|
                    0 <= x < 26 && 0 <= y < 26 ==> (#[trigger] domain@[cell(x, y)] <==> domain_allows(ws, x, y)),
                p == (|c: Seq<char>| fits_domain(ws, wj.word@, c)),
                kept.deep_view() == word.cands().take(ci as int).filter(p),
            decreases word.cands().len() - ci,
        {
            let cand = &word.candidates[ci];
            let ghost cv = word.cands()[ci as int];
            assert(cand@ == cv);
            assert(crate::word::fits_shape(word.word@, cv));
            let mut ok = true;
            let mut m: usize = 0;
            while m < word.word.len()
                invariant
                    *word == wj,
                    word.wf(),
                    cand@ == cv,
                    crate::word::fits_shape(word.word@, cv),
                    m <= word.word@.len(),
                    domain@.len() == 676,
                    forall|x: int, y: int|
                        0 <= x < 26 && 0 <= y < 26 ==> (#[trigger] domain@[cell(x, y)] <==> domain_allows(
                            ws,
                            x,
                            y,
                        )),
                    ok <==> forall|m2: int|
                        0 <= m2 < m ==> domain_allows(
                            ws,
                            letter_index(word.word@[m2]),
                            letter_index(#[trigger] cv[m2]),
                        ),
                decreases word.word@.len() - m,
            {
                assert(is_lower(word.word@[m as int]));
                assert(is_lower(cv[m as int]));
                let x = index_of_letter(word.word[m]);
                let y = index_of_letter(cand[m]);
                ok = ok && domain[x * 26 + y];
                proof {
                    assert(cand@[m as int] == cv[m as int]);
                    assert(domain@[cell(x as int, y as int)] <==> domain_allows(
                        ws,
                        letter_index(word.word@[m as int]),
                        letter_index(cv[m as int]),
                    ));
                }
                m = m + 1;
            }
            proof {
                reveal(Seq::filter);
                assert(word.cands().take(ci + 1).drop_last() =~= word.cands().take(ci as int));
                assert(m as int == wj.word@.len());
                assert(p(cv) == fits_domain(ws, wj.word@, cv));
                assert(ok == p(cv));
            }
            if ok {
                kept.push(cand.clone());
            }
            proof {
                assert(word.cands().take(ci + 1).last() == cv);
            }
            ci = ci + 1;
        }
        proof {
            assert(word.cands().take(word.cands().len() as int) =~= word.cands());
            assert(ci as int == word.cands().len());
            lemma_filter_no_duplicates(word.cands(), p);
        }
        let pruned = Word { word: word.word.clone(), candidates: kept, letter_map: word.letter_map.clone() };
        proof {
            assert(pruned.word@ == wj.word@);
            assert(pruned.letter_map@ == wj.letter_map@);
            assert forall|c: int| 0 <= c < pruned.cands().len() implies crate::word::fits_shape(
                pruned.word@,
                #[trigger] pruned.cands()[c],
            ) by {
                assert(pruned.cands()[c] == wj.cands().filter(p)[c]);
                assert(wj.cands().filter(p).contains(pruned.cands()[c]));
                assert(wj.cands().contains(pruned.cands()[c]));
            }
            assert forall|c: int, m: int|
                0 <= c < pruned.cands().len() && 0 <= m < pruned.word@.len() implies pruned.letter_map@[cell(
                letter_index(pruned.word@[m]),
                letter_index(#[trigger] pruned.cands()[c][m]),
            )] by {
                assert(pruned.cands()[c] == wj.cands().filter(p)[c]);
                assert(wj.cands().filter(p).contains(pruned.cands()[c]));
                assert(wj.cands().contains(pruned.cands()[c]));
                let c2 = choose|c2: int| 0 <= c2 < wj.cands().len() && wj.cands()[c2] == pruned.cands()[c];
                assert(wj.cands()[c2][m] == pruned.cands()[c][m]);
            }
        }
        cipher_words.set(j, pruned);
        j = j + 1;
    }
}

/// Longer words first.
pub open spec fn longest_first(ws: Seq<Word>) -> bool {
    forall|a: int, b: int| 0 <= a < b < ws.len() ==> (#[trigger] ws[a]).word@.len() >= (#[trigger] ws[b]).word@.len()
}

/// Orders the ciphertext words longest first, so that the search meets the most constrained
/// words early.
#[verifier::spinoff_prover]
pub fn order_by_possible_words(cipher_words: &mut Vec<Word>)
    ensures
        final(cipher_words)@.to_multiset() == old(cipher_words)@.to_multiset(),
        longest_first(final(cipher_words)@),
        words_wf(old(cipher_words)@) ==> words_wf(final(cipher_words)@),
{
    let ghost ws = cipher_words@;
    let n = cipher_words.len();
    if n == 0 {
        return;
    }
    let mut i: usize = 1;
    while i < n
        invariant
            n == ws.len(),
            1 <= i <= n,
            cipher_words@.len() == n,
            cipher_words@.to_multiset() == ws.to_multiset(),
            longest_first(cipher_words@.take(i as int)),
        decreases n - i,
    {
        let ghost before = cipher_words@;
        let w = cipher_words.remove(i);
        let len = w.word.len();
        let mut j: usize = 0;
        while j < i && cipher_words[j].word.len() >= len
            invariant
                j <= i,
                i < n,
                before.len() == n,
                cipher_words@.len() == n - 1,
                cipher_words@ == before.remove(i as int),
                w == before[i as int],
                len == w.word@.len(),
                forall|a: int| 0 <= a < j ==> (#[trigger] cipher_words@[a]).word@.len() >= len,
            decreases i - j,
        {
            j = j + 1;
        }
        let ghost removed = cipher_words@;
        cipher_words.insert(j, w);
        proof {
            vstd::seq_lib::to_multiset_remove(before, i as int);
            vstd::seq_lib::to_multiset_insert(removed, j as int, w);
            assert(before[i as int] == w);
            assert(before.contains(w));
            vstd::seq_lib::to_multiset_contains(before, w);
            assert(cipher_words@.to_multiset() =~= before.to_multiset());
            let t = cipher_words@.take(i + 1);
            assert forall|a: int, b: int| 0 <= a < b < t.len() implies (#[trigger] t[a]).word@.len() >= (
            #[trigger] t[b]).word@.len() by {
                let p = before.take(i as int);
                assert(forall|x: int| 0 <= x < i ==> #[trigger] removed[x] == p[x]);
                if b < j {
                    assert(t[a] == p[a] && t[b] == p[b]);
                } else if b == j {
                    assert(t[a] == removed[a]);
                } else if a < j {
                    assert(t[a] == removed[a]);
                    assert(t[b] == removed[b - 1]);
                    if j < i {
                        assert(removed[j as int].word@.len() < len);
                        assert(p[j as int].word@.len() >= p[b - 1].word@.len());
                    }
                } else if a == j {
                    assert(t[b] == removed[b - 1]);
                    assert(removed[j as int].word@.len() < len);
                    if j < b - 1 {
                        assert(p[j as int].word@.len() >= p[b - 1].word@.len());
                    }
                } else {
                    assert(t[a] == removed[a - 1] && t[b] == removed[b - 1]);
                    assert(p[a - 1].word@.len() >= p[b - 1].word@.len());
                }
            }
        }
        i = i + 1;
    }
    proof {
        assert(cipher_words@.take(n as int) =~= cipher_words@);
        if words_wf(ws) {
            assert forall|j: int| 0 <= j < cipher_words@.len() implies (#[trigger] cipher_words@[j]).wf() by {
                assert(cipher_words@.contains(cipher_words@[j]));
                vstd::seq_lib::to_multiset_contains(cipher_words@, cipher_words@[j]);
                vstd::seq_lib::to_multiset_contains(ws, cipher_words@[j]);
                assert(ws.contains(cipher_words@[j]));
            }
        }
    }
}

/// Whether a character is alphabetic in Unicode.
pub uninterp spec fn alphabetic(c: char) -> bool;

/// Relies on `char::is_alphabetic`: the Unicode Alphabetic property of `c`.
#[verifier::external_body]
fn is_alphabetic(c: char) -> (r: bool)
    ensures
        r == alphabetic(c),
{
    c.is_alphabetic()
}

/// One character of a text read through a key: assigned letters are replaced, other
/// alphabetic characters become `?`, and the rest stay.
pub open spec fn decode_char(k: Seq<Option<char>>, c: char) -> char {
    if is_lower(c) && k[letter_index(c)] is Some {
        k[letter_index(c)].unwrap()
    } else if alphabetic(c) {
        '?'
    } else {
        c
    }
}

pub open spec fn decode(k: Seq<Option<char>>, t: Seq<char>) -> Seq<char> {
    t.map_values(|c: char| decode_char(k, c))
}

/// The letters that no ciphertext letter is sent to, in alphabetical order.
pub open spec fn unused_letters(k: Seq<Option<char>>) -> Seq<char> {
    Seq::new(26, |p: int| letter_at(p)).filter(|c: char| !holds(k, c))
}

/// How many of the first `i` slots are empty.
pub open spec fn holes_before(k: Seq<Option<char>>, i: int) -> nat
    decreases i,
{
    if i <= 0 {
        0
    } else {
        holes_before(k, i - 1) + if k[i - 1] is None {
            1nat
        } else {
            0nat
        }
    }
}

/// The key with its empty slots given the unused letters in order, while they last.
pub open spec fn filled(k: Seq<Option<char>>) -> Seq<Option<char>> {
    Seq::new(
        26,
        |i: int|
            if k[i] is Some {
                k[i]
            } else if holes_before(k, i) < unused_letters(k).len() {
                Some(unused_letters(k)[holes_before(k, i) as int])
            } else {
                None
            },
    )
}

/// The inverse of a key that sends every letter to a different letter.
pub open spec fn inverse(k: Seq<Option<char>>) -> Seq<Option<char>> {
    Seq::new(26, |p: int| Some(letter_at(owner(k, letter_at(p)))))
}

/// Every letter is sent to some letter, no two to the same one.
pub open spec fn total_injective(k: Seq<Option<char>>) -> bool {
    &&& key_wf(k)
    &&& injective(k)
    &&& forall|i: int| 0 <= i < 26 ==> (#[trigger] k[i]) is Some
}

/// A key that sends every letter to a different letter reaches every letter.
pub proof fn lemma_total_key_onto(k: Seq<Option<char>>)
    requires
        total_injective(k),
    ensures
        forall|c: char| is_lower(c) ==> #[trigger] holds(k, c),
{
    let t = Seq::new(26, |i: int| letter_index(k[i].unwrap()));
    assert forall|i: int, j: int| 0 <= i < 26 && 0 <= j < 26 && i != j implies t[i] != t[j] by {
        assert(k[i] != k[j]);
        if t[i] == t[j] {
            crate::text::lemma_letter_index_injective(k[i].unwrap(), k[j].unwrap());
        }
    }
    assert(t.no_duplicates());
    t.unique_seq_to_set();
    let range = vstd::set_lib::set_int_range(0, 26);
    vstd::set_lib::lemma_int_range(0, 26);
    assert forall|x: int| t.to_set().contains(x) implies range.contains(x) by {
        assert(t.contains(x));
        let i = choose|i: int| 0 <= i < 26 && t[i] == x;
        assert(is_lower(k[i].unwrap()));
    }
    assert forall|c: char| is_lower(c) implies #[trigger] holds(k, c) by {
        let x = letter_index(c);
        if !t.to_set().contains(x) {
            assert forall|y: int| t.to_set().contains(y) implies range.remove(x).contains(y) by {}
            vstd::set_lib::lemma_len_subset(t.to_set(), range.remove(x));
            assert(range.contains(x));
            assert(range.remove(x).len() == 25);
        }
        assert(t.contains(x));
        let i = choose|i: int| 0 <= i < 26 && t[i] == x;
        crate::text::lemma_letter_index_injective(k[i].unwrap(), c);
        assert(k[i] == Some(c));
    }
}

/// Reading a text through the inverse of a key that sends every letter to a different letter,
/// and then through the key, gives the text back, where the text has no alphabetic character
/// other than a lowercase letter.
pub proof fn lemma_decode_round_trip(k: Seq<Option<char>>, t: Seq<char>)
    requires
        total_injective(k),
        forall|i: int| 0 <= i < t.len() ==> is_lower(#[trigger] t[i]) || !alphabetic(t[i]),
    ensures
        decode(k, decode(inverse(k), t)) == t,
{
    lemma_total_key_onto(k);
    let inv = inverse(k);
    assert forall|i: int| 0 <= i < t.len() implies decode(k, decode(inv, t))[i] == t[i] by {
        let c = t[i];
        if is_lower(c) {
            assert(holds(k, c));
            let o = owner(k, c);
            assert(0 <= letter_index(c) < 26);
            assert(letter_at(letter_index(c)) == c);
            assert(inv[letter_index(c)] == Some(letter_at(o)));
            let d = letter_at(o);
            assert(is_lower(d));
            assert(letter_index(d) == o);
            assert(decode(inv, t)[i] == d);
        } else {
            assert(decode(inv, t)[i] == c);
        }
    }
    assert(decode(k, decode(inv, t)) =~= t);
}

/// A key found by the search, possibly leaving letters unassigned.
pub struct Solution {
    pub key: Vec<Option<char>>,
}

impl Solution {
    pub fn new(key: Vec<Option<char>>) -> (r: Solution)
        ensures
            r.key@ == key@,
    {
        Solution { key }
    }

    /// Gives each unassigned letter, in alphabetical order, the next letter that the key does
    /// not use yet, in alphabetical order, while such letters last.
    #[verifier::spinoff_prover]
    pub fn fill_key(&mut self)
        requires
            key_wf(old(self).key@),
        ensures
            final(self).key@ == filled(old(self).key@),
            key_wf(final(self).key@),
    {
        let ghost k = self.key@;
        let mut unused: Vec<char> = Vec::new();
        let mut p: usize = 0;
        while p < 26
            invariant
                self.key@ == k,
                key_wf(k),
                p <= 26,
                unused@ == Seq::new(p as nat, |q: int| letter_at(q)).filter(|c: char| !holds(k, c)),
            decreases 26 - p,
        {
            let c = letter_of_index(p);
            let mut used = false;
            let mut i: usize = 0;
            while i < 26
                invariant
                    self.key@ == k,
                    key_wf(k),
                    i <= 26,
                    used <==> exists|j: int| 0 <= j < i && k[j] == Some(c),
                decreases 26 - i,
            {
                match self.key[i] {
                    Some(v) => {
                        if v == c {
                            used = true;
                        }
                    },
                    None => {},
                }
                i = i + 1;
            }
            proof {
                reveal(Seq::filter);
                let s1 = Seq::new((p + 1) as nat, |q: int| letter_at(q));
                assert(s1.drop_last() =~= Seq::new(p as nat, |q: int| letter_at(q)));
                assert(s1.last() == c);
                assert(used == holds(k, c));
            }
            if !used {
                unused.push(c);
            }
            p = p + 1;
        }
        proof {
            assert(Seq::new(26 as nat, |q: int| letter_at(q)) =~= Seq::new(26, |q: int| letter_at(q)));
            assert(unused@ == unused_letters(k));
            Seq::new(26, |q: int| letter_at(q)).lemma_filter_len(|c: char| !holds(k, c));
        }
        let mut t: usize = 0;
        let mut i: usize = 0;
        while i < 26
            invariant
                key_wf(k),
                unused@ == unused_letters(k),
                unused@.len() <= 26,
                i <= 26,
                t == holes_before(k, i as int) || (t == unused@.len() && holes_before(k, i as int) >= t),
                t <= unused@.len(),
                self.key@.len() == 26,
                forall|j: int| 0 <= j < i ==> #[trigger] self.key@[j] == filled(k)[j],
                forall|j: int| i <= j < 26 ==> #[trigger] self.key@[j] == k[j],
            decreases 26 - i,
        {
            if self.key[i].is_none() && t < unused.len() {
                self.key.set(i, Some(unused[t]));
                t = t + 1;
            }
            i = i + 1;
        }
        proof {
            assert forall|q: int| 0 <= q < unused@.len() implies is_lower(#[trigger] unused@[q]) by {
                let src = Seq::new(26, |x: int| letter_at(x));
                src.lemma_filter_contains_rev(|c: char| !holds(k, c), unused@[q]);
                assert(unused@.contains(unused@[q]));
                let x = choose|x: int| 0 <= x < 26 && src[x] == unused@[q];
            }
            assert(self.key@ =~= filled(k));
        }
    }

    /// The text read through the key: assigned letters replaced, other alphabetic characters
    /// shown as `?`, everything else kept.
    pub fn apply(&self, ciphertext: &str) -> (r: String)
        requires
            key_wf(self.key@),
        ensures
            r@ == decode(self.key@, ciphertext@),
    {
        let chars = chars_of(ciphertext);
        let mut out: Vec<char> = Vec::new();
        let mut i: usize = 0;
        while i < chars.len()
            invariant
                key_wf(self.key@),
                chars@ == ciphertext@,
                i <= chars@.len(),
                out@ == decode(self.key@, chars@.take(i as int)),
            decreases chars@.len() - i,
        {
            let c = chars[i];
            let mut d = c;
            let mut mapped = false;
            if 'a' <= c && c <= 'z' {
                match self.key[index_of_letter(c)] {
                    Some(p) => {
                        d = p;
                        mapped = true;
                    },
                    None => {},
                }
            }
            if !mapped && is_alphabetic(c) {
                d = '?';
            }
            out.push(d);
            proof {
                assert(d == decode_char(self.key@, c));
                assert(decode(self.key@, chars@.take(i + 1)) =~= decode(self.key@, chars@.take(i as int)).push(
                    decode_char(self.key@, c),
                ));
            }
            i = i + 1;
        }
        proof {
            assert(chars@.take(chars@.len() as int) =~= chars@);
        }
        string_of(&out)
    }

    /// The key as 26 characters in alphabetical order of the ciphertext letters, `?` where
    /// a letter is unassigned.
    pub fn key_string(&self) -> (r: String)
        requires
            key_wf(self.key@),
        ensures
            r@ == Seq::new(
                26,
                |i: int|
                    match self.key@[i] {
                        Some(p) => p,
                        None => '?',
                    },
            ),
    {
        let mut out: Vec<char> = Vec::new();
        let mut i: usize = 0;
        while i < 26
            invariant
                key_wf(self.key@),
                i <= 26,
                out@.len() == i,
                forall|j: int|
                    0 <= j < i ==> #[trigger] out@[j] == match self.key@[j] {
                        Some(p) => p,
                        None => '?',
                    },
            decreases 26 - i,
        {
            let c = match self.key[i] {
                Some(p) => p,
                None => '?',
            };
            out.push(c);
            i = i + 1;
        }
        let r = string_of(&out);
        proof {
            assert(r@ =~= Seq::new(
                26,
                |i: int|
                    match self.key@[i] {
                        Some(p) => p,
                        None => '?',
                    },
            ));
        }
        r
    }
}

/// Depth-first search over the candidates of each ciphertext word in turn.
pub struct Solver {
    pub cipher_words: Vec<Word>,
}

impl Solver {
    pub open spec fn wf(&self) -> bool {
        words_wf(self.cipher_words@)
    }

    pub fn new(cipher_words: Vec<Word>) -> (r: Solver)
        ensures
            r.cipher_words@ == cipher_words@,
    {
        Solver { cipher_words }
    }

    /// Every key that solves all the ciphertext words starting from `starting_key`, in the order
    /// in which the search finds them.
    pub fn solve(&self, starting_key: Vec<Option<char>>) -> (r: Vec<Solution>)
        requires
            self.wf(),
            key_wf(starting_key@),
        ensures
            forall|kk: Seq<Option<char>>| has_key(r@, kk) <==> solves(self.cipher_words@, starting_key@, kk),
            keys_distinct(r@),
            forall|i: int|
                0 <= i < r@.len() ==> key_wf((#[trigger] r@[i]).key@) && injective(r@[i].key@) && extends(
                    r@[i].key@,
                    starting_key@,
                ),
            forall|i: int, j: int|
                0 <= i < r@.len() && 0 <= j < self.cipher_words@.len() ==> self.cipher_words@[j].cands().contains(
                    apply_key((#[trigger] r@[i]).key@, #[trigger] self.cipher_words@[j].word@),
                ),
    {
        let mut out: Vec<Solution> = Vec::new();
        self.solve_recursive(0, &starting_key, &mut out);
        proof {
            assert forall|i: int| 0 <= i < out@.len() implies injective((#[trigger] out@[i]).key@) && extends(
                out@[i].key@,
                starting_key@,
            ) by {
                assert(has_key(out@, out@[i].key@));
            }
            assert forall|i: int, j: int|
                0 <= i < out@.len() && 0 <= j < self.cipher_words@.len() implies self.cipher_words@[j].cands().contains(
                apply_key((#[trigger] out@[i]).key@, #[trigger] self.cipher_words@[j].word@),
            ) by {
                assert(has_key(out@, out@[i].key@));
            }
        }
        out
    }

    #[verifier::spinoff_prover]
    fn solve_recursive(&self, depth: usize, map: &Vec<Option<char>>, out: &mut Vec<Solution>)
        requires
            self.wf(),
            depth <= self.cipher_words@.len(),
            key_wf(map@),
            all_keys_wf(old(out)@),
            keys_distinct(old(out)@),
            forall|kk: Seq<Option<char>>|
                has_key(old(out)@, kk) ==> !solves_from(self.cipher_words@, depth as int, map@, kk),
        ensures
            all_keys_wf(final(out)@),
            keys_distinct(final(out)@),
            forall|kk: Seq<Option<char>>|
                has_key(final(out)@, kk) <==> (has_key(old(out)@, kk) || solves_from(
                    self.cipher_words@,
                    depth as int,
                    map@,
                    kk,
                )),
        decreases self.cipher_words@.len() - depth,
    {
        let ghost ws = self.cipher_words@;
        let ghost out0 = out@;
        if !is_consistent(map) {
            proof {
                assert forall|kk: Seq<Option<char>>| !solves_from(ws, depth as int, map@, kk) by {
                    lemma_inconsistent(ws, depth as int, map@, kk);
                }
            }
            return;
        }
        if depth >= self.cipher_words.len() {
            out.push(Solution::new(map.clone()));
            proof {
                assert forall|kk: Seq<Option<char>>| has_key(out@, kk) <==> (has_key(out0, kk) || solves_from(
                    ws,
                    depth as int,
                    map@,
                    kk,
                )) by {
                    lemma_last(ws, map@, kk);
                    if has_key(out@, kk) {
                        let i = choose|i: int| 0 <= i < out@.len() && (#[trigger] out@[i]).key@ == kk;
                        if i < out0.len() {
                            assert(out0[i] == out@[i]);
                        }
                    }
                    if has_key(out0, kk) {
                        let i = choose|i: int| 0 <= i < out0.len() && (#[trigger] out0[i]).key@ == kk;
                        assert(out@[i] == out0[i]);
                    }
                    if kk == map@ {
                        assert(out@[out0.len() as int].key@ == kk);
                    }
                }
                assert forall|i: int| 0 <= i < out@.len() implies key_wf((#[trigger] out@[i]).key@) by {
                    if i < out0.len() {
                        assert(out0[i] == out@[i]);
                    }
                }
                lemma_last(ws, map@, map@);
                assert forall|i: int, j: int|
                    0 <= i < out@.len() && 0 <= j < out@.len() && i != j implies (#[trigger] out@[i]).key@ != (
                    #[trigger] out@[j]).key@ by {
                    if i < out0.len() && j < out0.len() {
                        assert(out0[i] == out@[i] && out0[j] == out@[j]);
                    } else if i < out0.len() {
                        assert(out0[i] == out@[i]);
                        assert(has_key(out0, out0[i].key@));
                    } else {
                        assert(out0[j] == out@[j]);
                        assert(has_key(out0, out0[j].key@));
                    }
                }
            }
            return;
        }
        let word = &self.cipher_words[depth];
        assert(word.wf());
        proof {
            reveal(found_before);
        }
        let mut ci: usize = 0;
        while ci < word.candidates.len()
            invariant
                self.wf(),
                ws == self.cipher_words@,
                depth < ws.len(),
                depth < self.cipher_words.len(),
                *word == ws[depth as int],
                word.wf(),
                key_wf(map@),
                ci <= word.cands().len(),
                all_keys_wf(out@),
                keys_distinct(out@),
                forall|kk: Seq<Option<char>>| has_key(out0, kk) ==> !solves_from(ws, depth as int, map@, kk),
                forall|kk: Seq<Option<char>>|
                    has_key(out@, kk) <==> (has_key(out0, kk) || found_before(
                        ws,
                        depth as int,
                        map@,
                        ci as int,
                        kk,
                    )),
            decreases word.cands().len() - ci,
        {
            let cand = &word.candidates[ci];
            proof {
                assert(cand@ == word.cands()[ci as int]);
                lemma_follows(word, ci as int);
            }
            let ghost out1 = out@;
            let ghost c0 = ci as int;
            let ghost c1 = ci as int + 1;
            let accepted = key_accepts(&word.word, cand, map);
            let ghost cand_v = cand@;
            let ghost next_v = extend(map@, word.word@, cand@);
            if accepted {
                let next = update_map(&word.word, cand, map);
                proof {
                    assert forall|kk: Seq<Option<char>>| has_key(out@, kk) implies !solves_from(
                        ws,
                        depth + 1,
                        next@,
                        kk,
                    ) by {
                        if solves_from(ws, depth + 1, next@, kk) {
                            assert(step_to(ws, depth as int, map@, c0, kk));
                            lemma_step_image(ws, depth as int, map@, c0, kk);
                            reveal(found_before);
                            if has_key(out0, kk) {
                                assert(found_before(ws, depth as int, map@, ws[depth as int].cands().len() as int, kk));
                                lemma_step(ws, depth as int, map@, kk);
                            } else {
                                assert(found_before(ws, depth as int, map@, c0, kk));
                                let c = choose|c: int| 0 <= c < c0 && #[trigger] step_to(ws, depth as int, map@, c, kk);
                                lemma_step_image(ws, depth as int, map@, c, kk);
                                assert(ws[depth as int].cands()[c] == ws[depth as int].cands()[c0]);
                            }
                        }
                    }
                }
                self.solve_recursive(depth + 1, &next, out);
            }
            proof {
                assert(cand_v == ws[depth as int].cands()[c0]);
                assert(word.word@ == ws[depth as int].word@);
                assert forall|kk: Seq<Option<char>>| has_key(out@, kk) <==> (has_key(out0, kk) || found_before(
                    ws,
                    depth as int,
                    map@,
                    c1,
                    kk,
                )) by {
                    reveal(found_before);
                    assert(has_key(out1, kk) <==> (has_key(out0, kk) || found_before(
                        ws,
                        depth as int,
                        map@,
                        c0,
                        kk,
                    )));
                    assert(has_key(out@, kk) <==> (has_key(out1, kk) || (accepted && solves_from(
                        ws,
                        depth + 1,
                        next_v,
                        kk,
                    ))));
                    assert(step_to(ws, depth as int, map@, c0, kk) <==> (accepted && solves_from(
                        ws,
                        depth + 1,
                        next_v,
                        kk,
                    )));
                    if found_before(ws, depth as int, map@, c1, kk) {
                        let c = choose|c: int| 0 <= c < c1 && #[trigger] step_to(ws, depth as int, map@, c, kk);
                        if c < c0 {
                            assert(found_before(ws, depth as int, map@, c0, kk));
                        }
                    }
                    if step_to(ws, depth as int, map@, c0, kk) {
                        assert(found_before(ws, depth as int, map@, c1, kk));
                    }
                    if found_before(ws, depth as int, map@, c0, kk) {
                        let c = choose|c: int| 0 <= c < c0 && #[trigger] step_to(ws, depth as int, map@, c, kk);
                        assert(found_before(ws, depth as int, map@, c1, kk));
                    }
                }
            }
            ci = ci + 1;
            proof {
                assert forall|kk: Seq<Option<char>>| has_key(out@, kk) <==> (has_key(out0, kk) || found_before(
                    ws,
                    depth as int,
                    map@,
                    ci as int,
                    kk,
                )) by {
                    assert(ci as int == c1);
                    assert(has_key(out@, kk) <==> (has_key(out0, kk) || found_before(
                        ws,
                        depth as int,
                        map@,
                        c1,
                        kk,
                    )));
                }
            }
        }
        proof {
            assert forall|kk: Seq<Option<char>>| has_key(out@, kk) <==> (has_key(out0, kk) || solves_from(
                ws,
                depth as int,
                map@,
                kk,
            )) by {
                assert(ci as int == ws[depth as int].cands().len());
                lemma_step(ws, depth as int, map@, kk);
            }
            assert forall|kk: Seq<Option<char>>| has_key(out@, kk) <==> (has_key(old(out)@, kk) || solves_from(
                self.cipher_words@,
                depth as int,
                map@,
                kk,
            )) by {
                assert(has_key(out@, kk) <==> (has_key(out0, kk) || solves_from(ws, depth as int, map@, kk)));
            }
        }
    }
}

} // verus!
