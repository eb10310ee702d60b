//! Cleaning raw text into lowercase words separated by single spaces.
use vstd::prelude::*;

use crate::input::split_on;
use crate::text::{chars_of, is_lower, string_of};

verus! {

/// The ASCII transliteration of a text.
pub uninterp spec fn ascii_fold_of(s: Seq<char>) -> Seq<char>;

/// Relies on `unidecode::unidecode`: an ASCII transliteration that depends on the text alone.
#[verifier::external_body]
fn transliterate(s: &str) -> (r: String)
    ensures
        r@ == ascii_fold_of(s@),
{
    unidecode::unidecode(s)
}

/// ASCII letters in lowercase; everything else becomes a space.
pub open spec fn fold_char(c: char) -> char {
    if 'a' <= c && c <= 'z' {
        c
    } else if 'A' <= c && c <= 'Z' {
        ((c as u32) + 32) as char
    } else {
        ' '
    }
}

pub open spec fn nonempty(w: Seq<char>) -> bool {
    w.len() > 0
}

/// The maximal runs of `s` without a space.
pub open spec fn words(s: Seq<char>) -> Seq<Seq<char>> {
    split_on(s, ' ').filter(|w: Seq<char>| nonempty(w))
}

/// The words with one space between each two.
pub open spec fn join(ws: Seq<Seq<char>>) -> Seq<char>
    decreases ws.len(),
{
    if ws.len() == 0 {
        Seq::empty()
    } else if ws.len() == 1 {
        ws[0]
    } else {
        join(ws.drop_last()) + seq![' '] + ws.last()
    }
}

/// `s` holds lowercase letters and spaces only.
pub open spec fn lower_or_space(s: Seq<char>) -> bool {
    forall|i: int| 0 <= i < s.len() ==> is_lower(#[trigger] s[i]) || s[i] == ' '
}

/// A text cleaned: its ASCII letters in lowercase, its words separated by single spaces.
pub open spec fn clean(t: Seq<char>) -> Seq<char> {
    join(words(t.map_values(|c: char| fold_char(c))))
}

pub proof fn lemma_split_pieces(s: Seq<char>, sep: char)
    ensures
        split_on(s, sep).len() >= 1,
        forall|k: int, m: int|
            0 <= k < split_on(s, sep).len() && 0 <= m < split_on(s, sep)[k].len() ==> s.contains(
                #[trigger] split_on(s, sep)[k][m],
            ) && split_on(s, sep)[k][m] != sep,
    decreases s.len(),
{
    if s.len() > 0 {
        let v = s.drop_last();
        lemma_split_pieces(v, sep);
        let r = split_on(v, sep);
        assert forall|x: char| v.contains(x) implies s.contains(x) by {
            let i = choose|i: int| 0 <= i < v.len() && v[i] == x;
            assert(s[i] == x);
        }
        assert(s[s.len() - 1] == s.last());
        if s.last() != sep {
            let q = r.update(r.len() - 1, r.last().push(s.last()));
            assert forall|k: int, m: int| 0 <= k < q.len() && 0 <= m < q[k].len() implies s.contains(
                #[trigger] q[k][m],
            ) && q[k][m] != sep by {
                if k == r.len() - 1 && m == r.last().len() {
                } else {
                    assert(q[k][m] == r[k][m]);
                }
            }
        } else {
            let q = r.push(Seq::<char>::empty());
            assert forall|k: int, m: int| 0 <= k < q.len() && 0 <= m < q[k].len() implies s.contains(
                #[trigger] q[k][m],
            ) && q[k][m] != sep by {
                assert(q[k][m] == r[k][m]);
            }
        }
    }
}

proof fn lemma_join_lower(ws: Seq<Seq<char>>)
    requires
        forall|k: int| 0 <= k < ws.len() ==> lower_or_space(#[trigger] ws[k]),
    ensures
        lower_or_space(join(ws)),
    decreases ws.len(),
{
    if ws.len() > 1 {
        lemma_join_lower(ws.drop_last());
        let a = join(ws.drop_last()) + seq![' '];
        assert(lower_or_space(a)) by {
            assert forall|i: int| 0 <= i < a.len() implies is_lower(#[trigger] a[i]) || a[i] == ' ' by {
                if i < a.len() - 1 {
                    assert(a[i] == join(ws.drop_last())[i]);
                }
            }
        }
        assert(lower_or_space(ws.last()));
        let b = a + ws.last();
        assert forall|i: int| 0 <= i < b.len() implies is_lower(#[trigger] b[i]) || b[i] == ' ' by {
            if i < a.len() {
                assert(b[i] == a[i]);
            } else {
                assert(b[i] == ws.last()[i - a.len()]);
            }
        }
    } else if ws.len() == 1 {
        assert(lower_or_space(ws[0]));
    }
}

/// A cleaned text holds lowercase letters and single spaces only.
pub proof fn lemma_clean_lower(t: Seq<char>)
    ensures
        lower_or_space(clean(t)),
{
    let f = t.map_values(|c: char| fold_char(c));
    assert forall|i: int| 0 <= i < f.len() implies is_lower(#[trigger] f[i]) || f[i] == ' ' by {
        let c = t[i];
        if 'A' <= c && c <= 'Z' {
            assert(((c as u32) + 32) as char == fold_char(c));
        }
    }
    lemma_split_pieces(f, ' ');
    let ps = split_on(f, ' ');
    let ws = words(f);
    assert forall|k: int| 0 <= k < ws.len() implies lower_or_space(#[trigger] ws[k]) by {
        assert(ws.contains(ws[k]));
        ps.lemma_filter_contains_rev(|w: Seq<char>| nonempty(w), ws[k]);
        assert(ps.contains(ws[k]));
        let j = choose|j: int| 0 <= j < ps.len() && ps[j] == ws[k];
        assert forall|m: int| 0 <= m < ws[k].len() implies is_lower(#[trigger] ws[k][m]) || ws[k][m] == ' ' by {
            assert(ps[j][m] == ws[k][m]);
            assert(f.contains(ps[j][m]));
        }
    }
    lemma_join_lower(ws);
}

/// The words of `s`, in order.
pub fn tokenize(s: &Vec<char>) -> (r: Vec<Vec<char>>)
    ensures
        r.deep_view() == words(s@),
{
    let mut tokens: Vec<Vec<char>> = Vec::new();
    let mut cur: Vec<char> = Vec::new();
    let ghost p = |w: Seq<char>| nonempty(w);
    proof {
        reveal(Seq::filter);
        assert(s@.take(0) =~= Seq::<char>::empty());
        assert(split_on(s@.take(0), ' ').drop_last() =~= Seq::<Seq<char>>::empty());
        assert(tokens.deep_view() =~= split_on(s@.take(0), ' ').drop_last().filter(p));
    }
    let mut i: usize = 0;
    while i < s.len()
        invariant
            i <= s@.len(),
            p == (|w: Seq<char>| nonempty(w)),
            split_on(s@.take(i as int), ' ').len() >= 1,
            tokens.deep_view() == split_on(s@.take(i as int), ' ').drop_last().filter(p),
            cur@ == split_on(s@.take(i as int), ' ').last(),
        decreases s@.len() - i,
    {
        let c = s[i];
        let ghost ps = split_on(s@.take(i as int), ' ');
        proof {
            reveal(Seq::filter);
            assert(s@.take(i + 1).drop_last() =~= s@.take(i as int));
            assert(s@.take(i + 1).last() == c);
        }
        if c == ' ' {
            if cur.len() > 0 {
                let ghost before = tokens.deep_view();
                let piece = cur.clone();
                tokens.push(piece);
                proof {
                    assert(tokens.deep_view() =~~= before.push(cur@));
                    assert(ps.push(Seq::<char>::empty()).drop_last() =~= ps);
                    assert(ps.drop_last().push(ps.last()) =~= ps);
                }
            } else {
                proof {
                    assert(ps.push(Seq::<char>::empty()).drop_last() =~= ps);
                    assert(ps.drop_last().push(ps.last()) =~= ps);
                }
            }
            cur = Vec::new();
        } else {
            cur.push(c);
            proof {
                let q = ps.update(ps.len() - 1, ps.last().push(c));
                assert(q.drop_last() =~= ps.drop_last());
            }
        }
        i = i + 1;
    }
    proof {
        reveal(Seq::filter);
        assert(s@.take(s@.len() as int) =~= s@);
        let ps = split_on(s@, ' ');
        assert(ps.drop_last().push(ps.last()) =~= ps);
    }
    if cur.len() > 0 {
        let ghost before = tokens.deep_view();
        tokens.push(cur);
        proof {
            assert(tokens.deep_view() =~~= before.push(split_on(s@, ' ').last()));
        }
    }
    tokens
}

/// The words joined by single spaces.
fn join_words(ws: &Vec<Vec<char>>) -> (r: Vec<char>)
    ensures
        r@ == join(ws.deep_view()),
{
    let mut out: Vec<char> = Vec::new();
    let mut j: usize = 0;
    while j < ws.len()
        invariant
            j <= ws@.len(),
            out@ == join(ws.deep_view().take(j as int)),
        decreases ws@.len() - j,
    {
        let ghost before = out@;
        if j > 0 {
            out.push(' ');
        }
        let w = &ws[j];
        let mut m: usize = 0;
        while m < w.len()
            invariant
                m <= w@.len(),
                out@ == (if j > 0 { before + seq![' '] } else { before }) + w@.take(m as int),
            decreases w@.len() - m,
        {
            out.push(w[m]);
            proof {
                assert(w@.take(m + 1) =~= w@.take(m as int).push(w@[m as int]));
            }
            m = m + 1;
        }
        proof {
            let t = ws.deep_view().take(j + 1);
            assert(t.drop_last() =~= ws.deep_view().take(j as int));
            assert(w@.take(w@.len() as int) =~= w@);
            assert(t.last() == w@);
            if j == 0 {
                assert(before =~= Seq::<char>::empty());
                assert(out@ =~= join(t));
            } else {
                assert(out@ =~= join(t));
            }
        }
        j = j + 1;
    }
    proof {
        assert(ws.deep_view().take(ws@.len() as int) =~= ws.deep_view());
    }
    out
}

/// Cleans an ASCII transliteration: ASCII letters in lowercase, all else a separator, words
/// joined by single spaces with none at either end.
pub fn clean_text(t: &str) -> (r: String)
    ensures
        r@ == clean(t@),
        lower_or_space(r@),
{
    let chars = chars_of(t);
    let mut folded: Vec<char> = Vec::new();
    let mut i: usize = 0;
    while i < chars.len()
        invariant
            chars@ == t@,
            i <= chars@.len(),
            folded@ == chars@.take(i as int).map_values(|c: char| fold_char(c)),
        decreases chars@.len() - i,
    {
        let c = chars[i];
        let f = if 'a' <= c && c <= 'z' {
            c
        } else if 'A' <= c && c <= 'Z' {
            ((c as u32 - 'A' as u32) as u8 + 97u8) as char
        } else {
            ' '
        };
        proof {
            if 'A' <= c && c <= 'Z' {
                assert(f == fold_char(c));
            }
            assert(chars@.take(i + 1).map_values(|c: char| fold_char(c)) =~= chars@.take(i as int).map_values(
                |c: char| fold_char(c),
            ).push(fold_char(c)));
        }
        folded.push(f);
        i = i + 1;
    }
    proof {
        assert(chars@.take(chars@.len() as int) =~= chars@);
        lemma_clean_lower(t@);
    }
    let tokens = tokenize(&folded);
    let joined = join_words(&tokens);
    string_of(&joined)
}

/// Cleans raw user text: transliterated to ASCII, then as `clean_text`.
pub fn clean_input(input: &str) -> (r: String)
    ensures
        r@ == clean(ascii_fold_of(input@)),
        lower_or_space(r@),
{
    let t = transliterate(input);
    clean_text(t.as_str())
}

} // verus!
