//! Word shapes: the repeated-letter structure of a word, as a canonical signature.
use vstd::prelude::*;
use vstd::set_lib::{lemma_int_range, lemma_len_subset, set_int_range};

use crate::text::{chars_of, char_from_code, string_of};

verus! {

/// Number of Unicode scalar values: the size of `char`.
pub const CHAR_COUNT: u32 = 0x10F800;

/// The `k`-th placeholder symbol: `'A'`, `'B'`, ... in code point order,
/// skipping the surrogate gap and wrapping round to U+0000 at the end.
pub open spec fn symbol(k: nat) -> char {
    if k < 0xD7BF {
        (0x41 + k) as char
    } else if k < 0x10F7BF {
        (k + 0x841) as char
    } else {
        (k - 0x10F7BF) as char
    }
}

/// The distinct characters of `w`, in order of first appearance.
pub open spec fn distinct(w: Seq<char>) -> Seq<char>
    decreases w.len(),
{
    if w.len() == 0 {
        Seq::empty()
    } else {
        let d = distinct(w.drop_last());
        if d.contains(w.last()) {
            d
        } else {
            d.push(w.last())
        }
    }
}

/// Index of the first occurrence of `c` in `s` (`s.len()` when absent).
pub open spec fn rank(s: Seq<char>, c: char) -> nat
    decreases s.len(),
{
    if s.len() == 0 {
        0
    } else if s[0] == c {
        0
    } else {
        1 + rank(s.drop_first(), c)
    }
}

/// The shape signature of `w`: each character replaced by the placeholder
/// numbered by the order in which its letter first appears.
pub open spec fn shape(w: Seq<char>) -> Seq<char> {
    Seq::new(w.len(), |i: int| symbol(rank(distinct(w), w[i])))
}

/// `a` and `b` have the same length and repeat characters at the same positions.
pub open spec fn same_repeats(a: Seq<char>, b: Seq<char>) -> bool {
    &&& a.len() == b.len()
    &&& forall|i: int, j: int|
        0 <= i < a.len() && 0 <= j < a.len() ==> (#[trigger] a[i] == #[trigger] a[j] <==> b[i] == b[j])
}

proof fn lemma_symbol_injective(a: nat, b: nat)
    requires
        a < CHAR_COUNT,
        b < CHAR_COUNT,
        symbol(a) == symbol(b),
    ensures
        a == b,
{
}

proof fn lemma_char_range(c: char)
    ensures
        (c as u32) < 0xD800 || (0xE000 <= (c as u32) && (c as u32) < 0x110000),
{
}

proof fn lemma_char_code_injective(a: char, b: char)
    requires
        a as u32 == b as u32,
    ensures
        a == b,
{
}

/// A sequence of distinct characters is no longer than the number of characters.
proof fn lemma_distinct_chars_bound(s: Seq<char>)
    requires
        s.no_duplicates(),
    ensures
        s.len() <= CHAR_COUNT,
{
    let code = |c: char| if (c as u32) < 0xD800 { c as u32 as int } else { c as u32 as int - 0x800 };
    let t = s.map_values(code);
    assert forall|i: int, j: int| 0 <= i < t.len() && 0 <= j < t.len() && i != j implies t[i] != t[j] by {
        assert(s[i] != s[j]);
        assert(t[i] == code(s[i]));
        assert(t[j] == code(s[j]));
        lemma_char_range(s[i]);
        lemma_char_range(s[j]);
        if s[i] as u32 == s[j] as u32 {
            lemma_char_code_injective(s[i], s[j]);
        }
    }
    assert(t.no_duplicates());
    t.unique_seq_to_set();
    lemma_int_range(0, CHAR_COUNT as int);
    assert forall|x: int| t.to_set().contains(x) implies set_int_range(0, CHAR_COUNT as int).contains(x) by {
        assert(t.contains(x));
        let i = choose|i: int| 0 <= i < t.len() && t[i] == x;
        assert(t[i] == code(s[i]));
        lemma_char_range(s[i]);
    }
    lemma_len_subset(t.to_set(), set_int_range(0, CHAR_COUNT as int));
}

/// `distinct(w)` holds each character of `w` once.
proof fn lemma_distinct(w: Seq<char>)
    ensures
        distinct(w).no_duplicates(),
        forall|c: char| distinct(w).contains(c) <==> w.contains(c),
    decreases w.len(),
{
    if w.len() > 0 {
        let v = w.drop_last();
        lemma_distinct(v);
        assert forall|c: char| w.contains(c) <==> (v.contains(c) || c == w.last()) by {
            if w.contains(c) {
                let i = choose|i: int| 0 <= i < w.len() && w[i] == c;
                if i < w.len() - 1 {
                    assert(v[i] == c);
                }
            }
            if v.contains(c) {
                let i = choose|i: int| 0 <= i < v.len() && v[i] == c;
                assert(w[i] == c);
            }
            assert(w[w.len() - 1] == w.last());
        }
        let d = distinct(v);
        if !d.contains(w.last()) {
            let e = d.push(w.last());
            assert forall|i: int, j: int| 0 <= i < e.len() && 0 <= j < e.len() && i != j implies e[i]
                != e[j] by {
                if i < d.len() && j < d.len() {
                    assert(e[i] == d[i] && e[j] == d[j]);
                } else if i < d.len() {
                    assert(e[i] == d[i]);
                } else {
                    assert(e[j] == d[j]);
                }
            }
            assert forall|c: char| e.contains(c) <==> (d.contains(c) || c == w.last()) by {
                if e.contains(c) {
                    let i = choose|i: int| 0 <= i < e.len() && e[i] == c;
                    if i < d.len() {
                        assert(d[i] == c);
                    }
                }
                if d.contains(c) {
                    let i = choose|i: int| 0 <= i < d.len() && d[i] == c;
                    assert(e[i] == c);
                }
                assert(e[d.len() as int] == w.last());
            }
        }
    }
}

/// `rank` finds the first occurrence.
proof fn lemma_rank_first(s: Seq<char>, c: char, j: int)
    requires
        0 <= j <= s.len(),
        forall|m: int| 0 <= m < j ==> s[m] != c,
        j < s.len() ==> s[j] == c,
    ensures
        rank(s, c) == j,
    decreases j,
{
    if j > 0 {
        lemma_rank_first(s.drop_first(), c, j - 1);
    }
}

/// On an element of a prefix, `rank` agrees with the prefix.
proof fn lemma_rank_prefix(p: Seq<char>, s: Seq<char>, c: char)
    requires
        p.len() <= s.len(),
        s.take(p.len() as int) == p,
        p.contains(c),
    ensures
        rank(p, c) == rank(s, c),
    decreases p.len(),
{
    assert(p[0] == s.take(p.len() as int)[0]);
    if p[0] != c {
        let i = choose|i: int| 0 <= i < p.len() && p[i] == c;
        assert(p.drop_first()[i - 1] == c);
        assert(s.drop_first().take(p.len() - 1) =~= p.drop_first()) by {
            assert forall|k: int| 0 <= k < p.len() - 1 implies s.drop_first()[k] == p.drop_first()[k] by {
                assert(s.take(p.len() as int)[k + 1] == s[k + 1]);
            }
        }
        lemma_rank_prefix(p.drop_first(), s.drop_first(), c);
    }
}

/// The rank of a member of `s` lies below `s.len()`, and there `s` holds it.
proof fn lemma_rank_member(s: Seq<char>, c: char)
    requires
        s.contains(c),
    ensures
        rank(s, c) < s.len(),
        s[rank(s, c) as int] == c,
    decreases s.len(),
{
    if s[0] != c {
        let i = choose|i: int| 0 <= i < s.len() && s[i] == c;
        assert(s.drop_first()[i - 1] == c);
        lemma_rank_member(s.drop_first(), c);
    }
}

/// A shape has one symbol per character, and words of one shape repeat
/// characters at the same positions.
pub proof fn lemma_shape_repeats(a: Seq<char>, b: Seq<char>)
    ensures
        shape(a).len() == a.len(),
        shape(a) == shape(b) ==> same_repeats(a, b),
{
    lemma_shape_classes(a);
    lemma_shape_classes(b);
    if shape(a) == shape(b) {
        assert forall|i: int, j: int| 0 <= i < a.len() && 0 <= j < a.len() implies (a[i] == a[j]
            <==> b[i] == b[j]) by {
            assert(shape(a)[i] == shape(b)[i]);
            assert(shape(a)[j] == shape(b)[j]);
        }
    }
}

/// Two positions of `w` share a symbol exactly when they share a character.
pub proof fn lemma_shape_classes(w: Seq<char>)
    ensures
        shape(w).len() == w.len(),
        forall|i: int, j: int|
            0 <= i < w.len() && 0 <= j < w.len() ==> (#[trigger] shape(w)[i] == #[trigger] shape(w)[j]
                <==> w[i] == w[j]),
{
    let d = distinct(w);
    lemma_distinct(w);
    lemma_distinct_chars_bound(d);
    assert forall|i: int, j: int| 0 <= i < w.len() && 0 <= j < w.len() implies (shape(w)[i]
        == shape(w)[j] <==> w[i] == w[j]) by {
        assert(w.contains(w[i]));
        assert(w.contains(w[j]));
        lemma_rank_member(d, w[i]);
        lemma_rank_member(d, w[j]);
        if shape(w)[i] == shape(w)[j] {
            lemma_symbol_injective(rank(d, w[i]), rank(d, w[j]));
        }
    }
}

proof fn lemma_distinct_relabel(w: Seq<char>, f: spec_fn(char) -> char)
    requires
        forall|a: char, b: char| #[trigger] f(a) == #[trigger] f(b) ==> a == b,
    ensures
        distinct(w.map_values(f)) == distinct(w).map_values(f),
    decreases w.len(),
{
    if w.len() > 0 {
        let v = w.drop_last();
        assert(w.map_values(f).drop_last() =~= v.map_values(f));
        lemma_distinct_relabel(v, f);
        let d = distinct(v);
        assert(d.map_values(f).contains(f(w.last())) <==> d.contains(w.last())) by {
            if d.map_values(f).contains(f(w.last())) {
                let i = choose|i: int| 0 <= i < d.len() && d.map_values(f)[i] == f(w.last());
                assert(d[i] == w.last());
            }
            if d.contains(w.last()) {
                let i = choose|i: int| 0 <= i < d.len() && d[i] == w.last();
                assert(d.map_values(f)[i] == f(w.last()));
            }
        }
        assert(d.push(w.last()).map_values(f) =~= d.map_values(f).push(f(w.last())));
    } else {
        assert(w.map_values(f) =~= Seq::<char>::empty());
        assert(distinct(w).map_values(f) =~= Seq::<char>::empty());
    }
}

proof fn lemma_rank_relabel(s: Seq<char>, c: char, f: spec_fn(char) -> char)
    requires
        forall|a: char, b: char| #[trigger] f(a) == #[trigger] f(b) ==> a == b,
    ensures
        rank(s.map_values(f), f(c)) == rank(s, c),
    decreases s.len(),
{
    if s.len() > 0 {
        assert(s.map_values(f).drop_first() =~= s.drop_first().map_values(f));
        lemma_rank_relabel(s.drop_first(), c, f);
    }
}

/// Relabelling the characters of a word one-to-one leaves its shape unchanged.
pub proof fn lemma_shape_relabel(w: Seq<char>, f: spec_fn(char) -> char)
    requires
        forall|a: char, b: char| #[trigger] f(a) == #[trigger] f(b) ==> a == b,
    ensures
        shape(w.map_values(f)) == shape(w),
{
    lemma_distinct_relabel(w, f);
    assert forall|i: int| 0 <= i < w.len() implies shape(w.map_values(f))[i] == shape(w)[i] by {
        lemma_rank_relabel(distinct(w), w[i], f);
    }
    assert(shape(w.map_values(f)) =~= shape(w));
}

/// Signature of a word: the `k`-th distinct character to appear becomes the
/// `k`-th placeholder (`"aardvark"` becomes `"AABCDABE"`).
pub fn normalize(s: &str) -> (r: String)
    ensures
        r@ == shape(s@),
{
    let w = chars_of(s);
    let out = shape_chars(&w);
    string_of(&out)
}

/// The shape signature of a word given as characters.
pub fn shape_chars(w: &Vec<char>) -> (r: Vec<char>)
    ensures
        r@ == shape(w@),
{
    let ghost ws = w@;
    let mut seen: Vec<char> = Vec::new();
    let mut out: Vec<char> = Vec::new();
    let mut i: usize = 0;
    while i < w.len()
        invariant
            w@ == ws,
            0 <= i <= ws.len(),
            seen@ == distinct(ws.take(i as int)),
            out@.len() == i,
            forall|k: int| 0 <= k < i ==> out@[k] == symbol(rank(seen@, #[trigger] ws[k])),
        decreases ws.len() - i,
    {
        let c = w[i];
        let mut j: usize = 0;
        while j < seen.len() && seen[j] != c
            invariant
                0 <= j <= seen@.len(),
                forall|m: int| 0 <= m < j ==> seen@[m] != c,
            decreases seen@.len() - j,
        {
            j = j + 1;
        }
        proof {
            lemma_distinct(ws.take(i as int));
            assert(ws.take(i + 1).drop_last() =~= ws.take(i as int));
            assert(ws.take(i + 1).last() == c);
        }
        let ghost old_seen = seen@;
        if j == seen.len() {
            seen.push(c);
            proof {
                lemma_rank_first(seen@, c, j as int);
                lemma_distinct(ws.take(i + 1));
                lemma_distinct_chars_bound(seen@);
            }
        } else {
            proof {
                lemma_rank_first(seen@, c, j as int);
                lemma_distinct_chars_bound(seen@);
            }
        }
        let code: u32 = if j < 0xD7BF {
            0x41 + j as u32
        } else if j < 0x10F7BF {
            j as u32 + 0x841
        } else {
            j as u32 - 0x10F7BF
        };
        let sym = match char_from_code(code) {
            Some(x) => x,
            None => {
                proof {
                    assert(false);
                }
                ' '
            },
        };
        out.push(sym);
        proof {
            assert forall|k: int| 0 <= k < i + 1 implies out@[k] == symbol(
                rank(seen@, #[trigger] ws[k]),
            ) by {
                if k < i {
                    assert(old_seen.contains(ws[k])) by {
                        assert(ws.take(i as int)[k] == ws[k]);
                        assert(ws.take(i as int).contains(ws[k]));
                        lemma_distinct(ws.take(i as int));
                    }
                    assert(seen@.take(old_seen.len() as int) =~= old_seen);
                    lemma_rank_prefix(old_seen, seen@, ws[k]);
                }
            }
        }
        i = i + 1;
    }
    proof {
        assert(ws.take(ws.len() as int) =~= ws);
    }
    assert(out@ =~= shape(w@));
    out
}

} // verus!
