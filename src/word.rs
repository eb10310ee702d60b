//! A ciphertext word bound to its dictionary candidates.
use vstd::prelude::*;

use crate::pattern::{lemma_shape_classes, shape};
use crate::text::{all_lower, chars_of, index_of_letter, is_lower, letter_index};

verus! {

/// Slot of the pair (ciphertext letter `x`, plaintext letter `y`) in a letter map.
pub open spec fn cell(x: int, y: int) -> int {
    x * 26 + y
}

/// Some candidate puts plaintext letter `y` where `w` has ciphertext letter `x`.
pub open spec fn pair_seen(w: Seq<char>, cands: Seq<Seq<char>>, x: int, y: int) -> bool {
    exists|ci: int, m: int|
        0 <= ci < cands.len() && 0 <= m < w.len() && letter_index(w[m]) == x && letter_index(
            #[trigger] cands[ci][m],
        ) == y
}

/// A candidate for `w`: lowercase, and of the same shape.
pub open spec fn fits_shape(w: Seq<char>, c: Seq<char>) -> bool {
    &&& all_lower(c)
    &&& c.len() == w.len()
    &&& shape(c) == shape(w)
}

/// One ciphertext token, the dictionary words it may stand for, and for each
/// (ciphertext letter, plaintext letter) pair whether some candidate aligns them.
///
/// The letter map is computed from the candidates at construction and is not tightened when
/// pruning drops candidates: it stays a cover of the surviving ones, and pruning against it
/// keeps every solution (see `solve::lemma_prune_keeps_solutions`).
pub struct Word {
    pub word: Vec<char>,
    pub candidates: Vec<Vec<char>>,
    /// 26 x 26 flags, the pair `(x, y)` at `x * 26 + y`.
    pub letter_map: Vec<bool>,
}

impl Word {
    pub open spec fn cands(&self) -> Seq<Seq<char>> {
        self.candidates.deep_view()
    }

    /// The letter map covers every pair that a candidate aligns.
    pub open spec fn map_covers(&self) -> bool {
        forall|ci: int, m: int|
            0 <= ci < self.cands().len() && 0 <= m < self.word@.len() ==> self.letter_map@[cell(
                letter_index(self.word@[m]),
                letter_index(#[trigger] self.cands()[ci][m]),
            )]
    }

    pub open spec fn wf(&self) -> bool {
        &&& all_lower(self.word@)
        &&& self.letter_map@.len() == 676
        &&& forall|ci: int| 0 <= ci < self.cands().len() ==> fits_shape(self.word@, #[trigger] self.cands()[ci])
        &&& self.cands().no_duplicates()
        &&& self.map_covers()
    }

    /// Binds token `s` to `candidates`; the letter map records exactly the
    /// pairs that the candidates align.
    pub fn new(s: &str, candidates: &Vec<Vec<char>>) -> (r: Word)
        requires
            all_lower(s@),
            forall|ci: int|
                0 <= ci < candidates.deep_view().len() ==> all_lower(#[trigger] candidates.deep_view()[ci])
                    && shape(candidates.deep_view()[ci]) == shape(s@),
            candidates.deep_view().no_duplicates(),
        ensures
            r.wf(),
            r.word@ == s@,
            r.cands() == candidates.deep_view(),
            forall|x: int, y: int|
                0 <= x < 26 && 0 <= y < 26 ==> (r.letter_map@[cell(x, y)] <==> pair_seen(
                    s@,
                    candidates.deep_view(),
                    x,
                    y,
                )),
    {
        let w = chars_of(s);
        let ghost cs = candidates.deep_view();
        proof {
            assert forall|ci: int| 0 <= ci < cs.len() implies fits_shape(w@, #[trigger] cs[ci]) by {
                lemma_shape_classes(cs[ci]);
                lemma_shape_classes(w@);
            }
        }
        let mut letter_map: Vec<bool> = Vec::new();
        let mut k: usize = 0;
        while k < 676
            invariant
                k <= 676,
                letter_map@.len() == k,
                forall|i: int| 0 <= i < k ==> !letter_map@[i],
            decreases 676 - k,
        {
            letter_map.push(false);
            k = k + 1;
        }
        let mut ci: usize = 0;
        while ci < candidates.len()
            invariant
                w@ == s@,
                cs == candidates.deep_view(),
                forall|c: int| 0 <= c < cs.len() ==> fits_shape(w@, #[trigger] cs[c]),
                all_lower(w@),
                ci <= cs.len(),
                letter_map@.len() == 676,
                forall|x: int, y: int|
                    0 <= x < 26 && 0 <= y < 26 ==> (letter_map@[cell(x, y)] <==> pair_seen(
                        w@,
                        cs.take(ci as int),
                        x,
                        y,
                    )),
            decreases cs.len() - ci,
        {
            let cand = &candidates[ci];
            assert(cand@ == cs[ci as int]);
            let mut m: usize = 0;
            while m < w.len()
                invariant
                    w@ == s@,
                    cs == candidates.deep_view(),
                    cand@ == cs[ci as int],
                    fits_shape(w@, cs[ci as int]),
                    all_lower(w@),
                    ci < cs.len(),
                    m <= w@.len(),
                    letter_map@.len() == 676,
                    forall|x: int, y: int|
                        0 <= x < 26 && 0 <= y < 26 ==> (letter_map@[cell(x, y)] <==> (pair_seen(
                            w@,
                            cs.take(ci as int),
                            x,
                            y,
                        ) || exists|m2: int|
                            0 <= m2 < m && letter_index(w@[m2]) == x && letter_index(
                                #[trigger] cand@[m2],
                            ) == y)),
                decreases w@.len() - m,
            {
                assert(is_lower(w@[m as int]));
                assert(is_lower(cand@[m as int]));
                let x = index_of_letter(w[m]);
                let y = index_of_letter(cand[m]);
                let ghost before = letter_map@;
                let ghost m0 = m as int;
                assert(forall|x: int, y: int|
                    0 <= x < 26 && 0 <= y < 26 ==> (before[cell(x, y)] <==> (pair_seen(
                        w@,
                        cs.take(ci as int),
                        x,
                        y,
                    ) || exists|m2: int|
                        0 <= m2 < m0 && letter_index(w@[m2]) == x && letter_index(
                            #[trigger] cand@[m2],
                        ) == y)));
                letter_map.set(x * 26 + y, true);
                m = m + 1;
                proof {
                    assert forall|x2: int, y2: int| 0 <= x2 < 26 && 0 <= y2 < 26 implies (letter_map@[cell(
                        x2,
                        y2,
                    )] <==> (pair_seen(w@, cs.take(ci as int), x2, y2) || exists|m2: int|
                        0 <= m2 < m && letter_index(w@[m2]) == x2 && letter_index(
                            #[trigger] cand@[m2],
                        ) == y2)) by {
                        if x2 == x && y2 == y {
                            assert(letter_map@[cell(x2, y2)]);
                            assert(letter_index(w@[m - 1]) == x2);
                            assert(letter_index(cand@[m - 1]) == y2);
                        } else {
                            assert(before[cell(x2, y2)] <==> (pair_seen(w@, cs.take(ci as int), x2, y2) || exists|m2: int|
                                0 <= m2 < m0 && letter_index(w@[m2]) == x2 && letter_index(
                                    #[trigger] cand@[m2],
                                ) == y2));
                            assert(cell(x2, y2) != cell(x as int, y as int));
                            assert(letter_map@[cell(x2, y2)] == before[cell(x2, y2)]);
                            if exists|m2: int|
                                0 <= m2 < m && letter_index(w@[m2]) == x2 && letter_index(
                                    #[trigger] cand@[m2],
                                ) == y2 {
                                let m2 = choose|m2: int|
                                    0 <= m2 < m && letter_index(w@[m2]) == x2 && letter_index(
                                        #[trigger] cand@[m2],
                                    ) == y2;
                                assert(m2 < m - 1);
                            }
                        }
                    }
                }
            }
            proof {
                let ct = cs.take(ci + 1);
                assert forall|x: int, y: int| 0 <= x < 26 && 0 <= y < 26 implies (letter_map@[cell(x, y)]
                    <==> pair_seen(w@, ct, x, y)) by {
                    if pair_seen(w@, ct, x, y) {
                        let (c2, m2) = choose|c2: int, m2: int|
                            0 <= c2 < ct.len() && 0 <= m2 < w@.len() && letter_index(w@[m2]) == x
                                && letter_index(#[trigger] ct[c2][m2]) == y;
                        if c2 < ci {
                            assert(cs.take(ci as int)[c2][m2] == ct[c2][m2]);
                        } else {
                            assert(cand@[m2] == ct[c2][m2]);
                        }
                    }
                    if pair_seen(w@, cs.take(ci as int), x, y) {
                        let (c2, m2) = choose|c2: int, m2: int|
                            0 <= c2 < ci && 0 <= m2 < w@.len() && letter_index(w@[m2]) == x
                                && letter_index(#[trigger] cs.take(ci as int)[c2][m2]) == y;
                        assert(ct[c2][m2] == cs.take(ci as int)[c2][m2]);
                    }
                    if exists|m2: int|
                        0 <= m2 < w@.len() && letter_index(w@[m2]) == x && letter_index(
                            #[trigger] cand@[m2],
                        ) == y {
                        let m2 = choose|m2: int|
                            0 <= m2 < w@.len() && letter_index(w@[m2]) == x && letter_index(
                                #[trigger] cand@[m2],
                            ) == y;
                        assert(ct[ci as int][m2] == cand@[m2]);
                    }
                }
            }
            ci = ci + 1;
        }
        proof {
            assert(cs.take(cs.len() as int) =~= cs);
        }
        let r = Word { word: w, candidates: candidates.clone(), letter_map };
        proof {
            assert(r.cands() =~= cs);
            assert forall|c: int, m: int| 0 <= c < cs.len() && 0 <= m < s@.len() implies r.letter_map@[cell(
                letter_index(s@[m]),
                letter_index(#[trigger] cs[c][m]),
            )] by {
                assert(is_lower(s@[m]));
                assert(is_lower(cs[c][m]));
                assert(pair_seen(s@, cs, letter_index(s@[m]), letter_index(cs[c][m])));
            }
        }
        r
    }
}

} // verus!
