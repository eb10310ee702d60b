//! The dictionary index: each shape signature with the set of words of that shape.
use vstd::prelude::*;

use crate::clean::{ascii_fold_of, clean, clean_input, lower_or_space};
use crate::input::{split_chars, split_on};
use crate::pattern::{shape, shape_chars};
use crate::text::{all_lower, chars_of, same_chars, string_of};

verus! {

/// Shape signatures and, at the same index, the words of that shape.
pub struct Dictionary {
    pub shapes: Vec<Vec<char>>,
    pub words: Vec<Vec<Vec<char>>>,
}

/// A word the dictionary can hold: lowercase letters, at least one.
pub open spec fn is_entry(w: Seq<char>) -> bool {
    w.len() > 0 && all_lower(w)
}

/// The `k`-th line of a word list, cleaned.
pub open spec fn line_word(contents: Seq<char>, k: int) -> Seq<char> {
    clean(ascii_fold_of(split_on(contents, '\n')[k]))
}

/// Some line of the word list cleans to `w`.
pub open spec fn listed(contents: Seq<char>, w: Seq<char>) -> bool {
    exists|k: int| 0 <= k < split_on(contents, '\n').len() && line_word(contents, k) == w
}

impl Dictionary {
    pub open spec fn bucket(&self, i: int) -> Seq<Seq<char>> {
        self.words@[i].deep_view()
    }

    /// Signatures are unique; each bucket is a non-empty set of entries of its signature.
    pub open spec fn wf(&self) -> bool {
        &&& self.shapes@.len() == self.words@.len()
        &&& self.shapes.deep_view().no_duplicates()
        &&& forall|i: int|
            0 <= i < self.words@.len() ==> {
                &&& (#[trigger] self.bucket(i)).no_duplicates()
                &&& self.bucket(i).len() > 0
                &&& forall|j: int|
                    0 <= j < self.bucket(i).len() ==> is_entry(#[trigger] self.bucket(i)[j]) && shape(
                        self.bucket(i)[j],
                    ) == self.shapes.deep_view()[i]
            }
    }

    /// The dictionary holds word `w`.
    pub open spec fn has_word(&self, w: Seq<char>) -> bool {
        exists|i: int| 0 <= i < self.words@.len() && #[trigger] self.bucket(i).contains(w)
    }

    /// The dictionary has words of signature `sig`.
    pub open spec fn has_shape(&self, sig: Seq<char>) -> bool {
        self.shapes.deep_view().contains(sig)
    }

    /// The words of signature `sig`.
    pub open spec fn words_of(&self, sig: Seq<char>) -> Seq<Seq<char>> {
        self.bucket(choose|i: int| 0 <= i < self.shapes@.len() && self.shapes.deep_view()[i] == sig)
    }

    pub fn new() -> (r: Dictionary)
        ensures
            r.wf(),
            forall|w: Seq<char>| !r.has_word(w),
    {
        Dictionary { shapes: Vec::new(), words: Vec::new() }
    }

    /// Number of distinct signatures.
    pub fn len(&self) -> (r: usize)
        ensures
            r == self.shapes@.len(),
    {
        self.shapes.len()
    }

    /// Index of signature `sig`, if the dictionary has it.
    fn find(&self, sig: &Vec<char>) -> (r: Option<usize>)
        requires
            self.wf(),
        ensures
            match r {
                Some(i) => i < self.shapes@.len() && self.shapes.deep_view()[i as int] == sig@,
                None => !self.has_shape(sig@),
            },
    {
        let mut i: usize = 0;
        while i < self.shapes.len()
            invariant
                self.wf(),
                i <= self.shapes@.len(),
                forall|k: int| 0 <= k < i ==> self.shapes.deep_view()[k] != sig@,
            decreases self.shapes@.len() - i,
        {
            assert(self.shapes@[i as int]@ =~= self.shapes.deep_view()[i as int]);
            if same_chars(&self.shapes[i], sig) {
                return Some(i);
            }
            i = i + 1;
        }
        None
    }

    /// The words of signature `sig`, if any.
    pub fn get(&self, sig: &Vec<char>) -> (r: Option<&Vec<Vec<char>>>)
        requires
            self.wf(),
        ensures
            match r {
                Some(v) => self.has_shape(sig@) && v.deep_view() == self.words_of(sig@),
                None => !self.has_shape(sig@),
            },
    {
        match self.find(sig) {
            Some(i) => {
                proof {
                    let j = choose|j: int| 0 <= j < self.shapes@.len() && self.shapes.deep_view()[j] == sig@;
                    if j != i {
                        assert(self.shapes.deep_view()[j] != self.shapes.deep_view()[i as int]);
                    }
                }
                Some(&self.words[i])
            },
            None => None,
        }
    }

    /// Adds word `w` under its signature; a word already held is not added twice.
    pub fn insert(&mut self, w: Vec<char>)
        requires
            old(self).wf(),
            is_entry(w@),
        ensures
            final(self).wf(),
            forall|x: Seq<char>| final(self).has_word(x) <==> (old(self).has_word(x) || x == w@),
    {
        let sig = shape_chars(&w);
        match self.find(&sig) {
            Some(i) => {
                let ghost b0 = self.bucket(i as int);
                let mut j: usize = 0;
                while j < self.words[i].len()
                    invariant
                        *self == *old(self),
                        self.wf(),
                        i < self.words@.len(),
                        b0 == self.bucket(i as int),
                        j <= b0.len(),
                        forall|k: int| 0 <= k < j ==> b0[k] != w@,
                    decreases b0.len() - j,
                {
                    assert(self.words@[i as int]@[j as int]@ =~= b0[j as int]);
                    if same_chars(&self.words[i][j], &w) {
                        proof {
                            assert(self.bucket(i as int).contains(w@));
                        }
                        return;
                    }
                    j = j + 1;
                }
                let ghost old_self = *self;
                let mut bucket = self.words[i].clone();
                proof {
                    assert(bucket.deep_view() =~~= b0);
                }
                bucket.push(w);
                let ghost nb = bucket.deep_view();
                proof {
                    assert(nb =~~= b0.push(w@));
                }
                self.words.set(i, bucket);
                proof {
                    assert(self.shapes.deep_view() == old_self.shapes.deep_view());
                    assert forall|k: int| 0 <= k < self.words@.len() && k != i implies #[trigger] self.bucket(k)
                        == old_self.bucket(k) by {}
                    assert(self.bucket(i as int) == b0.push(w@));
                    assert(!b0.contains(w@));
                    assert forall|a: int, b: int|
                        0 <= a < nb.len() && 0 <= b < nb.len() && a != b implies nb[a] != nb[b] by {
                        if a < b0.len() && b < b0.len() {
                            assert(nb[a] == b0[a] && nb[b] == b0[b]);
                        } else if a < b0.len() {
                            assert(nb[a] == b0[a]);
                        } else {
                            assert(nb[b] == b0[b]);
                        }
                    }
                    assert forall|x: Seq<char>| self.has_word(x) <==> (old_self.has_word(x) || x == w@) by {
                        if self.has_word(x) {
                            let k = choose|k: int| 0 <= k < self.words@.len() && #[trigger] self.bucket(k).contains(x);
                            if k != i {
                                assert(old_self.bucket(k).contains(x));
                            } else if x != w@ {
                                let m = choose|m: int| 0 <= m < nb.len() && nb[m] == x;
                                assert(b0[m] == x);
                                assert(old_self.bucket(k).contains(x));
                            }
                        }
                        if old_self.has_word(x) {
                            let k = choose|k: int| 0 <= k < old_self.words@.len() && #[trigger] old_self.bucket(k).contains(
                                x,
                            );
                            if k != i {
                                assert(self.bucket(k).contains(x));
                            } else {
                                let m = choose|m: int| 0 <= m < b0.len() && b0[m] == x;
                                assert(nb[m] == x);
                                assert(self.bucket(k).contains(x));
                            }
                        }
                        if x == w@ {
                            assert(nb[b0.len() as int] == x);
                            assert(self.bucket(i as int).contains(x));
                        }
                    }
                    assert(old_self == *old(self));
                    assert forall|x: Seq<char>| self.has_word(x) <==> (old(self).has_word(x) || x == w@) by {
                        assert(self.has_word(x) <==> (old_self.has_word(x) || x == w@));
                    }
                }
            },
            None => {
                let ghost old_self = *self;
                let mut bucket: Vec<Vec<char>> = Vec::new();
                bucket.push(w);
                let ghost nb = bucket.deep_view();
                let ghost sv = sig@;
                self.shapes.push(sig);
                self.words.push(bucket);
                proof {
                    let n = old_self.shapes@.len() as int;
                    assert(nb =~~= seq![w@]);
                    assert(self.shapes.deep_view() =~~= old_self.shapes.deep_view().push(sv));
                    assert forall|k: int| 0 <= k < n implies #[trigger] self.bucket(k) == old_self.bucket(k) by {}
                    assert(self.bucket(n) == nb);
                    let sd = self.shapes.deep_view();
                    assert forall|a: int, b: int| 0 <= a < sd.len() && 0 <= b < sd.len() && a != b implies sd[a]
                        != sd[b] by {
                        if a < n && b < n {
                            assert(sd[a] == old_self.shapes.deep_view()[a]);
                            assert(sd[b] == old_self.shapes.deep_view()[b]);
                        } else if a < n {
                            assert(sd[a] == old_self.shapes.deep_view()[a]);
                        } else {
                            assert(sd[b] == old_self.shapes.deep_view()[b]);
                        }
                    }
                    assert forall|x: Seq<char>| self.has_word(x) <==> (old_self.has_word(x) || x == w@) by {
                        if self.has_word(x) {
                            let k = choose|k: int| 0 <= k < self.words@.len() && #[trigger] self.bucket(k).contains(x);
                            if k < n {
                                assert(old_self.bucket(k).contains(x));
                            } else {
                                let m = choose|m: int| 0 <= m < nb.len() && nb[m] == x;
                            }
                        }
                        if old_self.has_word(x) {
                            let k = choose|k: int| 0 <= k < old_self.words@.len() && #[trigger] old_self.bucket(k).contains(
                                x,
                            );
                            assert(self.bucket(k).contains(x));
                        }
                        if x == w@ {
                            assert(nb[0] == x);
                            assert(self.bucket(n).contains(x));
                        }
                    }
                    assert forall|x: Seq<char>| self.has_word(x) <==> (old(self).has_word(x) || x == w@) by {
                        assert(self.has_word(x) <==> (old_self.has_word(x) || x == w@));
                    }
                }
            },
        }
    }
}

/// Builds the dictionary from a word list: each line is cleaned, and kept when it is a single
/// word of lowercase letters.
pub fn load_wordlist(contents: &str) -> (r: Dictionary)
    ensures
        r.wf(),
        forall|w: Seq<char>| r.has_word(w) <==> (is_entry(w) && listed(contents@, w)),
{
    let chars = chars_of(contents);
    let lines = split_chars(&chars, '\n');
    let ghost ls = lines.deep_view();
    let mut dict = Dictionary::new();
    let mut k: usize = 0;
    while k < lines.len()
        invariant
            chars@ == contents@,
            ls == lines.deep_view(),
            ls == split_on(contents@, '\n'),
            k <= ls.len(),
            dict.wf(),
            forall|w: Seq<char>|
                dict.has_word(w) <==> (is_entry(w) && exists|k2: int| 0 <= k2 < k && line_word(contents@, k2) == w),
        decreases ls.len() - k,
    {
        assert(lines@[k as int]@ =~= ls[k as int]);
        let line = string_of(&lines[k]);
        let cleaned = clean_input(line.as_str());
        let word = chars_of(cleaned.as_str());
        assert(word@ == line_word(contents@, k as int));
        let mut single = word.len() > 0;
        let mut m: usize = 0;
        while m < word.len()
            invariant
                m <= word@.len(),
                lower_or_space(word@),
                single <==> (word@.len() > 0 && forall|m2: int| 0 <= m2 < m ==> word@[m2] != ' '),
            decreases word@.len() - m,
        {
            if word[m] == ' ' {
                single = false;
            }
            m = m + 1;
        }
        let ghost wv = word@;
        if single {
            dict.insert(word);
        }
        proof {
            assert(single == is_entry(wv));
            assert forall|w: Seq<char>| dict.has_word(w) <==> (is_entry(w) && exists|k2: int|
                0 <= k2 < k + 1 && line_word(contents@, k2) == w) by {
                if is_entry(w) && line_word(contents@, k as int) == w {
                    assert(w == wv);
                }
            }
        }
        k = k + 1;
    }
    dict
}

} // verus!
