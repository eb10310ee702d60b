use sub_solver::input::input_to_words;
use sub_solver::solve::{order_by_possible_words, prune, Solution, Solver};
use sub_solver::{apply_solution, load_wordlist, normalize, Word};

const WORDS: [&str; 17] = [
    "many", "words", "here", "to", "test", "the", "solver", "also", "few", "a", "ok", "now",
    "all", "words", "should", "be", "good",
];

fn key_of(pairs: &[(char, char)]) -> Vec<Option<char>> {
    let mut key = vec![None; 26];
    for &(a, b) in pairs {
        key[(a as u8 - b'a') as usize] = Some(b);
    }
    key
}

fn chars(s: &str) -> Vec<char> {
    s.chars().collect()
}

#[test]
fn can_solve() {
    let ciphertext = "x cbt tloap";
    let wordlist = WORDS.join("\n");
    let dictionary = load_wordlist(&wordlist);

    let cipher_words = input_to_words(ciphertext, &dictionary).unwrap();
    let solver = Solver::new(cipher_words);

    let solutions = solver.solve(vec![None; 26]);

    let solution = &solutions[0];
    let plaintext = solution.apply(ciphertext);
    assert_eq!(plaintext, "a few words");
}

#[test]
fn solver_finds_the_expected_key() {
    let dictionary = load_wordlist(&WORDS.join("\n"));
    let mut cipher_words = input_to_words("x cbt tloap", &dictionary).unwrap();
    order_by_possible_words(&mut cipher_words);
    prune(&mut cipher_words);
    let solutions = Solver::new(cipher_words).solve(vec![None; 26]);
    let expected = key_of(&[
        ('x', 'a'),
        ('c', 'f'),
        ('b', 'e'),
        ('t', 'w'),
        ('l', 'o'),
        ('o', 'r'),
        ('a', 'd'),
        ('p', 's'),
    ]);
    assert!(solutions.iter().any(|s| s.key == expected));
    assert_eq!(solutions.len(), 1);
    assert_eq!(solutions[0].apply("x cbt tloap"), "a few words");
}

#[test]
fn unrepresentable_word_fails_before_search() {
    let dictionary = load_wordlist(&WORDS.join("\n"));
    let err = input_to_words("x qqqqqqqqqq", &dictionary).err().unwrap();
    assert_eq!(err, "Word \"qqqqqqqqqq\" is not possible in the dictionary");
}

#[test]
fn unsolvable_ciphertext_yields_no_solutions() {
    // "ab" and "ba" need two distinct letters each, but the only two-letter
    // words share no letters in swapped order.
    let dictionary = load_wordlist("to\nok");
    let cipher_words = input_to_words("ab ba", &dictionary).unwrap();
    let solutions = Solver::new(cipher_words).solve(vec![None; 26]);
    assert!(solutions.is_empty());
}

#[test]
fn starting_key_constrains_the_search() {
    let dictionary = load_wordlist("to\nok\nno");
    let cipher_words = input_to_words("ab", &dictionary).unwrap();
    let solutions = Solver::new(cipher_words).solve(key_of(&[('a', 'o')]));
    assert_eq!(solutions.len(), 1);
    assert_eq!(solutions[0].apply("ab"), "ok");
}

#[test]
fn inconsistent_starting_key_yields_nothing() {
    let dictionary = load_wordlist("to\nok\nno");
    let cipher_words = input_to_words("ab", &dictionary).unwrap();
    let solutions = Solver::new(cipher_words).solve(key_of(&[('y', 'q'), ('z', 'q')]));
    assert!(solutions.is_empty());
}

#[test]
fn every_solution_is_injective() {
    let dictionary = load_wordlist("to\nok\nno\non\nat\nit\nis\nas");
    let cipher_words = input_to_words("ab cd", &dictionary).unwrap();
    let solutions = Solver::new(cipher_words).solve(vec![None; 26]);
    assert!(!solutions.is_empty());
    for s in &solutions {
        let mut seen = Vec::new();
        for p in s.key.iter().flatten() {
            assert!(!seen.contains(p));
            seen.push(*p);
        }
    }
}

#[test]
fn empty_ciphertext_yields_the_starting_key() {
    let dictionary = load_wordlist("to");
    let cipher_words = input_to_words("", &dictionary).unwrap();
    assert!(cipher_words.is_empty());
    let solutions = Solver::new(cipher_words).solve(key_of(&[('a', 'b')]));
    assert_eq!(solutions.len(), 1);
    assert_eq!(solutions[0].key, key_of(&[('a', 'b')]));
}

#[test]
fn normalize_examples() {
    assert_eq!(normalize("aardvark"), "AABCDABE");
    assert_eq!(normalize("example"), "ABCDEFA");
    assert_eq!(normalize("example"), normalize("squares"));
    assert_eq!(normalize("testing"), "ABCADEF");
    assert_eq!(normalize(""), "");
}

#[test]
fn normalize_ignores_relabelling() {
    let w = "mississippi";
    let relabelled: String = w
        .chars()
        .map(|c| match c {
            'm' => 'q',
            'i' => 'z',
            's' => 'a',
            'p' => 'b',
            other => other,
        })
        .collect();
    assert_eq!(normalize(w), normalize(&relabelled));
    assert_eq!(normalize(w).chars().count(), w.chars().count());
}

#[test]
fn normalize_shapes_differ_for_different_repeats() {
    assert_ne!(normalize("abca"), normalize("abcd"));
    assert_ne!(normalize("aabb"), normalize("abab"));
}

#[test]
fn word_new_records_aligned_letters() {
    let word = Word::new("ab", &vec![chars("to"), chars("ok")]);
    let cell = |x: char, y: char| (x as u8 - b'a') as usize * 26 + (y as u8 - b'a') as usize;
    assert!(word.letter_map[cell('a', 't')]);
    assert!(word.letter_map[cell('a', 'o')]);
    assert!(word.letter_map[cell('b', 'o')]);
    assert!(word.letter_map[cell('b', 'k')]);
    assert!(!word.letter_map[cell('a', 'k')]);
    assert_eq!(word.letter_map.iter().filter(|b| **b).count(), 4);
}

#[test]
fn prune_removes_candidates_outside_domains() {
    // "ab" may be "to" or "ok"; "b" alone must be "a", so b's domain is {a}
    // intersected with {o, k}: empty, and no candidate of "ab" survives.
    let dictionary = load_wordlist("to\nok\na");
    let mut cipher_words = input_to_words("ab b", &dictionary).unwrap();
    prune(&mut cipher_words);
    assert!(cipher_words[0].candidates.is_empty());
    assert!(cipher_words[1].candidates.is_empty());
}

#[test]
fn prune_keeps_consistent_candidates() {
    // "ab" with "bc": b must be in {o, k, n} and in {t, o, n}, so b is 'o' or 'n'.
    let dictionary = load_wordlist("to\nok\nno\non");
    let mut cipher_words = input_to_words("ab bc", &dictionary).unwrap();
    prune(&mut cipher_words);
    let first: Vec<String> = cipher_words[0].candidates.iter().map(|c| c.iter().collect()).collect();
    let second: Vec<String> = cipher_words[1].candidates.iter().map(|c| c.iter().collect()).collect();
    assert_eq!(first, vec!["to", "no", "on"]);
    assert_eq!(second, vec!["ok", "no", "on"]);
}

#[test]
fn prune_twice_equals_prune_once() {
    let dictionary = load_wordlist(&WORDS.join("\n"));
    let mut once = input_to_words("x cbt tloap ab", &dictionary).unwrap();
    prune(&mut once);
    let after_once: Vec<Vec<Vec<char>>> = once.iter().map(|w| w.candidates.clone()).collect();
    prune(&mut once);
    let after_twice: Vec<Vec<Vec<char>>> = once.iter().map(|w| w.candidates.clone()).collect();
    assert_eq!(after_once, after_twice);
}

#[test]
fn order_puts_longest_first() {
    let dictionary = load_wordlist(&WORDS.join("\n"));
    let mut cipher_words = input_to_words("x cbt tloap ab", &dictionary).unwrap();
    order_by_possible_words(&mut cipher_words);
    let lengths: Vec<usize> = cipher_words.iter().map(|w| w.word.len()).collect();
    assert_eq!(lengths, vec![5, 3, 2, 1]);
}

#[test]
fn apply_marks_unknown_letters() {
    let solution = Solution::new(key_of(&[('a', 'x')]));
    assert_eq!(solution.apply("ab, a!"), "x?, x!");
    assert_eq!(solution.apply("É1"), "?1");
}

#[test]
fn apply_solution_keeps_unknown_letters() {
    let key = key_of(&[('a', 'x'), ('c', 'y')]);
    assert_eq!(apply_solution("abc d!", &key), "xby d!");
}

#[test]
fn key_string_shows_placeholders() {
    let solution = Solution::new(key_of(&[('a', 'q'), ('z', 'b')]));
    assert_eq!(solution.key_string(), "q????????????????????????b");
}

#[test]
fn fill_key_uses_unused_letters_in_order() {
    let mut solution = Solution::new(key_of(&[('a', 'b'), ('c', 'a')]));
    solution.fill_key();
    assert_eq!(solution.key_string(), "bcadefghijklmnopqrstuvwxyz");
}

#[test]
fn fill_key_on_full_key_changes_nothing() {
    let full: Vec<Option<char>> = "zyxwvutsrqponmlkjihgfedcba".chars().map(Some).collect();
    let mut solution = Solution::new(full.clone());
    solution.fill_key();
    assert_eq!(solution.key, full);
}

#[test]
fn round_trip_through_inverse_key() {
    let forward: Vec<Option<char>> = "qwertyuiopasdfghjklzxcvbnm".chars().map(Some).collect();
    let mut inverse = vec![None; 26];
    for (i, p) in forward.iter().enumerate() {
        inverse[(p.unwrap() as u8 - b'a') as usize] = Some((b'a' + i as u8) as char);
    }
    let text = "attack at dawn, 42!";
    let hidden = Solution::new(inverse).apply(text);
    assert_ne!(hidden, text);
    assert_eq!(Solution::new(forward).apply(&hidden), text);
}
