use sub_solver::cache::get_filename;
use sub_solver::load_wordlist;

fn chars(s: &str) -> Vec<char> {
    s.chars().collect()
}

#[test]
fn load_wordlist_groups_words_by_shape() {
    let dictionary = load_wordlist("the\nfew\nall\nthe\nA");
    assert_eq!(dictionary.len(), 3);
    let abc = dictionary.get(&chars("ABC")).unwrap();
    assert_eq!(abc.len(), 2);
    assert!(abc.contains(&chars("the")));
    assert!(abc.contains(&chars("few")));
    assert_eq!(dictionary.get(&chars("ABB")).unwrap(), &vec![chars("all")]);
    assert_eq!(dictionary.get(&chars("A")).unwrap(), &vec![chars("a")]);
    assert!(dictionary.get(&chars("AB")).is_none());
}

#[test]
fn load_wordlist_cleans_lines() {
    let dictionary = load_wordlist("Éte\r\n\n  \nice cream\ndon't");
    assert_eq!(dictionary.get(&chars("ABA")).unwrap(), &vec![chars("ete")]);
    // Lines that clean to several words, or to nothing, are left out.
    assert_eq!(dictionary.len(), 1);
}

#[test]
fn empty_wordlist_has_no_shapes() {
    assert_eq!(load_wordlist("").len(), 0);
}

#[test]
fn cache_file_is_named_by_digest() {
    assert_eq!(
        get_filename("/tmp/cache", ""),
        "/tmp/cache/d41d8cd98f00b204e9800998ecf8427e.bin"
    );
    assert_eq!(
        get_filename("dir", "abc"),
        "dir/900150983cd24fb0d6963f7d28e17f72.bin"
    );
}
