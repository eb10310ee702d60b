use sub_solver::input::{clean_input, parse_key};

fn key_of(pairs: &[(char, char)]) -> Vec<Option<char>> {
    let mut key = vec![None; 26];
    for &(a, b) in pairs {
        key[(a as u8 - b'a') as usize] = Some(b);
    }
    key
}

#[test]
fn clean_input_tests() {
    assert_eq!(clean_input("Hello, world!"), "hello world");
    assert_eq!(clean_input("Hello, world! 123"), "hello world");
    assert_eq!(clean_input("  some   spaces   "), "some spaces");
    assert_eq!(clean_input("Oké Måns"), "oke mans");
    assert_eq!(clean_input("Æneid"), "aeneid");
    assert_eq!(clean_input("test\nword"), "test word");
    assert_eq!(
        clean_input("something.\n\nnow other."),
        "something now other"
    );
}

#[test]
fn clean_input_empty_and_punctuation_only() {
    assert_eq!(clean_input(""), "");
    assert_eq!(clean_input("...!!! 42"), "");
}

#[test]
fn parse_key_tests() {
    assert_eq!(
        parse_key("a:b,c:d,e:f").unwrap(),
        key_of(&[('a', 'b'), ('c', 'd'), ('e', 'f')])
    );
    assert_eq!(
        parse_key("ab,cd,ef").unwrap(),
        key_of(&[('a', 'b'), ('c', 'd'), ('e', 'f')])
    );
    assert_eq!(
        parse_key("b?d?f?????????????????????????").unwrap(),
        key_of(&[('a', 'b'), ('c', 'd'), ('e', 'f')])
    );
}

#[test]
fn parse_key_errors() {
    assert_eq!(
        parse_key("????????A???????b???????c?????").unwrap_err(),
        "Invalid key character: 'A' (should be in lowercase alphabet)"
    );
    assert_eq!(
        parse_key("a???a??????b???c??????????????").unwrap_err(),
        "Duplicate mapping of 'a' to 'a' and 'e'"
    );
    assert_eq!(
        parse_key("A:b,c:d,e:f").unwrap_err(),
        "Invalid key character: 'A' (should be in lowercase alphabet)"
    );
    assert_eq!(
        parse_key("a:B,c:d,e:f").unwrap_err(),
        "Invalid key character: 'B' (should be in lowercase alphabet)"
    );
    assert_eq!(
        parse_key("ab,cd,af").unwrap_err(),
        "Duplicate key character: 'a'"
    );
    assert_eq!(
        parse_key("ab,cd,eb").unwrap_err(),
        "Duplicate mapping of 'b' to 'a' and 'e'"
    );
}

#[test]
fn parse_key_duplicate_key_names_the_letter() {
    let err = parse_key("ab,cd,af").unwrap_err();
    assert!(err.contains("'a'"));
    assert!(err.starts_with("Duplicate key character"));
}

#[test]
fn parse_key_empty_pair() {
    assert_eq!(
        parse_key("ab,,cd").unwrap_err(),
        "No first character in key: \"ab,,cd\""
    );
    assert_eq!(parse_key("").unwrap_err(), "No first character in key: \"\"");
}

#[test]
fn parse_key_single_character_pair_maps_to_itself() {
    assert_eq!(parse_key("a").unwrap(), key_of(&[('a', 'a')]));
}

#[test]
fn parse_key_wildcard_short_and_long() {
    assert_eq!(parse_key("?b").unwrap(), key_of(&[('b', 'b')]));
    let long = "zyxwvutsrqponmlkjihgfedcba?extra";
    let key = parse_key(long).unwrap();
    assert_eq!(key[0], Some('z'));
    assert_eq!(key[25], Some('a'));
}
