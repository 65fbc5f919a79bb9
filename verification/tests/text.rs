use tree_house::text::{
    bytes_eq, decimal_string, find_bytes, push_repeated, str_eq, str_slice, str_starts_with,
    take_word,
};

#[test]
fn decimal_string_writes_numbers() {
    assert_eq!(decimal_string(0), "0");
    assert_eq!(decimal_string(7), "7");
    assert_eq!(decimal_string(10), "10");
    assert_eq!(decimal_string(4096), "4096");
    assert_eq!(decimal_string(u64::MAX), "18446744073709551615");
}

#[test]
fn push_repeated_appends_the_unit() {
    let mut s = "ab".to_string();
    push_repeated(&mut s, "^", 3);
    assert_eq!(s, "ab^^^");
    push_repeated(&mut s, " ", 0);
    assert_eq!(s, "ab^^^");
}

#[test]
fn find_bytes_finds_the_first_occurrence() {
    let hay = b"abcabcabd";
    assert_eq!(find_bytes(hay, b"abc", 0), Some(0));
    assert_eq!(find_bytes(hay, b"abc", 1), Some(3));
    assert_eq!(find_bytes(hay, b"abd", 0), Some(6));
    assert_eq!(find_bytes(hay, b"abd", 7), None);
    assert_eq!(find_bytes(hay, b"abe", 0), None);
    assert_eq!(find_bytes(hay, b"", 4), Some(4));
    assert_eq!(find_bytes(hay, b"", 9), Some(9));
    assert_eq!(find_bytes(hay, b"", 10), None);
    assert_eq!(find_bytes(hay, b"abcabcabda", 0), None);
    assert_eq!(find_bytes(b"", b"", 0), Some(0));
}

#[test]
fn find_bytes_agrees_with_str_find() {
    let hay = "the cat and the hat sat on the mat";
    for needle in ["the", "at", " ", "mat", "hat sat", "that", "t", ""] {
        for from in 0..=hay.len() {
            let expected = hay[from..].find(needle).map(|at| at + from);
            assert_eq!(find_bytes(hay.as_bytes(), needle.as_bytes(), from), expected);
        }
    }
}

#[test]
fn strings_are_compared_by_their_text() {
    assert!(str_eq("", ""));
    assert!(str_eq("eq?", "eq?"));
    assert!(!str_eq("eq?", "eq"));
    assert!(!str_eq("eq?", "eq!"));
    assert!(str_eq("é", "\u{e9}"));
    assert!(bytes_eq(b"ab", b"ab"));
    assert!(!bytes_eq(b"ab", b"ba"));
    assert!(str_starts_with("local.definition.var", "local.definition."));
    assert!(str_starts_with("local.definition.", "local.definition."));
    assert!(!str_starts_with("local.definition", "local.definition."));
    assert!(!str_starts_with("xlocal.definition.", "local.definition."));
    assert!(str_starts_with("anything", ""));
}

#[test]
fn str_slice_cuts_between_characters() {
    let s = "aé-λx";
    assert_eq!(str_slice(s, 0, s.len()), s);
    assert_eq!(str_slice(s, 1, 3), "é");
    assert_eq!(str_slice(s, 3, 6), "-λ");
    assert_eq!(str_slice(s, 4, 4), "");
}

#[test]
fn take_word_takes_the_name_at_the_start() {
    assert_eq!(take_word("node_type) @x"), "node_type");
    assert_eq!(take_word("müll-node field"), "müll-node");
    assert_eq!(take_word("a1_b-2"), "a1_b-2");
    assert_eq!(take_word(" word"), "");
    assert_eq!(take_word(""), "");
    assert_eq!(take_word("λ٣!"), "λ٣");
}
