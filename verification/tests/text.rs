use rs_docx::text::{
    chars_eq, chars_of, chars_replace, cow_clone, cow_str, join_leaves, replace, str_eq,
    substitute, trim_range,
};
use std::borrow::Cow;

#[test]
fn replace_is_literal_and_goes_from_left_to_right() {
    assert_eq!(replace("Lorem Ipsum", "Lorem", "X"), "X Ipsum");
    assert_eq!(replace("aaa", "aa", "b"), "ba");
    assert_eq!(replace("aaaa", "aa", "b"), "bb");
    assert_eq!(replace("a.b.c", ".", "[.]"), "a[.]b[.]c");
    assert_eq!(replace("abc", "x", "y"), "abc");
    assert_eq!(replace("abc", "abcd", "y"), "abc");
    assert_eq!(replace("", "a", "b"), "");
    assert_eq!(replace("ab", "ab", ""), "");
    assert_eq!(replace("a*b", "*", "**"), "a**b");
}

#[test]
fn replace_does_not_search_what_it_wrote() {
    assert_eq!(replace("aa", "a", "aa"), "aaaa");
    assert_eq!(replace("ab", "a", "ba"), "bab");
}

#[test]
fn replace_of_the_empty_text_puts_the_replacement_around_every_character() {
    assert_eq!(replace("abc", "", "-"), "-a-b-c-");
    assert_eq!(replace("", "", "-"), "-");
}

#[test]
fn replace_agrees_with_the_standard_library() {
    let texts = ["", "a", "ab", "aaa", "abcabc", "Lorem Ipsum", "héllo wörld", "ααβαα", "x\ny"];
    let patterns = ["", "a", "aa", "ab", "bc", "L", "ö", "α", "αα", "\n", "zzz"];
    let replacements = ["", "a", "X", "ab", "ßß"];
    for t in texts {
        for p in patterns {
            for r in replacements {
                assert_eq!(replace(t, p, r), t.replace(p, r), "{:?} {:?} {:?}", t, p, r);
            }
        }
    }
}

#[test]
fn substitute_applies_the_entries_in_order() {
    let dic = [("Lorem", "X"), ("Ipsum", "Y")];
    assert_eq!(substitute("Lorem Ipsum", &dic), "X Y");
    assert_eq!(substitute("Lorem", &dic), "X");
    assert_eq!(substitute("nothing", &dic), "nothing");
    assert_eq!(substitute("anything", &[]), "anything");
}

#[test]
fn substitute_lets_a_later_entry_see_what_an_earlier_one_wrote() {
    assert_eq!(substitute("a", &[("a", "b"), ("b", "c")]), "c");
    assert_eq!(substitute("a", &[("b", "c"), ("a", "b")]), "b");
    assert_eq!(substitute("ab", &[("a", "b"), ("b", "a")]), "aa");
}

#[test]
fn characters_survive_the_way_through_vectors() {
    for text in ["", "abc", "héllo", "日本語", "a\u{10FFFF}b"] {
        let chars = chars_of(text);
        assert_eq!(chars, text.chars().collect::<Vec<char>>());
        assert_eq!(chars_replace(&chars, &vec!['\u{0}'], &vec![]).len(), chars.len());
        assert_eq!(join_leaves(&vec![&Cow::Borrowed(text)]), text);
    }
}

#[test]
fn join_leaves_writes_the_texts_one_after_the_other() {
    let a: Cow<str> = Cow::Borrowed("ab");
    let b: Cow<str> = Cow::Owned("cd".to_string());
    let c: Cow<str> = Cow::Borrowed("");
    assert_eq!(join_leaves(&vec![&a, &b, &c, &a]), "abcdab");
    assert_eq!(join_leaves(&vec![]), "");
}

#[test]
fn equality_of_texts_is_equality_of_characters() {
    assert!(str_eq("w:ins", "w:ins"));
    assert!(!str_eq("w:ins", "w:del"));
    assert!(!str_eq("w:ins", "w:in"));
    assert!(str_eq("", ""));
    assert!(chars_eq(&vec!['a', 'b'], &vec!['a', 'b']));
    assert!(!chars_eq(&vec!['a', 'b'], &vec!['a', 'c']));
}

#[test]
fn a_clone_of_a_borrowed_text_stays_borrowed() {
    let text = String::from("source");
    let borrowed: Cow<str> = Cow::Borrowed(&text);
    let owned: Cow<str> = Cow::Owned(String::from("copy"));
    assert!(matches!(cow_clone(&borrowed), Cow::Borrowed("source")));
    assert!(matches!(cow_clone(&owned), Cow::Owned(_)));
    assert_eq!(cow_str(&cow_clone(&owned)), "copy");
}

#[test]
fn trim_range_finds_the_part_without_white_space_at_its_ends() {
    let v: Vec<char> = "  a b \t".chars().collect();
    assert_eq!(trim_range(&v, 0, v.len()), (2, 5));
    assert_eq!(trim_range(&v, 3, 4), (4, 4));
    assert_eq!(trim_range(&v, 2, 5), (2, 5));
}
