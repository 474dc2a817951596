use dancelist::text::{
    chars_of, contains, found_at, join, precedes, push_decimal, replace, same_text, starts_with,
    string_of,
};

fn chars_in(text: &str) -> Vec<char> {
    text.chars().collect()
}

#[test]
fn a_string_is_its_characters() {
    assert_eq!(chars_of("héllo"), vec!['h', 'é', 'l', 'l', 'o']);
    assert_eq!(chars_of(""), Vec::<char>::new());
    assert_eq!(string_of(&vec!['h', 'é', 'l', 'l', 'o']), "héllo");
    assert_eq!(string_of(&vec![]), "");
}

#[test]
fn strings_are_ordered_as_str_orders_them() {
    let samples = [
        "", "a", "A", "ab", "abc", "abd", "b", "Z", "z", "é", "e", "zz", "日本", "日", "~", " ",
    ];
    for a in samples {
        for b in samples {
            assert_eq!(precedes(a, b), a < b);
            assert_eq!(same_text(a, b), a == b);
        }
    }
}

#[test]
fn a_prefix_stands_at_the_start() {
    assert!(starts_with("https://example.org", "https://"));
    assert!(starts_with("https://", "https://"));
    assert!(starts_with("anything", ""));
    assert!(starts_with("", ""));
    assert!(!starts_with("http://example.org", "https://"));
    assert!(!starts_with("http", "https://"));
    assert!(!starts_with("", "a"));
    assert!(!starts_with("xhttps://", "https://"));
}

#[test]
fn a_needle_is_found_where_it_stands() {
    let hay = chars_in("balfolk.org");
    assert!(found_at(&hay, &chars_in("bal"), 0));
    assert!(found_at(&hay, &chars_in("folk"), 3));
    assert!(found_at(&hay, &chars_in("org"), 8));
    assert!(found_at(&hay, &chars_in(""), 11));
    assert!(!found_at(&hay, &chars_in(""), 12));
    assert!(!found_at(&hay, &chars_in("folk"), 2));
    assert!(!found_at(&hay, &chars_in("org"), 9));
    assert!(!found_at(&hay, &chars_in("balfolk.org!"), 0));
    assert!(!found_at(&hay, &chars_in("bal"), usize::MAX));
}

#[test]
fn a_needle_is_found_anywhere() {
    let hay = chars_in("www.balfolk.org");
    assert!(contains(&hay, &chars_in("balfolk.org")));
    assert!(contains(&hay, &chars_in("www")));
    assert!(contains(&hay, &chars_in("g")));
    assert!(contains(&hay, &chars_in("")));
    assert!(contains(&hay, &hay));
    assert!(contains(&chars_in(""), &chars_in("")));
    assert!(!contains(&hay, &chars_in("balfolk.com")));
    assert!(!contains(&hay, &chars_in("www.balfolk.org.")));
    assert!(!contains(&chars_in(""), &chars_in("a")));
}

#[test]
fn every_occurrence_is_replaced() {
    assert_eq!(replace("a-b-c", "-", "+"), "a+b+c");
    assert_eq!(replace("aaa", "aa", "b"), "ba");
    assert_eq!(replace("abc", "abc", ""), "");
    assert_eq!(replace("abc", "x", "y"), "abc");
    assert_eq!(replace("", "x", "y"), "");
    assert_eq!(replace("xx", "x", "xx"), "xxxx");
    assert_eq!(replace("ééé", "é", "e"), "eee");
    assert_eq!(replace("abc", "", "y"), "abc");
    for (text, from, to) in [("a-b-c", "-", "+"), ("aaa", "aa", "b"), ("abab", "ab", "ba")] {
        assert_eq!(replace(text, from, to), text.replace(from, to));
    }
}

#[test]
fn parts_are_joined_with_the_separator_between() {
    assert_eq!(join(&vec![], ", "), "");
    assert_eq!(join(&vec!["a".to_string()], ", "), "a");
    assert_eq!(
        join(&vec!["a".to_string(), "b".to_string(), "c".to_string()], ", "),
        "a, b, c"
    );
    assert_eq!(join(&vec!["".to_string(), "".to_string()], "-"), "-");
    assert_eq!(join(&vec!["a".to_string(), "b".to_string()], ""), "ab");
}

#[test]
fn numbers_are_written_in_decimal() {
    for (number, digits) in [
        (0u32, "0"),
        (7, "7"),
        (9, "9"),
        (10, "10"),
        (42, "42"),
        (100, "100"),
        (1234567890, "1234567890"),
        (u32::MAX, "4294967295"),
    ] {
        let mut text = String::from("n=");
        push_decimal(&mut text, number);
        assert_eq!(text, format!("n={}", digits));
    }
}
