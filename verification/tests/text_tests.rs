use journald_query::text::{
    contains, field_name, field_value, has_nul, has_prefix, match_string, precedes, strip_prefix,
    to_chars, IntoText,
};

#[test]
fn test_match_string_size_calculation() {
    let field = "_HOSTNAME";
    let value = "localhost";
    let match_string = match_string(field, value);

    let expected_size = field.len() + 1 + value.len();
    let actual_size = match_string.as_bytes().len();

    assert_eq!(actual_size, expected_size);
    assert_eq!(actual_size, 19);

    let expected_content = "_HOSTNAME=localhost";
    assert_eq!(match_string, expected_content);
    assert_eq!(expected_content.len(), 19);
}

#[test]
fn test_cstring_conversion() {
    let valid_path = "/var/log/journal";
    assert!(!has_nul(valid_path));

    let invalid_path = "/var/log\0/journal";
    assert!(has_nul(invalid_path));
}

#[test]
fn match_string_length_counts_bytes_beyond_ascii() {
    let raw = match_string("MESSAGE", "caf\u{e9} \u{1f600}");
    assert_eq!(raw, "MESSAGE=caf\u{e9} \u{1f600}");
    assert_eq!(raw.len(), "MESSAGE".len() + 1 + "caf\u{e9} \u{1f600}".len());
    assert_eq!(raw.len(), 7 + 1 + 10);
    assert_eq!(raw.chars().count(), 7 + 1 + 6);
    assert_eq!(match_string("", ""), "=");
}

#[test]
fn to_chars_lists_the_characters() {
    assert_eq!(to_chars("a=\u{e9}"), vec!['a', '=', '\u{e9}']);
    assert_eq!(to_chars(""), Vec::<char>::new());
}

#[test]
fn strip_prefix_takes_only_a_true_prefix() {
    assert_eq!(strip_prefix("_HOSTNAME=web", "_HOSTNAME="), Some("web".to_string()));
    assert_eq!(strip_prefix("_HOSTNAME=", "_HOSTNAME="), Some(String::new()));
    assert_eq!(strip_prefix("INVALID=value", "_HOSTNAME="), None);
    assert_eq!(strip_prefix("", "_HOSTNAME="), None);
    assert_eq!(strip_prefix("_HOST", "_HOSTNAME="), None);
    assert_eq!(strip_prefix("abc", ""), Some("abc".to_string()));
    assert_eq!(strip_prefix("\u{e9}t\u{e9}", "\u{e9}"), Some("t\u{e9}".to_string()));
    assert!(has_prefix("_HOSTNAME=web", "_HOSTNAME="));
    assert!(!has_prefix("X_HOSTNAME=web", "_HOSTNAME="));
}

#[test]
fn contains_is_exact_about_case_and_place() {
    assert!(contains("GET / HTTP/1.1 200", "HTTP"));
    assert!(contains("GET / HTTP/1.1 200", "200"));
    assert!(contains("GET / HTTP/1.1 200", "GET"));
    assert!(!contains("GET / HTTP/1.1 200", "http"));
    assert!(!contains("GET / HTTP/1.1 200", "2000"));
    assert!(contains("abc", ""));
    assert!(contains("", ""));
    assert!(!contains("", "a"));
    assert!(!contains("ab", "abc"));
    assert!(contains("aab", "ab"));
}

#[test]
fn field_parts_split_at_the_first_equals_sign() {
    assert_eq!(field_name("MESSAGE=a=b"), "MESSAGE");
    assert_eq!(field_value("MESSAGE=a=b"), "a=b");
    assert_eq!(field_name("no sign"), "no sign");
    assert_eq!(field_value("no sign"), "no sign");
    assert_eq!(field_name("=x"), "");
    assert_eq!(field_value("x="), "");
}

#[test]
fn precedes_is_the_order_of_strings() {
    let words = ["", "a", "ab", "b", "B", "database-server", "web-server", "\u{e9}", "z", "zz"];
    for a in words {
        for b in words {
            assert_eq!(precedes(a, b), a < b, "{:?} against {:?}", a, b);
        }
    }
}

#[test]
fn a_text_is_given_by_slices_and_strings() {
    assert_eq!("web".into_text(), "web");
    assert_eq!("web".to_string().into_text(), "web");
    assert_eq!((&"web".to_string()).into_text(), "web");
}
