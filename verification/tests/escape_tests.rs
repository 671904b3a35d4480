use rustvault::escape::{escape_chars, escape_semicolons, unescape_chars, unescape_semicolons};

#[test]
fn escape_replaces_each_semicolon() {
    let escaped = escape_semicolons(&String::from("a;b;;c"));
    assert_eq!(escaped, "a###semicolon###b###semicolon######semicolon###c");
}

#[test]
fn escape_leaves_other_text_alone() {
    assert_eq!(escape_semicolons(&String::from("bob@example.com")), "bob@example.com");
    assert_eq!(escape_semicolons(&String::new()), "");
}

#[test]
fn escaped_text_holds_no_semicolon() {
    let escaped = escape_semicolons(&String::from(";a;;b;"));
    assert!(!escaped.contains(';'));
}

#[test]
fn unescape_restores_semicolons() {
    let plain = unescape_semicolons(&String::from("secret###semicolon###pw"));
    assert_eq!(plain, "secret;pw");
}

#[test]
fn unescape_reads_from_the_left() {
    // The first fifteen characters are a sentinel; what is left is not.
    let plain = unescape_semicolons(&String::from("###semicolon###semicolon###"));
    assert_eq!(plain, ";semicolon###");
}

#[test]
fn unescape_keeps_an_incomplete_sentinel() {
    assert_eq!(unescape_semicolons(&String::from("###semicolon##")), "###semicolon##");
    assert_eq!(unescape_semicolons(&String::from("##semicolon###")), "##semicolon###");
}

#[test]
fn escaping_round_trips_text_with_semicolons() {
    for text in ["secret;pw", ";", ";;", "a;b;c", "#;#", "###;###", "no delimiter", ""] {
        let plain = String::from(text);
        assert_eq!(unescape_semicolons(&escape_semicolons(&plain)), plain);
    }
}

#[test]
fn text_that_holds_the_sentinel_does_not_round_trip() {
    let plain = String::from("###semicolon###");
    let back = unescape_semicolons(&escape_semicolons(&plain));
    assert_eq!(back, ";");
}

#[test]
fn text_that_ends_a_sentinel_early_does_not_round_trip() {
    let plain = String::from("###semicolon;");
    let back = unescape_semicolons(&escape_semicolons(&plain));
    assert_eq!(back, ";semicolon###");
}

#[test]
fn escape_chars_appends_to_what_is_there() {
    let mut out = vec!['x'];
    escape_chars(&['a', ';'], &mut out);
    let expected: Vec<char> = "xa###semicolon###".chars().collect();
    assert_eq!(out, expected);
}

#[test]
fn unescape_chars_matches_the_string_form() {
    let escaped: Vec<char> = "u###semicolon###v".chars().collect();
    assert_eq!(unescape_chars(&escaped), vec!['u', ';', 'v']);
}
