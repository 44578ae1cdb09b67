use module_deps::parser::{is_keyword, is_name_char, parse_header};

fn names(v: &[&[&str]]) -> Vec<Vec<String>> {
    v.iter().map(|n| n.iter().map(|s| s.to_string()).collect()).collect()
}

#[test]
fn header_with_prelude_comments_and_keyword() {
    let text = "/- Copyright -/\nprelude\nimport logic.basic data.list\n-- a note\nimport order.lattice\n\ndef x := 1\nimport not.read\n";
    let (prelude, imports) = parse_header(text);
    assert!(prelude);
    assert_eq!(imports, names(&[&["logic", "basic"], &["data", "list"], &["order", "lattice"]]));
}

#[test]
fn header_without_prelude() {
    let (prelude, imports) = parse_header("import foo\nsection s\n");
    assert!(!prelude);
    assert_eq!(imports, names(&[&["foo"]]));
}

#[test]
fn header_of_empty_text() {
    let (prelude, imports) = parse_header("");
    assert!(!prelude);
    assert!(imports.is_empty());
}

#[test]
fn header_ends_at_unclosed_comment() {
    let (_, imports) = parse_header("import a.b /- no end import c");
    assert_eq!(imports, names(&[&["a", "b"]]));
    let (_, imports) = parse_header("import a -- no line break");
    assert_eq!(imports, names(&[&["a"]]));
}

#[test]
fn header_ends_at_a_non_name_character() {
    let (_, imports) = parse_header("import a. b");
    assert_eq!(imports, names(&[&["a"]]));
    let (_, imports) = parse_header("import x (y)");
    assert_eq!(imports, names(&[&["x"]]));
}

#[test]
fn header_line_comment_ended_by_carriage_return() {
    let (_, imports) = parse_header("-- c\rimport a_1.b2\r\nopen a");
    assert_eq!(imports, names(&[&["a_1", "b2"]]));
}

#[test]
fn name_characters() {
    assert!(is_name_char('a'));
    assert!(is_name_char('Z'));
    assert!(is_name_char('7'));
    assert!(is_name_char('_'));
    assert!(is_name_char('α'));
    assert!(!is_name_char('.'));
    assert!(!is_name_char(' '));
    assert!(!is_name_char('-'));
}

#[test]
fn keywords_end_the_header() {
    assert!(is_keyword(&"theorem".to_string()));
    assert!(is_keyword(&"variables".to_string()));
    assert!(!is_keyword(&"import".to_string()));
    assert!(!is_keyword(&"theorems".to_string()));
}
