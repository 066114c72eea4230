use config_parser::model::Record;
use config_parser::properties_parser::parse_properties;

fn rec(k: &str, v: &str) -> Record {
    Record { key: k.to_string(), value: v.to_string() }
}

#[test]
fn escapes_in_key_and_value() {
    let r = parse_properties("key\\:with\\:colons = a\\tb\\\\c").unwrap();
    assert_eq!(r, vec![rec("key:with:colons", "a\tb\\c")]);
}

#[test]
fn line_continuation_joins_value() {
    let r = parse_properties("longkey = part1\\\n   part2").unwrap();
    assert_eq!(r, vec![rec("longkey", "part1part2")]);
}

#[test]
fn comments_and_blank_lines_skipped() {
    let r = parse_properties("# comment\n\na=1").unwrap();
    assert_eq!(r, vec![rec("a", "1")]);
}

#[test]
fn bang_comment_and_whitespace_only_line() {
    let r = parse_properties("  ! note\n \t \nx:y\n").unwrap();
    assert_eq!(r, vec![rec("x", "y")]);
}

#[test]
fn separators_and_whitespace() {
    let r = parse_properties("a=1\nb : 2\nc 3\nd\ne=\n  f = x = y  \n").unwrap();
    assert_eq!(
        r,
        vec![rec("a", "1"), rec("b", "2"), rec("c", "3"), rec("d", ""), rec("e", ""), rec("f", "x = y  ")]
    );
}

#[test]
fn all_line_endings() {
    let r = parse_properties("a=1\r\nb=2\rc=3\nd=4").unwrap();
    assert_eq!(r, vec![rec("a", "1"), rec("b", "2"), rec("c", "3"), rec("d", "4")]);
}

#[test]
fn continuation_in_key_and_crlf() {
    let r = parse_properties("lo\\\r\n  ng=v\\\r\n\tw\r\nz=1").unwrap();
    assert_eq!(r, vec![rec("long", "vw"), rec("z", "1")]);
}

#[test]
fn escape_table() {
    let r = parse_properties("k=\\t\\n\\f\\r\\\\\\=\\:\\ \\#x").unwrap();
    assert_eq!(r, vec![rec("k", "\t\n\x0c\r\\=: #x")]);
}

#[test]
fn escaped_space_in_key() {
    let r = parse_properties("my\\ key = v").unwrap();
    assert_eq!(r, vec![rec("my key", "v")]);
}

#[test]
fn duplicates_kept_in_order() {
    let r = parse_properties("a=1\nb=2\na=3\n").unwrap();
    assert_eq!(r, vec![rec("a", "1"), rec("b", "2"), rec("a", "3")]);
}

#[test]
fn empty_text_has_no_records() {
    assert_eq!(parse_properties("").unwrap(), Vec::<Record>::new());
    assert_eq!(parse_properties("\n\n   \n").unwrap(), Vec::<Record>::new());
}

#[test]
fn dotted_keys_kept_whole() {
    let r = parse_properties("this.is.a=ü and more\n").unwrap();
    assert_eq!(r, vec![rec("this.is.a", "ü and more")]);
}

#[test]
fn empty_key_is_an_error() {
    let e = parse_properties("a=1\n=2\n").unwrap_err();
    assert_eq!(e.offset, 4);
}

#[test]
fn trailing_backslash_is_an_error() {
    let e = parse_properties("a=1\\").unwrap_err();
    assert_eq!(e.offset, 3);
}

#[test]
fn unicode_escapes_decoded() {
    let r = parse_properties("k=\\u0041\\u00e9x\\u00E9").unwrap();
    assert_eq!(r, vec![rec("k", "A\u{e9}x\u{e9}")]);
}

#[test]
fn malformed_unicode_escape_is_an_error() {
    assert_eq!(parse_properties("k=\\u12").unwrap_err().offset, 2);
    assert_eq!(parse_properties("k=\\u12g4").unwrap_err().offset, 2);
    assert_eq!(parse_properties("ab=\\uD800").unwrap_err().offset, 3);
}

#[test]
fn simple_lines_round_trip() {
    let records = vec![rec("server.port", "8080"), rec("name", "My App: v2"), rec("empty", ""), rec("a.b", "x=y")];
    let mut text = String::new();
    for r in &records {
        text.push_str(&format!("{}={}\n", r.key, r.value));
    }
    assert_eq!(parse_properties(&text).unwrap(), records);
}
