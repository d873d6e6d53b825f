use ini_parser::{
    contains_chars, only_ends_with, only_starts_with, parse_line, parse_lines, Ini, Loader,
    ParseError, ParseErrorKind, ParseLineResult,
};

fn lines_of(text: &str) -> Vec<String> {
    text.lines().map(|l| l.to_string()).collect()
}

fn load_text(text: &str) -> Result<Ini, ParseError> {
    parse_lines(&lines_of(text))
}

fn value(ini: &Ini, session: &str, key: &str) -> Option<String> {
    ini.session(session).and_then(|s| s.get(key).cloned())
}

fn chars(s: &str) -> Vec<char> {
    s.chars().collect()
}

fn line_error(line: &str) -> Option<ParseErrorKind> {
    match parse_line(line) {
        ParseLineResult::ParseError { error } => Some(error),
        _ => None,
    }
}

#[test]
fn server_session_with_two_keys() {
    let ini = load_text("[server]\nhost=localhost\nport = 8080").unwrap();
    assert_eq!(ini.len(), 2);
    assert_eq!(ini.session("").unwrap().len(), 0);
    let server = ini.session("server").unwrap();
    assert_eq!(server.len(), 2);
    assert_eq!(server.get("host").unwrap(), "localhost");
    assert_eq!(server.get("port").unwrap(), "8080");
}

#[test]
fn semicolon_inside_quotes_is_text() {
    let ini = load_text("name = 'hello ; world'").unwrap();
    assert_eq!(ini.len(), 1);
    assert_eq!(value(&ini, "", "name").unwrap(), "hello ; world");
}

#[test]
fn trailing_comment_is_dropped() {
    let ini = load_text("key=val ; trailing comment").unwrap();
    assert_eq!(ini.session("").unwrap().len(), 1);
    assert_eq!(value(&ini, "", "key").unwrap(), "val");
}

#[test]
fn unterminated_quote_fails_on_line_one() {
    let err = load_text("key='unterminated").err().unwrap();
    assert_eq!(err, ParseError { line: 1, kind: ParseErrorKind::UnclosedQuote });
}

#[test]
fn two_headers_on_one_line_fail() {
    let err = load_text("[a][b]").err().unwrap();
    assert_eq!(err, ParseError { line: 1, kind: ParseErrorKind::InvalidSessionNameFormat });
}

#[test]
fn blank_and_comment_lines_give_only_unnamed_session() {
    let ini = load_text("   \n  ; just a comment\n").unwrap();
    assert_eq!(ini.len(), 1);
    assert_eq!(ini.session("").unwrap().len(), 0);
}

#[test]
fn loading_twice_gives_the_same_result() {
    let text = "a=1\n[s]\nb = '2 # x'\n[t]\nc=3";
    let first = load_text(text).unwrap();
    let second = load_text(text).unwrap();
    assert_eq!(first.len(), second.len());
    for (s, k) in [("", "a"), ("s", "b"), ("t", "c")] {
        assert_eq!(value(&first, s, k), value(&second, s, k));
    }
    let bad = "a=1\nb='x";
    assert_eq!(load_text(bad).err(), load_text(bad).err());
    assert_eq!(load_text(bad).err().unwrap().line, 2);
}

#[test]
fn empty_input_has_unnamed_session() {
    let ini = parse_lines(&Vec::new()).unwrap();
    assert_eq!(ini.len(), 1);
    assert!(ini.session("").is_some());
    let ini = load_text("[only]\nx=1").unwrap();
    assert!(ini.session("").is_some());
}

#[test]
fn markers_inside_quotes_do_not_split() {
    let ini = load_text("a = \"x=y;z#w\"\nb='p = q'").unwrap();
    assert_eq!(value(&ini, "", "a").unwrap(), "x=y;z#w");
    assert_eq!(value(&ini, "", "b").unwrap(), "p = q");
}

#[test]
fn pairs_go_to_latest_header() {
    let ini = load_text("top=0\n[one]\na=1\n[two]\nb=2\nc=3").unwrap();
    assert_eq!(value(&ini, "", "top").unwrap(), "0");
    assert_eq!(value(&ini, "one", "a").unwrap(), "1");
    assert_eq!(value(&ini, "one", "b"), None);
    assert_eq!(value(&ini, "two", "b").unwrap(), "2");
    assert_eq!(value(&ini, "two", "c").unwrap(), "3");
}

#[test]
fn redeclared_header_replaces_session() {
    let ini = load_text("[s]\na=1\nb=2\n[t]\n[s]\nc=3").unwrap();
    let s = ini.session("s").unwrap();
    assert_eq!(s.len(), 1);
    assert_eq!(s.get("a"), None);
    assert_eq!(s.get("c").unwrap(), "3");
    assert!(ini.session("t").is_some());
}

#[test]
fn later_key_overwrites_earlier() {
    let ini = load_text("k=1\nk=2").unwrap();
    assert_eq!(ini.session("").unwrap().len(), 1);
    assert_eq!(value(&ini, "", "k").unwrap(), "2");
}

#[test]
fn error_line_numbers_count_from_one() {
    let err = load_text("a=1\n\n[s]\nx y'").err().unwrap();
    assert_eq!(err, ParseError { line: 4, kind: ParseErrorKind::InvalidQuotePosition });
}

#[test]
fn each_error_kind() {
    assert_eq!(line_error("key='open"), Some(ParseErrorKind::UnclosedQuote));
    assert_eq!(line_error("key val'"), Some(ParseErrorKind::InvalidQuotePosition));
    assert_eq!(line_error("just words"), Some(ParseErrorKind::InvalidSessionNameFormat));
    assert_eq!(line_error("= a ="), Some(ParseErrorKind::InvalidAssignment));
    assert_eq!(line_error("a = b = c"), Some(ParseErrorKind::ExtraKeyOrValue));
    assert_eq!(line_error("[[a]"), Some(ParseErrorKind::InvalidSessionNameFormat));
    assert_eq!(line_error("[a]]"), Some(ParseErrorKind::InvalidSessionNameFormat));
}

#[test]
fn header_name_is_trimmed() {
    match parse_line("  [  my name ]  ") {
        ParseLineResult::NewSession { name } => assert_eq!(name, "my name"),
        _ => panic!("expected a header"),
    }
    match parse_line("[]") {
        ParseLineResult::NewSession { name } => assert_eq!(name, ""),
        _ => panic!("expected a header"),
    }
}

#[test]
fn empty_lines() {
    assert!(matches!(parse_line(""), ParseLineResult::EmptyLine));
    assert!(matches!(parse_line("    "), ParseLineResult::EmptyLine));
    assert!(matches!(parse_line("# note"), ParseLineResult::EmptyLine));
    assert!(matches!(parse_line("''"), ParseLineResult::EmptyLine));
}

#[test]
fn escapes_outside_quotes() {
    match parse_line(r"k = a\;b\#c\=d\\e\'f\xg") {
        ParseLineResult::KeyValue { key, value } => {
            assert_eq!(key, "k");
            assert_eq!(value, r"a;b#c=d\e'f\xg");
        }
        _ => panic!("expected a pair"),
    }
}

#[test]
fn escapes_inside_quotes() {
    match parse_line(r#"k = 'it\'s \n'"#) {
        ParseLineResult::KeyValue { key, value } => {
            assert_eq!(key, "k");
            assert_eq!(value, r"it's \n");
        }
        _ => panic!("expected a pair"),
    }
    match parse_line(r#"k = "say \"hi\"""#) {
        ParseLineResult::KeyValue { value, .. } => assert_eq!(value, "say \"hi\""),
        _ => panic!("expected a pair"),
    }
}

#[test]
fn quoted_value_is_trimmed_and_joined() {
    match parse_line("k = '  v  '") {
        ParseLineResult::KeyValue { value, .. } => assert_eq!(value, "v"),
        _ => panic!("expected a pair"),
    }
    match parse_line("k = 'a''b'c") {
        ParseLineResult::KeyValue { value, .. } => assert_eq!(value, "abc"),
        _ => panic!("expected a pair"),
    }
}

#[test]
fn tabs_are_trimmed_from_parts() {
    match parse_line("\tkey\t=\tvalue\t") {
        ParseLineResult::KeyValue { key, value } => {
            assert_eq!(key, "key");
            assert_eq!(value, "value");
        }
        _ => panic!("expected a pair"),
    }
}

#[test]
fn comment_after_header_is_not_special() {
    assert!(matches!(parse_line("[server] ; note"), ParseLineResult::NewSession { .. }));
    assert_eq!(line_error("[server] x"), Some(ParseErrorKind::InvalidSessionNameFormat));
}

#[test]
fn empty_key_or_value() {
    assert_eq!(line_error("k ="), Some(ParseErrorKind::ExtraKeyOrValue));
    assert_eq!(line_error("="), Some(ParseErrorKind::InvalidSessionNameFormat));
}

#[test]
fn only_starts_and_ends_with() {
    assert!(only_starts_with(&chars("[ab]"), &chars("[")));
    assert!(!only_starts_with(&chars("[a[b]"), &chars("[")));
    assert!(!only_starts_with(&chars("a[b"), &chars("[")));
    assert!(only_ends_with(&chars("[ab]"), &chars("]")));
    assert!(!only_ends_with(&chars("[a]b]"), &chars("]")));
    assert!(!only_ends_with(&chars(""), &chars("]")));
    assert!(only_starts_with(&chars("abxy"), &chars("ab")));
    assert!(!only_starts_with(&chars("abab"), &chars("ab")));
    assert!(!only_starts_with(&chars("abc"), &chars("")));
}

#[test]
fn substring_search() {
    assert!(contains_chars(&chars("hello"), &chars("ll")));
    assert!(!contains_chars(&chars("hello"), &chars("lo!")));
    assert!(contains_chars(&chars("x"), &chars("")));
    assert!(!contains_chars(&chars(""), &chars("a")));
}

#[test]
fn loader_takes_lines_one_by_one() {
    let mut loader = Loader::new();
    assert!(loader.feed("a = 1").is_ok());
    assert!(loader.feed("[s]").is_ok());
    assert!(loader.feed("b = 2").is_ok());
    assert_eq!(
        loader.feed("bad 'line"),
        Err(ParseError { line: 4, kind: ParseErrorKind::InvalidQuotePosition })
    );
    let ini = loader.finish();
    assert_eq!(value(&ini, "", "a").unwrap(), "1");
    assert_eq!(value(&ini, "s", "b").unwrap(), "2");
}

#[test]
fn non_ascii_text_kept() {
    let ini = load_text("[größe]\nnäme = 'wert ü'").unwrap();
    assert_eq!(value(&ini, "größe", "näme").unwrap(), "wert ü");
}
