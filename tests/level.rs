use hl::level::{str_eq_ignore_ascii_case, Level, LevelValueParser, RelaxedLevel};

#[test]
fn aliases_parse_ignoring_case() {
    assert_eq!(LevelValueParser::parse_alternate("WARN"), Some(RelaxedLevel(Level::Warning)));
    assert_eq!(LevelValueParser::parse_alternate("e"), Some(RelaxedLevel(Level::Error)));
    assert_eq!(LevelValueParser::parse_alternate("Inf"), Some(RelaxedLevel(Level::Info)));
    assert_eq!(LevelValueParser::parse_alternate("dbg"), Some(RelaxedLevel(Level::Debug)));
    assert_eq!(LevelValueParser::parse_alternate("error"), None);
    assert_eq!(LevelValueParser::parse_alternate(""), None);
}

#[test]
fn alternate_values_list_every_level() {
    let v = LevelValueParser::alternate_values();
    assert_eq!(v.len(), 4);
    assert_eq!(v[1].0, Level::Warning);
    assert_eq!(v[1].1, vec!["warn", "wrn", "w"]);
    assert_eq!(RelaxedLevel(Level::Info).level(), Level::Info);
}

#[test]
fn ascii_case_comparison() {
    assert!(str_eq_ignore_ascii_case("AbC", "aBc"));
    assert!(!str_eq_ignore_ascii_case("abc", "abd"));
    assert!(!str_eq_ignore_ascii_case("ab", "abc"));
    assert!(!str_eq_ignore_ascii_case("[", "{"));
}
