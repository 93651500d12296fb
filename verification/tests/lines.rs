use dotconf::line::parse_line;

fn pair(key: &str, value: &str) -> Option<(String, String)> {
    Some((key.to_string(), value.to_string()))
}

#[test]
fn plain_entry() {
    assert_eq!(parse_line("key=value"), pair("key", "value"));
}

#[test]
fn key_and_value_are_trimmed() {
    assert_eq!(parse_line("  key  =  value  "), pair("key", "value"));
    assert_eq!(parse_line("\tname =\tJohn Smith \r"), pair("name", "John Smith"));
}

#[test]
fn only_the_first_equals_sign_splits() {
    assert_eq!(parse_line("a=b=c"), pair("a", "b=c"));
    assert_eq!(parse_line("url = http://host/?x=1&y=2"), pair("url", "http://host/?x=1&y=2"));
    assert_eq!(parse_line("a=="), pair("a", "="));
}

#[test]
fn empty_line_gives_nothing() {
    assert_eq!(parse_line(""), None);
}

#[test]
fn whitespace_line_gives_nothing() {
    assert_eq!(parse_line("   "), None);
    assert_eq!(parse_line(" \t \r"), None);
}

#[test]
fn comment_gives_nothing() {
    assert_eq!(parse_line("# comment"), None);
    assert_eq!(parse_line("#"), None);
    assert_eq!(parse_line("#a=b"), None);
}

#[test]
fn indented_comment_gives_nothing() {
    assert_eq!(parse_line("   # a=b"), None);
    assert_eq!(parse_line("\t#a=b"), None);
}

#[test]
fn line_without_equals_sign_gives_nothing() {
    assert_eq!(parse_line("novalue"), None);
    assert_eq!(parse_line("a.b.c"), None);
    assert_eq!(parse_line("  two words  "), None);
}

#[test]
fn hash_after_the_start_is_no_comment() {
    assert_eq!(parse_line("a = b # c"), pair("a", "b # c"));
    assert_eq!(parse_line("a#b=1"), pair("a#b", "1"));
}

#[test]
fn empty_key_and_empty_value() {
    assert_eq!(parse_line("=v"), pair("", "v"));
    assert_eq!(parse_line("k="), pair("k", ""));
    assert_eq!(parse_line("="), pair("", ""));
    assert_eq!(parse_line("  =  "), pair("", ""));
}

#[test]
fn inner_whitespace_is_kept() {
    assert_eq!(parse_line("a b = c  d"), pair("a b", "c  d"));
}

#[test]
fn unicode_whitespace_is_trimmed() {
    assert_eq!(parse_line("\u{00A0}k\u{3000}=\u{2003}v\u{2028}"), pair("k", "v"));
}

#[test]
fn characters_of_several_bytes() {
    assert_eq!(parse_line(" ключ = значение "), pair("ключ", "значение"));
    assert_eq!(parse_line("é=ü"), pair("é", "ü"));
    assert_eq!(parse_line("名前=値=値"), pair("名前", "値=値"));
}

#[test]
fn dots_stay_in_the_key() {
    assert_eq!(parse_line("a.b.c = 1"), pair("a.b.c", "1"));
}
