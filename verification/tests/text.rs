use dotconf::text::{collect_chars, find_char, split_text, text_of, trim_range};

fn chars(s: &str) -> Vec<char> {
    s.chars().collect()
}

fn strings(pieces: &[&str]) -> Vec<String> {
    pieces.iter().map(|p| p.to_string()).collect()
}

#[test]
fn collect_chars_keeps_order() {
    assert_eq!(collect_chars(""), Vec::<char>::new());
    assert_eq!(collect_chars("abc"), vec!['a', 'b', 'c']);
    assert_eq!(collect_chars("é=ü"), vec!['é', '=', 'ü']);
}

#[test]
fn find_char_returns_the_first_occurrence() {
    let c = chars("a=b=c");
    assert_eq!(find_char(&c, 0, 5, '='), 1);
    assert_eq!(find_char(&c, 2, 5, '='), 3);
    assert_eq!(find_char(&c, 1, 5, '='), 1);
}

#[test]
fn find_char_returns_the_end_when_absent() {
    let c = chars("a=b=c");
    assert_eq!(find_char(&c, 0, 5, '.'), 5);
    assert_eq!(find_char(&c, 4, 5, '='), 5);
    assert_eq!(find_char(&c, 0, 1, '='), 1);
    assert_eq!(find_char(&c, 2, 2, 'b'), 2);
    assert_eq!(find_char(&chars(""), 0, 0, '='), 0);
}

#[test]
fn trim_range_cuts_both_ends() {
    let c = chars("  ab c \t");
    assert_eq!(trim_range(&c, 0, 8), (2, 6));
    assert_eq!(trim_range(&c, 2, 6), (2, 6));
    assert_eq!(trim_range(&c, 3, 8), (3, 6));
    assert_eq!(trim_range(&c, 0, 3), (2, 3));
}

#[test]
fn trim_range_of_whitespace_is_empty() {
    let c = chars("a   b");
    assert_eq!(trim_range(&c, 1, 4), (4, 4));
    assert_eq!(trim_range(&c, 2, 2), (2, 2));
    assert_eq!(trim_range(&chars(""), 0, 0), (0, 0));
}

#[test]
fn trim_range_knows_unicode_whitespace() {
    let c = chars("\u{00A0}\u{2003}x\u{3000}\u{0085}");
    assert_eq!(trim_range(&c, 0, 5), (2, 3));
}

#[test]
fn trim_range_keeps_what_is_no_whitespace() {
    let c = chars("_a-");
    assert_eq!(trim_range(&c, 0, 3), (0, 3));
    let z = chars("\u{200B}a\u{200B}");
    assert_eq!(trim_range(&z, 0, 3), (0, 3));
}

#[test]
fn split_text_at_dots() {
    assert_eq!(split_text("a.b.c", '.'), strings(&["a", "b", "c"]));
    assert_eq!(split_text("server.port", '.'), strings(&["server", "port"]));
}

#[test]
fn split_text_without_separator_is_one_piece() {
    assert_eq!(split_text("abc", '.'), strings(&["abc"]));
    assert_eq!(split_text("", '.'), strings(&[""]));
}

#[test]
fn split_text_keeps_empty_pieces() {
    assert_eq!(split_text("a.", '.'), strings(&["a", ""]));
    assert_eq!(split_text(".a", '.'), strings(&["", "a"]));
    assert_eq!(split_text("a..b", '.'), strings(&["a", "", "b"]));
    assert_eq!(split_text("..", '.'), strings(&["", "", ""]));
    assert_eq!(split_text(".", '.'), strings(&["", ""]));
}

#[test]
fn split_text_at_line_feeds() {
    assert_eq!(split_text("a=1\nb=2\n", '\n'), strings(&["a=1", "b=2", ""]));
    assert_eq!(split_text("a=1\r\nb=2", '\n'), strings(&["a=1\r", "b=2"]));
}

#[test]
fn split_text_with_characters_of_several_bytes() {
    assert_eq!(split_text("é.ü.名前", '.'), strings(&["é", "ü", "名前"]));
    assert_eq!(split_text("a→b→c", '→'), strings(&["a", "b", "c"]));
}

#[test]
fn split_text_has_one_piece_more_than_separators() {
    for key in ["", "a", "a.b", "a.b.c.d", "...", "x..y."] {
        let dots = key.chars().filter(|c| *c == '.').count();
        assert_eq!(split_text(key, '.').len(), dots + 1);
    }
}

#[test]
fn text_of_copies_the_range() {
    let c = chars("héllo wörld");
    assert_eq!(text_of(&c, 0, 11), "héllo wörld");
    assert_eq!(text_of(&c, 1, 5), "éllo");
    assert_eq!(text_of(&c, 6, 11), "wörld");
    assert_eq!(text_of(&c, 4, 4), "");
    assert_eq!(text_of(&chars(""), 0, 0), "");
}
