//! One line of configuration text.
//!
//! A line is trimmed first. A line that is then empty, or starts with `#`,
//! is ignored. Any other line is split at its first `=` into a key and a
//! value, both trimmed; a line without `=` is dropped without an error.

use vstd::prelude::*;
use crate::text::{collect_chars, find_char, is_space, leading_spaces, position, text_of};
use crate::text::trim_range;
use crate::text::{lemma_leading_spaces, lemma_position, lemma_position_is_first};
use crate::text::{lemma_trailing_spaces, lemma_trimmed_holds_less, lemma_trimmed_range, trimmed};

verus! {

/// Whether a line is blank or a comment: trimmed, it is empty or starts
/// with `#`.
pub open spec fn is_ignored(line: Seq<char>) -> bool {
    trimmed(line).len() == 0 || trimmed(line)[0] == '#'
}

/// The trimmed text before and after the first `=` of `s`, if `s` holds one.
pub open spec fn split_pair(s: Seq<char>) -> Option<(Seq<char>, Seq<char>)> {
    let at = position(s, '=') as int;
    if at < s.len() {
        Some((trimmed(s.take(at)), trimmed(s.skip(at + 1))))
    } else {
        None
    }
}

/// The key and the value that a line gives, if it gives any.
pub open spec fn line_entry(line: Seq<char>) -> Option<(Seq<char>, Seq<char>)> {
    if is_ignored(line) {
        None
    } else {
        split_pair(trimmed(line))
    }
}

/// The key of the entry that `line` gives; empty where it gives none.
pub open spec fn entry_key(line: Seq<char>) -> Seq<char> {
    match line_entry(line) {
        Some(kv) => kv.0,
        None => Seq::empty(),
    }
}

/// The value of the entry that `line` gives; empty where it gives none.
pub open spec fn entry_value(line: Seq<char>) -> Seq<char> {
    match line_entry(line) {
        Some(kv) => kv.1,
        None => Seq::empty(),
    }
}

/// Reads one line. Returns the key and the value, or `None` for a blank
/// line, a comment and a line without `=`.
pub fn parse_line(line: &str) -> (entry: Option<(String, String)>)
    ensures
        entry is Some <==> line_entry(line@) is Some,
        entry matches Some(kv) ==> line_entry(line@) == Some((kv.0@, kv.1@)),
{
    let chars = collect_chars(line);
    let n: usize = chars.len();
    let (lo, hi) = trim_range(&chars, 0, n);
    proof {
        assert(chars@.subrange(0, n as int) =~= line@);
    }
    if lo == hi || chars[lo] == '#' {
        return None;
    }
    let eq: usize = find_char(&chars, lo, hi, '=');
    if eq == hi {
        return None;
    }
    let (key_lo, key_hi) = trim_range(&chars, lo, eq);
    let (value_lo, value_hi) = trim_range(&chars, eq + 1, hi);
    let key = text_of(&chars, key_lo, key_hi);
    let value = text_of(&chars, value_lo, value_hi);
    proof {
        let t = trimmed(line@);
        assert(t == chars@.subrange(lo as int, hi as int));
        assert(t.take(eq - lo) =~= chars@.subrange(lo as int, eq as int));
        assert(t.skip(eq - lo + 1) =~= chars@.subrange(eq + 1, hi as int));
    }
    Some((key, value))
}

/// A line is ignored exactly when it holds nothing but whitespace or its
/// first character that is no whitespace is `#`.
pub proof fn lemma_ignored_lines(line: Seq<char>)
    ensures
        is_ignored(line) <==> leading_spaces(line) == line.len() || line[leading_spaces(
            line,
        ) as int] == '#',
{
    lemma_trimmed_range(line);
    if trimmed(line).len() > 0 {
        assert(trimmed(line)[0] == line[leading_spaces(line) as int]);
    }
}

/// A line without `=` gives no entry.
pub proof fn lemma_line_without_equals(line: Seq<char>)
    requires
        !line.contains('='),
    ensures
        line_entry(line) is None,
{
    if trimmed(line).contains('=') {
        lemma_trimmed_holds_less(line, '=');
    }
    lemma_position_is_first(trimmed(line), '=');
}

/// The entry of a line that gives one: the line, trimmed, is split at its
/// first `=`, and the key and the value are the two parts, trimmed. Neither
/// starts or ends with whitespace.
pub proof fn lemma_entry_parts(line: Seq<char>)
    requires
        line_entry(line) is Some,
    ensures
        trimmed(line).contains('='),
        entry_key(line) == trimmed(trimmed(line).take(position(trimmed(line), '=') as int)),
        entry_value(line) == trimmed(trimmed(line).skip(position(trimmed(line), '=') as int + 1)),
        entry_key(line).len() > 0 ==> !is_space(entry_key(line).first()) && !is_space(
            entry_key(line).last(),
        ),
        entry_value(line).len() > 0 ==> !is_space(entry_value(line).first()) && !is_space(
            entry_value(line).last(),
        ),
{
    let t = trimmed(line);
    let at = position(t, '=') as int;
    lemma_position_is_first(t, '=');
    lemma_trimmed_range(t.take(at));
    lemma_trimmed_range(t.skip(at + 1));
}

/// A key, `=` and a value, written one after the other, read back as that
/// key and that value. Both are trimmed and not empty, and the key holds no
/// `=` and does not start with `#`.
pub proof fn lemma_written_entry_reads_back(key: Seq<char>, value: Seq<char>)
    requires
        key.len() > 0,
        value.len() > 0,
        trimmed(key) == key,
        trimmed(value) == value,
        !key.contains('='),
        key[0] != '#',
    ensures
        line_entry(key + seq!['='] + value) == Some((key, value)),
{
    let line = key + seq!['='] + value;
    lemma_trimmed_range(key);
    lemma_trimmed_range(value);
    assert(line[0] == key.first());
    assert(line.last() == value.last());
    lemma_leading_spaces(line, 0);
    assert(line.skip(0) =~= line);
    lemma_trailing_spaces(line, 0);
    assert(line.take(line.len() as int) =~= line);
    assert(trimmed(line) == line);
    assert forall|j: int| 0 <= j < key.len() implies #[trigger] line[j] != '=' by {
        assert(line[j] == key[j]);
    }
    lemma_position(line, '=', key.len() as int);
    assert(line.take(key.len() as int) =~= key);
    assert(line.skip(key.len() as int + 1) =~= value);
}

} // verus!
