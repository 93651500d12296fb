//! What holds of every line and of every load, proved over the model.

use vstd::prelude::*;
use crate::config::{after_line, child_key, key_path, line_conflicts};
use crate::line::{entry_key, entry_value, is_ignored, lemma_line_without_equals, line_entry};
use crate::load::{after_lines, conflict_at, loads_cleanly};
use crate::text::{lemma_split_count, lemma_split_joined, lemma_split_without_separator};
use crate::text::occurrences;
use crate::tree::{document_at, is_prefix, leads_to_document, lemma_apart_puts_keep_both};
use crate::tree::{lemma_leaf_blocks_descent, lemma_lookup_below, lemma_put_keeps_blocked};
use crate::tree::{lemma_put_nests, lemma_put_then_lookup, lemma_put_twice, lemma_puts_commute};
use crate::tree::{holds_only_text, lemma_put_keeps_only_text, lookup, put, Document, Node};

verus! {

/// A blank line or a comment changes nothing and never conflicts.
pub proof fn lemma_ignored_line_changes_nothing(doc: Document, line: Seq<char>)
    requires
        is_ignored(line),
    ensures
        !line_conflicts(doc, line),
        after_line(doc, line) == doc,
{
}

/// A line without `=` changes nothing and never conflicts.
pub proof fn lemma_line_without_equals_changes_nothing(doc: Document, line: Seq<char>)
    requires
        !line.contains('='),
    ensures
        !line_conflicts(doc, line),
        after_line(doc, line) == doc,
{
    lemma_line_without_equals(line);
}

/// A line whose key holds no dot never conflicts, and stores its value as a
/// string under that key at the top of the document.
pub proof fn lemma_flat_entry(doc: Document, line: Seq<char>)
    requires
        line_entry(line) is Some,
        !entry_key(line).contains('.'),
    ensures
        !line_conflicts(doc, line),
        after_line(doc, line) == doc.insert(
            entry_key(line),
            Node::Text(entry_value(line)),
        ),
{
    lemma_split_without_separator(entry_key(line), '.');
}

/// A key with `n` dots has `n + 1` segments. Stored at it, a value lies `n`
/// nested documents deep: every proper prefix of the key path leads to a
/// nested document and the whole path leads to the string.
pub proof fn lemma_dotted_key_nests(doc: Document, key: Seq<char>, value: Seq<char>)
    ensures
        key_path(key).len() == occurrences(key, '.') + 1,
        lookup(put(doc, key_path(key), value), key_path(key)) == Some(Node::Text(value)),
        forall|depth: int|
            1 <= depth < key_path(key).len() ==> #[trigger] leads_to_document(
                put(doc, key_path(key), value),
                key_path(key).take(depth),
            ),
{
    let path = key_path(key);
    lemma_split_count(key, '.');
    lemma_put_then_lookup(doc, path, value);
    assert forall|depth: int| 1 <= depth < path.len() implies #[trigger] leads_to_document(
        put(doc, path, value),
        path.take(depth),
    ) by {
        lemma_put_nests(doc, path, value, depth);
    }
}

/// Of two lines with the same key, applied one after the other, the second
/// wins: the document is as if the first had never been applied.
pub proof fn lemma_last_line_wins(doc: Document, first: Seq<char>, second: Seq<char>)
    requires
        line_entry(first) is Some,
        line_entry(second) is Some,
        entry_key(first) == entry_key(second),
        !line_conflicts(doc, first),
    ensures
        !line_conflicts(after_line(doc, first), second),
        after_line(after_line(doc, first), second) == after_line(doc, second),
{
    lemma_put_twice(
        doc,
        key_path(entry_key(first)),
        entry_value(first),
        entry_value(second),
    );
}

/// Two lines whose key paths are apart, neither a prefix of the other, can
/// be applied in either order: neither makes or mends a conflict of the
/// other, and the document is the same. Entries below a common prefix merge
/// into the same nested documents.
pub proof fn lemma_apart_lines_commute(doc: Document, one: Seq<char>, other: Seq<char>)
    requires
        line_entry(one) is Some,
        line_entry(other) is Some,
        !is_prefix(key_path(entry_key(one)), key_path(entry_key(other))),
        !is_prefix(key_path(entry_key(other)), key_path(entry_key(one))),
        !line_conflicts(doc, one),
        !line_conflicts(doc, other),
    ensures
        !line_conflicts(after_line(doc, one), other),
        !line_conflicts(after_line(doc, other), one),
        after_line(after_line(doc, one), other) == after_line(after_line(doc, other), one),
{
    let p = key_path(entry_key(one));
    let q = key_path(entry_key(other));
    let a = entry_value(one);
    let b = entry_value(other);
    lemma_put_keeps_blocked(doc, p, a, q);
    lemma_put_keeps_blocked(doc, q, b, p);
    lemma_puts_commute(doc, p, a, q, b);
}

/// Once a line has stored a string at a key, a line whose key is that key,
/// a dot and more conflicts: a string is never replaced by a nested
/// document.
pub proof fn lemma_descent_through_leaf_conflicts(
    doc: Document,
    leaf: Seq<char>,
    deeper: Seq<char>,
    rest: Seq<char>,
)
    requires
        line_entry(leaf) is Some,
        line_entry(deeper) is Some,
        entry_key(deeper) == child_key(entry_key(leaf), rest),
        !line_conflicts(doc, leaf),
    ensures
        line_conflicts(after_line(doc, leaf), deeper),
{
    let short = key_path(entry_key(leaf));
    let long = key_path(entry_key(deeper));
    lemma_split_joined(entry_key(leaf), rest, '.');
    lemma_split_count(entry_key(leaf), '.');
    lemma_split_count(rest, '.');
    assert(long.take(short.len() as int) =~= short);
    lemma_leaf_blocks_descent(doc, short, entry_value(leaf), long);
}

/// The paths of two keys that differ only in their last segment are the
/// path of what the keys share, followed by the one last segment or by the
/// other, and neither path is a prefix of the other.
pub proof fn lemma_sibling_keys_apart(parent: Seq<char>, one: Seq<char>, other: Seq<char>)
    requires
        !one.contains('.'),
        !other.contains('.'),
        one != other,
    ensures
        key_path(child_key(parent, one)) == key_path(parent).push(one),
        key_path(child_key(parent, other)) == key_path(parent).push(other),
        !is_prefix(key_path(child_key(parent, one)), key_path(child_key(parent, other))),
        !is_prefix(key_path(child_key(parent, other)), key_path(child_key(parent, one))),
{
    let up = key_path(parent);
    let p = key_path(child_key(parent, one));
    let q = key_path(child_key(parent, other));
    lemma_split_joined(parent, one, '.');
    lemma_split_joined(parent, other, '.');
    lemma_split_without_separator(one, '.');
    lemma_split_without_separator(other, '.');
    assert(p =~= up.push(one));
    assert(q =~= up.push(other));
    assert(p[up.len() as int] == one);
    assert(q[up.len() as int] == other);
    if is_prefix(p, q) {
        assert(q.take(p.len() as int) =~= q);
    }
    if is_prefix(q, p) {
        assert(p.take(q.len() as int) =~= p);
    }
}

/// Values stored at two keys that differ only in their last segment merge
/// into one nested document: what the keys share leads to a document that
/// holds the one value under the one last segment and the other value under
/// the other, and the order of the two insertions does not matter.
pub proof fn lemma_siblings_merge(
    doc: Document,
    parent: Seq<char>,
    one: Seq<char>,
    a: Seq<char>,
    other: Seq<char>,
    b: Seq<char>,
)
    requires
        !one.contains('.'),
        !other.contains('.'),
        one != other,
    ensures
        ({
            let p = key_path(child_key(parent, one));
            let q = key_path(child_key(parent, other));
            let merged = put(put(doc, p, a), q, b);
            &&& merged == put(put(doc, q, b), p, a)
            &&& leads_to_document(merged, key_path(parent))
            &&& document_at(merged, key_path(parent)).contains_pair(one, Node::Text(a))
            &&& document_at(merged, key_path(parent)).contains_pair(other, Node::Text(b))
        }),
{
    let up = key_path(parent);
    let p = key_path(child_key(parent, one));
    let q = key_path(child_key(parent, other));
    let merged = put(put(doc, p, a), q, b);
    lemma_sibling_keys_apart(parent, one, other);
    lemma_puts_commute(doc, p, a, q, b);
    lemma_apart_puts_keep_both(doc, p, a, q, b);
    lemma_lookup_below(merged, up, one);
    lemma_lookup_below(merged, up, other);
}

/// The value of the last of the first `n` of `lines` that gives an entry
/// with the key `key`, if any of them does.
pub open spec fn last_value(lines: Seq<Seq<char>>, n: nat, key: Seq<char>) -> Option<Seq<char>>
    decreases n,
{
    if n == 0 {
        None
    } else if line_entry(lines[n - 1]) is Some && entry_key(lines[n - 1]) == key {
        Some(entry_value(lines[n - 1]))
    } else {
        last_value(lines, (n - 1) as nat, key)
    }
}

/// `doc` with, for every key that one of the first `n` of `lines` gives, the
/// last value given for it stored as a string under that key.
pub open spec fn overlaid(doc: Document, lines: Seq<Seq<char>>, n: nat) -> Document {
    Map::new(
        |key: Seq<char>| doc.contains_key(key) || last_value(lines, n, key) is Some,
        |key: Seq<char>|
            match last_value(lines, n, key) {
                Some(value) => Node::Text(value),
                None => doc[key],
            },
    )
}

/// Lines whose keys hold no dot load without a conflict, and the document
/// then holds, besides what it held, exactly the pairs of key and value that
/// the lines give, each key with the last value given for it. Loaded into an
/// empty document, the pairs recovered are the pairs provided.
pub proof fn lemma_flat_load(doc: Document, lines: Seq<Seq<char>>, n: nat)
    requires
        n <= lines.len(),
        forall|i: int| 0 <= i < n ==> !(#[trigger] entry_key(lines[i])).contains('.'),
    ensures
        loads_cleanly(doc, lines, n as int),
        after_lines(doc, lines, n) == overlaid(doc, lines, n),
    decreases n,
{
    if n == 0 {
        assert(after_lines(doc, lines, n) =~= overlaid(doc, lines, n));
    } else {
        let m = (n - 1) as nat;
        lemma_flat_load(doc, lines, m);
        let before = after_lines(doc, lines, m);
        let line = lines[n - 1];
        assert(!entry_key(lines[n - 1]).contains('.'));
        if line_entry(line) is Some {
            lemma_flat_entry(before, line);
        }
        assert(!conflict_at(doc, lines, n - 1));
        assert(after_lines(doc, lines, n) =~= overlaid(doc, lines, n));
    }
}

/// The empty document holds nothing but strings and nested documents.
pub proof fn lemma_empty_holds_only_text()
    ensures
        holds_only_text(Map::<Seq<char>, Node>::empty()),
{
}

/// Loading makes nothing but strings and nested documents: a document that
/// holds nothing else holds nothing else after any number of lines.
pub proof fn lemma_load_keeps_only_text(doc: Document, lines: Seq<Seq<char>>, n: nat)
    requires
        n <= lines.len(),
        holds_only_text(doc),
    ensures
        holds_only_text(after_lines(doc, lines, n)),
    decreases n,
{
    if n > 0 {
        let m = (n - 1) as nat;
        lemma_load_keeps_only_text(doc, lines, m);
        let before = after_lines(doc, lines, m);
        let line = lines[n - 1];
        if line_entry(line) is Some && !line_conflicts(before, line) {
            lemma_split_count(entry_key(line), '.');
            lemma_put_keeps_only_text(before, key_path(entry_key(line)), entry_value(line));
        }
    }
}

} // verus!
