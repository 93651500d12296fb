//! The configuration document and insertion at a dotted key.

use vstd::prelude::*;
use crate::json::{entries, map_get_mut, map_insert, new_map, object_value, string_value};
use crate::json::{value_as_object_mut, JsonMap};
use crate::line::{line_entry, parse_line};
use crate::text::{split_on, split_text, texts};
use crate::tree::{blocked, put, Document, Node};

verus! {

/// The error of an insertion whose key descends through a name that already
/// holds something other than a nested document.
#[derive(Debug, Clone, Copy, PartialEq, Eq)]
pub struct KeyConflict;

/// A configuration document: names that hold strings or nested documents.
#[derive(Debug)]
pub struct Config {
    /// The top-level document.
    pub data: JsonMap,
}

impl View for Config {
    type V = Document;

    open spec fn view(&self) -> Document {
        entries(self.data)
    }
}

/// The segments of a dotted key, outermost first.
pub open spec fn key_path(key: Seq<char>) -> Seq<Seq<char>> {
    split_on(key, '.')
}

/// The key that names `name` in the document that the key `parent` names.
pub open spec fn child_key(parent: Seq<char>, name: Seq<char>) -> Seq<char> {
    parent + seq!['.'] + name
}

/// Stores `value` at the path `segments[at..]` below `doc`.
fn insert_segments(doc: &mut JsonMap, segments: &Vec<String>, at: usize, value: String) -> (done:
    Result<(), KeyConflict>)
    requires
        at < segments.len(),
    ensures
        done is Err <==> blocked(entries(*old(doc)), texts(segments@).skip(at as int)),
        done is Ok ==> entries(*final(doc)) == put(
            entries(*old(doc)),
            texts(segments@).skip(at as int),
            value@,
        ),
        done is Err ==> entries(*final(doc)) == entries(*old(doc)),
    decreases segments.len() - at,
{
    let ghost before = entries(*doc);
    let ghost path = texts(segments@).skip(at as int);
    let name: &String = &segments[at];
    proof {
        assert(path[0] == name@);
        assert(path.drop_first() =~= texts(segments@).skip(at + 1));
    }
    if at + 1 == segments.len() {
        map_insert(doc, name.clone(), string_value(value));
        Ok(())
    } else {
        match map_get_mut(doc, name.as_str()) {
            Some(slot) => match value_as_object_mut(slot) {
                Some(child) => {
                    let done = insert_segments(child, segments, at + 1, value);
                    proof {
                        if done is Err {
                            assert(before.insert(name@, before[name@]) =~= before);
                        }
                    }
                    done
                },
                None => Err(KeyConflict),
            },
            None => {
                let mut child = new_map();
                let done = insert_segments(&mut child, segments, at + 1, value);
                map_insert(doc, name.clone(), object_value(child));
                done
            },
        }
    }
}

/// Stores the string `value` in `data` at the place that the dotted `key`
/// names. Every segment of the key but the last names a nested document,
/// which is created where it is absent; the last segment names the leaf,
/// which replaces whatever was there.
///
/// Fails, leaving `data` as it was, when a segment before the last already
/// holds something other than a nested document.
pub fn insert_key_value(data: &mut JsonMap, key: String, value: String) -> (done: Result<
    (),
    KeyConflict,
>)
    ensures
        done is Err <==> blocked(entries(*old(data)), key_path(key@)),
        done is Ok ==> entries(*final(data)) == put(entries(*old(data)), key_path(key@), value@),
        done is Err ==> entries(*final(data)) == entries(*old(data)),
{
    let segments = split_text(key.as_str(), '.');
    proof {
        assert(texts(segments@).skip(0) =~= texts(segments@));
    }
    insert_segments(data, &segments, 0, value)
}

/// Whether `line` gives an entry whose key is blocked in `doc`.
pub open spec fn line_conflicts(doc: Document, line: Seq<char>) -> bool {
    line_entry(line) matches Some(kv) && blocked(doc, key_path(kv.0))
}

/// `doc` after `line` has been applied to it. A line that gives no entry, or
/// whose key is blocked, leaves the document as it is.
pub open spec fn after_line(doc: Document, line: Seq<char>) -> Document {
    match line_entry(line) {
        Some(kv) => if blocked(doc, key_path(kv.0)) {
            doc
        } else {
            put(doc, key_path(kv.0), kv.1)
        },
        None => doc,
    }
}

impl Config {
    /// The empty document.
    pub fn new() -> (config: Self)
        ensures
            config@ == (Map::<Seq<char>, Node>::empty()),
    {
        Config { data: new_map() }
    }

    /// Applies one line of configuration text: a line that gives an entry
    /// stores its value at its key, any other line changes nothing.
    ///
    /// Fails, leaving the document as it was, when the key of the entry is
    /// blocked.
    pub fn apply_line(&mut self, line: &str) -> (done: Result<(), KeyConflict>)
        ensures
            done is Err <==> line_conflicts(old(self)@, line@),
            final(self)@ == after_line(old(self)@, line@),
    {
        match parse_line(line) {
            Some((key, value)) => insert_key_value(&mut self.data, key, value),
            None => Ok(()),
        }
    }
}

} // verus!
