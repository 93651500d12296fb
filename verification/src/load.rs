//! Loading configuration text line by line.
//!
//! Lines are applied in order, so a later entry replaces an earlier one with
//! the same key. Loading stops at the first line whose key is blocked; the
//! lines before it stay applied.

use vstd::prelude::*;
use crate::config::{after_line, line_conflicts, Config};
use crate::text::{split_on, split_text, texts};
use crate::tree::Document;

verus! {

/// Why loading stopped.
#[derive(Debug, Clone, Copy, PartialEq, Eq)]
pub enum LoadError {
    /// The key of the entry on line `line`, counted from zero, descends
    /// through a name that holds something other than a nested document.
    KeyConflict { line: usize },
}

/// `doc` after the first `n` of `lines` have been applied to it in order.
pub open spec fn after_lines(doc: Document, lines: Seq<Seq<char>>, n: nat) -> Document
    decreases n,
{
    if n == 0 {
        doc
    } else {
        after_line(after_lines(doc, lines, (n - 1) as nat), lines[n - 1])
    }
}

/// Whether line `i` conflicts with the document that the lines before it
/// have made of `doc`.
pub open spec fn conflict_at(doc: Document, lines: Seq<Seq<char>>, i: int) -> bool {
    line_conflicts(after_lines(doc, lines, i as nat), lines[i])
}

/// Whether none of the first `n` of `lines` conflicts when they are applied
/// to `doc` in order.
pub open spec fn loads_cleanly(doc: Document, lines: Seq<Seq<char>>, n: int) -> bool {
    forall|i: int| 0 <= i < n ==> !conflict_at(doc, lines, i)
}

/// Whether loading `lines` into `doc` stops at line `line`: it is the first
/// line that conflicts.
pub open spec fn stops_at(doc: Document, lines: Seq<Seq<char>>, line: int) -> bool {
    0 <= line < lines.len() && loads_cleanly(doc, lines, line) && conflict_at(doc, lines, line)
}

/// The lines of a text: its pieces between line feeds.
pub open spec fn text_lines(text: Seq<char>) -> Seq<Seq<char>> {
    split_on(text, '\n')
}

impl Config {
    /// Applies `lines` in order. Stops at the first line that conflicts and
    /// reports its index; the document then holds the lines before it.
    pub fn load_lines(&mut self, lines: &Vec<String>) -> (done: Result<(), LoadError>)
        ensures
            done is Ok <==> loads_cleanly(old(self)@, texts(lines@), lines.len() as int),
            done is Ok ==> final(self)@ == after_lines(
                old(self)@,
                texts(lines@),
                lines.len() as nat,
            ),
            done matches Err(e) ==> stops_at(old(self)@, texts(lines@), e->line as int),
            done matches Err(e) ==> final(self)@ == after_lines(
                old(self)@,
                texts(lines@),
                e->line as nat,
            ),
    {
        let ghost start = self@;
        let ghost all = texts(lines@);
        let mut i: usize = 0;
        while i < lines.len()
            invariant
                i <= lines.len(),
                start == old(self)@,
                all == texts(lines@),
                loads_cleanly(start, all, i as int),
                self@ == after_lines(start, all, i as nat),
            decreases lines.len() - i,
        {
            proof {
                assert(all[i as int] == lines@[i as int]@);
            }
            match self.apply_line(lines[i].as_str()) {
                Ok(()) => {},
                Err(_) => {
                    proof {
                        assert(conflict_at(start, all, i as int));
                    }
                    return Err(LoadError::KeyConflict { line: i });
                },
            }
            i += 1;
        }
        Ok(())
    }

    /// Loads configuration text: its lines, separated by line feeds, are
    /// applied in order as by `load_lines`. A carriage return before a line
    /// feed is whitespace at the end of its line and is trimmed with it.
    pub fn load_from_str(&mut self, text: &str) -> (done: Result<(), LoadError>)
        ensures
            done is Ok <==> loads_cleanly(
                old(self)@,
                text_lines(text@),
                text_lines(text@).len() as int,
            ),
            done is Ok ==> final(self)@ == after_lines(
                old(self)@,
                text_lines(text@),
                text_lines(text@).len(),
            ),
            done matches Err(e) ==> stops_at(old(self)@, text_lines(text@), e->line as int),
            done matches Err(e) ==> final(self)@ == after_lines(
                old(self)@,
                text_lines(text@),
                e->line as nat,
            ),
    {
        let lines = split_text(text, '\n');
        self.load_lines(&lines)
    }
}

} // verus!
