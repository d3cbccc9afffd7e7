//! What a run is asked to look at: a file and a range of its text.

use vstd::prelude::*;
use vstd::string::{StringExecFns, StringSliceAdditionalSpecFns};
use vstd::utf8::{encode_utf8, is_char_boundary};

verus! {

/// A stretch of source text, by line and by byte column within the line.
/// Lines and columns count from zero; the end column is not part of it.
#[derive(Debug, Clone, Copy)]
pub struct Range {
    pub start_line: usize,
    pub start_col: usize,
    pub end_line: usize,
    pub end_col: usize,
}

/// What to analyse and how loudly.
#[derive(Debug)]
pub struct Config {
    pub path: String,
    pub range: Range,
    pub debug: bool,
}

/// The position after `lines` line breaks, counted from `from`.
pub open spec fn skip_lines(bytes: Seq<u8>, from: int, lines: nat) -> Option<int>
    decreases bytes.len() - from,
{
    if lines == 0 {
        Some(from)
    } else if from < 0 || from >= bytes.len() {
        None
    } else if bytes[from] == 10u8 {
        skip_lines(bytes, from + 1, (lines - 1) as nat)
    } else {
        skip_lines(bytes, from + 1, lines)
    }
}

/// The position of the first line break at or after `from`, or the end of
/// the text.
pub open spec fn line_stop(bytes: Seq<u8>, from: int) -> int
    decreases bytes.len() - from,
{
    if from < 0 || from >= bytes.len() || bytes[from] == 10u8 {
        from
    } else {
        line_stop(bytes, from + 1)
    }
}

proof fn lemma_line_stop(bytes: Seq<u8>, from: int)
    requires
        0 <= from <= bytes.len(),
    ensures
        from <= line_stop(bytes, from) <= bytes.len(),
    decreases bytes.len() - from,
{
    if from < bytes.len() && bytes[from] != 10u8 {
        lemma_line_stop(bytes, from + 1);
    }
}

impl Range {
    /// The first and last byte position of the range in a text, where the
    /// range lies within one line of it.
    pub open spec fn byte_range(&self, bytes: Seq<u8>) -> Option<(int, int)> {
        match skip_lines(bytes, 0, self.start_line as nat) {
            Some(lo) => if self.start_line == self.end_line && self.start_col <= self.end_col && lo
                + self.end_col <= line_stop(bytes, lo) {
                Some((lo + self.start_col, lo + self.end_col))
            } else {
                None
            },
            None => None,
        }
    }

    /// Whether the range lies within one line of the text and starts and
    /// ends between two characters.
    pub open spec fn fits(&self, bytes: Seq<u8>) -> bool {
        match self.byte_range(bytes) {
            Some((from, to)) => is_char_boundary(bytes, from) && is_char_boundary(
                bytes.subrange(from, bytes.len() as int),
                to - from,
            ),
            None => false,
        }
    }

    /// The range from column `start` to column `end` of one line.
    pub fn line(line: usize, start: usize, end: usize) -> (r: Range)
        ensures
            r.start_line == line,
            r.start_col == start,
            r.end_line == line,
            r.end_col == end,
    {
        Range { start_line: line, start_col: start, end_line: line, end_col: end }
    }

    /// The text of the range.
    pub fn substr(&self, s: &str) -> (r: String)
        requires
            self.fits(s.spec_bytes()),
        ensures
            self.byte_range(s.spec_bytes()) matches Some((from, to)) && encode_utf8(r@)
                == s.spec_bytes().subrange(from, to),
    {
        let bytes = s.as_bytes();
        let ghost all = s.spec_bytes();
        let mut pos: usize = 0;
        let mut remaining: usize = self.start_line;
        while remaining > 0
            invariant
                pos <= bytes@.len(),
                bytes@ == all,
                skip_lines(all, 0, self.start_line as nat) == skip_lines(
                    all,
                    pos as int,
                    remaining as nat,
                ),
                skip_lines(all, 0, self.start_line as nat) is Some,
            decreases bytes@.len() - pos,
        {
            if bytes[pos] == 10u8 {
                remaining -= 1;
            }
            pos += 1;
        }
        let len = bytes.len();
        proof {
            assert(skip_lines(all, pos as int, 0) == Some(pos as int));
            assert(self.byte_range(all) is Some);
            lemma_line_stop(all, pos as int);
            assert(pos + self.end_col <= len);
        }
        let from = pos + self.start_col;
        let width = self.end_col - self.start_col;
        let (_, rest) = s.split_at(from);
        let (mid, _) = rest.split_at(width);
        assert(mid.spec_bytes() =~= all.subrange(from as int, from + width));
        String::from_str(mid)
    }
}

} // verus!
