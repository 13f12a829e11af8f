//! Line-oriented lexer.
//!
//! The lexer presents the input as a sequence of lines with one-line
//! lookahead. A line's text excludes its terminator: `\n` and `\r\n` both
//! end a line, a `\r` not followed by `\n` is ordinary content. Newline
//! scanning goes through `memchr`.
//!
//! The spec functions here pin the lexer down exactly: `line_break` is the
//! position of the next `\n`, `line_text_end` the end of the line's text,
//! `next_line_start` the cursor after consuming the line, and `skip_blanks`
//! the cursor after consuming every leading blank line.

use vstd::prelude::*;

use crate::bytes::{
    blank_byte, copy_range, find_byte_spec, is_blank_byte, lemma_find_byte_bounds, matches_at,
    seq_blank, starts_with_at, trim_bounds, trim_of,
};
use crate::search::memchr_in;
use crate::span::Span;

verus! {

/// Position of the first `\n` at or after `i`, or the input length.
pub open spec fn line_break(s: Seq<u8>, i: int) -> int {
    find_byte_spec(s, i, s.len() as int, 10)
}

/// End of the text of the line starting at `i`: the position of its `\n`,
/// backed up once more over a preceding `\r`.
pub open spec fn line_text_end(s: Seq<u8>, i: int) -> int {
    let e = line_break(s, i);
    if e > i && s[e - 1] == 13 {
        e - 1
    } else {
        e
    }
}

/// Start of the line following the one at `i`: past the `\n`, or the input
/// length when the line is unterminated.
pub open spec fn next_line_start(s: Seq<u8>, i: int) -> int {
    let e = line_break(s, i);
    if e < s.len() {
        e + 1
    } else {
        e
    }
}

/// The text of the line starting at `i`, terminator excluded.
pub open spec fn line_text(s: Seq<u8>, i: int) -> Seq<u8> {
    s.subrange(i, line_text_end(s, i))
}

pub proof fn lemma_line_shape(s: Seq<u8>, i: int)
    requires
        0 <= i <= s.len(),
    ensures
        i <= line_text_end(s, i) <= line_break(s, i) <= s.len(),
        i < s.len() ==> next_line_start(s, i) > i,
        next_line_start(s, i) <= s.len(),
        line_break(s, i) < s.len() ==> s[line_break(s, i)] == 10,
        forall|j: int| i <= j < line_break(s, i) ==> #[trigger] s[j] != 10,
{
    lemma_find_byte_bounds(s, i, s.len() as int, 10);
}

/// Cursor position after skipping every leading blank line (a line whose
/// text is only spaces and tabs).
pub open spec fn skip_blanks(s: Seq<u8>, c: int) -> int
    decreases s.len() - c,
    when 0 <= c <= s.len()
    via skip_blanks_dec
{
    if c < s.len() && seq_blank(line_text(s, c)) {
        skip_blanks(s, next_line_start(s, c))
    } else {
        c
    }
}

#[via_fn]
proof fn skip_blanks_dec(s: Seq<u8>, c: int) {
    if 0 <= c < s.len() {
        lemma_line_shape(s, c);
    }
}

/// Number of blank lines skipped from cursor `c`.
pub open spec fn skip_blanks_count(s: Seq<u8>, c: int) -> int
    decreases s.len() - c,
    when 0 <= c <= s.len()
    via skip_blanks_count_dec
{
    if c < s.len() && seq_blank(line_text(s, c)) {
        1 + skip_blanks_count(s, next_line_start(s, c))
    } else {
        0
    }
}

#[via_fn]
proof fn skip_blanks_count_dec(s: Seq<u8>, c: int) {
    if 0 <= c < s.len() {
        lemma_line_shape(s, c);
    }
}

pub proof fn lemma_skip_blanks_bounds(s: Seq<u8>, c: int)
    requires
        0 <= c <= s.len(),
    ensures
        c <= skip_blanks(s, c) <= s.len(),
    decreases s.len() - c,
{
    lemma_line_shape(s, c);
    if c < s.len() && seq_blank(line_text(s, c)) {
        lemma_skip_blanks_bounds(s, next_line_start(s, c));
    }
}

/// A single line of input: its text (terminator excluded) and its span.
#[derive(Debug, Clone, PartialEq)]
pub struct Line {
    /// The line's bytes, without the trailing `\r\n` or `\n`.
    pub text: Vec<u8>,
    /// Byte span of the text in the input.
    pub span: Span,
}

/// `l` is the line that starts at position `start` of input `s`.
pub open spec fn line_wf(l: Line, s: Seq<u8>, start: int) -> bool {
    &&& 0 <= start < s.len()
    &&& l.span.start == start
    &&& l.span.end == line_text_end(s, start)
    &&& l.text@ == line_text(s, start)
}

impl Line {
    /// Whether this line holds only spaces and tabs (or nothing).
    pub fn is_blank(&self) -> (r: bool)
        ensures
            r == seq_blank(self.text@),
    {
        let mut i: usize = 0;
        while i < self.text.len()
            invariant
                0 <= i <= self.text@.len(),
                forall|j: int| 0 <= j < i ==> is_blank_byte(#[trigger] self.text@[j]),
            decreases self.text@.len() - i,
        {
            if !blank_byte(self.text[i]) {
                return false;
            }
            i += 1;
        }
        true
    }

    /// Whether the line's text starts with `prefix`.
    pub fn starts_with(&self, prefix: &[u8]) -> (r: bool)
        ensures
            r == (prefix@.len() <= self.text@.len() && matches_at(self.text@, 0, prefix@)),
    {
        starts_with_at(self.text.as_slice(), 0, self.text.len(), prefix)
    }

    /// The line's text with surrounding ASCII whitespace removed.
    pub fn trimmed(&self) -> (t: Vec<u8>)
        ensures
            t@ == trim_of(self.text@),
    {
        let (lo, hi) = trim_bounds(self.text.as_slice(), 0, self.text.len());
        copy_range(self.text.as_slice(), lo, hi)
    }

    /// The line's text after `prefix`, when the text starts with it.
    pub fn strip_prefix(&self, prefix: &[u8]) -> (r: Option<Vec<u8>>)
        ensures
            match r {
                Some(rest) => prefix@.len() <= self.text@.len() && matches_at(self.text@, 0, prefix@)
                    && rest@ == self.text@.skip(prefix@.len() as int),
                None => !(prefix@.len() <= self.text@.len() && matches_at(self.text@, 0, prefix@)),
            },
    {
        if starts_with_at(self.text.as_slice(), 0, self.text.len(), prefix) {
            let rest = copy_range(self.text.as_slice(), prefix.len(), self.text.len());
            proof {
                assert(rest@ =~= self.text@.skip(prefix@.len() as int));
            }
            Some(rest)
        } else {
            None
        }
    }

    /// An exact copy of this line.
    pub fn duplicate(&self) -> (l: Line)
        ensures
            l.text@ == self.text@,
            l.span == self.span,
    {
        Line { text: copy_range(self.text.as_slice(), 0, self.text.len()), span: self.span }
    }
}

/// Line-oriented lexer with one-line lookahead.
pub struct Lexer<'a> {
    /// The complete input.
    input: &'a [u8],
    /// Byte offset past all read content (including a peeked line).
    offset: usize,
    /// The peeked line, when lookahead is buffered.
    peeked: Option<Line>,
}

impl<'a> Lexer<'a> {
    /// The input this lexer reads.
    pub closed spec fn inp(self) -> Seq<u8> {
        self.input@
    }

    /// The position of the next unconsumed line (a peeked line is not yet
    /// consumed).
    pub closed spec fn cursor(self) -> int {
        match self.peeked {
            Some(l) => l.span.start as int,
            None => self.offset as int,
        }
    }

    /// Whether a peeked line is buffered (the raw offset then sits past
    /// the buffered line).
    pub closed spec fn buffered(self) -> bool {
        self.peeked is Some
    }

    /// The lexer's internal invariant.
    pub closed spec fn wf(self) -> bool {
        &&& self.inp().len() <= u32::MAX
        &&& self.offset <= self.inp().len()
        &&& match self.peeked {
            Some(l) => line_wf(l, self.inp(), l.span.start as int) && self.offset
                == next_line_start(self.inp(), l.span.start as int),
            None => true,
        }
    }


    /// The cursor always lies within the input.
    pub proof fn lemma_cursor_bounds(self)
        requires
            self.wf(),
        ensures
            0 <= self.cursor() <= self.inp().len(),
    {
    }

    /// A new lexer positioned at the start of `input`.
    pub fn new(input: &'a [u8]) -> (r: Lexer<'a>)
        requires
            input@.len() <= u32::MAX,
        ensures
            r.wf(),
            r.inp() == input@,
            r.cursor() == 0,
            !r.buffered(),
    {
        Lexer { input, offset: 0, peeked: None }
    }

    /// The byte offset past everything read so far (a peeked line counts
    /// as read).
    pub fn offset(&self) -> (r: u32)
        requires
            self.wf(),
        ensures
            r as int == if self.buffered() {
                next_line_start(self.inp(), self.cursor())
            } else {
                self.cursor()
            },
            self.cursor() <= r as int <= self.inp().len(),
    {
        proof {
            if self.peeked is Some {
                let l = self.peeked->Some_0;
                lemma_line_shape(self.inp(), l.span.start as int);
            }
        }
        self.offset as u32
    }

    /// Whether every line has been consumed.
    pub fn is_eof(&self) -> (r: bool)
        requires
            self.wf(),
        ensures
            r == (self.cursor() == self.inp().len()),
    {
        proof {
            if self.peeked is Some {
                let l = self.peeked->Some_0;
                lemma_line_shape(self.inp(), l.span.start as int);
            }
        }
        match self.peeked {
            Some(_) => false,
            None => self.offset >= self.input.len(),
        }
    }

    /// The input bytes a span refers to.
    pub fn slice(&self, span: Span) -> (out: Vec<u8>)
        requires
            self.wf(),
            span.start <= span.end,
            span.end as int <= self.inp().len(),
        ensures
            out@ == self.inp().subrange(span.start as int, span.end as int),
    {
        copy_range(self.input, span.start as usize, span.end as usize)
    }

    /// The input bytes past everything read so far (a peeked line counts
    /// as read).
    pub fn remaining(&self) -> (out: Vec<u8>)
        requires
            self.wf(),
        ensures
            out@ == self.inp().subrange(
                if self.buffered() {
                    next_line_start(self.inp(), self.cursor())
                } else {
                    self.cursor()
                },
                self.inp().len() as int,
            ),
    {
        proof {
            if self.peeked is Some {
                let l = self.peeked->Some_0;
                lemma_line_shape(self.inp(), l.span.start as int);
            }
        }
        copy_range(self.input, self.offset, self.input.len())
    }

    /// Read the line at the current offset, advancing past it.
    fn read_line(&mut self) -> (r: Line)
        requires
            old(self).wf(),
            old(self).peeked is None,
            old(self).cursor() < old(self).inp().len(),
        ensures
            final(self).wf(),
            final(self).inp() == old(self).inp(),
            final(self).peeked is None,
            line_wf(r, old(self).inp(), old(self).cursor()),
            final(self).cursor() == next_line_start(old(self).inp(), old(self).cursor()),
    {
        let ghost s = self.input@;
        let start = self.offset;
        proof {
            lemma_line_shape(s, start as int);
        }
        let nl = memchr_in(self.input, start, self.input.len(), 10);
        let end: usize = match nl {
            Some(p) => p,
            None => self.input.len(),
        };
        proof {
            lemma_find_byte_bounds(s, start as int, s.len() as int, 10);
            assert(end as int == line_break(s, start as int));
        }
        let text_end: usize = if end > start && self.input[end - 1] == 13 {
            end - 1
        } else {
            end
        };
        self.offset = if end < self.input.len() {
            end + 1
        } else {
            end
        };
        let text = copy_range(self.input, start, text_end);
        Line { text, span: Span::new(start as u32, text_end as u32) }
    }

    /// Look at the next line without consuming it; `None` at end of input.
    pub fn peek_line(&mut self) -> (r: Option<Line>)
        requires
            old(self).wf(),
        ensures
            final(self).wf(),
            final(self).inp() == old(self).inp(),
            final(self).cursor() == old(self).cursor(),
            final(self).buffered() == (old(self).cursor() < old(self).inp().len()),
            match r {
                Some(l) => old(self).cursor() < old(self).inp().len() && line_wf(
                    l,
                    old(self).inp(),
                    old(self).cursor(),
                ),
                None => old(self).cursor() == old(self).inp().len(),
            },
    {
        match &self.peeked {
            Some(l) => Some(l.duplicate()),
            None => {
                if self.offset >= self.input.len() {
                    None
                } else {
                    let line = self.read_line();
                    let copy = line.duplicate();
                    self.peeked = Some(line);
                    Some(copy)
                }
            },
        }
    }

    /// Consume and return the next line; `None` at end of input.
    pub fn next_line(&mut self) -> (r: Option<Line>)
        requires
            old(self).wf(),
        ensures
            final(self).wf(),
            final(self).inp() == old(self).inp(),
            !final(self).buffered(),
            match r {
                Some(l) => {
                    &&& old(self).cursor() < old(self).inp().len()
                    &&& line_wf(l, old(self).inp(), old(self).cursor())
                    &&& final(self).cursor() == next_line_start(
                        old(self).inp(),
                        old(self).cursor(),
                    )
                    &&& final(self).cursor() > old(self).cursor()
                },
                None => old(self).cursor() == old(self).inp().len() && final(self).cursor()
                    == old(self).cursor(),
            },
    {
        proof {
            lemma_line_shape(self.inp(), self.cursor());
        }
        let taken = self.peeked.take();
        match taken {
            Some(l) => Some(l),
            None => {
                if self.offset >= self.input.len() {
                    None
                } else {
                    Some(self.read_line())
                }
            },
        }
    }

    /// Consume leading blank lines; returns how many were skipped.
    pub fn skip_blank_lines(&mut self) -> (count: usize)
        requires
            old(self).wf(),
        ensures
            final(self).wf(),
            final(self).inp() == old(self).inp(),
            final(self).cursor() == skip_blanks(old(self).inp(), old(self).cursor()),
            count == skip_blanks_count(old(self).inp(), old(self).cursor()),
            final(self).cursor() >= old(self).cursor(),
            final(self).buffered() == (final(self).cursor() < final(self).inp().len()),
    {
        let ghost s = self.inp();
        let ghost c0 = self.cursor();
        proof {
            lemma_skip_blanks_bounds(s, c0);
        }
        let mut count: usize = 0;
        loop
            invariant
                self.wf(),
                s == old(self).inp(),
                c0 == old(self).cursor(),
                0 <= c0 <= s.len(),
                self.inp() == s,
                0 <= self.cursor() <= s.len(),
                c0 <= self.cursor(),
                skip_blanks(s, c0) == skip_blanks(s, self.cursor()),
                skip_blanks_count(s, c0) == count + skip_blanks_count(s, self.cursor()),
                count <= self.cursor(),
            decreases s.len() - self.cursor(),
        {
            let peeked = self.peek_line();
            match peeked {
                Some(line) => {
                    if !line.is_blank() {
                        proof {
                            assert(skip_blanks(s, self.cursor()) == self.cursor());
                        }
                        return count;
                    }
                    proof {
                        lemma_line_shape(s, self.cursor());
                    }
                    let consumed = self.next_line();
                    count += 1;
                },
                None => {
                    proof {
                        assert(skip_blanks(s, self.cursor()) == self.cursor());
                    }
                    return count;
                },
            }
        }
    }
}

/// Over whitespace-only input (spaces, tabs and line terminators),
/// skipping blank lines consumes everything.
pub proof fn lemma_ws_only_skip_blanks(s: Seq<u8>, c: int)
    requires
        crate::bytes::ws_only(s),
        0 <= c <= s.len(),
    ensures
        skip_blanks(s, c) == s.len(),
    decreases s.len() - c,
{
    if c < s.len() {
        lemma_line_shape(s, c);
        assert(seq_blank(line_text(s, c))) by {
            assert forall|i: int| 0 <= i < line_text(s, c).len() implies is_blank_byte(
                #[trigger] line_text(s, c)[i],
            ) by {
                assert(line_text(s, c)[i] == s[c + i]);
                assert(c + i < line_break(s, c));
                assert(s[c + i] != 10);
                if s[c + i] == 13 {
                    // The byte after an interior carriage return is a line
                    // feed, which cannot occur before the line break nor at
                    // the position the text end excluded it from.
                    assert(s[c + i + 1] == 10);
                    assert(c + i + 1 >= line_break(s, c));
                    assert(c + i < line_text_end(s, c));
                    assert(false);
                }
            }
        }
        lemma_ws_only_skip_blanks(s, next_line_start(s, c));
    }
}

} // verus!
