//! Source files and the spans that point into them.

use std::rc::Rc;
use vstd::prelude::*;
use crate::text::{chars_of, string_from_chars};

verus! {

/// Shares a reference-counted value.
///
/// Trusted: `Rc::clone` returns another pointer to the same value.
#[verifier::external_body]
pub(crate) fn rc_clone<T>(r: &Rc<T>) -> (s: Rc<T>)
    ensures
        s == *r,
{
    Rc::clone(r)
}

/// A loaded source file: its path, its text, and its lines.
///
/// `lines[0]` is an empty placeholder so that `lines[n]` is line `n`
/// (lines are counted from one), and the last entry is always empty.
pub struct SourceFile {
    pub file_path: String,
    pub buf: String,
    pub lines: Vec<String>,
    pub internal: bool,
}

/// Index of the first `'\n'` in `s`, or `s.len()` if there is none.
pub open spec fn newline_index(s: Seq<char>) -> nat
    decreases s.len(),
{
    if s.len() == 0 {
        0
    } else if s[0] == '\n' {
        0
    } else {
        1 + newline_index(s.drop_first())
    }
}

/// A line without the `'\r'` that ends it, if any.
pub open spec fn strip_cr(line: Seq<char>) -> Seq<char> {
    if line.len() > 0 && line.last() == '\r' {
        line.drop_last()
    } else {
        line
    }
}

/// `str::lines`: the text split at `"\n"` or `"\r\n"`; a final line ending
/// does not start a new (empty) line.
pub open spec fn text_lines(s: Seq<char>) -> Seq<Seq<char>>
    decreases s.len(),
{
    if s.len() == 0 {
        Seq::empty()
    } else {
        let k = newline_index(s);
        if k >= s.len() {
            seq![s]
        } else {
            seq![strip_cr(s.take(k as int))] + text_lines(s.skip(k + 1 as int))
        }
    }
}

/// The line table of a source file: an empty entry, then the text's lines,
/// then an empty entry unless the last line is already empty.
pub open spec fn line_table(s: Seq<char>) -> Seq<Seq<char>> {
    let body = seq![Seq::<char>::empty()] + text_lines(s);
    if body.last().len() == 0 {
        body
    } else {
        body.push(Seq::empty())
    }
}

proof fn lemma_newline_index(s: Seq<char>, k: int)
    requires
        0 <= k <= s.len(),
        forall|j: int| 0 <= j < k ==> s[j] != '\n',
        k == s.len() || s[k] == '\n',
    ensures
        newline_index(s) == k,
    decreases s.len(),
{
    if s.len() > 0 && s[0] != '\n' {
        lemma_newline_index(s.drop_first(), k - 1);
    }
}

proof fn lemma_newline_index_bound(s: Seq<char>)
    ensures
        newline_index(s) <= s.len(),
    decreases s.len(),
{
    if s.len() > 0 && s[0] != '\n' {
        lemma_newline_index_bound(s.drop_first());
    }
}

/// Splits text into lines as `str::lines` does.
pub fn split_lines(text: &Vec<char>) -> (lines: Vec<String>)
    ensures
        lines@.len() == text_lines(text@).len(),
        forall|i: int| 0 <= i < lines@.len() ==> #[trigger] lines@[i]@ == text_lines(text@)[i],
{
    let mut lines: Vec<String> = Vec::new();
    let mut start: usize = 0;
    let ghost mut done: Seq<Seq<char>> = Seq::empty();
    assert(text@.skip(0) == text@);
    while start < text.len()
        invariant
            start <= text@.len(),
            lines@.len() == done.len(),
            forall|i: int| 0 <= i < lines@.len() ==> #[trigger] lines@[i]@ == done[i],
            text_lines(text@) == done + text_lines(text@.skip(start as int)),
        decreases text@.len() - start,
    {
        let ghost rest = text@.skip(start as int);
        let mut k = start;
        while k < text.len() && text[k] != '\n'
            invariant
                start <= k <= text@.len(),
                forall|j: int| start <= j < k ==> text@[j] != '\n',
            decreases text@.len() - k,
        {
            k = k + 1;
        }
        proof {
            lemma_newline_index(rest, k - start);
        }
        let mut end = k;
        if end > start && text[end - 1] == '\r' && k < text.len() {
            end = end - 1;
        }
        let line = string_from_chars(text, start, end);
        lines.push(line);
        if k < text.len() {
            assert(line@ == strip_cr(rest.take(k - start)));
            assert(text@.skip(k + 1) == rest.skip(k - start + 1));
            assert(text_lines(rest) == seq![line@] + text_lines(text@.skip(k + 1)));
            proof {
                done = done.push(line@);
            }
            assert(text_lines(text@) == done + text_lines(text@.skip(k + 1)));
            start = k + 1;
        } else {
            assert(line@ == rest);
            assert(text_lines(rest) == seq![line@]);
            assert(text@.skip(text@.len() as int) == Seq::<char>::empty());
            proof {
                done = done.push(line@);
            }
            assert(text_lines(text@) == done + text_lines(text@.skip(k as int)));
            start = k;
        }
    }
    assert(text@.skip(start as int) == Seq::<char>::empty());
    assert(text_lines(text@) == done);
    lines
}

impl SourceFile {
    /// The placeholder file that internal spans point into.
    pub fn internal() -> (r: Rc<SourceFile>)
        ensures
            r.file_path@ == seq!['<', 'i', 'n', 't', 'e', 'r', 'n', 'a', 'l', '>'],
            r.buf@.len() == 0,
            r.lines@.len() == 0,
            r.internal,
    {
        let mut path = String::new();
        crate::text::push_char(&mut path, '<');
        crate::text::push_char(&mut path, 'i');
        crate::text::push_char(&mut path, 'n');
        crate::text::push_char(&mut path, 't');
        crate::text::push_char(&mut path, 'e');
        crate::text::push_char(&mut path, 'r');
        crate::text::push_char(&mut path, 'n');
        crate::text::push_char(&mut path, 'a');
        crate::text::push_char(&mut path, 'l');
        crate::text::push_char(&mut path, '>');
        Rc::new(SourceFile { file_path: path, buf: String::new(), lines: Vec::new(), internal: true })
    }

    /// A source file with the given path and text (what `load` builds once
    /// the file has been read).
    pub fn from_contents(file_path: String, buf: String) -> (r: Rc<SourceFile>)
        ensures
            r.file_path == file_path,
            r.buf == buf,
            !r.internal,
            r.lines@.len() == line_table(buf@).len(),
            forall|i: int| 0 <= i < r.lines@.len() ==> #[trigger] r.lines@[i]@ == line_table(buf@)[i],
    {
        let text = chars_of(buf.as_str());
        let body = split_lines(&text);
        let mut lines: Vec<String> = Vec::new();
        lines.push(String::new());
        let mut i: usize = 0;
        while i < body.len()
            invariant
                i <= body@.len(),
                body@.len() == text_lines(buf@).len(),
                forall|j: int| 0 <= j < body@.len() ==> #[trigger] body@[j]@ == text_lines(buf@)[j],
                lines@.len() == i + 1,
                lines@[0]@.len() == 0,
                forall|j: int| 0 < j < lines@.len() ==> #[trigger] lines@[j]@ == text_lines(buf@)[j - 1],
            decreases body@.len() - i,
        {
            let line = body[i].clone();
            lines.push(line);
            i = i + 1;
        }
        let ghost table = seq![Seq::<char>::empty()] + text_lines(buf@);
        assert(forall|j: int| 0 <= j < lines@.len() ==> #[trigger] lines@[j]@ == table[j]);
        let last_len = chars_of(lines[lines.len() - 1].as_str()).len();
        if last_len != 0 {
            lines.push(String::new());
        }
        Rc::new(SourceFile { file_path, buf, lines, internal: false })
    }
}

/// A range of positions in a source file. Lines and columns are counted from one.
pub struct Span {
    pub start_line: usize,
    pub start_column: usize,
    pub end_line: usize,
    pub end_column: usize,
    pub source_file: Rc<SourceFile>,
}

/// The positions `(start_line, start_column, end_line, end_column)` of a span.
pub open spec fn positions(s: &Span) -> (usize, usize, usize, usize) {
    (s.start_line, s.start_column, s.end_line, s.end_column)
}

/// The positions of the span that covers `a` and then `b`: it starts where `a`
/// starts and ends on the later of the two end lines; on a single line it takes
/// the smallest start column and the largest end column, otherwise `a`'s start
/// column and `b`'s end column.
pub open spec fn merge_positions(a: &Span, b: &Span) -> (usize, usize, usize, usize) {
    let start_line = if a.start_line <= b.start_line { a.start_line } else { b.start_line };
    let end_line = if a.end_line >= b.end_line { a.end_line } else { b.end_line };
    if start_line == end_line {
        (
            start_line,
            if a.start_column <= b.start_column { a.start_column } else { b.start_column },
            end_line,
            if a.end_column >= b.end_column { a.end_column } else { b.end_column },
        )
    } else {
        (start_line, a.start_column, end_line, b.end_column)
    }
}

impl Span {
    /// A span at position zero of the internal placeholder file.
    pub fn internal() -> (r: Span)
        ensures
            positions(&r) == (0usize, 0usize, 0usize, 0usize),
            r.source_file.internal,
            r.source_file.file_path@ == seq!['<', 'i', 'n', 't', 'e', 'r', 'n', 'a', 'l', '>'],
    {
        Span {
            start_line: 0,
            start_column: 0,
            end_line: 0,
            end_column: 0,
            source_file: SourceFile::internal(),
        }
    }

    /// The span covering `self` and then `other`, which must be in the same
    /// file and must not start on an earlier line.
    pub fn merge(&self, other: &Span) -> (r: Span)
        requires
            self.source_file.file_path@ == other.source_file.file_path@,
            self.start_line <= other.start_line,
        ensures
            positions(&r) == merge_positions(self, other),
            r.source_file == self.source_file,
    {
        let start_line = if self.start_line <= other.start_line { self.start_line } else { other.start_line };
        let end_line = if self.end_line >= other.end_line { self.end_line } else { other.end_line };
        if start_line == end_line {
            Span {
                start_line,
                end_line,
                start_column: if self.start_column <= other.start_column { self.start_column } else { other.start_column },
                end_column: if self.end_column >= other.end_column { self.end_column } else { other.end_column },
                source_file: rc_clone(&self.source_file),
            }
        } else {
            Span {
                start_line,
                end_line,
                start_column: self.start_column,
                end_column: other.end_column,
                source_file: rc_clone(&self.source_file),
            }
        }
    }

    /// A copy of this span, sharing its source file.
    pub fn duplicate(&self) -> (r: Span)
        ensures
            r == *self,
    {
        Span {
            start_line: self.start_line,
            start_column: self.start_column,
            end_line: self.end_line,
            end_column: self.end_column,
            source_file: rc_clone(&self.source_file),
        }
    }
}

/// Merging a span with itself gives back its positions.
pub proof fn lemma_merge_idempotent(a: &Span)
    ensures
        merge_positions(a, a) == positions(a),
{
}

/// A merged span starts where the first span starts and ends no earlier
/// than either span ends.
pub proof fn lemma_merge_covers(a: &Span, b: &Span)
    requires
        a.start_line <= b.start_line,
    ensures
        merge_positions(a, b).0 == a.start_line,
        merge_positions(a, b).2 >= a.end_line,
        merge_positions(a, b).2 >= b.end_line,
{
}

} // verus!
