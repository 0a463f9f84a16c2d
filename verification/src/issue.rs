//! Diagnostics: warnings and errors attached to a span of source text.

use vstd::prelude::*;
use crate::source_file::Span;
use crate::text::{chars_of, concat, decimal, string_from_chars, usize_to_string};

verus! {

/// How serious an issue is.
#[derive(PartialEq, Eq, Structural)]
pub enum IssueLevel {
    Warning,
    Error,
}

/// A diagnostic message about a span of source text.
pub struct Issue {
    pub level: IssueLevel,
    pub span: Span,
    pub message: String,
}

impl Issue {
    /// A warning with the given message.
    pub fn warning(message: String, span: Span) -> (r: Issue)
        ensures
            r.level == IssueLevel::Warning,
            r.message == message,
            r.span == span,
    {
        Issue { level: IssueLevel::Warning, message, span }
    }

    /// An error with the given message.
    pub fn error(message: String, span: Span) -> (r: Issue)
        ensures
            r.level == IssueLevel::Error,
            r.message == message,
            r.span == span,
    {
        Issue { level: IssueLevel::Error, message, span }
    }
}

/// One line of source shown under an issue: its number, and its text split
/// into the part before the highlighted columns, those columns, and the rest.
/// Lines shown only for context have all their text in `before`.
pub struct IssueLine {
    pub number: usize,
    pub before: String,
    pub highlight: String,
    pub after: String,
}

/// What is shown for an issue: its kind, message and location, the width
/// of the line-number gutter, and the lines of source around the span.
pub struct IssueLayout {
    pub is_error: bool,
    pub message: String,
    pub location: String,
    pub gutter_width: usize,
    pub lines: Vec<IssueLine>,
}

/// The first line shown: two lines of context before the span, but never
/// before line one.
pub open spec fn first_shown(start_line: int) -> int {
    if start_line < 3 {
        1
    } else {
        start_line - 2
    }
}

/// The last line shown: two lines of context after the span, but never past
/// the last line of the file (the file's lines are numbered up to `n - 1`).
pub open spec fn last_shown(end_line: int, n: int) -> int {
    if end_line + 2 >= n {
        n - 1
    } else {
        end_line + 2
    }
}

/// The number of decimal digits of `n` (one for zero).
pub open spec fn digit_count(n: nat) -> nat {
    decimal(n).len()
}

/// The text of line `i` of the span's file, or nothing past its end.
pub open spec fn line_text(span: Span, i: int) -> Seq<char> {
    if 0 <= i < span.source_file.lines@.len() {
        span.source_file.lines@[i]@
    } else {
        Seq::empty()
    }
}

/// `x` kept within `lo` and `hi`.
pub open spec fn clamp(x: int, lo: int, hi: int) -> int {
    if x < lo {
        lo
    } else if x > hi {
        hi
    } else {
        x
    }
}

/// The highlighted columns of line `i` (counted from zero, end excluded):
/// from the span's start column on its first line, to its end column on its
/// last line, kept within the line.
pub open spec fn highlight_bounds(span: Span, i: int) -> (int, int) {
    let len = line_text(span, i).len() as int;
    let s = if i == span.start_line { span.start_column - 1 } else { 0 };
    let e = if i == span.end_line { span.end_column - 1 } else { len };
    let s2 = clamp(s, 0, len);
    (s2, clamp(e, s2, len))
}

/// Line `l` shows line `i` of the span's file for context.
pub open spec fn context_line(span: Span, l: IssueLine, i: int) -> bool {
    &&& l.number == i
    &&& l.before@ == line_text(span, i)
    &&& l.highlight@.len() == 0
    &&& l.after@.len() == 0
}

/// Line `l` shows line `i` of the span's file with the span highlighted.
pub open spec fn highlighted_line(span: Span, l: IssueLine, i: int) -> bool {
    let t = line_text(span, i);
    let (a, b) = highlight_bounds(span, i);
    &&& l.number == i
    &&& l.before@ == t.subrange(0, a)
    &&& l.highlight@ == t.subrange(a, b)
    &&& l.after@ == t.subrange(b, t.len() as int)
}

/// Ten to the power `k`.
pub open spec fn pow10(k: nat) -> nat
    decreases k,
{
    if k == 0 {
        1
    } else {
        10 * pow10((k - 1) as nat)
    }
}

/// A number below `10^k` has at most `k` decimal digits.
proof fn lemma_decimal_short(n: nat, k: nat)
    requires
        k >= 1,
        n < pow10(k),
    ensures
        decimal(n).len() <= k,
    decreases n,
{
    if n >= 10 {
        crate::text::lemma_div_decreases(n, 10);
        assert(k >= 2) by {
            if k == 1 {
                reveal_with_fuel(pow10, 2);
                assert(pow10(1) == 10);
            }
        }
        assert(n / 10 < pow10((k - 1) as nat)) by (nonlinear_arith)
            requires
                n < pow10(k),
                pow10(k) == 10 * pow10((k - 1) as nat),
        ;
        lemma_decimal_short(n / 10, (k - 1) as nat);
    }
}

/// A `usize` has at most twenty decimal digits.
proof fn lemma_usize_digits(n: usize)
    ensures
        decimal(n as nat).len() <= 20,
{
    reveal_with_fuel(pow10, 21);
    assert(pow10(20) == 100000000000000000000);
    lemma_decimal_short(n as nat, 20);
}

/// The first lines of an issue as plain text: the kind and the message,
/// then the location behind an arrow in the gutter.
pub open spec fn plain_head(l: IssueLayout) -> Seq<char> {
    (if l.is_error { "error: "@ } else { "warning: "@ }) + l.message@ + "\n"@ + padded(" -->"@, l.gutter_width as int)
        + " "@ + l.location@
}

/// The source lines of an issue as plain text, each on a line of its own
/// behind its number in a gutter `w` wide.
pub open spec fn plain_lines(w: int, lines: Seq<IssueLine>) -> Seq<char>
    decreases lines.len(),
{
    if lines.len() == 0 {
        Seq::empty()
    } else {
        plain_lines(w, lines.drop_last()) + "\n"@ + padded(decimal(lines.last().number as nat) + " | "@, w)
            + lines.last().before@ + lines.last().highlight@ + lines.last().after@
    }
}

/// An issue as plain text.
pub open spec fn plain_text(l: IssueLayout) -> Seq<char> {
    plain_head(l) + plain_lines(l.gutter_width as int, l.lines@)
}

/// Pads `s` on the left with spaces to `width` characters.
pub open spec fn padded(s: Seq<char>, width: int) -> Seq<char> {
    if s.len() >= width {
        s
    } else {
        Seq::new((width - s.len()) as nat, |i: int| ' ') + s
    }
}

/// Pads `s` on the left with spaces to `width` characters.
pub fn pad_left(s: &str, width: usize) -> (r: String)
    ensures
        r@ == padded(s@, width as int),
{
    let n = chars_of(s).len();
    let mut r = String::new();
    if n < width {
        let mut i: usize = 0;
        while i < width - n
            invariant
                i <= width - n,
                r@ == Seq::new(i as nat, |j: int| ' '),
            decreases width - n - i,
        {
            crate::text::push_char(&mut r, ' ');
            i = i + 1;
            assert(r@ =~= Seq::new(i as nat, |j: int| ' '));
        }
    }
    r.append(s);
    proof {
        if n >= width {
            assert(r@ =~= s@);
        }
    }
    r
}

/// Line `i` of the span's file.
fn line_chars(span: &Span, i: usize) -> (r: Vec<char>)
    ensures
        r@ == line_text(*span, i as int),
{
    if i < span.source_file.lines.len() {
        chars_of(span.source_file.lines[i].as_str())
    } else {
        Vec::new()
    }
}

/// `l` is what is shown for `issue`.
pub open spec fn shows(issue: Issue, l: IssueLayout) -> bool {
    &&& l.is_error == (issue.level == IssueLevel::Error)
    &&& l.message == issue.message
    &&& l.location@ == issue.span.source_file.file_path@ + ":"@ + decimal(issue.span.start_line as nat) + ":"@
        + decimal(issue.span.start_column as nat)
    &&& ({
        let n = issue.span.source_file.lines@.len() as int;
        let a = first_shown(issue.span.start_line as int);
        let s = issue.span.start_line as int;
        let e = issue.span.end_line as int;
        let z = last_shown(e, n);
        let before = if s > a { s - a } else { 0 };
        let middle = if e >= s { e - s + 1 } else { 0 };
        let after = if z > e { z - e } else { 0 };
        &&& l.gutter_width == (if z >= 0 { digit_count(z as nat) } else { 1 }) + 3
        &&& l.lines@.len() == before + middle + after
        &&& forall|k: int| 0 <= k < before ==> context_line(issue.span, #[trigger] l.lines@[k], a + k)
        &&& forall|k: int| before <= k < before + middle ==> highlighted_line(issue.span, #[trigger] l.lines@[k], s + (k - before))
        &&& forall|k: int| before + middle <= k < l.lines@.len() ==> context_line(issue.span, #[trigger] l.lines@[k], e + 1 + (k - before - middle))
    })
}

/// Writes source lines as plain text, each on a line of its own behind its
/// number in a gutter `width` wide.
fn render_lines(lines: &Vec<IssueLine>, width: usize) -> (r: String)
    ensures
        r@ == plain_lines(width as int, lines@),
{
    let mut out = String::new();
    let mut i: usize = 0;
    while i < lines.len()
        invariant
            i <= lines@.len(),
            out@ == plain_lines(width as int, lines@.take(i as int)),
        decreases lines@.len() - i,
    {
        let line = &lines[i];
        let mut gutter = usize_to_string(line.number);
        gutter.append(" | ");
        out.append("\n");
        out.append(pad_left(gutter.as_str(), width).as_str());
        out.append(line.before.as_str());
        out.append(line.highlight.as_str());
        out.append(line.after.as_str());
        proof {
            assert(lines@.take(i + 1).drop_last() =~= lines@.take(i as int));
        }
        i = i + 1;
    }
    assert(lines@.take(lines@.len() as int) =~= lines@);
    out
}

impl Issue {
    /// What to show for this issue: the two lines before the span, the
    /// span's lines with the span highlighted, and the two lines after it,
    /// within the file.
    pub fn layout(&self) -> (r: IssueLayout)
        ensures
            shows(*self, r),
    {
        let span = &self.span;
        let n = span.source_file.lines.len();
        let a: usize = if span.start_line < 3 { 1 } else { span.start_line - 2 };
        let z: Option<usize> = if n == 0 {
            None
        } else if span.end_line >= n - 1 || n - 1 - span.end_line <= 2 {
            Some(n - 1)
        } else {
            Some(span.end_line + 2)
        };
        let gutter_width = match z {
            Some(z) => {
                proof {
                    lemma_usize_digits(z);
                }
                chars_of(usize_to_string(z).as_str()).len() + 3
            },
            None => 4,
        };
        let mut location = span.source_file.file_path.clone();
        location.append(":");
        location.append(usize_to_string(span.start_line).as_str());
        location.append(":");
        location.append(usize_to_string(span.start_column).as_str());
        let mut lines: Vec<IssueLine> = Vec::new();
        let mut i: usize = a;
        while i < span.start_line
            invariant
                a <= i <= span.start_line || (i == a && a > span.start_line),
                a == first_shown(span.start_line as int),
                lines@.len() == i - a,
                forall|k: int| 0 <= k < lines@.len() ==> context_line(*span, #[trigger] lines@[k], a + k),
            decreases span.start_line - i,
        {
            let text = line_chars(span, i);
            lines.push(IssueLine { number: i, before: string_from_chars(&text, 0, text.len()), highlight: String::new(), after: String::new() });
            proof {
                assert(text@.subrange(0, text@.len() as int) =~= text@);
            }
            i = i + 1;
        }
        let ghost before = lines@.len() as int;
        let ghost middle: int = if span.end_line >= span.start_line { span.end_line - span.start_line + 1 } else { 0 };
        let mut j: usize = span.start_line;
        let mut done = span.end_line < span.start_line;
        while !done
            invariant
                span.start_line <= j,
                !done ==> j <= span.end_line && lines@.len() == before + (j - span.start_line),
                done ==> lines@.len() == before + middle,
                middle == (if span.end_line >= span.start_line { span.end_line - span.start_line + 1 } else { 0int }),
                before == (if span.start_line as int > a { span.start_line - a } else { 0 }),
                forall|k: int| 0 <= k < before ==> context_line(*span, #[trigger] lines@[k], a + k),
                forall|k: int| before <= k < lines@.len() ==> highlighted_line(*span, #[trigger] lines@[k], span.start_line + (k - before)),
            decreases (if done { 0int } else { span.end_line + 1 - j }),
        {
            let text = line_chars(span, j);
            let len = text.len();
            let s0: usize = if j == span.start_line { if span.start_column == 0 { 0 } else { span.start_column - 1 } } else { 0 };
            let e0: usize = if j == span.end_line { if span.end_column == 0 { 0 } else { span.end_column - 1 } } else { len };
            let s1 = if s0 > len { len } else { s0 };
            let e1 = if e0 < s1 { s1 } else if e0 > len { len } else { e0 };
            proof {
                let (ba, bb) = highlight_bounds(*span, j as int);
                assert(ba == s1 && bb == e1);
            }
            let ghost old_lines = lines@;
            lines.push(IssueLine {
                number: j,
                before: string_from_chars(&text, 0, s1),
                highlight: string_from_chars(&text, s1, e1),
                after: string_from_chars(&text, e1, len),
            });
            assert(forall|k: int| 0 <= k < old_lines.len() ==> lines@[k] == old_lines[k]);
            if j == span.end_line {
                done = true;
            } else {
                j = j + 1;
            }
        }
        if let Some(z) = z {
            if span.end_line < z {
                let mut m: usize = span.end_line + 1;
                while m <= z
                    invariant
                        span.end_line < m <= z + 1,
                        z < n,
                        n == span.source_file.lines@.len(),
                        before >= 0,
                        middle >= 0,
                        lines@.len() == before + middle + (m - span.end_line - 1),
                        forall|k: int| 0 <= k < before ==> context_line(*span, #[trigger] lines@[k], a + k),
                        forall|k: int| before <= k < before + middle ==> highlighted_line(*span, #[trigger] lines@[k], span.start_line + (k - before)),
                        forall|k: int| before + middle <= k < lines@.len() ==> context_line(*span, #[trigger] lines@[k], span.end_line + 1 + (k - before - middle)),
                    decreases z + 1 - m,
                {
                    let text = line_chars(span, m);
                    let ghost old_lines = lines@;
                    lines.push(IssueLine { number: m, before: string_from_chars(&text, 0, text.len()), highlight: String::new(), after: String::new() });
                    assert(forall|k: int| 0 <= k < old_lines.len() ==> lines@[k] == old_lines[k]);
                    proof {
                        assert(text@.subrange(0, text@.len() as int) =~= text@);
                    }
                    m = m + 1;
                }
            }
        }
        IssueLayout {
            is_error: match self.level {
                IssueLevel::Error => true,
                IssueLevel::Warning => false,
            },
            message: self.message.clone(),
            location,
            gutter_width,
            lines,
        }
    }

    /// The issue as plain text, the way it is shown without colors: a
    /// header with the kind and the message, the location, and the source
    /// lines, each behind its number in a right-aligned gutter.
    pub fn to_plain_string(&self) -> (r: String)
        ensures
            exists|l: IssueLayout| shows(*self, l) && r@ == plain_text(l),
    {
        let layout = self.layout();
        let mut out = if layout.is_error { "error: ".to_owned() } else { "warning: ".to_owned() };
        out.append(layout.message.as_str());
        out.append("\n");
        out.append(pad_left(" -->", layout.gutter_width).as_str());
        out.append(" ");
        out.append(layout.location.as_str());
        out.append(render_lines(&layout.lines, layout.gutter_width).as_str());
        assert(shows(*self, layout) && out@ == plain_text(layout));
        out
    }
}

} // verus!
