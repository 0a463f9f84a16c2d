//! The parser: turns tokens into a component's syntax tree.

use convert_case::{Case, Casing};
use vstd::prelude::*;
use vstd::string::StringExecFns;
use crate::ast::{Expr, ExprValue, Import, NumberLiteral, PropDecl, Type, Ctx};
use crate::issue::Issue;
use crate::source_file::{Span, positions, merge_positions};
use crate::table::{Table, find, lemma_find_from, lookup, unique_names};
use crate::text::{chars_of, concat, str_equal};
use crate::tokens::{Lexeme, Token, TT, Tokenizer, token_lexemes, lex_all, lex_failed};
use crate::source_file::SourceFile;

verus! {

/// A `for index, item in collection` clause on an element.
pub struct Repeater {
    pub index: Option<(String, Span)>,
    pub item: Option<(String, Span)>,
    pub collection: Expr,
    pub span: Span,
}

/// An `if condition` clause on an element.
pub struct Condition {
    pub expr: Expr,
    pub span: Span,
}

/// A property assignment `name: value;` inside an element.
pub struct PropAsgn {
    pub expr: Expr,
    pub span: Span,
}

/// An element: a component instantiation with its properties and children.
pub struct Element {
    pub path: Vec<String>,
    pub data: Option<Expr>,
    pub condition: Option<Condition>,
    pub repeater: Option<Repeater>,
    pub props: Table<PropAsgn>,
    pub children: Vec<Content>,
    pub name_span: Span,
}

/// Where a component is in the build.
#[derive(PartialEq, Eq, Structural, Clone, Copy)]
pub enum CompileStatus {
    Ready,
    Building,
    Done,
}

/// A parsed component file.
pub struct Component {
    pub name: String,
    pub root: Element,
    pub props: Table<PropDecl>,
    pub import_decls: Vec<Import>,
    pub imports_map: Table<String>,
    pub status: CompileStatus,
}

/// A placeholder for children passed in by the user of a component.
pub struct Children {
    pub single: bool,
    pub filter: Option<Vec<String>>,
}

impl Children {
    /// A copy of the placeholder.
    pub fn duplicate(&self) -> (r: Children)
        ensures
            r.single == self.single,
            r.filter is Some <==> self.filter is Some,
            self.filter matches Some(v) ==> (r.filter matches Some(w) && w@ == v@),
    {
        Children {
            single: self.single,
            filter: match &self.filter {
                Some(v) => Some(v.clone()),
                None => None,
            },
        }
    }
}

/// The content of an element: a child element or a children placeholder.
pub enum Content {
    Element(Element),
    Children(Children),
}

/// The value of a hexadecimal digit.
pub open spec fn hex_value(c: char) -> nat {
    if '0' <= c && c <= '9' {
        (c as nat - 48) as nat
    } else if 'A' <= c && c <= 'F' {
        (c as nat - 55) as nat
    } else {
        (c as nat - 87) as nat
    }
}

/// An ASCII hexadecimal digit.
pub open spec fn is_hex_byte(b: u8) -> bool {
    (48 <= b <= 57) || (65 <= b <= 70) || (97 <= b <= 102)
}

/// The value of the hexadecimal digit `hex` (an ASCII code).
pub fn hex_to_int(hex: u8) -> (r: u8)
    requires
        is_hex_byte(hex),
    ensures
        r == hex_value(hex as char),
        r < 16,
{
    if hex >= 48 && hex <= 57 {
        hex - 48
    } else if hex >= 65 && hex <= 70 {
        10 + (hex - 65)
    } else {
        10 + (hex - 97)
    }
}

/// A channel written with one digit `d` (`#rgb`): the digit repeated, `17 * d`.
pub open spec fn short_channel(d: char) -> u8 {
    (17 * hex_value(d)) as u8
}

/// A channel written with two digits.
pub open spec fn long_channel(hi: char, lo: char) -> u8 {
    (16 * hex_value(hi) + hex_value(lo)) as u8
}

/// The red, green, blue and alpha channels written by a hex color of 3, 4,
/// 6 or 8 digits; without an alpha digit the color is opaque (255).
pub open spec fn color_channels(h: Seq<char>) -> (u8, u8, u8, u8) {
    if h.len() == 3 {
        (short_channel(h[0]), short_channel(h[1]), short_channel(h[2]), 255u8)
    } else if h.len() == 4 {
        (short_channel(h[0]), short_channel(h[1]), short_channel(h[2]), short_channel(h[3]))
    } else if h.len() == 6 {
        (long_channel(h[0], h[1]), long_channel(h[2], h[3]), long_channel(h[4], h[5]), 255u8)
    } else {
        (long_channel(h[0], h[1]), long_channel(h[2], h[3]), long_channel(h[4], h[5]), long_channel(h[6], h[7]))
    }
}

/// The short forms of a hex color are the long forms with each digit
/// written twice, and a color without alpha digits is the same color with
/// alpha `ff`: fully opaque.
pub proof fn lemma_color_forms(r: char, g: char, b: char, a: char)
    requires
        crate::tokens::hex_digit_char(r),
        crate::tokens::hex_digit_char(g),
        crate::tokens::hex_digit_char(b),
        crate::tokens::hex_digit_char(a),
    ensures
        color_channels(seq![r, g, b]) == color_channels(seq![r, r, g, g, b, b]),
        color_channels(seq![r, g, b, a]) == color_channels(seq![r, r, g, g, b, b, a, a]),
        color_channels(seq![r, g, b]) == color_channels(seq![r, g, b, 'f']),
        color_channels(seq![r, r, g, g, b, b]) == color_channels(seq![r, r, g, g, b, b, 'f', 'f']),
        color_channels(seq![r, r, g, g, b, b, a, a]).3 == color_channels(seq![a, a, a, a]).0,
        color_channels(seq![r, r, g, g, b, b]).0 == 17 * hex_value(r),
{
    assert(hex_value('f') == 15);
}

fn hex_digit_byte(c: char) -> (r: u8)
    requires
        crate::tokens::hex_digit_char(c),
    ensures
        is_hex_byte(r),
        r as char == c,
{
    (c as u32) as u8
}

fn short(c: char) -> (r: u8)
    requires
        crate::tokens::hex_digit_char(c),
    ensures
        r == short_channel(c),
{
    let d = hex_to_int(hex_digit_byte(c));
    assert((d << 4u8) == d * 16) by (bit_vector)
        requires
            d < 16,
    ;
    (d << 4) + d
}

fn long(hi: char, lo: char) -> (r: u8)
    requires
        crate::tokens::hex_digit_char(hi),
        crate::tokens::hex_digit_char(lo),
    ensures
        r == long_channel(hi, lo),
{
    let h = hex_to_int(hex_digit_byte(hi));
    let l = hex_to_int(hex_digit_byte(lo));
    assert((h << 4u8) == h * 16) by (bit_vector)
        requires
            h < 16,
    ;
    (h << 4) + l
}

/// The color written by a hex color literal of 3, 4, 6 or 8 digits.
pub fn color_from_hex(hex: &str) -> (r: ExprValue)
    requires
        hex@.len() == 3 || hex@.len() == 4 || hex@.len() == 6 || hex@.len() == 8,
        forall|i: int| 0 <= i < hex@.len() ==> crate::tokens::hex_digit_char(#[trigger] hex@[i]),
    ensures
        r == (ExprValue::Color(color_channels(hex@).0, color_channels(hex@).1, color_channels(hex@).2, color_channels(hex@).3)),
{
    let h = chars_of(hex);
    if h.len() == 3 {
        ExprValue::Color(short(h[0]), short(h[1]), short(h[2]), 255)
    } else if h.len() == 4 {
        ExprValue::Color(short(h[0]), short(h[1]), short(h[2]), short(h[3]))
    } else if h.len() == 6 {
        ExprValue::Color(long(h[0], h[1]), long(h[2], h[3]), long(h[4], h[5]), 255)
    } else {
        ExprValue::Color(long(h[0], h[1]), long(h[2], h[3]), long(h[4], h[5]), long(h[6], h[7]))
    }
}

} // verus!

verus! {

/// Reads a component from its tokens, collecting an error for everything
/// that does not fit the grammar.
pub struct Parser {
    file_path: String,
    tokens: Vec<Token>,
    offset: usize,
    failed: bool,
    issues: Vec<Issue>,
}

/// The tokens the parser reads: at least one, and the last is the end of file.
pub open spec fn well_terminated(ts: Seq<Token>) -> bool {
    ts.len() >= 1 && ts.last().tok@ == Lexeme::Eof
}

/// A hex color token holds 3, 4, 6 or 8 hexadecimal digits.
pub open spec fn valid_hex_color(h: Seq<char>) -> bool {
    &&& (h.len() == 3 || h.len() == 4 || h.len() == 6 || h.len() == 8)
    &&& forall|i: int| 0 <= i < h.len() ==> crate::tokens::hex_digit_char(#[trigger] h[i])
}

/// Every hex color token is valid, as the tokenizer produces them.
pub open spec fn colors_valid(ts: Seq<Token>) -> bool {
    forall|i: int| 0 <= i < ts.len() && (#[trigger] ts[i]).tok@ is HexColor ==> valid_hex_color(ts[i].tok@->HexColor_0)
}

/// The tokens' spans are in one file and start in order.
pub open spec fn spans_ordered(ts: Seq<Token>) -> bool {
    &&& forall|i: int, k: int| 0 <= i <= k < ts.len() ==> (#[trigger] ts[i]).span.start_line <= (#[trigger] ts[k]).span.start_line
    &&& forall|i: int| 0 <= i < ts.len() ==> (#[trigger] ts[i]).span.source_file.file_path@ == ts[0].span.source_file.file_path@
}

impl Parser {
    /// The token types being parsed.
    pub closed spec fn toks(&self) -> Seq<Lexeme> {
        token_lexemes(self.tokens@)
    }

    /// The index of the current token.
    pub closed spec fn at(&self) -> int {
        self.offset as int
    }

    /// The path of the file being parsed.
    pub closed spec fn path(&self) -> Seq<char> {
        self.file_path@
    }

    /// The errors reported so far.
    pub closed spec fn issue_list(&self) -> Seq<Issue> {
        self.issues@
    }

    /// Whether an error has been reported.
    pub closed spec fn has_failed(&self) -> bool {
        self.failed
    }

    /// The parser's internal consistency.
    pub closed spec fn wf(&self) -> bool {
        &&& well_terminated(self.tokens@)
        &&& spans_ordered(self.tokens@)
        &&& colors_valid(self.tokens@)
        &&& self.offset < self.tokens@.len()
        &&& self.failed == (self.issues@.len() > 0)
        &&& forall|i: int| 0 <= i < self.issues@.len() ==> #[trigger] self.issues@[i].level == crate::issue::IssueLevel::Error
    }

    /// A span in the parsed file that starts no earlier than token `lo` and
    /// no later than token `hi`.
    pub closed spec fn span_ok(&self, s: &Span, lo: int, hi: int) -> bool {
        &&& s.source_file.file_path@ == self.tokens@[0].span.source_file.file_path@
        &&& self.tokens@[lo].span.start_line <= s.start_line <= self.tokens@[hi].span.start_line
    }

    /// `self` continues `old`: same tokens, and every earlier error kept.
    pub closed spec fn extends(&self, old: &Parser) -> bool {
        &&& self.wf()
        &&& self.tokens == old.tokens
        &&& self.file_path == old.file_path
        &&& self.issues@.len() >= old.issues@.len()
        &&& forall|i: int| 0 <= i < old.issues@.len() ==> #[trigger] self.issues@[i] == old.issues@[i]
    }

    /// `self` continues `old` and has reported at least one new error.
    pub closed spec fn extends_with_error(&self, old: &Parser) -> bool {
        &&& self.extends(old)
        &&& self.issues@.len() > old.issues@.len()
    }

    proof fn lemma_last_is_eof(&self)
        requires
            self.wf(),
        ensures
            self.toks().len() == self.tokens@.len(),
            self.toks()[self.tokens@.len() - 1] == Lexeme::Eof,
            forall|i: int| 0 <= i < self.tokens@.len() ==> #[trigger] self.toks()[i] == self.tokens@[i].tok@,
    {
    }

    proof fn lemma_ordered(&self, i: int, k: int)
        requires
            self.wf(),
            0 <= i <= k < self.tokens@.len(),
        ensures
            self.tokens@[i].span.start_line <= self.tokens@[k].span.start_line,
            self.tokens@[i].span.source_file.file_path@ == self.tokens@[0].span.source_file.file_path@,
            self.tokens@[k].span.source_file.file_path@ == self.tokens@[0].span.source_file.file_path@,
    {
        assert(self.tokens@[i].span.start_line <= self.tokens@[k].span.start_line);
    }

    /// A parser at the first of `tokens`.
    pub fn new(file_path: &String, tokens: Vec<Token>) -> (r: Parser)
        requires
            well_terminated(tokens@),
            spans_ordered(tokens@),
            colors_valid(tokens@),
        ensures
            r.wf(),
            r.toks() == token_lexemes(tokens@),
            r.at() == 0,
            r.issue_list().len() == 0,
            !r.has_failed(),
            r.path() == file_path@,
    {
        Parser { file_path: file_path.clone(), tokens, offset: 0, failed: false, issues: Vec::new() }
    }

    /// Takes the errors reported so far.
    pub fn into_issues(self) -> (r: Vec<Issue>)
        ensures
            r@ == self.issue_list(),
    {
        self.issues
    }

    fn error(&mut self, message: String, span: &Span)
        requires
            old(self).wf(),
        ensures
            final(self).extends_with_error(&*old(self)),
            final(self).offset == old(self).offset,
            final(self).issues@.len() == old(self).issues@.len() + 1,
            final(self).issues@.last().message == message,
            final(self).issues@.last().span == *span,
    {
        self.issues.push(Issue::error(message, span.duplicate()));
        self.failed = true;
        assert(self.issues@.take(old(self).issues@.len() as int) == old(self).issues@);
    }

    fn expected_error(&mut self, expected: String, found: &Token)
        requires
            old(self).wf(),
        ensures
            final(self).extends_with_error(&*old(self)),
            final(self).offset == old(self).offset,
    {
        let mut message = concat("expected ", expected.as_str());
        message.append(", found ");
        message.append(found.to_display_string().as_str());
        self.error(message, &found.span)
    }

    /// The current token.
    fn cur(&self) -> (r: &Token)
        requires
            self.wf(),
        ensures
            *r == self.tokens@[self.offset as int],
            r.tok@ == self.toks()[self.at()],
    {
        &self.tokens[self.offset]
    }

    /// The token `offset` places from the current one.
    fn cur_offset(&self, offset: isize) -> (r: &Token)
        requires
            self.wf(),
            0 <= self.offset + offset < self.tokens@.len(),
            offset > isize::MIN,
        ensures
            *r == self.tokens@[self.offset + offset],
            r.tok@ == self.toks()[self.at() + offset],
    {
        if offset < 0 {
            let back = (0 - offset) as usize;
            assert(back == -offset);
            &self.tokens[self.offset - back]
        } else {
            let ahead = offset as usize;
            let n = self.tokens.len();
            assert(ahead == offset);
            &self.tokens[self.offset + ahead]
        }
    }

    /// The index of the current token.
    fn offset(&self) -> (r: usize)
        ensures
            r == self.offset,
    {
        return self.offset;
    }

    /// Moves back (or forward) to the token at `offset`.
    fn set_offset(&mut self, offset: usize)
        requires
            old(self).wf(),
            offset < old(self).tokens@.len(),
        ensures
            final(self).offset == offset,
            final(self).tokens == old(self).tokens,
            final(self).issues == old(self).issues,
            final(self).failed == old(self).failed,
            final(self).file_path == old(self).file_path,
            final(self).wf(),
    {
        self.offset = offset;
    }

    /// Takes the current token if it is `tok` (which must not be the end of file).
    fn permit(&mut self, tok: TT) -> (r: Option<Token>)
        requires
            old(self).wf(),
            tok@ != Lexeme::Eof,
        ensures
            final(self).wf(),
            final(self).tokens == old(self).tokens,
            final(self).issues == old(self).issues,
            final(self).failed == old(self).failed,
            final(self).file_path == old(self).file_path,
            old(self).toks()[old(self).at()] == tok@ ==> {
                &&& final(self).offset == old(self).offset + 1
                &&& r matches Some(t) && t.tok@ == tok@ && t.span == old(self).tokens@[old(self).at()].span
            },
            old(self).toks()[old(self).at()] != tok@ ==> final(self).offset == old(self).offset && r is None,
    {
        proof {
            self.lemma_last_is_eof();
        }
        let n = self.tokens.len();
        if self.cur().is(tok) {
            self.offset = self.offset + 1;
            Some(self.cur_offset(-1).duplicate())
        } else {
            None
        }
    }

    /// Takes the current token, which must be `expected`; otherwise reports
    /// what was found instead.
    fn expect(&mut self, expected: TT) -> (r: Result<Token, ()>)
        requires
            old(self).wf(),
            expected@ != Lexeme::Eof,
            !(expected is Error),
        ensures
            old(self).toks()[old(self).at()] == expected@ ==> {
                &&& final(self).offset == old(self).offset + 1
                &&& final(self).issues == old(self).issues
                &&& final(self).extends(&*old(self))
                &&& r matches Ok(t) && t.tok@ == expected@ && t.span == old(self).tokens@[old(self).at()].span
            },
            old(self).toks()[old(self).at()] != expected@ ==> {
                &&& final(self).offset == old(self).offset
                &&& final(self).extends_with_error(&*old(self))
                &&& r is Err
            },
    {
        let desc = expected.desc();
        match self.permit(expected) {
            Some(t) => {
                assert(self.issues@.take(old(self).issues@.len() as int) == old(self).issues@);
                Ok(t)
            },
            None => {
                let found = self.cur().duplicate();
                self.expected_error(desc, &found);
                Err(())
            },
        }
    }
}

} // verus!

verus! {

/// The type a type name stands for.
pub open spec fn type_named(n: Seq<char>) -> Option<Type> {
    if n == "Int"@ {
        Some(Type::Int)
    } else if n == "Float"@ {
        Some(Type::Float)
    } else if n == "Length"@ {
        Some(Type::Length)
    } else if n == "Brush"@ {
        Some(Type::Brush)
    } else if n == "String"@ {
        Some(Type::String)
    } else if n == "Boolean"@ {
        Some(Type::Boolean)
    } else if n == "Alignment"@ {
        Some(Type::EnumLayout)
    } else if n == "Callback"@ {
        Some(Type::Callback)
    } else {
        None
    }
}

/// The views of a sequence of strings.
pub open spec fn string_views(v: Seq<String>) -> Seq<Seq<char>> {
    v.map_values(|s: String| s@)
}

/// The rest of a dotted path after its first name, read from token `i`:
/// `.name` or an enum token adds a segment. Gives the segments, the index
/// after them, and whether they were well formed (a `.` must be followed by
/// a name).
pub open spec fn path_rest(t: Seq<Lexeme>, i: int) -> (Seq<Seq<char>>, int, bool)
    decreases t.len() - i,
{
    if i < 0 || i + 1 >= t.len() {
        (Seq::empty(), i, true)
    } else if t[i] is Period {
        if t[i + 1] is Name {
            let r = path_rest(t, i + 2);
            (seq![t[i + 1]->Name_0] + r.0, r.1, r.2)
        } else {
            (Seq::empty(), i + 1, false)
        }
    } else if t[i] is Enum {
        let r = path_rest(t, i + 1);
        (seq![t[i]->Enum_0] + r.0, r.1, r.2)
    } else {
        (Seq::empty(), i, true)
    }
}

/// The line and column positions covering `a` and then `b`, as
/// `merge_positions` gives them for two spans.
pub open spec fn merge_pos(a: (usize, usize, usize, usize), b: (usize, usize, usize, usize)) -> (usize, usize, usize, usize) {
    let start_line = if a.0 <= b.0 { a.0 } else { b.0 };
    let end_line = if a.2 >= b.2 { a.2 } else { b.2 };
    if start_line == end_line {
        (start_line, if a.1 <= b.1 { a.1 } else { b.1 }, end_line, if a.3 >= b.3 { a.3 } else { b.3 })
    } else {
        (start_line, a.1, end_line, b.3)
    }
}

/// The positions of a path's span: `acc` covers the path up to token `i`,
/// and each further name (after a `.`, or an enum token) is merged in, as
/// far as `path_rest` reads the path.
pub open spec fn path_span(ts: Seq<Token>, i: int, acc: (usize, usize, usize, usize)) -> (usize, usize, usize, usize)
    decreases ts.len() - i,
{
    if i < 0 || i + 1 >= ts.len() {
        acc
    } else if ts[i].tok@ is Period {
        if ts[i + 1].tok@ is Name {
            path_span(ts, i + 2, merge_pos(acc, positions(&ts[i + 1].span)))
        } else {
            acc
        }
    } else if ts[i].tok@ is Enum {
        path_span(ts, i + 1, merge_pos(acc, positions(&ts[i].span)))
    } else {
        acc
    }
}

impl Parser {
    proof fn lemma_extends_trans(a: &Parser, b: &Parser, c: &Parser)
        requires
            a.extends(b),
            b.extends(c),
        ensures
            a.extends(c),
            a.extends_with_error(b) || b.extends_with_error(c) ==> a.extends_with_error(c),
    {
        assert(a.issues@.take(c.issues@.len() as int) == a.issues@.take(b.issues@.len() as int).take(c.issues@.len() as int));
    }

    proof fn lemma_extends_refl(a: &Parser)
        requires
            a.wf(),
        ensures
            a.extends(a),
    {
        assert(a.issues@.take(a.issues@.len() as int) == a.issues@);
    }

    /// Takes the current token if it is a name.
    fn permit_name(&mut self) -> (r: Option<(String, Span)>)
        requires
            old(self).wf(),
        ensures
            final(self).wf(),
            final(self).tokens == old(self).tokens,
            final(self).issues == old(self).issues,
            final(self).failed == old(self).failed,
            final(self).file_path == old(self).file_path,
            old(self).toks()[old(self).at()] is Name ==> {
                &&& final(self).offset == old(self).offset + 1
                &&& r matches Some((d, sp)) && d@ == old(self).toks()[old(self).at()]->Name_0
                    && sp == old(self).tokens@[old(self).at()].span
            },
            !(old(self).toks()[old(self).at()] is Name) ==> final(self).offset == old(self).offset && r is None,
    {
        proof {
            self.lemma_last_is_eof();
        }
        let n = self.tokens.len();
        let cur = self.cur();
        if let TT::Name(data) = &cur.tok {
            let data = data.clone();
            let span = cur.span.duplicate();
            self.offset = self.offset + 1;
            Some((data, span))
        } else {
            None
        }
    }

    /// Takes the current token if it is a string literal.
    fn permit_string(&mut self) -> (r: Option<(String, Span)>)
        requires
            old(self).wf(),
        ensures
            final(self).wf(),
            final(self).tokens == old(self).tokens,
            final(self).issues == old(self).issues,
            final(self).failed == old(self).failed,
            final(self).file_path == old(self).file_path,
            old(self).toks()[old(self).at()] is Str ==> {
                &&& final(self).offset == old(self).offset + 1
                &&& r matches Some((d, sp)) && d@ == old(self).toks()[old(self).at()]->Str_0
                    && sp == old(self).tokens@[old(self).at()].span
            },
            !(old(self).toks()[old(self).at()] is Str) ==> final(self).offset == old(self).offset && r is None,
    {
        proof {
            self.lemma_last_is_eof();
        }
        let n = self.tokens.len();
        let cur = self.cur();
        if let TT::String(data) = &cur.tok {
            let data = data.clone();
            let span = cur.span.duplicate();
            self.offset = self.offset + 1;
            Some((data, span))
        } else {
            None
        }
    }

    /// Takes the current token if it is a hex color.
    fn permit_hex_color(&mut self) -> (r: Option<(String, Span)>)
        requires
            old(self).wf(),
        ensures
            final(self).wf(),
            final(self).tokens == old(self).tokens,
            final(self).issues == old(self).issues,
            final(self).failed == old(self).failed,
            final(self).file_path == old(self).file_path,
            old(self).toks()[old(self).at()] is HexColor ==> {
                &&& final(self).offset == old(self).offset + 1
                &&& r matches Some((d, sp)) && d@ == old(self).toks()[old(self).at()]->HexColor_0
                    && sp == old(self).tokens@[old(self).at()].span
            },
            !(old(self).toks()[old(self).at()] is HexColor) ==> final(self).offset == old(self).offset && r is None,
    {
        proof {
            self.lemma_last_is_eof();
        }
        let n = self.tokens.len();
        let cur = self.cur();
        if let TT::HexColor(data) = &cur.tok {
            let data = data.clone();
            let span = cur.span.duplicate();
            self.offset = self.offset + 1;
            Some((data, span))
        } else {
            None
        }
    }

    /// Takes the current token if it is an enum literal.
    fn permit_enum(&mut self) -> (r: Option<(String, Span)>)
        requires
            old(self).wf(),
        ensures
            final(self).wf(),
            final(self).tokens == old(self).tokens,
            final(self).issues == old(self).issues,
            final(self).failed == old(self).failed,
            final(self).file_path == old(self).file_path,
            old(self).toks()[old(self).at()] is Enum ==> {
                &&& final(self).offset == old(self).offset + 1
                &&& r matches Some((d, sp)) && d@ == old(self).toks()[old(self).at()]->Enum_0
                    && sp == old(self).tokens@[old(self).at()].span
            },
            !(old(self).toks()[old(self).at()] is Enum) ==> final(self).offset == old(self).offset && r is None,
    {
        proof {
            self.lemma_last_is_eof();
        }
        let n = self.tokens.len();
        let cur = self.cur();
        if let TT::Enum(data) = &cur.tok {
            let data = data.clone();
            let span = cur.span.duplicate();
            self.offset = self.offset + 1;
            Some((data, span))
        } else {
            None
        }
    }

    /// Takes the current token if it is a number: its digits, whether it has
    /// a fractional part, and its suffix.
    fn permit_number(&mut self) -> (r: Option<((String, bool, String), Span)>)
        requires
            old(self).wf(),
        ensures
            final(self).wf(),
            final(self).tokens == old(self).tokens,
            final(self).issues == old(self).issues,
            final(self).failed == old(self).failed,
            final(self).file_path == old(self).file_path,
            old(self).toks()[old(self).at()] is Number ==> {
                &&& final(self).offset == old(self).offset + 1
                &&& r matches Some(((d, f, x), sp)) && d@ == old(self).toks()[old(self).at()]->Number_0
                    && f == old(self).toks()[old(self).at()]->Number_1
                    && x@ == old(self).toks()[old(self).at()]->Number_2
                    && sp == old(self).tokens@[old(self).at()].span
            },
            !(old(self).toks()[old(self).at()] is Number) ==> final(self).offset == old(self).offset && r is None,
    {
        proof {
            self.lemma_last_is_eof();
        }
        let n = self.tokens.len();
        let cur = self.cur();
        if let TT::Number((d, f, x)) = &cur.tok {
            let data = (d.clone(), *f, x.clone());
            let span = cur.span.duplicate();
            self.offset = self.offset + 1;
            Some((data, span))
        } else {
            None
        }
    }

    /// Takes the current token, which must be a name.
    fn expect_name(&mut self) -> (r: Result<(String, Span), ()>)
        requires
            old(self).wf(),
        ensures
            final(self).extends(&*old(self)),
            old(self).toks()[old(self).at()] is Name ==> {
                &&& final(self).offset == old(self).offset + 1
                &&& final(self).issues == old(self).issues
                &&& r matches Ok((d, sp)) && d@ == old(self).toks()[old(self).at()]->Name_0
                    && sp == old(self).tokens@[old(self).at()].span
            },
            !(old(self).toks()[old(self).at()] is Name) ==> {
                &&& final(self).offset == old(self).offset
                &&& final(self).extends_with_error(&*old(self))
                &&& r is Err
            },
    {
        match self.permit_name() {
            Some(x) => {
                proof {
                    Self::lemma_extends_refl(&*self);
                }
                Ok(x)
            },
            None => {
                let found = self.cur().duplicate();
                self.expected_error("name".to_owned(), &found);
                Err(())
            },
        }
    }

    /// Takes the current token, which must be a string literal.
    fn expect_string(&mut self) -> (r: Result<(String, Span), ()>)
        requires
            old(self).wf(),
        ensures
            final(self).extends(&*old(self)),
            old(self).toks()[old(self).at()] is Str ==> {
                &&& final(self).offset == old(self).offset + 1
                &&& final(self).issues == old(self).issues
                &&& r matches Ok((d, sp)) && d@ == old(self).toks()[old(self).at()]->Str_0
                    && sp == old(self).tokens@[old(self).at()].span
            },
            !(old(self).toks()[old(self).at()] is Str) ==> {
                &&& final(self).offset == old(self).offset
                &&& final(self).extends_with_error(&*old(self))
                &&& r is Err
            },
    {
        match self.permit_string() {
            Some(x) => {
                proof {
                    Self::lemma_extends_refl(&*self);
                }
                Ok(x)
            },
            None => {
                let found = self.cur().duplicate();
                self.expected_error("string".to_owned(), &found);
                Err(())
            },
        }
    }

    /// Takes the current token, which must be a number.
    fn expect_number(&mut self) -> (r: Result<((String, bool, String), Span), ()>)
        requires
            old(self).wf(),
        ensures
            final(self).extends(&*old(self)),
            old(self).toks()[old(self).at()] is Number ==> {
                &&& final(self).offset == old(self).offset + 1
                &&& final(self).issues == old(self).issues
                &&& r matches Ok(((d, f, x), sp)) && d@ == old(self).toks()[old(self).at()]->Number_0
                    && f == old(self).toks()[old(self).at()]->Number_1
                    && x@ == old(self).toks()[old(self).at()]->Number_2
                    && sp == old(self).tokens@[old(self).at()].span
            },
            !(old(self).toks()[old(self).at()] is Number) ==> {
                &&& final(self).offset == old(self).offset
                &&& final(self).extends_with_error(&*old(self))
                &&& r is Err
            },
    {
        match self.permit_number() {
            Some(x) => {
                proof {
                    Self::lemma_extends_refl(&*self);
                }
                Ok(x)
            },
            None => {
                let found = self.cur().duplicate();
                self.expected_error("number".to_owned(), &found);
                Err(())
            },
        }
    }
}

} // verus!

verus! {

impl Parser {
    /// Requires a `;` unless the current token closes a block or a group.
    fn expect_statement_separator(&mut self) -> (r: Result<(), ()>)
        requires
            old(self).wf(),
        ensures
            final(self).extends(&*old(self)),
            ({
                let t = old(self).toks()[old(self).at()];
                if t is RBrace || t is RParen {
                    final(self).offset == old(self).offset && final(self).issues == old(self).issues && r is Ok
                } else if t is Semicolon {
                    final(self).offset == old(self).offset + 1 && final(self).issues == old(self).issues && r is Ok
                } else {
                    final(self).offset == old(self).offset && final(self).extends_with_error(&*old(self)) && r is Err
                }
            }),
    {
        if !(self.cur().is(TT::RBrace) || self.cur().is(TT::RParen)) {
            self.expect(TT::Semicolon)?;
        } else {
            proof {
                Self::lemma_extends_refl(&*self);
            }
        }
        Ok(())
    }

    /// Reads a type name.
    fn parse_type(&mut self) -> (r: Result<(Type, Span), ()>)
        requires
            old(self).wf(),
        ensures
            final(self).extends(&*old(self)),
            ({
                let t = old(self).toks()[old(self).at()];
                if t is Name && type_named(t->Name_0) is Some {
                    &&& final(self).offset == old(self).offset + 1
                    &&& final(self).issues == old(self).issues
                    &&& r matches Ok((ty, sp)) && ty == type_named(t->Name_0)->0
                        && sp == old(self).tokens@[old(self).at()].span
                } else {
                    &&& final(self).extends_with_error(&*old(self))
                    &&& r is Err
                }
            }),
    {
        if let Some((name, span)) = self.permit_name() {
            let n = name.as_str();
            proof {
                Self::lemma_extends_refl(&*self);
            }
            if str_equal(n, "Int") {
                Ok((Type::Int, span))
            } else if str_equal(n, "Float") {
                Ok((Type::Float, span))
            } else if str_equal(n, "Length") {
                Ok((Type::Length, span))
            } else if str_equal(n, "Brush") {
                Ok((Type::Brush, span))
            } else if str_equal(n, "String") {
                Ok((Type::String, span))
            } else if str_equal(n, "Boolean") {
                Ok((Type::Boolean, span))
            } else if str_equal(n, "Alignment") {
                Ok((Type::EnumLayout, span))
            } else if str_equal(n, "Callback") {
                Ok((Type::Callback, span))
            } else {
                let message = concat("unrecognized type: ", n);
                self.error(message, &span);
                Err(())
            }
        } else {
            let found = self.cur().duplicate();
            self.expected_error("type".to_owned(), &found);
            Err(())
        }
    }

    /// Reads a dotted path: a name followed by `.name` or `.enum` segments.
    fn parse_path(&mut self) -> (r: Result<(Vec<String>, Span), ()>)
        requires
            old(self).wf(),
        ensures
            final(self).extends(&*old(self)),
            ({
                let t = old(self).toks();
                let o = old(self).at();
                let rest = path_rest(t, o + 1);
                if t[o] is Name && rest.2 {
                    &&& final(self).at() == rest.1
                    &&& final(self).at() > o
                    &&& final(self).issues == old(self).issues
                    &&& r matches Ok((path, sp)) && string_views(path@) == seq![t[o]->Name_0] + rest.0
                        && final(self).span_ok(&sp, o, final(self).at())
                        && sp.start_line == old(self).tokens@[o].span.start_line
                        && positions(&sp) == path_span(old(self).tokens@, o + 1, positions(&old(self).tokens@[o].span))
                } else {
                    &&& final(self).extends_with_error(&*old(self))
                    &&& r is Err
                }
            }),
    {
        let ghost o = self.offset as int;
        let ghost t = self.toks();
        let (name, mut full_span) = self.expect_name()?;
        let mut path: Vec<String> = Vec::new();
        path.push(name);
        proof {
            self.lemma_last_is_eof();
        }
        loop
            invariant_except_break
                self.wf(),
                self.tokens == old(self).tokens,
                self.issues == old(self).issues,
                self.file_path == old(self).file_path,
                t == self.toks(),
                o == old(self).at(),
                0 <= o < self.tokens@.len(),
                t[o] is Name,
                self.offset > o,
                path@.len() >= 1,
                path_rest(t, o + 1) == (
                    string_views(path@).drop_first() + path_rest(t, self.offset as int).0,
                    path_rest(t, self.offset as int).1,
                    path_rest(t, self.offset as int).2,
                ),
                string_views(path@)[0] == t[o]->Name_0,
                full_span.start_line == self.tokens@[o].span.start_line,
                full_span.source_file.file_path@ == self.tokens@[0].span.source_file.file_path@,
                path_span(self.tokens@, o + 1, positions(&self.tokens@[o].span))
                    == path_span(self.tokens@, self.offset as int, positions(&full_span)),
            ensures
                self.wf(),
                self.tokens == old(self).tokens,
                self.file_path == old(self).file_path,
                self.offset > o,
                0 <= o < self.tokens@.len(),
                path_rest(t, o + 1).2,
                self.issues == old(self).issues,
                self.offset == path_rest(t, o + 1).1,
                string_views(path@) == seq![t[o]->Name_0] + path_rest(t, o + 1).0,
                full_span.start_line == self.tokens@[o].span.start_line,
                full_span.source_file.file_path@ == self.tokens@[0].span.source_file.file_path@,
                path_span(self.tokens@, o + 1, positions(&self.tokens@[o].span)) == positions(&full_span),
            decreases self.tokens@.len() - self.offset,
        {
            proof {
                self.lemma_last_is_eof();
            }
            let ghost before = self.offset as int;
            if let Some(_) = self.permit(TT::Period) {
                match self.expect_name() {
                    Ok((name, span)) => {
                        full_span = full_span.merge(&span);
                        let ghost old_path = path@;
                        path.push(name);
                        assert(string_views(path@) == string_views(old_path).push(name@));
                        assert(string_views(path@).drop_first() == string_views(old_path).drop_first() + seq![name@]);
                    },
                    Err(()) => {
                        assert(before + 1 < self.tokens@.len());
                        assert(path_rest(t, before) == (Seq::<Seq<char>>::empty(), before + 1, false));
                        return Err(());
                    },
                }
            } else if let Some((name, span)) = self.permit_enum() {
                full_span = full_span.merge(&span);
                let ghost old_path = path@;
                path.push(name);
                assert(string_views(path@) == string_views(old_path).push(name@));
                assert(string_views(path@).drop_first() == string_views(old_path).drop_first() + seq![name@]);
            } else {
                assert(path_rest(t, self.offset as int).0 == Seq::<Seq<char>>::empty());
                assert(string_views(path@) == seq![t[o]->Name_0] + string_views(path@).drop_first());
                break;
            }
        }
        proof {
            Self::lemma_extends_refl(&*self);
        }
        proof {
            self.lemma_ordered(o, self.at());
        }
        Ok((path, full_span))
    }
}

} // verus!

verus! {

/// The import declarations at the start of the token stream from `i`: each
/// is `import "path";` or `import "path" as Alias;`. Gives the path and alias
/// of each, the index after them, and whether they were all well formed.
pub open spec fn imports_spec(t: Seq<Lexeme>, i: int) -> (Seq<(Seq<char>, Option<Seq<char>>)>, int, bool)
    decreases t.len() - i,
{
    if i < 0 || i >= t.len() || !(t[i] is Import) {
        (Seq::empty(), i, true)
    } else if i + 2 >= t.len() || !(t[i + 1] is Str) {
        (Seq::empty(), i, false)
    } else if t[i + 2] is As {
        if i + 4 < t.len() && t[i + 3] is Name && t[i + 4] is Semicolon {
            let r = imports_spec(t, i + 5);
            (seq![(t[i + 1]->Str_0, Some(t[i + 3]->Name_0))] + r.0, r.1, r.2)
        } else {
            (Seq::empty(), i, false)
        }
    } else if t[i + 2] is Semicolon {
        let r = imports_spec(t, i + 3);
        (seq![(t[i + 1]->Str_0, None::<Seq<char>>)] + r.0, r.1, r.2)
    } else {
        (Seq::empty(), i, false)
    }
}

/// The path and alias of an import.
pub open spec fn import_view(i: Import) -> (Seq<char>, Option<Seq<char>>) {
    (i.path@, match i.alias {
        Some(a) => Some(a@),
        None => None,
    })
}

impl Parser {
    /// Reads the import declarations at the start of a file.
    fn parse_imports(&mut self) -> (r: Result<Vec<Import>, ()>)
        requires
            old(self).wf(),
        ensures
            final(self).extends(&*old(self)),
            ({
                let spec = imports_spec(old(self).toks(), old(self).at());
                if spec.2 {
                    &&& final(self).at() == spec.1
                    &&& final(self).issues == old(self).issues
                    &&& r matches Ok(v) && v@.map_values(|i: Import| import_view(i)) == spec.0
                } else {
                    &&& final(self).extends_with_error(&*old(self))
                    &&& r is Err
                }
            }),
    {
        let ghost t = self.toks();
        let ghost o = self.offset as int;
        let mut imports: Vec<Import> = Vec::new();
        proof {
            Self::lemma_extends_refl(&*self);
        }
        loop
            invariant_except_break
                self.wf(),
                self.tokens == old(self).tokens,
                self.issues == old(self).issues,
                self.file_path == old(self).file_path,
                t == self.toks(),
                o == old(self).at(),
                self.offset >= o,
                imports_spec(t, o) == (
                    imports@.map_values(|i: Import| import_view(i)) + imports_spec(t, self.offset as int).0,
                    imports_spec(t, self.offset as int).1,
                    imports_spec(t, self.offset as int).2,
                ),
            ensures
                self.wf(),
                self.tokens == old(self).tokens,
                self.file_path == old(self).file_path,
                imports_spec(t, o).2,
                self.issues == old(self).issues,
                self.offset == imports_spec(t, o).1,
                imports@.map_values(|i: Import| import_view(i)) == imports_spec(t, o).0,
            decreases self.tokens@.len() - self.offset,
        {
            proof {
                self.lemma_last_is_eof();
            }
            let ghost i = self.offset as int;
            let import_tok = self.permit(TT::Import);
            if import_tok.is_none() {
                assert(imports_spec(t, i) == (Seq::<(Seq<char>, Option<Seq<char>>)>::empty(), i, true));
                assert(imports@.map_values(|i: Import| import_view(i)) + Seq::<(Seq<char>, Option<Seq<char>>)>::empty() == imports@.map_values(|i: Import| import_view(i)));
                break;
            }
            let span = import_tok.unwrap().span;
            proof {
                self.lemma_last_is_eof();
            }
            let (path, _) = match self.expect_string() {
                Ok(x) => x,
                Err(()) => {
                    return Err(());
                },
            };
            proof {
                self.lemma_last_is_eof();
            }
            let alias = if self.permit(TT::As).is_some() {
                match self.expect_name() {
                    Ok((a, _)) => Some(a),
                    Err(()) => {
                        return Err(());
                    },
                }
            } else {
                None
            };
            let end_span = match self.expect(TT::Semicolon) {
                Ok(tok) => tok.span,
                Err(()) => {
                    return Err(());
                },
            };
            proof {
                self.lemma_ordered(i, self.offset - 1);
            }
            let import = Import { path, alias, span: span.merge(&end_span) };
            let ghost old_imports = imports@;
            imports.push(import);
            assert(imports@.map_values(|i: Import| import_view(i)) == old_imports.map_values(|i: Import| import_view(i)).push(import_view(import)));
        }
        proof {
            Self::lemma_extends_refl(&*self);
        }
        Ok(imports)
    }
}

} // verus!

verus! {

/// The value of a literal expression.
pub enum Literal {
    Px(Seq<char>, bool),
    Float(Seq<char>, bool),
    Int(Seq<char>, bool),
    Color(u8, u8, u8, u8),
    Str(Seq<char>),
    Enum(Seq<char>),
    Boolean(bool),
}

/// The literal an expression value is, if it is one.
pub open spec fn literal_of(v: ExprValue) -> Option<Literal> {
    match v {
        ExprValue::Px(n) => Some(Literal::Px(n.digits@, n.negative)),
        ExprValue::Float(n) => Some(Literal::Float(n.digits@, n.negative)),
        ExprValue::Int(n) => Some(Literal::Int(n.digits@, n.negative)),
        ExprValue::Color(r, g, b, a) => Some(Literal::Color(r, g, b, a)),
        ExprValue::String(s) => Some(Literal::Str(s@)),
        ExprValue::Enum(s, None) => Some(Literal::Enum(s@)),
        ExprValue::Boolean(b) => Some(Literal::Boolean(b)),
        _ => None,
    }
}

/// A number with its suffix: `px` makes a length, no suffix a float (with a
/// fractional part) or an integer; any other suffix is not accepted.
pub open spec fn number_literal(digits: Seq<char>, float: bool, suffix: Seq<char>, negative: bool) -> Option<Literal> {
    if suffix == "px"@ {
        Some(Literal::Px(digits, negative))
    } else if suffix.len() == 0 {
        if float {
            Some(Literal::Float(digits, negative))
        } else {
            Some(Literal::Int(digits, negative))
        }
    } else {
        None
    }
}

/// The literal starting at token `o`, and the index after it: `None` inside
/// when the tokens there start a literal that is not well formed, `None`
/// outside when they do not start a literal.
pub open spec fn literal_at(t: Seq<Lexeme>, o: int) -> Option<(Option<Literal>, int)> {
    if o < 0 || o + 1 >= t.len() {
        None
    } else {
        match t[o] {
            Lexeme::Minus => if t[o + 1] is Number {
                Some((number_literal(t[o + 1]->Number_0, t[o + 1]->Number_1, t[o + 1]->Number_2, true), o + 2))
            } else {
                Some((None, o + 1))
            },
            Lexeme::Plus => if t[o + 1] is Number {
                Some((number_literal(t[o + 1]->Number_0, t[o + 1]->Number_1, t[o + 1]->Number_2, false), o + 2))
            } else {
                Some((None, o + 1))
            },
            Lexeme::Number(d, f, x) => Some((number_literal(d, f, x, false), o + 1)),
            Lexeme::HexColor(h) => {
                let c = color_channels(h);
                Some((Some(Literal::Color(c.0, c.1, c.2, c.3)), o + 1))
            },
            Lexeme::True => Some((Some(Literal::Boolean(true)), o + 1)),
            Lexeme::False => Some((Some(Literal::Boolean(false)), o + 1)),
            Lexeme::Str(s) => Some((Some(Literal::Str(s)), o + 1)),
            Lexeme::Enum(s) => Some((Some(Literal::Enum(s)), o + 1)),
            _ => None,
        }
    }
}

/// A number read after a minus sign is the same literal as the number read
/// alone, negative; after a plus sign it is the number read alone. A `px`
/// suffix makes a length, no suffix a float (with a fractional part) or an
/// integer.
pub proof fn lemma_signed_numbers(t: Seq<Lexeme>, o: int)
    requires
        0 <= o,
        o + 2 < t.len(),
        t[o + 1] is Number,
    ensures
        ({
            let d = t[o + 1]->Number_0;
            let x = t[o + 1]->Number_2;
            &&& x == "px"@ ==> literal_at(t, o + 1) == Some((Some(Literal::Px(d, false)), o + 2))
                && (t[o] is Minus ==> literal_at(t, o) == Some((Some(Literal::Px(d, true)), o + 2)))
                && (t[o] is Plus ==> literal_at(t, o) == Some((Some(Literal::Px(d, false)), o + 2)))
            &&& x.len() == 0 && t[o + 1]->Number_1 ==> literal_at(t, o + 1) == Some((Some(Literal::Float(d, false)), o + 2))
                && (t[o] is Minus ==> literal_at(t, o) == Some((Some(Literal::Float(d, true)), o + 2)))
                && (t[o] is Plus ==> literal_at(t, o) == Some((Some(Literal::Float(d, false)), o + 2)))
            &&& x.len() == 0 && !t[o + 1]->Number_1 ==> literal_at(t, o + 1) == Some((Some(Literal::Int(d, false)), o + 2))
                && (t[o] is Minus ==> literal_at(t, o) == Some((Some(Literal::Int(d, true)), o + 2)))
                && (t[o] is Plus ==> literal_at(t, o) == Some((Some(Literal::Int(d, false)), o + 2)))
            &&& (t[o] is Minus || t[o] is Plus) ==> literal_at(t, o) is Some
                && ((literal_at(t, o)->0).0 is None <==> (literal_at(t, o + 1)->0).0 is None)
        }),
{
    reveal_strlit("px");
}

/// The structure of an expression as the parser reads it.
pub enum ExprShape {
    Lit(Literal),
    Path(Seq<Seq<char>>),
    Call(Box<ExprShape>, Seq<ExprShape>),
}

/// The value at token `i` (a literal, or an expression in parentheses) and
/// the index after it; `None` where the parser reports an error.
pub open spec fn value_at(t: Seq<Lexeme>, i: int) -> Option<(ExprShape, int)>
    decreases t.len() - i, (if 0 <= i < t.len() && t[i] is LParen { 3int } else { 0int }),
{
    match literal_at(t, i) {
        Some((Some(l), end)) => Some((ExprShape::Lit(l), end)),
        Some((None, _)) => None,
        None => if 0 <= i < t.len() && t[i] is LParen {
            expr_at(t, i)
        } else {
            None
        },
    }
}

/// The expression at token `i` (a path or a value, followed by any number
/// of argument lists, optionally all in parentheses) and the index after
/// it; `None` where the parser reports an error.
pub open spec fn expr_at(t: Seq<Lexeme>, i: int) -> Option<(ExprShape, int)>
    decreases t.len() - i, 2int,
{
    if i < 0 || i >= t.len() {
        None
    } else {
        let paren = t[i] is LParen;
        let i1 = if paren { i + 1 } else { i };
        let first: Option<(ExprShape, int)> = if i1 < t.len() && t[i1] is Name {
            let r = path_rest(t, i1 + 1);
            if r.2 {
                Some((ExprShape::Path(seq![t[i1]->Name_0] + r.0), r.1))
            } else {
                None
            }
        } else {
            value_at(t, i1)
        };
        match first {
            None => None,
            Some((e, p)) => if p <= i || p >= t.len() {
                None
            } else {
                match calls_from(t, p, e) {
                    None => None,
                    Some((e2, p2)) => if paren {
                        if 0 <= p2 < t.len() && t[p2] is RParen {
                            Some((e2, p2 + 1))
                        } else {
                            None
                        }
                    } else {
                        Some((e2, p2))
                    },
                }
            },
        }
    }
}

/// The calls of `e` from token `p` on: each argument list makes a call of
/// what comes before it.
pub open spec fn calls_from(t: Seq<Lexeme>, p: int, e: ExprShape) -> Option<(ExprShape, int)>
    decreases t.len() - p, 1int,
{
    if 0 <= p < t.len() && t[p] is LParen {
        match args_from(t, p + 1, Seq::empty()) {
            None => None,
            Some((args, q)) => if q <= p || q > t.len() {
                None
            } else {
                calls_from(t, q, ExprShape::Call(Box::new(e), args))
            },
        }
    } else {
        Some((e, p))
    }
}

/// The arguments from token `q` to the closing parenthesis, after the
/// arguments `acc` read so far, separated by commas; and the index after
/// the parenthesis.
pub open spec fn args_from(t: Seq<Lexeme>, q: int, acc: Seq<ExprShape>) -> Option<(Seq<ExprShape>, int)>
    decreases t.len() - q, 4int,
{
    if q < 0 || q >= t.len() {
        None
    } else if t[q] is RParen {
        Some((acc, q + 1))
    } else if t[q] is Eof {
        None
    } else {
        match expr_at(t, q) {
            None => None,
            Some((a, q2)) => if q2 <= q || q2 >= t.len() {
                None
            } else if t[q2] is Comma {
                args_from(t, q2 + 1, acc.push(a))
            } else if t[q2] is RParen {
                args_from(t, q2, acc.push(a))
            } else {
                None
            },
        }
    }
}

/// Adding an expression and its structure at the end leaves the structures
/// of the ones before as they were.
pub proof fn lemma_args_shaped_push(xs: Seq<Expr>, ss: Seq<ExprShape>, x: Expr, s: ExprShape, k: int)
    requires
        0 <= k <= xs.len(),
        xs.len() == ss.len(),
    ensures
        args_shaped(xs.push(x), ss.push(s), k) == args_shaped(xs, ss, k),
    decreases k,
{
    if k > 0 {
        lemma_args_shaped_push(xs, ss, x, s, k - 1);
        assert(xs.push(x)[k - 1] == xs[k - 1]);
        assert(ss.push(s)[k - 1] == ss[k - 1]);
    }
}

/// The expression `e` has the structure `s`.
pub open spec fn has_shape(e: Expr, s: ExprShape) -> bool
    decreases s, 1int, 0int,
{
    match s {
        ExprShape::Lit(l) => literal_of(e.value) == Some(l),
        ExprShape::Path(p) => e.value matches ExprValue::Path(q, ctx) && string_views(q@) == p && ctx == Ctx::Component,
        ExprShape::Call(f, args) => match e.value {
            ExprValue::FunctionCall(g, xs) => has_shape(*g, *f) && xs@.len() == args.len() && args_shaped(xs@, args, args.len() as int),
            _ => false,
        },
    }
}

/// The first `k` expressions `xs` have the structures `ss`.
pub open spec fn args_shaped(xs: Seq<Expr>, ss: Seq<ExprShape>, k: int) -> bool
    decreases ss, 0int, k,
{
    if k <= 0 || k > ss.len() || k > xs.len() {
        true
    } else {
        args_shaped(xs, ss, k - 1) && has_shape(xs[k - 1], ss[k - 1])
    }
}

impl Parser {
    /// Reads a value: a literal, or a parenthesized expression.
    fn parse_value(&mut self) -> (r: Result<Expr, ()>)
        requires
            old(self).wf(),
        ensures
            final(self).extends(&*old(self)),
            r is Err ==> final(self).extends_with_error(&*old(self)),
            r is Ok ==> final(self).issues == old(self).issues,
            r matches Ok(e) ==> {
                &&& final(self).at() > old(self).at()
                &&& final(self).span_ok(&e.span, old(self).at(), final(self).at())
            },
            ({
                let t = old(self).toks();
                let o = old(self).at();
                match literal_at(t, o) {
                    Some((Some(l), end)) => {
                        &&& r matches Ok(e) && literal_of(e.value) == Some(l)
                        &&& final(self).at() == end
                        &&& final(self).issues == old(self).issues
                    },
                    Some((None, _)) => r is Err,
                    None => !(t[o] is LParen) ==> r is Err,
                }
            }),
            ({
                let v = value_at(old(self).toks(), old(self).at());
                &&& (r is Ok <==> v is Some)
                &&& r matches Ok(e) ==> (v matches Some((sh, end)) && has_shape(e, sh) && final(self).at() == end)
            }),
            ({
                let t = old(self).toks();
                let o = old(self).at();
                let k = if t[o] is Minus || t[o] is Plus { o + 1 } else { o };
                (k < t.len() && t[k] is Number && number_literal(t[k]->Number_0, t[k]->Number_1, t[k]->Number_2, false) is None) ==> {
                    &&& final(self).issue_list().len() == old(self).issue_list().len() + 1
                    &&& final(self).issue_list().last().message@ == "unrecognized numerical suffix: `"@ + t[k]->Number_2 + "`"@
                    &&& positions(&final(self).issue_list().last().span) == merge_positions(&old(self).tokens@[o].span, &old(self).tokens@[k].span)
                }
            }),
        decreases old(self).tokens@.len() - old(self).offset, (if old(self).toks()[old(self).at()] is LParen { 2int } else { 0int }),
    {
        let ghost o = self.offset as int;
        proof {
            self.lemma_last_is_eof();
            Self::lemma_extends_refl(&*self);
        }
        let num_tok = if let Some(tok) = self.permit(TT::Minus) {
            let (num, span) = self.expect_number()?;
            proof {
                self.lemma_ordered(o, o + 1);
            }
            Some((num, true, tok.span.merge(&span)))
        } else if let Some(tok) = self.permit(TT::Plus) {
            let (num, span) = self.expect_number()?;
            proof {
                self.lemma_ordered(o, o + 1);
            }
            Some((num, false, tok.span.merge(&span)))
        } else if let Some((num, span)) = self.permit_number() {
            Some((num, false, span))
        } else {
            None
        };
        proof {
            self.lemma_ordered(o, self.offset as int);
        }
        if let Some(((num, float, suffix), negative, span)) = num_tok {
            let literal = NumberLiteral { digits: num, negative };
            if str_equal(suffix.as_str(), "px") {
                Ok(Expr { value: ExprValue::Px(literal), span })
            } else if chars_of(suffix.as_str()).len() == 0 {
                let value = if float { ExprValue::Float(literal) } else { ExprValue::Int(literal) };
                Ok(Expr { value, span })
            } else {
                let mut message = concat("unrecognized numerical suffix: `", suffix.as_str());
                message.append("`");
                self.error(message, &span);
                Err(())
            }
        } else if let Some((hex_tok, span)) = self.permit_hex_color() {
            Ok(Expr { value: color_from_hex(hex_tok.as_str()), span })
        } else if let Some(tok) = self.permit(TT::True) {
            Ok(Expr { value: ExprValue::Boolean(true), span: tok.span })
        } else if let Some(tok) = self.permit(TT::False) {
            Ok(Expr { value: ExprValue::Boolean(false), span: tok.span })
        } else if let Some((s, span)) = self.permit_string() {
            Ok(Expr { value: ExprValue::String(s), span })
        } else if let Some((s, span)) = self.permit_enum() {
            Ok(Expr { value: ExprValue::Enum(s, None), span })
        } else if self.cur().is(TT::LParen) {
            self.parse_expr()
        } else {
            let found = self.cur().duplicate();
            self.expected_error("value expression".to_owned(), &found);
            Err(())
        }
    }

    /// Reads an expression: a path or a value, followed by any number of
    /// calls, optionally in parentheses.
    fn parse_expr(&mut self) -> (r: Result<Expr, ()>)
        requires
            old(self).wf(),
        ensures
            final(self).extends(&*old(self)),
            r is Err ==> final(self).extends_with_error(&*old(self)),
            r is Ok ==> final(self).issues == old(self).issues,
            r matches Ok(e) ==> {
                &&& final(self).at() > old(self).at()
                &&& final(self).span_ok(&e.span, old(self).at(), final(self).at())
            },
            ({
                let t = old(self).toks();
                let o = old(self).at();
                &&& match literal_at(t, o) {
                    Some((Some(l), end)) => !(t[o] is Name) && !(t[end] is LParen) ==> {
                        &&& r matches Ok(e) && literal_of(e.value) == Some(l)
                        &&& final(self).at() == end
                    },
                    _ => true,
                }
                &&& (t[o] is Name && path_rest(t, o + 1).2 && !(t[path_rest(t, o + 1).1] is LParen)) ==> {
                    &&& r matches Ok(e) && e.value matches ExprValue::Path(p, ctx)
                        && string_views(p@) == seq![t[o]->Name_0] + path_rest(t, o + 1).0
                        && ctx == Ctx::Component
                    &&& final(self).at() == path_rest(t, o + 1).1
                }
            }),
            ({
                let v = expr_at(old(self).toks(), old(self).at());
                &&& (r is Ok <==> v is Some)
                &&& r matches Ok(e) ==> (v matches Some((sh, end)) && has_shape(e, sh) && final(self).at() == end)
            }),
        decreases old(self).tokens@.len() - old(self).offset, 1int,
    {
        let ghost o = self.offset as int;
        proof {
            self.lemma_last_is_eof();
        }
        let paren = self.permit(TT::LParen).is_some();
        let ghost after_paren = *self;
        let ghost t = old(self).toks();
        let ghost i1 = self.offset as int;
        let mut expr = if self.cur().is_name() {
            match self.parse_path() {
                Ok((path, span)) => Expr { value: ExprValue::Path(path, Ctx::Component), span },
                Err(()) => {
                    return Err(());
                },
            }
        } else {
            match self.parse_value() {
                Ok(v) => v,
                Err(()) => {
                    return Err(());
                },
            }
        };
        let ghost shape0: ExprShape = if t[i1] is Name {
            ExprShape::Path(seq![t[i1]->Name_0] + path_rest(t, i1 + 1).0)
        } else {
            (value_at(t, i1)->0).0
        };
        let ghost mut cur_shape = shape0;
        let ghost first = expr;
        let ghost first_end = self.offset as int;
        let ghost simple = (match literal_at(t, o) {
            Some((Some(l), end)) => !(t[o] is Name) && !(t[end] is LParen),
            _ => false,
        }) || (t[o] is Name && path_rest(t, o + 1).2 && !(t[path_rest(t, o + 1).1] is LParen));
        assert(simple ==> !(t[first_end] is LParen));
        proof {
            Self::lemma_extends_trans(&*self, &after_paren, &*old(self));
            assert(has_shape(expr, shape0));
        }
        loop
            invariant_except_break
                self.wf(),
                self.tokens == old(self).tokens,
                self.file_path == old(self).file_path,
                self.issues == old(self).issues,
                self.offset > o,
                self.offset >= first_end,
                self.span_ok(&expr.span, o, self.offset as int),
                self.offset == first_end ==> expr == first,
                o == old(self).at(),
                t == self.toks(),
                t == old(self).toks(),
                simple == ((match literal_at(t, o) {
                    Some((Some(l), end)) => !(t[o] is Name) && !(t[end] is LParen),
                    _ => false,
                }) || (t[o] is Name && path_rest(t, o + 1).2 && !(t[path_rest(t, o + 1).1] is LParen))),
                simple ==> self.offset == first_end && !(t[first_end] is LParen),
                has_shape(expr, cur_shape),
                calls_from(t, first_end, shape0) == calls_from(t, self.offset as int, cur_shape),
                calls_from(t, first_end, shape0) is None ==> expr_at(t, o) is None,
            ensures
                self.wf(),
                self.tokens == old(self).tokens,
                self.file_path == old(self).file_path,
                self.issues == old(self).issues,
                self.offset > o,
                self.offset >= first_end,
                self.span_ok(&expr.span, o, self.offset as int),
                self.offset == first_end ==> expr == first,
                simple ==> self.offset == first_end,
                !(self.toks()[self.at()] is LParen),
                has_shape(expr, cur_shape),
                calls_from(t, first_end, shape0) == Some((cur_shape, self.offset as int)),
            decreases self.tokens@.len() - self.offset,
        {
            proof {
                self.lemma_last_is_eof();
            }
            if self.cur().is(TT::LParen) {
                let ghost before = *self;
                let ghost p = self.offset as int;
                match self.parse_function_call(expr) {
                    Ok(e) => {
                        proof {
                            let a = (args_from(t, p + 1, Seq::<ExprShape>::empty())->0);
                            cur_shape = ExprShape::Call(Box::new(cur_shape), a.0);
                        }
                        expr = e;
                    },
                    Err(()) => {
                        proof {
                            Self::lemma_extends_trans(&*self, &before, &*old(self));
                        }
                        return Err(());
                    },
                }
                proof {
                    Self::lemma_extends_trans(&*self, &before, &*old(self));
                }
            } else {
                break;
            }
        }
        if paren {
            let ghost before = *self;
            match self.expect(TT::RParen) {
                Ok(_) => {},
                Err(()) => {
                    proof {
                        Self::lemma_extends_trans(&*self, &before, &*old(self));
                    }
                    return Err(());
                },
            }
            proof {
                Self::lemma_extends_trans(&*self, &before, &*old(self));
                self.lemma_ordered(self.offset - 1, self.offset as int);
            }
        }
        Ok(expr)
    }

    /// Reads the argument list of a call of `expr`.
    fn parse_function_call(&mut self, expr: Expr) -> (r: Result<Expr, ()>)
        requires
            old(self).wf(),
            old(self).toks()[old(self).at()] is LParen,
            exists|lo: int| 0 <= lo <= old(self).at() && old(self).span_ok(&expr.span, lo, old(self).at()),
        ensures
            final(self).extends(&*old(self)),
            r is Err ==> final(self).extends_with_error(&*old(self)),
            r is Ok ==> final(self).issues == old(self).issues,
            r matches Ok(e) ==> {
                &&& final(self).at() > old(self).at()
                &&& e.span.start_line == expr.span.start_line
                &&& e.span.source_file == expr.span.source_file
                &&& e.value is FunctionCall
            },
            ({
                let a = args_from(old(self).toks(), old(self).at() + 1, Seq::empty());
                &&& (r is Ok <==> a is Some)
                &&& r matches Ok(e) ==> (a matches Some((shapes, end)) && final(self).at() == end
                    && (e.value matches ExprValue::FunctionCall(g, xs) && *g == expr && xs@.len() == shapes.len()
                    && args_shaped(xs@, shapes, shapes.len() as int)))
            }),
        decreases old(self).tokens@.len() - old(self).offset, 1int,
    {
        proof {
            self.lemma_last_is_eof();
        }
        let ghost start = *self;
        let ghost t = old(self).toks();
        let ghost o = old(self).at();
        self.expect(TT::LParen)?;
        let mut args: Vec<Expr> = Vec::new();
        let ghost mut shapes: Seq<ExprShape> = Seq::empty();
        proof {
            Self::lemma_extends_refl(&*self);
        }
        while !(self.cur().is(TT::RParen) || self.cur().is(TT::Eof))
            invariant
                self.wf(),
                self.tokens == start.tokens,
                self.file_path == start.file_path,
                self.issues == start.issues,
                self.offset > start.offset,
                start == *old(self),
                t == old(self).toks(),
                t == self.toks(),
                o == old(self).at(),
                args_from(t, o + 1, Seq::empty()) == args_from(t, self.offset as int, shapes),
                args@.len() == shapes.len(),
                args_shaped(args@, shapes, shapes.len() as int),
            decreases self.tokens@.len() - self.offset,
        {
            let ghost before = *self;
            let ghost q = self.offset as int;
            proof {
                self.lemma_last_is_eof();
            }
            let arg = match self.parse_expr() {
                Ok(a) => a,
                Err(()) => {
                    proof {
                        Self::lemma_extends_trans(&*self, &before, &start);
                    }
                    return Err(());
                },
            };
            proof {
                Self::lemma_extends_trans(&*self, &before, &start);
            }
            let ghost sh = (expr_at(t, q)->0).0;
            let ghost old_args = args@;
            args.push(arg);
            proof {
                lemma_args_shaped_push(old_args, shapes, arg, sh, shapes.len() as int);
                shapes = shapes.push(sh);
            }
            if !(self.cur().is(TT::Comma) || self.cur().is(TT::RParen)) {
                let mut message = "expected `,` or `)`, found ".to_owned();
                message.append(self.cur().to_display_string().as_str());
                let span = self.cur().span.duplicate();
                let ghost before2 = *self;
                self.error(message, &span);
                proof {
                    Self::lemma_extends_trans(&*self, &before2, &start);
                }
                return Err(());
            }
            proof {
                self.lemma_last_is_eof();
            }
            self.permit(TT::Comma);
        }
        let ghost before = *self;
        let rparen = match self.expect(TT::RParen) {
            Ok(r) => r,
            Err(()) => {
                proof {
                    Self::lemma_extends_trans(&*self, &before, &start);
                }
                return Err(());
            },
        };
        proof {
            Self::lemma_extends_trans(&*self, &before, &start);
            let lo = choose|lo: int| 0 <= lo <= start.offset && start.span_ok(&expr.span, lo, start.offset as int);
            self.lemma_ordered(start.offset as int, self.offset - 1);
        }
        let span = expr.span.merge(&rparen.span);
        Ok(Expr { value: ExprValue::FunctionCall(Box::new(expr), args), span })
    }
}

} // verus!

verus! {

/// The property declarations from token `i`: each is `pub name: Type;` or
/// `name: Type;`. Gives each declaration's visibility, name and type, the
/// index after them, and whether they were all well formed.
pub open spec fn prop_decls_spec(t: Seq<Lexeme>, i: int) -> (Seq<(bool, Seq<char>, Type)>, int, bool)
    decreases t.len() - i,
{
    if i < 0 || i + 1 >= t.len() {
        (Seq::empty(), i, true)
    } else if t[i] is Pub {
        if i + 4 < t.len() && t[i + 1] is Name && t[i + 2] is Colon && t[i + 3] is Name && type_named(t[i + 3]->Name_0) is Some
            && t[i + 4] is Semicolon {
            let r = prop_decls_spec(t, i + 5);
            (seq![(true, t[i + 1]->Name_0, type_named(t[i + 3]->Name_0)->0)] + r.0, r.1, r.2)
        } else {
            (Seq::empty(), i, false)
        }
    } else if t[i] is Name && t[i + 1] is Colon {
        if i + 3 < t.len() && t[i + 2] is Name && type_named(t[i + 2]->Name_0) is Some && t[i + 3] is Semicolon {
            let r = prop_decls_spec(t, i + 4);
            (seq![(false, t[i]->Name_0, type_named(t[i + 2]->Name_0)->0)] + r.0, r.1, r.2)
        } else {
            (Seq::empty(), i, false)
        }
    } else {
        (Seq::empty(), i, true)
    }
}

/// The visibility, name and type of a property declaration.
pub open spec fn decl_view(p: PropDecl) -> (bool, Seq<char>, Type) {
    (p.is_pub, p.name@, p.prop_type)
}

/// The index of the first declaration named `n` at or after `i`, or `d.len()`.
pub open spec fn first_named(d: Seq<(bool, Seq<char>, Type)>, n: Seq<char>, i: int) -> int
    decreases d.len() - i,
{
    if i < 0 || i >= d.len() {
        d.len() as int
    } else if d[i].1 == n {
        i
    } else {
        first_named(d, n, i + 1)
    }
}

/// Whether the `k`th declaration repeats the name of an earlier one.
pub open spec fn is_repeat(d: Seq<(bool, Seq<char>, Type)>, k: int) -> bool {
    first_named(d, d[k].1, 0) < k
}

/// The table holds, for each name among the first `n` declarations, the
/// first declaration of that name, and nothing else.
pub open spec fn first_decls_upto(table: Seq<(String, PropDecl)>, d: Seq<(bool, Seq<char>, Type)>, n: int) -> bool {
    &&& unique_names(table)
    &&& forall|i: int| 0 <= i < table.len() ==> (#[trigger] table[i]).0@ == table[i].1.name@
    &&& forall|k: int|
        0 <= k < n ==> (lookup(table, (#[trigger] d[k]).1) matches Some(p) && decl_view(p) == d[first_named(d, d[k].1, 0)])
    &&& forall|i: int|
        0 <= i < table.len() ==> first_named(d, (#[trigger] table[i]).0@, 0) < n && decl_view(table[i].1) == d[first_named(
            d,
            table[i].0@,
            0,
        )]
}

/// The errors reported for the first `n` declarations `d`: one for each
/// declaration that repeats an earlier name, in order.
pub open spec fn repeat_messages(d: Seq<(bool, Seq<char>, Type)>, n: int) -> Seq<Seq<char>>
    decreases n,
{
    if n <= 0 {
        Seq::empty()
    } else if is_repeat(d, n - 1) {
        repeat_messages(d, n - 1).push("property `"@ + d[n - 1].1 + "` declared more than once"@)
    } else {
        repeat_messages(d, n - 1)
    }
}

/// The table of declarations keeps, for each name, its first declaration.
pub open spec fn first_decls(table: Seq<(String, PropDecl)>, d: Seq<(bool, Seq<char>, Type)>) -> bool {
    first_decls_upto(table, d, d.len() as int)
}

/// `first_named` finds the first declaration with the name.
pub proof fn lemma_first_named(d: Seq<(bool, Seq<char>, Type)>, n: Seq<char>, i: int)
    requires
        0 <= i <= d.len(),
    ensures
        i <= first_named(d, n, i) <= d.len(),
        first_named(d, n, i) < d.len() ==> d[first_named(d, n, i)].1 == n,
        forall|j: int| i <= j < first_named(d, n, i) ==> d[j].1 != n,
    decreases d.len() - i,
{
    if i < d.len() && d[i].1 != n {
        lemma_first_named(d, n, i + 1);
    }
}

impl Parser {
    proof fn lemma_repeat_found(table: Seq<(String, PropDecl)>, d: Seq<(bool, Seq<char>, Type)>, k: int)
        requires
            first_decls_upto(table, d, k),
            0 <= k < d.len(),
            lookup(table, d[k].1) is Some,
        ensures
            first_decls_upto(table, d, k + 1),
            is_repeat(d, k),
    {
        let ti = crate::table::find(table, d[k].1);
        crate::table::lemma_find_from(table, d[k].1, 0);
        assert(table[ti].0@ == d[k].1);
        assert(first_named(d, table[ti].0@, 0) < k);
        lemma_first_named(d, d[k].1, 0);
        assert forall|k3: int| 0 <= k3 < k + 1 implies (lookup(table, (#[trigger] d[k3]).1) matches Some(p) && decl_view(p) == d[first_named(d, d[k3].1, 0)]) by {
            if k3 == k {
                let f = first_named(d, d[k].1, 0);
                assert(d[f].1 == d[k].1);
                assert(lookup(table, d[f].1) matches Some(p) && decl_view(p) == d[first_named(d, d[f].1, 0)]);
            }
        }
    }

    proof fn lemma_first_when_absent(table: Seq<(String, PropDecl)>, d: Seq<(bool, Seq<char>, Type)>, k: int)
        requires
            first_decls_upto(table, d, k),
            0 <= k < d.len(),
            lookup(table, d[k].1) is None,
        ensures
            first_named(d, d[k].1, 0) == k,
            !is_repeat(d, k),
    {
        lemma_first_named(d, d[k].1, 0);
        let f = first_named(d, d[k].1, 0);
        if f < k {
            assert(d[f].1 == d[k].1);
            assert(lookup(table, d[f].1) is Some);
        }
    }

    proof fn lemma_insert_first(
        old_table: Seq<(String, PropDecl)>,
        table: Seq<(String, PropDecl)>,
        d: Seq<(bool, Seq<char>, Type)>,
        k: int,
        e: PropDecl,
    )
        requires
            first_decls_upto(old_table, d, k),
            0 <= k < d.len(),
            decl_view(e) == d[k],
            first_named(d, d[k].1, 0) == k,
            lookup(old_table, e.name@) is None,
            table == old_table.push((e.name, e)),
            unique_names(table),
            lookup(table, e.name@) == Some(e),
            forall|n: Seq<char>| n != e.name@ ==> #[trigger] lookup(table, n) == lookup(old_table, n),
        ensures
            first_decls_upto(table, d, k + 1),
    {
        assert forall|k3: int| 0 <= k3 < k + 1 implies (lookup(table, (#[trigger] d[k3]).1) matches Some(p) && decl_view(p) == d[first_named(d, d[k3].1, 0)]) by {
            if k3 < k && d[k3].1 != e.name@ {
                assert(lookup(table, d[k3].1) == lookup(old_table, d[k3].1));
            }
        }
        assert forall|i: int| 0 <= i < table.len() implies first_named(d, (#[trigger] table[i]).0@, 0) < k + 1 && decl_view(table[i].1) == d[first_named(d, table[i].0@, 0)] by {
            if i < old_table.len() {
                assert(table[i] == old_table[i]);
            }
        }
    }

    /// Reads the property declarations of a component. A name declared more
    /// than once keeps its first declaration, and each repeat is reported.
    fn parse_prop_decls(&mut self) -> (r: Result<Table<PropDecl>, ()>)
        requires
            old(self).wf(),
        ensures
            final(self).extends(&*old(self)),
            ({
                let spec = prop_decls_spec(old(self).toks(), old(self).at());
                if spec.2 {
                    &&& final(self).at() == spec.1
                    &&& r matches Ok(table) && first_decls(table.entries@, spec.0)
                    &&& (exists|k: int| 0 <= k < spec.0.len() && is_repeat(spec.0, k)) ==> final(self).extends_with_error(&*old(self))
                    &&& !(exists|k: int| 0 <= k < spec.0.len() && is_repeat(spec.0, k)) ==> final(self).issues == old(self).issues
                    &&& final(self).issues@.len() == old(self).issues@.len() + repeat_messages(spec.0, spec.0.len() as int).len()
                    &&& forall|i: int| 0 <= i < repeat_messages(spec.0, spec.0.len() as int).len() ==>
                        (#[trigger] final(self).issues@[old(self).issues@.len() + i]).message@ == repeat_messages(spec.0, spec.0.len() as int)[i]
                } else {
                    &&& final(self).extends_with_error(&*old(self))
                    &&& r is Err
                }
            }),
    {
        let ghost t = self.toks();
        let ghost o = self.offset as int;
        let mut props: Vec<PropDecl> = Vec::new();
        loop
            invariant_except_break
                self.wf(),
                self.tokens == old(self).tokens,
                self.issues == old(self).issues,
                self.file_path == old(self).file_path,
                t == self.toks(),
                o == old(self).at(),
                self.offset >= o,
                prop_decls_spec(t, o) == (
                    props@.map_values(|p: PropDecl| decl_view(p)) + prop_decls_spec(t, self.offset as int).0,
                    prop_decls_spec(t, self.offset as int).1,
                    prop_decls_spec(t, self.offset as int).2,
                ),
            ensures
                self.wf(),
                self.tokens == old(self).tokens,
                self.file_path == old(self).file_path,
                prop_decls_spec(t, o).2,
                self.issues == old(self).issues,
                self.offset == prop_decls_spec(t, o).1,
                props@.map_values(|p: PropDecl| decl_view(p)) == prop_decls_spec(t, o).0,
            decreases self.tokens@.len() - self.offset,
        {
            proof {
                self.lemma_last_is_eof();
            }
            let ghost i = self.offset as int;
            let (is_pub, name, start_span) = if let Some(pub_token) = self.permit(TT::Pub) {
                match self.expect_name() {
                    Ok((name, _)) => (true, name, pub_token.span),
                    Err(()) => {
                        return Err(());
                    },
                }
            } else if self.cur().is_name() && self.cur_offset(1).is(TT::Colon) {
                match self.expect_name() {
                    Ok((name, span)) => (false, name, span),
                    Err(()) => {
                        return Err(());
                    },
                }
            } else {
                assert(props@.map_values(|p: PropDecl| decl_view(p)) + Seq::<(bool, Seq<char>, Type)>::empty() == props@.map_values(|p: PropDecl| decl_view(p)));
                break;
            };
            proof {
                self.lemma_last_is_eof();
            }
            if self.expect(TT::Colon).is_err() {
                return Err(());
            }
            let (prop_type, type_span) = match self.parse_type() {
                Ok(x) => x,
                Err(()) => {
                    return Err(());
                },
            };
            proof {
                self.lemma_ordered(i, self.offset - 1);
            }
            let decl = PropDecl { is_pub, name, prop_type, default: None, span: start_span.merge(&type_span) };
            if self.expect(TT::Semicolon).is_err() {
                return Err(());
            }
            let ghost old_props = props@;
            props.push(decl);
            assert(props@.map_values(|p: PropDecl| decl_view(p)) == old_props.map_values(|p: PropDecl| decl_view(p)).push(decl_view(decl)));
        }
        let ghost d = props@.map_values(|p: PropDecl| decl_view(p));
        let ghost all = props@;
        let ghost before_fold = *self;
        let n_props = props.len();
        let mut rev: Vec<PropDecl> = Vec::new();
        let mut props = props;
        while props.len() > 0
            invariant
                props@ == all.take(props@.len() as int),
                all.len() == n_props,
                rev@.len() + props@.len() == all.len(),
                forall|j: int| 0 <= j < rev@.len() ==> #[trigger] rev@[j] == all[all.len() - 1 - j],
            decreases props@.len(),
        {
            let e = props.pop().unwrap();
            rev.push(e);
        }
        let mut map: Table<PropDecl> = Table::new();
        let mut idx: usize = 0;
        while rev.len() > 0
            invariant
                self.wf(),
                self.tokens == before_fold.tokens,
                self.file_path == before_fold.file_path,
                self.offset == before_fold.offset,
                self.issues@.len() >= before_fold.issues@.len(),
                forall|i: int| 0 <= i < before_fold.issues@.len() ==> #[trigger] self.issues@[i] == before_fold.issues@[i],
                d == all.map_values(|p: PropDecl| decl_view(p)),
                all.len() <= usize::MAX,
                idx + rev@.len() == all.len(),
                forall|j: int| 0 <= j < rev@.len() ==> #[trigger] rev@[j] == all[all.len() - 1 - j],
                first_decls_upto(map.entries@, d, idx as int),
                (exists|k: int| 0 <= k < idx && is_repeat(d, k)) ==> self.issues@.len() > before_fold.issues@.len(),
                !(exists|k: int| 0 <= k < idx && is_repeat(d, k)) ==> self.issues == before_fold.issues,
                self.issues@.len() == before_fold.issues@.len() + repeat_messages(d, idx as int).len(),
                forall|i: int| 0 <= i < repeat_messages(d, idx as int).len() ==>
                    (#[trigger] self.issues@[before_fold.issues@.len() + i]).message@ == repeat_messages(d, idx as int)[i],
            decreases rev@.len(),
        {
            let e = rev.pop().unwrap();
            assert(e == all[idx as int]);
            let ghost k = idx as int;
            assert(decl_view(e) == d[k]);
            proof {
                lemma_first_named(d, e.name@, 0);
            }
            if map.contains_key(e.name.as_str()) {
                proof {
                    Self::lemma_repeat_found(map.entries@, d, k);
                }
                let mut message = concat("property `", e.name.as_str());
                message.append("` declared more than once");
                let ghost before_error = self.issues@;
                self.error(message, &e.span);
                proof {
                    assert forall|i: int| 0 <= i < repeat_messages(d, k + 1).len() implies
                        (#[trigger] self.issues@[before_fold.issues@.len() + i]).message@ == repeat_messages(d, k + 1)[i] by {
                        if i < repeat_messages(d, k).len() {
                            assert(self.issues@[before_fold.issues@.len() + i] == before_error[before_fold.issues@.len() + i]);
                        }
                    }
                }
            } else {
                proof {
                    Self::lemma_first_when_absent(map.entries@, d, k);
                }
                let ghost old_entries = map.entries@;
                let key = e.name.clone();
                map.insert(key, e);
                proof {
                    Self::lemma_insert_first(old_entries, map.entries@, d, k, e);
                }
            }
            idx = idx + 1;
        }
        assert(first_decls(map.entries@, d));
        Ok(map)
    }
}

} // verus!

verus! {

/// `convert_case`'s upper camel case of a text (`my-file` becomes `MyFile`).
pub uninterp spec fn upper_camel_case(s: Seq<char>) -> Seq<char>;

/// Converts a text to upper camel case.
///
/// Trusted: `convert_case`'s `to_case(Case::UpperCamel)` is a function of
/// the text alone; its result is named `upper_camel_case`.
#[verifier::external_body]
pub(crate) fn to_upper_camel_case(s: &str) -> (r: String)
    ensures
        r@ == upper_camel_case(s@),
{
    s.to_case(Case::UpperCamel)
}

/// A path that is a single plain file name on every platform: not empty,
/// not `.` or `..`, and without `/`, `\` or `:`.
pub open spec fn plain_file_name(p: Seq<char>) -> bool {
    &&& p.len() > 0
    &&& p != "."@
    &&& p != ".."@
    &&& forall|i: int| 0 <= i < p.len() ==> p[i] != '/' && p[i] != '\\' && p[i] != ':'
}

/// The index of the last `.` among the first `i` characters of `p`, or -1.
pub open spec fn last_dot(p: Seq<char>, i: int) -> int
    decreases i,
{
    if i <= 0 || i > p.len() {
        -1
    } else if p[i - 1] == '.' {
        i - 1
    } else {
        last_dot(p, i - 1)
    }
}

/// The stem of a file name: the whole name where it has no `.` other than
/// a leading one, and otherwise the part before its last `.`.
pub open spec fn stem_of(name: Seq<char>) -> Seq<char> {
    let d = last_dot(name, name.len() as int);
    if d <= 0 {
        name
    } else {
        name.subrange(0, d)
    }
}

/// The index of the last `/` among the first `i` characters of `p`, or -1.
pub open spec fn last_slash(p: Seq<char>, i: int) -> int
    decreases i,
{
    if i <= 0 || i > p.len() {
        -1
    } else if p[i - 1] == '/' {
        i - 1
    } else {
        last_slash(p, i - 1)
    }
}

/// The last component of a path: what follows its last `/`.
pub open spec fn file_name_of(p: Seq<char>) -> Seq<char> {
    p.subrange(last_slash(p, p.len() as int) + 1, p.len() as int)
}

/// A path that names a file in the same way on every platform: it holds no
/// `\` and no `:` (so no platform sees a prefix or another separator), and
/// its last component, after its last `/`, is a plain file name.
pub open spec fn named_file(p: Seq<char>) -> bool {
    &&& forall|i: int| 0 <= i < p.len() ==> p[i] != '\\' && p[i] != ':'
    &&& plain_file_name(file_name_of(p))
}

/// The stem of the file a path names.
pub open spec fn path_stem(p: Seq<char>) -> Seq<char> {
    stem_of(file_name_of(p))
}

/// The file name of a path without its extension, if the path names a file.
///
/// Trusted: `std::path::Path::file_stem`, its result converted to a
/// `String`. Stated, as its documentation gives it, for a path that
/// `named_file` accepts: the path's file name is its last component, after
/// its last `/`, and the stem is `stem_of` that name. Nothing is stated of
/// other paths, whose components depend on the platform.
#[verifier::external_body]
pub(crate) fn file_stem(path: &str) -> (r: Option<String>)
    ensures
        named_file(path@) ==> r is Some && r->0@ == path_stem(path@),
{
    match std::path::Path::new(path).file_stem() {
        Some(stem) => Some(stem.to_string_lossy().into_owned()),
        None => None,
    }
}

/// The property assignments of an element end at token `i`: it does not
/// start a path followed by a `:`.
pub open spec fn assignments_end(t: Seq<Lexeme>, i: int) -> bool {
    !(t[i] is Name && path_rest(t, i + 1).2 && t[path_rest(t, i + 1).1] is Colon)
}

impl Element {
    /// A `Text` element showing `value`.
    fn text(value: Expr) -> (r: Element)
        ensures
            string_views(r.path@) == seq!["Text"@],
            r.props.entries@.len() == 1,
            r.props.entries@[0].0@ == "content"@,
            r.props.entries@[0].1.expr == value,
            r.props.entries@[0].1.span == value.span,
            r.name_span == value.span,
            r.children@.len() == 0,
            r.data is None,
            r.condition is None,
            r.repeater is None,
    {
        let name_span = value.span.duplicate();
        let mut path: Vec<String> = Vec::new();
        path.push("Text".to_owned());
        let mut props: Table<PropAsgn> = Table::new();
        let asgn_span = name_span.duplicate();
        props.entries.push(("content".to_owned(), PropAsgn { expr: value, span: asgn_span }));
        assert(string_views(path@) == seq!["Text"@]);
        Element { path, data: None, condition: None, repeater: None, props, children: Vec::new(), name_span }
    }
}

/// The property assignments from token `i` on, after those `acc` read so
/// far: each is a path, `:`, a value and a statement separator. They end at
/// the first token that does not start a path followed by `:`. Gives the
/// paths with the structures of their values, and the index where they end;
/// `None` where the parser reports an error while reading them.
pub open spec fn assignments_from(t: Seq<Lexeme>, i: int, acc: Seq<(Seq<Seq<char>>, ExprShape)>) -> Option<(Seq<(Seq<Seq<char>>, ExprShape)>, int)>
    decreases t.len() - i,
{
    if i < 0 || i >= t.len() {
        None
    } else if !(t[i] is Name) {
        Some((acc, i))
    } else {
        let r = path_rest(t, i + 1);
        if !r.2 {
            None
        } else if !(0 <= r.1 < t.len() && t[r.1] is Colon) {
            Some((acc, i))
        } else {
            match value_at(t, r.1 + 1) {
                None => None,
                Some((v, e)) => {
                    let next = acc.push((seq![t[i]->Name_0] + r.0, v));
                    if e <= i || e >= t.len() {
                        None
                    } else if t[e] is RBrace || t[e] is RParen {
                        assignments_from(t, e, next)
                    } else if t[e] is Semicolon {
                        assignments_from(t, e + 1, next)
                    } else {
                        None
                    }
                },
            }
        }
    }
}

/// Each assignment sets a property by a single name, and no name is set twice.
pub open spec fn assignments_valid(a: Seq<(Seq<Seq<char>>, ExprShape)>) -> bool {
    &&& forall|k: int| 0 <= k < a.len() ==> (#[trigger] a[k]).0.len() == 1
    &&& forall|j: int, k: int| 0 <= j < k < a.len() ==> (#[trigger] a[j]).0[0] != (#[trigger] a[k]).0[0]
}

/// The table entries hold the assignments `a`, in order: the name of each,
/// and a value with its structure.
pub open spec fn assigned(entries: Seq<(String, PropAsgn)>, a: Seq<(Seq<Seq<char>>, ExprShape)>) -> bool {
    &&& entries.len() == a.len()
    &&& forall|k: int| 0 <= k < a.len() ==> (#[trigger] entries[k]).0@ == a[k].0[0] && has_shape(entries[k].1.expr, a[k].1)
}

/// The error reported for assignments `a` that are not valid: for the first
/// one that sets a nested property, that such assignments are not supported;
/// for the first one that sets a property set before, that it is assigned
/// more than once.
#[verifier::opaque]
pub open spec fn misassignment_message(a: Seq<(Seq<Seq<char>>, ExprShape)>) -> Seq<char>
    decreases a.len(),
{
    if a.len() == 0 {
        Seq::empty()
    } else if !assignments_valid(a.drop_last()) {
        misassignment_message(a.drop_last())
    } else if a.last().0.len() != 1 {
        "assignments to nested properties are not supported"@
    } else {
        "property `"@ + a.last().0[0] + "` assigned more than once"@
    }
}

/// Assignments that are valid stay valid without the last one.
proof fn lemma_assignments_valid_prefix(a: Seq<(Seq<Seq<char>>, ExprShape)>, x: (Seq<Seq<char>>, ExprShape))
    ensures
        assignments_valid(a.push(x)) ==> assignments_valid(a),
{
    if assignments_valid(a.push(x)) {
        assert forall|k: int| 0 <= k < a.len() implies (#[trigger] a[k]).0.len() == 1 by {
            assert(a.push(x)[k] == a[k]);
        }
        assert forall|j: int, k: int| 0 <= j < k < a.len() implies (#[trigger] a[j]).0[0] != (#[trigger] a[k]).0[0] by {
            assert(a.push(x)[k] == a[k]);
            assert(a.push(x)[j] == a[j]);
        }
    }
}

impl Parser {
    /// Reads the property assignments at the start of an element's body.
    /// Every assignment is read before any is checked; the first one that
    /// sets a nested property, or a property set before, is reported.
    fn parse_prop_assignments(&mut self) -> (r: Result<Table<PropAsgn>, ()>)
        requires
            old(self).wf(),
        ensures
            final(self).extends(&*old(self)),
            r is Err ==> final(self).extends_with_error(&*old(self)),
            r matches Ok(table) ==> {
                &&& final(self).issues == old(self).issues
                &&& final(self).at() >= old(self).at()
                &&& unique_names(table.entries@)
                &&& assignments_end(old(self).toks(), final(self).at())
            },
            !(old(self).toks()[old(self).at()] is Name) ==> {
                &&& r matches Ok(table) && table.entries@.len() == 0
                &&& final(self).at() == old(self).at()
            },
            ({
                let a = assignments_from(old(self).toks(), old(self).at(), Seq::empty());
                &&& (r is Ok <==> (a matches Some((s, _)) && assignments_valid(s)))
                &&& r matches Ok(table) ==> (a matches Some((s, end)) && final(self).at() == end
                    && assigned(table.entries@, s))
                &&& a is Some && !assignments_valid((a->0).0) ==> (
                    final(self).issue_list().len() == old(self).issue_list().len() + 1
                    && final(self).issue_list().last().message@ == misassignment_message((a->0).0))
            }),
    {
        let ghost o = self.offset as int;
        let ghost t = self.toks();
        let mut props_map: Table<PropAsgn> = Table::new();
        let mut bad: Option<(String, Span)> = None;
        let ghost mut asgn: Seq<(Seq<Seq<char>>, ExprShape)> = Seq::empty();
        loop
            invariant_except_break
                self.wf(),
                self.tokens == old(self).tokens,
                self.issues == old(self).issues,
                self.file_path == old(self).file_path,
                self.offset >= o,
                o == old(self).at(),
                t == old(self).toks(),
                t == self.toks(),
                !(t[o] is Name) ==> asgn.len() == 0 && self.offset == o,
                assignments_from(t, o, Seq::empty()) == assignments_from(t, self.offset as int, asgn),
                bad is None <==> assignments_valid(asgn),
                bad is None ==> assigned(props_map.entries@, asgn),
                bad matches Some((m, _)) ==> m@ == misassignment_message(asgn),
                unique_names(props_map.entries@),
            ensures
                self.wf(),
                self.tokens == old(self).tokens,
                self.issues == old(self).issues,
                self.file_path == old(self).file_path,
                self.offset >= o,
                !(t[o] is Name) ==> asgn.len() == 0 && self.offset == o,
                assignments_end(t, self.offset as int),
                assignments_from(t, o, Seq::empty()) == Some((asgn, self.offset as int)),
                bad is None <==> assignments_valid(asgn),
                bad is None ==> assigned(props_map.entries@, asgn),
                bad matches Some((m, _)) ==> m@ == misassignment_message(asgn),
                unique_names(props_map.entries@),
            decreases self.tokens@.len() - self.offset,
        {
            let offset = self.offset();
            proof {
                self.lemma_last_is_eof();
            }
            if !self.cur().is_name() {
                break;
            }
            let (path, full_span) = match self.parse_path() {
                Ok(x) => x,
                Err(()) => {
                    return Err(());
                },
            };
            proof {
                self.lemma_last_is_eof();
            }
            let ghost colon = self.offset as int;
            let value = if let Some(_) = self.permit(TT::Colon) {
                match self.parse_value() {
                    Ok(v) => v,
                    Err(()) => {
                        return Err(());
                    },
                }
            } else {
                self.set_offset(offset);
                break;
            };
            let ghost item = (string_views(path@), (value_at(t, colon + 1)->0).0);
            proof {
                self.lemma_ordered(offset as int, self.offset as int);
            }
            let full_span = full_span.merge(&value.span);
            if self.expect_statement_separator().is_err() {
                return Err(());
            }
            proof {
                lemma_assignments_valid_prefix(asgn, item);
                assert(asgn.push(item).drop_last() =~= asgn);
                reveal(misassignment_message);
            }
            if bad.is_none() {
                if path.len() == 1 {
                    let name = path[0].clone();
                    proof {
                        lemma_find_from(props_map.entries@, name@, 0);
                    }
                    if props_map.contains_key(name.as_str()) {
                        let mut message = concat("property `", name.as_str());
                        message.append("` assigned more than once");
                        bad = Some((message, full_span));
                        proof {
                            let j = find(props_map.entries@, name@);
                            assert(asgn.push(item)[j].0[0] == asgn.push(item)[asgn.len() as int].0[0]);
                        }
                    } else {
                        let ghost before = props_map.entries@;
                        props_map.insert(name, PropAsgn { expr: value, span: full_span });
                        proof {
                            let a2 = asgn.push(item);
                            assert forall|k: int| 0 <= k < a2.len() implies (#[trigger] a2[k]).0.len() == 1 by {
                                if k < asgn.len() {
                                    assert(a2[k] == asgn[k]);
                                }
                            }
                            assert forall|j: int, k: int| 0 <= j < k < a2.len() implies (#[trigger] a2[j]).0[0] != (#[trigger] a2[k]).0[0] by {
                                assert(a2[j] == asgn[j]);
                                if k < asgn.len() {
                                    assert(a2[k] == asgn[k]);
                                } else {
                                    assert(before[j].0@ != name@);
                                }
                            }
                            assert forall|k: int| 0 <= k < a2.len() implies (#[trigger] props_map.entries@[k]).0@ == a2[k].0[0]
                                && has_shape(props_map.entries@[k].1.expr, a2[k].1) by {
                                if k < asgn.len() {
                                    assert(a2[k] == asgn[k]);
                                    assert(props_map.entries@[k] == before[k]);
                                }
                            }
                        }
                    }
                } else {
                    bad = Some(("assignments to nested properties are not supported".to_owned(), full_span));
                    proof {
                        assert(asgn.push(item)[asgn.len() as int].0.len() != 1);
                    }
                }
            }
            proof {
                asgn = asgn.push(item);
            }
        }
        match bad {
            Some((message, span)) => {
                self.error(message, &span);
                Err(())
            },
            None => Ok(props_map),
        }
    }

}

/// A name given in a `for` clause; `_` gives none.
pub open spec fn unless_blank(n: Seq<char>) -> Option<Seq<char>> {
    if n == "_"@ {
        None
    } else {
        Some(n)
    }
}

/// The name held in an optional name with its span.
pub open spec fn opt_name(o: Option<(String, Span)>) -> Option<Seq<char>> {
    match o {
        Some((n, _)) => Some(n@),
        None => None,
    }
}

/// The structure of an element as the parser reads it: its path, its `for`
/// clause (the index name, the item name and the collection), its property
/// assignments and its children.
pub struct ElementShape {
    pub path: Seq<Seq<char>>,
    pub repeater: Option<(Option<Seq<char>>, Option<Seq<char>>, ExprShape)>,
    pub props: Seq<(Seq<Seq<char>>, ExprShape)>,
    pub children: Seq<ElementShape>,
}

/// The structure of a `Text` element showing an expression of structure `x`.
pub open spec fn text_shape(x: ExprShape) -> ElementShape {
    ElementShape {
        path: seq!["Text"@],
        repeater: None,
        props: seq![(seq!["content"@], x)],
        children: Seq::empty(),
    }
}

/// The `for` clause at token `p`, if there is one: `for`, a name, optionally
/// `,` and a second name, `in` and a value. With one name it names the item;
/// with two, the index and then the item. Gives the clause and the index
/// after it; `None` where the parser reports an error.
pub open spec fn repeater_at(t: Seq<Lexeme>, p: int) -> Option<(Option<(Option<Seq<char>>, Option<Seq<char>>, ExprShape)>, int)> {
    if !(0 <= p < t.len() && t[p] is For) {
        Some((None, p))
    } else if !(p + 1 < t.len() && t[p + 1] is Name) {
        None
    } else {
        let comma = p + 2 < t.len() && t[p + 2] is Comma;
        if comma && !(p + 3 < t.len() && t[p + 3] is Name) {
            None
        } else {
            let first = unless_blank(t[p + 1]->Name_0);
            let index = if comma { first } else { None };
            let item = if comma { unless_blank(t[p + 3]->Name_0) } else { first };
            let q = if comma { p + 4 } else { p + 2 };
            if !(q < t.len() && t[q] is In) {
                None
            } else {
                match value_at(t, q + 1) {
                    None => None,
                    Some((c, e)) => Some((Some((index, item, c)), e)),
                }
            }
        }
    }
}

/// The element at token `i`: a path, an optional `for` clause, and a body in
/// braces holding valid property assignments and then the children. Gives
/// its structure and the index after its closing brace; `None` where the
/// parser reports an error.
#[verifier::opaque]
pub open spec fn element_at(t: Seq<Lexeme>, i: int) -> Option<(ElementShape, int)>
    decreases t.len() - i, 0int,
{
    if i < 0 || i >= t.len() || !(t[i] is Name) {
        None
    } else {
        let r = path_rest(t, i + 1);
        if !r.2 {
            None
        } else {
            match repeater_at(t, r.1) {
                None => None,
                Some((rep, k)) => if k <= i || !(k < t.len() && t[k] is LBrace) {
                    None
                } else {
                    match assignments_from(t, k + 1, Seq::empty()) {
                        None => None,
                        Some((a, m)) => if !assignments_valid(a) || m <= i || m >= t.len() {
                            None
                        } else {
                            match children_from(t, m, Seq::empty()) {
                                None => None,
                                Some((cs, n)) => if 0 <= n < t.len() && t[n] is RBrace {
                                    Some((
                                        ElementShape {
                                            path: seq![t[i]->Name_0] + r.0,
                                            repeater: rep,
                                            props: a,
                                            children: cs,
                                        },
                                        n + 1,
                                    ))
                                } else {
                                    None
                                },
                            }
                        },
                    }
                },
            }
        }
    }
}

/// The children of an element from token `m` on, after those `acc` read so
/// far: elements, string literals and parenthesized expressions (these two
/// shown by `Text` elements). They end at the first token that starts none
/// of these; a property assignment or declaration among them is an error.
#[verifier::opaque]
pub open spec fn children_from(t: Seq<Lexeme>, m: int, acc: Seq<ElementShape>) -> Option<(Seq<ElementShape>, int)>
    decreases t.len() - m, 1int,
{
    if m < 0 || m >= t.len() {
        None
    } else if t[m] is Name {
        if m + 1 < t.len() && t[m + 1] is Colon {
            None
        } else {
            match element_at(t, m) {
                None => None,
                Some((c, n)) => if n <= m || n >= t.len() {
                    None
                } else {
                    children_from(t, n, acc.push(c))
                },
            }
        }
    } else if t[m] is Str {
        children_from(t, m + 1, acc.push(text_shape(ExprShape::Lit(Literal::Str(t[m]->Str_0)))))
    } else if t[m] is LParen {
        match expr_at(t, m) {
            None => None,
            Some((x, n)) => if n <= m || n >= t.len() {
                None
            } else {
                children_from(t, n, acc.push(text_shape(x)))
            },
        }
    } else if t[m] is Pub {
        None
    } else {
        Some((acc, m))
    }
}

/// `after` is `before` with one more error: `message`, at `span`.
#[verifier::opaque]
pub open spec fn one_more_error(after: Seq<Issue>, before: Seq<Issue>, message: Seq<char>, span: Span) -> bool {
    &&& after.len() == before.len() + 1
    &&& after.last().message@ == message
    &&& after.last().span == span
}

/// Where, among the children of an element from token `m` on, a property
/// assignment (a name followed by `:`) or declaration (`pub`) stands, if the
/// children before it are read without error: `None` where there is none.
#[verifier::opaque]
pub open spec fn misplaced_assignment(t: Seq<Lexeme>, m: int) -> Option<int>
    decreases t.len() - m,
{
    if m < 0 || m >= t.len() {
        None
    } else if t[m] is Name {
        if m + 1 < t.len() && t[m + 1] is Colon {
            Some(m)
        } else {
            match element_at(t, m) {
                None => None,
                Some((_, n)) => if n <= m || n >= t.len() {
                    None
                } else {
                    misplaced_assignment(t, n)
                },
            }
        }
    } else if t[m] is Str {
        misplaced_assignment(t, m + 1)
    } else if t[m] is LParen {
        match expr_at(t, m) {
            None => None,
            Some((_, n)) => if n <= m || n >= t.len() {
                None
            } else {
                misplaced_assignment(t, n)
            },
        }
    } else if t[m] is Pub {
        Some(m)
    } else {
        None
    }
}

/// Where a property assignment or declaration stands among the children of
/// the element at token `i`, after its path, its `for` clause, its `{` and
/// its valid property assignments: `None` where there is none, or where the
/// element goes wrong before its children.
#[verifier::opaque]
pub open spec fn element_misplaced(t: Seq<Lexeme>, i: int) -> Option<int> {
    if i < 0 || i >= t.len() || !(t[i] is Name) {
        None
    } else {
        let r = path_rest(t, i + 1);
        if !r.2 {
            None
        } else {
            match repeater_at(t, r.1) {
                None => None,
                Some((_, k)) => if k <= i || !(k < t.len() && t[k] is LBrace) {
                    None
                } else {
                    match assignments_from(t, k + 1, Seq::empty()) {
                        None => None,
                        Some((a, m)) => if !assignments_valid(a) || m <= i || m >= t.len() {
                            None
                        } else {
                            misplaced_assignment(t, m)
                        },
                    }
                },
            }
        }
    }
}

/// `element_misplaced` unfolded once.
proof fn lemma_element_misplaced_unfold(t: Seq<Lexeme>, i: int)
    ensures
        element_misplaced(t, i) == ({
            if i < 0 || i >= t.len() || !(t[i] is Name) {
                None
            } else {
                let r = path_rest(t, i + 1);
                if !r.2 {
                    None
                } else {
                    match repeater_at(t, r.1) {
                        None => None,
                        Some((_, k)) => if k <= i || !(k < t.len() && t[k] is LBrace) {
                            None
                        } else {
                            match assignments_from(t, k + 1, Seq::empty()) {
                                None => None,
                                Some((a, m)) => if !assignments_valid(a) || m <= i || m >= t.len() {
                                    None
                                } else {
                                    misplaced_assignment(t, m)
                                },
                            }
                        },
                    }
                }
            }
        }),
{
    reveal(element_misplaced);
}

/// One step of `element_at`.
proof fn lemma_element_at_unfold(t: Seq<Lexeme>, i: int)
    ensures
        element_at(t, i) == ({
            if i < 0 || i >= t.len() || !(t[i] is Name) {
                None
            } else {
                let r = path_rest(t, i + 1);
                if !r.2 {
                    None
                } else {
                    match repeater_at(t, r.1) {
                        None => None,
                        Some((rep, k)) => if k <= i || !(k < t.len() && t[k] is LBrace) {
                            None
                        } else {
                            match assignments_from(t, k + 1, Seq::empty()) {
                                None => None,
                                Some((a, m)) => if !assignments_valid(a) || m <= i || m >= t.len() {
                                    None
                                } else {
                                    match children_from(t, m, Seq::empty()) {
                                        None => None,
                                        Some((cs, n)) => if 0 <= n < t.len() && t[n] is RBrace {
                                            Some((
                                                ElementShape {
                                                    path: seq![t[i]->Name_0] + r.0,
                                                    repeater: rep,
                                                    props: a,
                                                    children: cs,
                                                },
                                                n + 1,
                                            ))
                                        } else {
                                            None
                                        },
                                    }
                                },
                            }
                        },
                    }
                }
            }
        }),
{
    reveal_with_fuel(element_at, 1);
    reveal_with_fuel(children_from, 1);
}

/// One step of `children_from`.
proof fn lemma_children_from_unfold(t: Seq<Lexeme>, m: int, acc: Seq<ElementShape>)
    ensures
        children_from(t, m, acc) == ({
            if m < 0 || m >= t.len() {
                None
            } else if t[m] is Name {
                if m + 1 < t.len() && t[m + 1] is Colon {
                    None
                } else {
                    match element_at(t, m) {
                        None => None,
                        Some((c, n)) => if n <= m || n >= t.len() {
                            None
                        } else {
                            children_from(t, n, acc.push(c))
                        },
                    }
                }
            } else if t[m] is Str {
                children_from(t, m + 1, acc.push(text_shape(ExprShape::Lit(Literal::Str(t[m]->Str_0)))))
            } else if t[m] is LParen {
                match expr_at(t, m) {
                    None => None,
                    Some((x, n)) => if n <= m || n >= t.len() {
                        None
                    } else {
                        children_from(t, n, acc.push(text_shape(x)))
                    },
                }
            } else if t[m] is Pub {
                None
            } else {
                Some((acc, m))
            }
        }),
{
    reveal_with_fuel(element_at, 1);
    reveal_with_fuel(children_from, 1);
}

/// The element `e` has the structure `s`.
pub open spec fn element_has_shape(e: Element, s: ElementShape) -> bool
    decreases s, 1int, 0int,
{
    &&& string_views(e.path@) == s.path
    &&& e.data is None
    &&& e.condition is None
    &&& match s.repeater {
        None => e.repeater is None,
        Some((ix, it, c)) => e.repeater matches Some(rp) && opt_name(rp.index) == ix && opt_name(rp.item) == it
            && has_shape(rp.collection, c),
    }
    &&& assigned(e.props.entries@, s.props)
    &&& e.children@.len() == s.children.len()
    &&& children_shaped(e.children@, s.children, s.children.len() as int)
}

/// The first `k` contents `cs` are elements with the structures `ss`.
pub open spec fn children_shaped(cs: Seq<Content>, ss: Seq<ElementShape>, k: int) -> bool
    decreases ss, 0int, k,
{
    if k <= 0 || k > ss.len() || k > cs.len() {
        true
    } else {
        children_shaped(cs, ss, k - 1) && match cs[k - 1] {
            Content::Element(c) => element_has_shape(c, ss[k - 1]),
            _ => false,
        }
    }
}

/// No element in the tree of `e` sets a property twice.
pub open spec fn props_unique_all(e: Element) -> bool
    decreases e, 1int, 0int,
{
    unique_names(e.props.entries@) && contents_unique(e.children@, e.children@.len() as int)
}

/// No element among the first `k` contents `cs`, nor in their trees, sets a
/// property twice.
pub open spec fn contents_unique(cs: Seq<Content>, k: int) -> bool
    decreases cs, 0int, k,
{
    if k <= 0 || k > cs.len() {
        true
    } else {
        contents_unique(cs, k - 1) && match cs[k - 1] {
            Content::Element(c) => props_unique_all(c),
            Content::Children(_) => true,
        }
    }
}

/// Adding a content at the end leaves the ones before as they were.
proof fn lemma_contents_unique_push(cs: Seq<Content>, c: Content, k: int)
    requires
        0 <= k <= cs.len(),
        contents_unique(cs, k),
    ensures
        contents_unique(cs.push(c), k),
    decreases k,
{
    if k > 0 {
        lemma_contents_unique_push(cs, c, k - 1);
        assert(cs.push(c)[k - 1] == cs[k - 1]);
    }
}

/// Adding a content and a structure at the end leaves the structures of the
/// ones before as they were.
proof fn lemma_children_shaped_push(cs: Seq<Content>, ss: Seq<ElementShape>, c: Content, s: ElementShape, k: int)
    requires
        0 <= k <= cs.len(),
        cs.len() == ss.len(),
    ensures
        children_shaped(cs.push(c), ss.push(s), k) == children_shaped(cs, ss, k),
    decreases k,
{
    if k > 0 {
        lemma_children_shaped_push(cs, ss, c, s, k - 1);
        assert(cs.push(c)[k - 1] == cs[k - 1]);
        assert(ss.push(s)[k - 1] == ss[k - 1]);
    }
}

impl Parser {
    /// Reads an element: a path, an optional `for index, item in collection`
    /// clause, and a body in braces with the property assignments first and
    /// the children after them.
    #[verifier::rlimit(100)]
    #[verifier::spinoff_prover]
    fn parse_element(&mut self) -> (r: Result<Element, ()>)
        requires
            old(self).wf(),
        ensures
            final(self).extends(&*old(self)),
            r is Err ==> final(self).extends_with_error(&*old(self)),
            r matches Ok(e) ==> {
                let t = old(self).toks();
                let o = old(self).at();
                &&& final(self).issues == old(self).issues
                &&& final(self).at() > o
                &&& t[o] is Name && path_rest(t, o + 1).2
                &&& string_views(e.path@) == seq![t[o]->Name_0] + path_rest(t, o + 1).0
                &&& (e.repeater is Some <==> t[path_rest(t, o + 1).1] is For)
                &&& e.data is None
                &&& e.condition is None
                &&& t[final(self).at() - 1] is RBrace
                &&& unique_names(e.props.entries@)
                &&& final(self).span_ok(&e.name_span, o, final(self).at())
            },
            !(old(self).toks()[old(self).at()] is Name) ==> r is Err,
            ({
                let v = element_at(old(self).toks(), old(self).at());
                &&& (r is Ok <==> v is Some)
                &&& r matches Ok(e) ==> (v matches Some((sh, end)) && element_has_shape(e, sh) && final(self).at() == end)
            }),
            r matches Ok(e) ==> props_unique_all(e),
            element_misplaced(old(self).toks(), old(self).at()) matches Some(p) ==> r is Err && one_more_error(
                final(self).issue_list(), old(self).issue_list(),
                "property assignments must occur before any content definitions"@, old(self).tokens@[p].span),
        decreases old(self).tokens@.len() - old(self).offset, 0int,
    {
        let ghost o = self.offset as int;
        let ghost t = self.toks();
        proof {
            lemma_element_at_unfold(t, o);
            lemma_element_misplaced_unfold(t, o);
        }
        let (path, name_span) = self.parse_path()?;
        let ghost p = self.offset as int;
        proof {
            self.lemma_last_is_eof();
        }
        let repeater = if let Some(for_tok) = self.permit(TT::For) {
            let ghost for_at = self.offset - 1;
            let (first, first_span) = self.expect_name()?;
            let item_or_index = if str_equal(first.as_str(), "_") { None } else { Some((first, first_span)) };
            proof {
                self.lemma_last_is_eof();
            }
            let (index, item) = if self.permit(TT::Comma).is_some() {
                let (second, second_span) = self.expect_name()?;
                (item_or_index, if str_equal(second.as_str(), "_") { None } else { Some((second, second_span)) })
            } else {
                (None, item_or_index)
            };
            proof {
                self.lemma_last_is_eof();
            }
            self.expect(TT::In)?;
            let ghost coll_at = self.offset as int;
            let collection = self.parse_value()?;
            proof {
                self.lemma_ordered(for_at, coll_at);
            }
            let span = for_tok.span.merge(&collection.span);
            Some(Repeater { index, item, collection, span })
        } else {
            None
        };
        let ghost rep_shape = (repeater_at(t, p)->0).0;
        assert(repeater_at(t, p) == Some((rep_shape, self.offset as int)));
        assert(match rep_shape {
            None => repeater is None,
            Some((ix, it, c)) => repeater matches Some(rp) && opt_name(rp.index) == ix && opt_name(rp.item) == it
                && has_shape(rp.collection, c),
        });
        proof {
            self.lemma_last_is_eof();
        }
        self.expect(TT::LBrace)?;
        let ghost m0 = self.offset as int;
        let props = self.parse_prop_assignments()?;
        let ghost asgn = (assignments_from(t, m0, Seq::empty())->0).0;
        let ghost m = self.offset as int;
        let children = self.parse_children()?;
        let ghost shapes = (children_from(t, m, Seq::empty())->0).0;
        proof {
            self.lemma_last_is_eof();
        }
        self.expect(TT::RBrace)?;
        proof {
            Self::lemma_extends_refl(&*self);
            self.lemma_ordered(o, self.offset as int);
        }
        let e = Element { path, data: None, condition: None, repeater, props, children, name_span };
        assert(element_at(t, o) == Some((ElementShape {
            path: seq![t[o]->Name_0] + path_rest(t, o + 1).0,
            repeater: rep_shape,
            props: asgn,
            children: shapes,
        }, self.offset as int)));
        Ok(e)
    }

    /// Reads the children of an element, up to the token that ends them.
    fn parse_children(&mut self) -> (r: Result<Vec<Content>, ()>)
        requires
            old(self).wf(),
        ensures
            final(self).extends(&*old(self)),
            r is Err ==> final(self).extends_with_error(&*old(self)),
            r is Ok ==> final(self).issues == old(self).issues && final(self).at() >= old(self).at(),
            ({
                let v = children_from(old(self).toks(), old(self).at(), Seq::empty());
                &&& (r is Ok <==> v is Some)
                &&& r matches Ok(cs) ==> (v matches Some((ss, end)) && final(self).at() == end
                    && cs@.len() == ss.len() && children_shaped(cs@, ss, ss.len() as int))
            }),
            r matches Ok(cs) ==> contents_unique(cs@, cs@.len() as int),
            misplaced_assignment(old(self).toks(), old(self).at()) matches Some(p) ==> r is Err && one_more_error(
                final(self).issue_list(), old(self).issue_list(),
                "property assignments must occur before any content definitions"@, old(self).tokens@[p].span),
        decreases old(self).tokens@.len() - old(self).offset, 1int,
    {
        let ghost m = self.offset as int;
        let ghost t = self.toks();
        let mut children: Vec<Content> = Vec::new();
        let ghost mut shapes: Seq<ElementShape> = Seq::empty();
        loop
            invariant_except_break
                self.wf(),
                self.tokens == old(self).tokens,
                self.issues == old(self).issues,
                self.file_path == old(self).file_path,
                self.offset >= m,
                m == old(self).at(),
                t == old(self).toks(),
                t == self.toks(),
                children_from(t, m, Seq::empty()) == children_from(t, self.offset as int, shapes),
                misplaced_assignment(t, m) == misplaced_assignment(t, self.offset as int),
                children@.len() == shapes.len(),
                children_shaped(children@, shapes, shapes.len() as int),
                contents_unique(children@, children@.len() as int),
            ensures
                self.wf(),
                self.tokens == old(self).tokens,
                self.issues == old(self).issues,
                self.file_path == old(self).file_path,
                self.offset >= m,
                children_from(t, m, Seq::empty()) == Some((shapes, self.offset as int)),
                misplaced_assignment(t, m) is None,
                children@.len() == shapes.len(),
                children_shaped(children@, shapes, shapes.len() as int),
                contents_unique(children@, children@.len() as int),
            decreases self.tokens@.len() - self.offset,
        {
            let ghost q = self.offset as int;
            proof {
                self.lemma_last_is_eof();
                lemma_children_from_unfold(t, q, shapes);
                reveal_with_fuel(misplaced_assignment, 1);
            }
            let ghost before = *self;
            if self.cur().is_name() {
                if self.cur_offset(1).is(TT::Colon) {
                    let span = self.cur().span.duplicate();
                    self.error("property assignments must occur before any content definitions".to_owned(), &span);
                    proof {
                        reveal(one_more_error);
                    }
                    return Err(());
                }
                let child = match self.parse_element() {
                    Ok(c) => c,
                    Err(()) => {
                        proof {
                            Self::lemma_extends_trans(&*self, &before, &*old(self));
                        }
                        return Err(());
                    },
                };
                let ghost sh = (element_at(t, q)->0).0;
                proof {
                    lemma_children_shaped_push(children@, shapes, Content::Element(child), sh, shapes.len() as int);
                    lemma_contents_unique_push(children@, Content::Element(child), children@.len() as int);
                }
                children.push(Content::Element(child));
                proof {
                    shapes = shapes.push(sh);
                }
            } else if let Some((value, span)) = self.permit_string() {
                let value = Expr { value: ExprValue::String(value), span };
                let text = Element::text(value);
                let ghost sh = text_shape(ExprShape::Lit(Literal::Str(t[q]->Str_0)));
                proof {
                    assert(element_has_shape(text, sh));
                    lemma_children_shaped_push(children@, shapes, Content::Element(text), sh, shapes.len() as int);
                    lemma_contents_unique_push(children@, Content::Element(text), children@.len() as int);
                    assert(props_unique_all(text));
                }
                children.push(Content::Element(text));
                proof {
                    shapes = shapes.push(sh);
                }
            } else if self.cur().is(TT::LParen) {
                let value = match self.parse_expr() {
                    Ok(v) => v,
                    Err(()) => {
                        proof {
                            Self::lemma_extends_trans(&*self, &before, &*old(self));
                        }
                        return Err(());
                    },
                };
                let ghost x = (expr_at(t, q)->0).0;
                let text = Element::text(value);
                let ghost sh = text_shape(x);
                proof {
                    assert(element_has_shape(text, sh));
                    lemma_children_shaped_push(children@, shapes, Content::Element(text), sh, shapes.len() as int);
                    lemma_contents_unique_push(children@, Content::Element(text), children@.len() as int);
                    assert(props_unique_all(text));
                }
                children.push(Content::Element(text));
                proof {
                    shapes = shapes.push(sh);
                }
            } else if self.cur().is(TT::Pub) {
                let span = self.cur().span.duplicate();
                self.error("property assignments must occur before any content definitions".to_owned(), &span);
                proof {
                    reveal(one_more_error);
                }
                return Err(());
            } else {
                break;
            }
        }
        proof {
            Self::lemma_extends_refl(&*self);
        }
        Ok(children)
    }

    /// Reads a whole component file: its imports, its property declarations
    /// and its single root element, which must be followed by the end of the
    /// file. The component is named after the file, in upper camel case.
    pub fn parse(&mut self) -> (r: Result<Component, ()>)
        requires
            old(self).wf(),
        ensures
            final(self).extends(&*old(self)),
            r is Ok <==> !final(self).has_failed(),
            r matches Ok(c) ==> {
                &&& !old(self).has_failed()
                &&& component_at(old(self).toks(), old(self).at())
                &&& parsed_from(c, old(self).toks(), old(self).at())
                &&& props_unique_all(c.root)
                &&& final(self).issue_list() == old(self).issue_list()
                &&& final(self).toks()[final(self).at()] is Eof
            },
            r matches Ok(c) ==> (named_file(old(self).path()) ==> c.name@ == upper_camel_case(path_stem(old(self).path()))),
            !old(self).has_failed() && component_at(old(self).toks(), old(self).at()) && named_file(old(self).path())
                ==> r is Ok,
            !old(self).has_failed() && component_at(old(self).toks(), old(self).at()) ==> r is Ok || {
                &&& final(self).issue_list().len() == old(self).issue_list().len() + 1
                &&& final(self).issue_list().last().message@ == "the file name does not name a component"@
            },
            ({
                let t = old(self).toks();
                let imports = imports_spec(t, old(self).at());
                let decls = prop_decls_spec(t, imports.1);
                let root = element_at(t, decls.1);
                imports.2 && decls.2 && root is Some ==> {
                    &&& !(t[(root->0).1] is Eof) && after_root_message(t, (root->0).1) is Some ==> r is Err
                        && final(self).issue_list().last().message@ == after_root_message(t, (root->0).1)->0
                    &&& t[(root->0).1] is Eof && (root->0).0.repeater is Some ==> r is Err
                        && final(self).issue_list().last().message@ == "`for ... in ...` cannot be used on the root of the component"@
                }
            }),
    {
        let ghost t = self.toks();
        let ghost o = self.offset as int;
        let imports = self.parse_imports()?;
        let ghost after_imports = *self;
        let props = self.parse_prop_decls()?;
        let ghost after_decls = *self;
        proof {
            Self::lemma_extends_trans(&*self, &after_imports, &*old(self));
        }
        let root = self.parse_element()?;
        proof {
            Self::lemma_extends_trans(&*self, &after_decls, &*old(self));
            self.lemma_last_is_eof();
        }
        if !self.cur().is(TT::Eof) {
            let span = self.cur().span.duplicate();
            let ghost before = *self;
            if self.cur().is_name() && self.cur_offset(1).is(TT::Colon) {
                self.error("property declarations must occur before any content definitions".to_owned(), &span);
            } else if self.cur_offset(1).is(TT::Pub) {
                self.error("property declarations must occur before any content definitions".to_owned(), &span);
            } else if self.cur().is_name() && self.cur_offset(1).is(TT::LBrace) {
                self.error("the component must have a single root element".to_owned(), &span);
            } else {
                let found = self.cur().duplicate();
                self.expected_error("end of file".to_owned(), &found);
            }
            proof {
                Self::lemma_extends_trans(&*self, &before, &*old(self));
            }
            return Err(());
        }
        if let Some(condition) = &root.condition {
            let ghost before = *self;
            self.error("`if ...` cannot be used on the root of the component".to_owned(), &condition.span);
            proof {
                Self::lemma_extends_trans(&*self, &before, &*old(self));
            }
            return Err(());
        } else if let Some(repeater) = &root.repeater {
            let ghost before = *self;
            self.error("`for ... in ...` cannot be used on the root of the component".to_owned(), &repeater.span);
            proof {
                Self::lemma_extends_trans(&*self, &before, &*old(self));
            }
            return Err(());
        }
        let stem = file_stem(self.file_path.as_str());
        let name = match stem {
            Some(stem) => to_upper_camel_case(stem.as_str()),
            None => {
                let ghost before = *self;
                self.error("the file name does not name a component".to_owned(), &root.name_span);
                proof {
                    Self::lemma_extends_trans(&*self, &before, &*old(self));
                }
                return Err(());
            },
        };
        if self.failed {
            Err(())
        } else {
            Ok(Component {
                name,
                props,
                root,
                import_decls: imports,
                imports_map: Table::new(),
                status: CompileStatus::Ready,
            })
        }
    }
}

/// The error reported for what follows the root element at token `end`,
/// where the file does not end there: a property declaration, or a second
/// root element; `None` for anything else.
pub open spec fn after_root_message(t: Seq<Lexeme>, end: int) -> Option<Seq<char>> {
    if t[end] is Name && t[end + 1] is Colon {
        Some("property declarations must occur before any content definitions"@)
    } else if t[end + 1] is Pub {
        Some("property declarations must occur before any content definitions"@)
    } else if t[end] is Name && t[end + 1] is LBrace {
        Some("the component must have a single root element"@)
    } else {
        None
    }
}

/// The tokens from `o` on hold a whole component that reads without error:
/// its imports, its property declarations with no name declared twice, and
/// a root element without a `for` clause that ends the file.
pub open spec fn component_at(t: Seq<Lexeme>, o: int) -> bool {
    let imports = imports_spec(t, o);
    let decls = prop_decls_spec(t, imports.1);
    &&& imports.2
    &&& decls.2
    &&& !(exists|k: int| 0 <= k < decls.0.len() && is_repeat(decls.0, k))
    &&& element_at(t, decls.1) matches Some((root, end)) && root.repeater is None && 0 <= end < t.len()
        && t[end] is Eof
}

/// What a component read from the tokens `t`, starting at `o`, holds: the
/// imports and property declarations found there, the root element found
/// after them, no resolved imports yet, and a name that is the upper camel
/// case of some file stem.
pub open spec fn parsed_from(c: Component, t: Seq<Lexeme>, o: int) -> bool {
    let imports = imports_spec(t, o);
    let decls = prop_decls_spec(t, imports.1);
    &&& c.import_decls@.map_values(|i: Import| import_view(i)) == imports.0
    &&& first_decls(c.props.entries@, decls.0)
    &&& element_at(t, decls.1) matches Some((root, _)) && element_has_shape(c.root, root)
    &&& c.imports_map.entries@.len() == 0
    &&& c.status == CompileStatus::Ready
    &&& exists|stem: Seq<char>| c.name@ == upper_camel_case(stem)
}

/// Every hex color that the tokenizer produces is valid.
pub proof fn lemma_lex_all_colors_valid(s: Seq<char>, i: int)
    requires
        0 <= i <= s.len(),
    ensures
        forall|k: int| 0 <= k < lex_all(s, i).len() && (#[trigger] lex_all(s, i)[k]) is HexColor
            ==> valid_hex_color(lex_all(s, i)[k]->HexColor_0),
    decreases s.len() - i,
{
    crate::tokens::lemma_lex_all_step(s, i);
    let j = crate::tokens::skip_trivia(s, i);
    if j < s.len() {
        let tk = crate::tokens::lex_token(s, j);
        lemma_lex_all_colors_valid(s, tk.1);
        let rest = lex_all(s, tk.1);
        assert(lex_all(s, i) == seq![tk.0] + rest);
        crate::tokens::lemma_run_len_bounds(s, j + 1, crate::tokens::CharClass::HexDigit);
        assert forall|k: int| 0 <= k < lex_all(s, i).len() && (#[trigger] lex_all(s, i)[k]) is HexColor
            implies valid_hex_color(lex_all(s, i)[k]->HexColor_0) by {
            if k > 0 {
                assert(lex_all(s, i)[k] == rest[k - 1]);
            } else {
                let n = crate::tokens::run_len(s, j + 1, crate::tokens::CharClass::HexDigit);
                let h = s.subrange(j + 1, j + 1 + n);
                assert forall|m: int| 0 <= m < h.len() implies crate::tokens::hex_digit_char(#[trigger] h[m]) by {
                    assert(crate::tokens::in_class(s[j + 1 + m], crate::tokens::CharClass::HexDigit));
                }
            }
        }
    }
}

/// Reads a component from the text of its file: tokenizes the text and
/// parses the tokens. All the errors that either step reports come back
/// instead if there are any.
pub fn parse_source(file_path: String, contents: String) -> (r: Result<Component, Vec<Issue>>)
    requires
        contents@.len() < usize::MAX,
    ensures
        lex_failed(contents@, 0) ==> r is Err,
        r matches Ok(c) ==> component_at(lex_all(contents@, 0), 0) && parsed_from(c, lex_all(contents@, 0), 0),
        r matches Ok(c) ==> props_unique_all(c.root),
        r matches Ok(c) ==> (named_file(file_path@) ==> c.name@ == upper_camel_case(path_stem(file_path@))),
        !lex_failed(contents@, 0) && component_at(lex_all(contents@, 0), 0) && named_file(file_path@) ==> r is Ok,
        !lex_failed(contents@, 0) && component_at(lex_all(contents@, 0), 0) ==> r is Ok || (r matches Err(issues)
            && issues@.len() == 1 && issues@[0].message@ == "the file name does not name a component"@),
        r matches Err(issues) ==> issues@.len() > 0 && forall|i: int| 0 <= i < issues@.len()
            ==> #[trigger] issues@[i].level == crate::issue::IssueLevel::Error,
{
    let path = file_path.clone();
    let source = SourceFile::from_contents(file_path, contents);
    let tokenizer = Tokenizer::new(source);
    let tokens = tokenizer.tokenize()?;
    proof {
        crate::tokens::lemma_lex_all_ends_with_eof(source.buf@, 0);
        lemma_lex_all_colors_valid(source.buf@, 0);
        assert forall|i: int| 0 <= i < tokens@.len() implies (#[trigger] tokens@[i]).tok@ == lex_all(source.buf@, 0)[i] by {
        }
    }
    let mut parser = Parser::new(&path, tokens);
    match parser.parse() {
        Ok(c) => Ok(c),
        Err(()) => Err(parser.into_issues()),
    }
}

} // verus!
