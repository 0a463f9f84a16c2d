//! The tokenizer: turns the text of a source file into tokens.

use std::rc::Rc;
use vstd::prelude::*;
use crate::issue::Issue;
use crate::source_file::{SourceFile, Span, rc_clone};
use crate::text::{chars_of, concat, decimal, escape_unicode_spec, push_char, str_equal, string_from_chars, string_repr, string_repr_spec};
use crate::source_file::{merge_positions, positions};
use vstd::string::StringExecFns;

verus! {

/// A token type, with the text it carries.
pub enum TT {
    Name(String),
    Enum(String),
    String(String),
    Number((String, bool, String)),
    HexColor(String),
    True,
    False,
    Pub,
    Import,
    As,
    For,
    In,
    If,
    LBrace,
    RBrace,
    LParen,
    RParen,
    Colon,
    Semicolon,
    Plus,
    Minus,
    Asterisk,
    Period,
    Comma,
    Slash,
    Error(String),
    Eof,
}

/// The mathematical value of a token type: its variant and the characters it carries.
pub enum Lexeme {
    Name(Seq<char>),
    Enum(Seq<char>),
    Str(Seq<char>),
    Number(Seq<char>, bool, Seq<char>),
    HexColor(Seq<char>),
    True,
    False,
    Pub,
    Import,
    As,
    For,
    In,
    If,
    LBrace,
    RBrace,
    LParen,
    RParen,
    Colon,
    Semicolon,
    Plus,
    Minus,
    Asterisk,
    Period,
    Comma,
    Slash,
    Error(Seq<char>),
    Eof,
}

impl View for TT {
    type V = Lexeme;

    open spec fn view(&self) -> Lexeme {
        match self {
            TT::Name(s) => Lexeme::Name(s@),
            TT::Enum(s) => Lexeme::Enum(s@),
            TT::String(s) => Lexeme::Str(s@),
            TT::Number((a, f, b)) => Lexeme::Number(a@, *f, b@),
            TT::HexColor(s) => Lexeme::HexColor(s@),
            TT::True => Lexeme::True,
            TT::False => Lexeme::False,
            TT::Pub => Lexeme::Pub,
            TT::Import => Lexeme::Import,
            TT::As => Lexeme::As,
            TT::For => Lexeme::For,
            TT::In => Lexeme::In,
            TT::If => Lexeme::If,
            TT::LBrace => Lexeme::LBrace,
            TT::RBrace => Lexeme::RBrace,
            TT::LParen => Lexeme::LParen,
            TT::RParen => Lexeme::RParen,
            TT::Colon => Lexeme::Colon,
            TT::Semicolon => Lexeme::Semicolon,
            TT::Plus => Lexeme::Plus,
            TT::Minus => Lexeme::Minus,
            TT::Asterisk => Lexeme::Asterisk,
            TT::Period => Lexeme::Period,
            TT::Comma => Lexeme::Comma,
            TT::Slash => Lexeme::Slash,
            TT::Error(s) => Lexeme::Error(s@),
            TT::Eof => Lexeme::Eof,
        }
    }
}

/// The description of a token type used in messages.
pub open spec fn lexeme_desc(t: Lexeme) -> Seq<char> {
    match t {
        Lexeme::Name(..) => "name"@,
        Lexeme::Enum(..) => "enum"@,
        Lexeme::Str(..) => "string"@,
        Lexeme::Number(..) => "number"@,
        Lexeme::HexColor(..) => "hex color"@,
        Lexeme::True => "true"@,
        Lexeme::False => "false"@,
        Lexeme::Pub => "pub"@,
        Lexeme::Import => "import"@,
        Lexeme::As => "as"@,
        Lexeme::For => "for"@,
        Lexeme::In => "in"@,
        Lexeme::If => "if"@,
        Lexeme::LBrace => "{"@,
        Lexeme::RBrace => "}"@,
        Lexeme::LParen => "("@,
        Lexeme::RParen => ")"@,
        Lexeme::Colon => ":"@,
        Lexeme::Semicolon => ";"@,
        Lexeme::Plus => "+"@,
        Lexeme::Minus => "-"@,
        Lexeme::Asterisk => "*"@,
        Lexeme::Period => "."@,
        Lexeme::Comma => ","@,
        Lexeme::Slash => "/"@,
        Lexeme::Eof => "end of file"@,
        Lexeme::Error(..) => Seq::empty(),
    }
}

impl TT {
    /// The description of this token type used in messages (not defined for `Error`).
    pub fn desc(&self) -> (r: String)
        requires
            !(self is Error),
        ensures
            r@ == lexeme_desc(self@),
    {
        match self {
            TT::Name(..) => "name".to_owned(),
            TT::Enum(..) => "enum".to_owned(),
            TT::String(..) => "string".to_owned(),
            TT::Number(..) => "number".to_owned(),
            TT::HexColor(..) => "hex color".to_owned(),
            TT::True => "true".to_owned(),
            TT::False => "false".to_owned(),
            TT::Pub => "pub".to_owned(),
            TT::Import => "import".to_owned(),
            TT::As => "as".to_owned(),
            TT::For => "for".to_owned(),
            TT::In => "in".to_owned(),
            TT::If => "if".to_owned(),
            TT::LBrace => "{".to_owned(),
            TT::RBrace => "}".to_owned(),
            TT::LParen => "(".to_owned(),
            TT::RParen => ")".to_owned(),
            TT::Colon => ":".to_owned(),
            TT::Semicolon => ";".to_owned(),
            TT::Plus => "+".to_owned(),
            TT::Minus => "-".to_owned(),
            TT::Asterisk => "*".to_owned(),
            TT::Period => ".".to_owned(),
            TT::Comma => ",".to_owned(),
            TT::Slash => "/".to_owned(),
            TT::Eof => "end of file".to_owned(),
            TT::Error(_) => String::new(),
        }
    }

    /// Whether two token types are equal (same variant and same text).
    pub fn same(&self, other: &TT) -> (r: bool)
        ensures
            r == (self@ == other@),
    {
        match (self, other) {
            (TT::Name(a), TT::Name(b)) => *a == *b,
            (TT::Enum(a), TT::Enum(b)) => *a == *b,
            (TT::String(a), TT::String(b)) => *a == *b,
            (TT::Number((a1, f1, b1)), TT::Number((a2, f2, b2))) => {
                *a1 == *a2 && *f1 == *f2 && *b1 == *b2
            },
            (TT::HexColor(a), TT::HexColor(b)) => *a == *b,
            (TT::Error(a), TT::Error(b)) => *a == *b,
            (TT::True, TT::True) => true,
            (TT::False, TT::False) => true,
            (TT::Pub, TT::Pub) => true,
            (TT::Import, TT::Import) => true,
            (TT::As, TT::As) => true,
            (TT::For, TT::For) => true,
            (TT::In, TT::In) => true,
            (TT::If, TT::If) => true,
            (TT::LBrace, TT::LBrace) => true,
            (TT::RBrace, TT::RBrace) => true,
            (TT::LParen, TT::LParen) => true,
            (TT::RParen, TT::RParen) => true,
            (TT::Colon, TT::Colon) => true,
            (TT::Semicolon, TT::Semicolon) => true,
            (TT::Plus, TT::Plus) => true,
            (TT::Minus, TT::Minus) => true,
            (TT::Asterisk, TT::Asterisk) => true,
            (TT::Period, TT::Period) => true,
            (TT::Comma, TT::Comma) => true,
            (TT::Slash, TT::Slash) => true,
            (TT::Eof, TT::Eof) => true,
            _ => false,
        }
    }

    /// A copy of this token type.
    pub fn duplicate(&self) -> (r: TT)
        ensures
            r@ == self@,
    {
        match self {
            TT::Name(s) => TT::Name(s.clone()),
            TT::Enum(s) => TT::Enum(s.clone()),
            TT::String(s) => TT::String(s.clone()),
            TT::Number((a, f, b)) => TT::Number((a.clone(), *f, b.clone())),
            TT::HexColor(s) => TT::HexColor(s.clone()),
            TT::True => TT::True,
            TT::False => TT::False,
            TT::Pub => TT::Pub,
            TT::Import => TT::Import,
            TT::As => TT::As,
            TT::For => TT::For,
            TT::In => TT::In,
            TT::If => TT::If,
            TT::LBrace => TT::LBrace,
            TT::RBrace => TT::RBrace,
            TT::LParen => TT::LParen,
            TT::RParen => TT::RParen,
            TT::Colon => TT::Colon,
            TT::Semicolon => TT::Semicolon,
            TT::Plus => TT::Plus,
            TT::Minus => TT::Minus,
            TT::Asterisk => TT::Asterisk,
            TT::Period => TT::Period,
            TT::Comma => TT::Comma,
            TT::Slash => TT::Slash,
            TT::Error(s) => TT::Error(s.clone()),
            TT::Eof => TT::Eof,
        }
    }
}

/// A token and the span of source text it came from.
pub struct Token {
    pub tok: TT,
    pub span: Span,
}

/// How a token is shown in messages, without the surrounding backquotes.
pub open spec fn lexeme_text(t: Lexeme) -> Seq<char> {
    match t {
        Lexeme::Name(s) => s,
        Lexeme::Str(s) => string_repr_spec(s),
        Lexeme::Number(a, _, b) => a + b,
        Lexeme::HexColor(s) => seq!['#'] + s,
        Lexeme::Error(s) => string_repr_spec(s),
        _ => lexeme_desc(t),
    }
}

impl Token {
    /// Whether this token has the given type and text.
    pub fn is(&self, tok: TT) -> (r: bool)
        ensures
            r == (self.tok@ == tok@),
    {
        self.tok.same(&tok)
    }

    /// Whether this token is a name.
    pub fn is_name(&self) -> (r: bool)
        ensures
            r == (self.tok is Name),
    {
        match self.tok {
            TT::Name(_) => true,
            _ => false,
        }
    }

    /// Whether this token is a string literal.
    pub fn is_string(&self) -> (r: bool)
        ensures
            r == (self.tok is String),
    {
        match self.tok {
            TT::String(_) => true,
            _ => false,
        }
    }

    /// Whether this token is an enum literal (`.name`).
    pub fn is_enum(&self) -> (r: bool)
        ensures
            r == (self.tok is Enum),
    {
        match self.tok {
            TT::Enum(_) => true,
            _ => false,
        }
    }

    /// How the token is shown in messages: its text in backquotes.
    pub fn to_display_string(&self) -> (r: String)
        ensures
            r@ == seq!['`'] + lexeme_text(self.tok@) + seq!['`'],
    {
        let s = match &self.tok {
            TT::Name(s) => s.clone(),
            TT::String(s) => string_repr(s),
            TT::Number((s1, _, s2)) => concat(s1.as_str(), s2.as_str()),
            TT::HexColor(s) => {
                let mut h = String::new();
                push_char(&mut h, '#');
                h.append(s.as_str());
                h
            },
            TT::Error(s) => string_repr(s),
            _ => self.tok.desc(),
        };
        let mut r = String::new();
        push_char(&mut r, '`');
        r.append(s.as_str());
        push_char(&mut r, '`');
        r
    }

    /// A copy of this token.
    pub fn duplicate(&self) -> (r: Token)
        ensures
            r.tok@ == self.tok@,
            r.span == self.span,
    {
        Token { tok: self.tok.duplicate(), span: self.span.duplicate() }
    }
}

} // verus!

verus! {

/// Whitespace between tokens.
pub open spec fn space_char(c: char) -> bool {
    c == ' ' || c == '\n' || c == '\t'
}

/// A decimal digit.
pub open spec fn digit_char(c: char) -> bool {
    '0' <= c && c <= '9'
}

/// A hexadecimal digit (either case).
pub open spec fn hex_digit_char(c: char) -> bool {
    digit_char(c) || ('a' <= c && c <= 'f') || ('A' <= c && c <= 'F')
}

/// A character that may start a name.
pub open spec fn name_first_char(c: char) -> bool {
    ('A' <= c && c <= 'Z') || ('a' <= c && c <= 'z') || c == '_'
}

/// A character that may continue a name.
pub open spec fn name_char(c: char) -> bool {
    name_first_char(c) || digit_char(c)
}

/// A character that is a token on its own.
pub open spec fn op_one_char(c: char) -> bool {
    c == '{' || c == '}' || c == '(' || c == ')' || c == ':' || c == ';' || c == '+' || c == '-'
        || c == '*' || c == ','
}

fn is_space(c: char) -> (r: bool)
    ensures
        r == space_char(c),
{
    c == ' ' || c == '\n' || c == '\t'
}

fn is_name(c: char) -> (r: bool)
    ensures
        r == name_char(c),
{
    is_name_first(c) || is_digit(c)
}

fn is_digit(c: char) -> (r: bool)
    ensures
        r == digit_char(c),
{
    c >= '0' && c <= '9'
}

fn is_hex_digit(c: char) -> (r: bool)
    ensures
        r == hex_digit_char(c),
{
    is_digit(c) || c >= 'a' && c <= 'f' || c >= 'A' && c <= 'F'
}

fn is_name_first(c: char) -> (r: bool)
    ensures
        r == name_first_char(c),
{
    c >= 'A' && c <= 'Z' || c >= 'a' && c <= 'z' || c == '_'
}

fn is_op_one(c: char) -> (r: bool)
    ensures
        r == op_one_char(c),
{
    c == '{' || c == '}' || c == '(' || c == ')' || c == ':' || c == ';' || c == '+' || c == '-'
        || c == '*' || c == ','
}

/// The classes of characters that the tokenizer consumes in runs.
pub enum CharClass {
    Space,
    Name,
    Digit,
    HexDigit,
    NotQuote,
    NotNewline,
}

/// Whether `c` belongs to the class `k`.
pub open spec fn in_class(c: char, k: CharClass) -> bool {
    match k {
        CharClass::Space => space_char(c),
        CharClass::Name => name_char(c),
        CharClass::Digit => digit_char(c),
        CharClass::HexDigit => hex_digit_char(c),
        CharClass::NotQuote => c != '"',
        CharClass::NotNewline => c != '\n',
    }
}

fn class_contains(k: &CharClass, c: char) -> (r: bool)
    ensures
        r == in_class(c, *k),
{
    match k {
        CharClass::Space => is_space(c),
        CharClass::Name => is_name(c),
        CharClass::Digit => is_digit(c),
        CharClass::HexDigit => is_hex_digit(c),
        CharClass::NotQuote => c != '"',
        CharClass::NotNewline => c != '\n',
    }
}

/// The length of the longest run of characters of class `k` starting at `i`.
pub open spec fn run_len(s: Seq<char>, i: int, k: CharClass) -> int
    decreases s.len() - i,
{
    if 0 <= i < s.len() && in_class(s[i], k) {
        1 + run_len(s, i + 1, k)
    } else {
        0
    }
}

/// The end of a (possibly nested) block comment whose body starts at `k`,
/// `depth` openers deep. The body is read one character at a time; a `/` or `*`
/// is read together with the character after it, and only such a pair can
/// open (`/*`) or close (`*/`) a comment. An unterminated comment runs to the
/// end of the text.
pub open spec fn comment_end(s: Seq<char>, k: int, depth: nat) -> int
    decreases s.len() - k,
{
    if depth == 0 || k >= s.len() || k < 0 {
        if depth == 0 { k } else { s.len() as int }
    } else if (s[k] == '/' || s[k] == '*') && k + 1 < s.len() {
        let d: nat = if s[k] == '/' && s[k + 1] == '*' {
            depth + 1
        } else if s[k] == '*' && s[k + 1] == '/' {
            (depth - 1) as nat
        } else {
            depth
        };
        comment_end(s, k + 2, d)
    } else {
        comment_end(s, k + 1, depth)
    }
}

/// The position of the first token at or after `i`: whitespace, line
/// comments (`//` to the end of the line) and block comments are skipped.
pub open spec fn skip_trivia(s: Seq<char>, i: int) -> int
    decreases s.len() - i,
{
    if i < 0 || i >= s.len() {
        i
    } else {
        let j = i + run_len(s, i, CharClass::Space);
        if j + 1 < s.len() && s[j] == '/' && s[j + 1] == '/' {
            proof {
                lemma_run_len_bounds(s, i, CharClass::Space);
                lemma_run_len_bounds(s, j, CharClass::NotNewline);
                assert(run_len(s, j + 1, CharClass::NotNewline) >= 1);
            }
            skip_trivia(s, j + run_len(s, j, CharClass::NotNewline))
        } else if j + 1 < s.len() && s[j] == '/' && s[j + 1] == '*' {
            proof {
                lemma_run_len_bounds(s, i, CharClass::Space);
                lemma_comment_end_bounds(s, j + 2, 1);
            }
            skip_trivia(s, comment_end(s, j + 2, 1))
        } else {
            j
        }
    }
}

/// A run never extends past the end of the text.
pub proof fn lemma_run_len_bounds(s: Seq<char>, i: int, k: CharClass)
    ensures
        0 <= run_len(s, i, k),
        0 <= i <= s.len() ==> i + run_len(s, i, k) <= s.len(),
        forall|j: int| i <= j < i + run_len(s, i, k) ==> #[trigger] in_class(s[j], k),
        0 <= i <= s.len() ==> (i + run_len(s, i, k) == s.len() || !in_class(s[i + run_len(s, i, k)], k)),
    decreases s.len() - i,
{
    if 0 <= i < s.len() && in_class(s[i], k) {
        lemma_run_len_bounds(s, i + 1, k);
    }
}

/// A block comment ends after its body starts and no later than the text ends.
pub proof fn lemma_comment_end_bounds(s: Seq<char>, k: int, depth: nat)
    requires
        0 <= k <= s.len(),
    ensures
        k <= comment_end(s, k, depth) <= s.len(),
    decreases s.len() - k,
{
    if depth == 0 || k >= s.len() {
    } else if (s[k] == '/' || s[k] == '*') && k + 1 < s.len() {
        let d: nat = if s[k] == '/' && s[k + 1] == '*' {
            depth + 1
        } else if s[k] == '*' && s[k + 1] == '/' {
            (depth - 1) as nat
        } else {
            depth
        };
        lemma_comment_end_bounds(s, k + 2, d);
    } else {
        lemma_comment_end_bounds(s, k + 1, depth);
    }
}

} // verus!

verus! {

/// The token for a name: a keyword if it is one, otherwise a name.
pub open spec fn keyword_or_name(text: Seq<char>) -> Lexeme {
    if text == "true"@ {
        Lexeme::True
    } else if text == "false"@ {
        Lexeme::False
    } else if text == "pub"@ {
        Lexeme::Pub
    } else if text == "import"@ {
        Lexeme::Import
    } else if text == "as"@ {
        Lexeme::As
    } else if text == "for"@ {
        Lexeme::For
    } else if text == "in"@ {
        Lexeme::In
    } else if text == "if"@ {
        Lexeme::If
    } else {
        Lexeme::Name(text)
    }
}

/// The token for a one-character operator.
pub open spec fn op_lexeme(c: char) -> Lexeme {
    if c == '{' {
        Lexeme::LBrace
    } else if c == '}' {
        Lexeme::RBrace
    } else if c == '(' {
        Lexeme::LParen
    } else if c == ')' {
        Lexeme::RParen
    } else if c == ':' {
        Lexeme::Colon
    } else if c == ';' {
        Lexeme::Semicolon
    } else if c == '+' {
        Lexeme::Plus
    } else if c == '-' {
        Lexeme::Minus
    } else if c == '*' {
        Lexeme::Asterisk
    } else {
        Lexeme::Comma
    }
}

/// Whether a hex color has an accepted number of digits.
pub open spec fn hex_color_len(n: int) -> bool {
    n == 3 || n == 4 || n == 6 || n == 8
}

/// The token that starts at `j` (after trivia): its value, the position after
/// it, and whether it is an error.
pub open spec fn lex_token(s: Seq<char>, j: int) -> (Lexeme, int, bool) {
    let c = s[j];
    if name_first_char(c) {
        let n = run_len(s, j, CharClass::Name);
        (keyword_or_name(s.subrange(j, j + n)), j + n, false)
    } else if digit_char(c) {
        let k = j + run_len(s, j, CharClass::Digit);
        if k < s.len() && s[k] == '.' {
            let n2 = run_len(s, k + 1, CharClass::Digit);
            if n2 == 0 {
                (Lexeme::Error(s.subrange(j, k + 1)), k + 1, true)
            } else {
                let m = k + 1 + n2;
                let sfx = run_len(s, m, CharClass::Name);
                (Lexeme::Number(s.subrange(j, m), true, s.subrange(m, m + sfx)), m + sfx, false)
            }
        } else {
            let sfx = run_len(s, k, CharClass::Name);
            (Lexeme::Number(s.subrange(j, k), false, s.subrange(k, k + sfx)), k + sfx, false)
        }
    } else if c == '#' {
        let n = run_len(s, j + 1, CharClass::HexDigit);
        let hex = s.subrange(j + 1, j + 1 + n);
        if hex_color_len(n) {
            (Lexeme::HexColor(hex), j + 1 + n, false)
        } else {
            (Lexeme::Error(hex), j + 1 + n, true)
        }
    } else if c == '"' {
        let n = run_len(s, j + 1, CharClass::NotQuote);
        let content = s.subrange(j + 1, j + 1 + n);
        if j + 1 + n >= s.len() {
            (Lexeme::Error(content), s.len() as int, true)
        } else {
            (Lexeme::Str(content), j + 2 + n, false)
        }
    } else if c == '/' {
        (Lexeme::Slash, j + 1, false)
    } else if c == '.' && j + 1 < s.len() && name_first_char(s[j + 1]) {
        let n = run_len(s, j + 1, CharClass::Name);
        (Lexeme::Enum(s.subrange(j + 1, j + 1 + n)), j + 1 + n, false)
    } else if op_one_char(c) {
        (op_lexeme(c), j + 1, false)
    } else {
        (Lexeme::Error(seq![c]), j + 1, true)
    }
}

/// No token read from the text is the end of the file.
/// Once a run of calls of `next` has given the end of the file, it gives it
/// again no more.
proof fn lemma_at_eof_stays(states: Seq<Tokenizer>, results: Seq<Option<Token>>, i: int, j: int)
    requires
        states.len() == results.len() + 1,
        forall|k: int| 0 <= k < results.len() ==> states[k].steps_to(&states[k + 1], #[trigger] results[k]),
        0 <= i <= j <= results.len(),
        states[i].at_eof(),
    ensures
        states[j].at_eof(),
    decreases j - i,
{
    if i < j {
        assert(states[i].steps_to(&states[i + 1], results[i]));
        lemma_at_eof_stays(states, results, i + 1, j);
    }
}

/// Over a run of calls of `next`, from the tokenizer `states[k]` to
/// `states[k + 1]` giving `results[k]`: every token before one that is given
/// is a token other than the end of the file, nothing follows the end of the
/// file, and the end of the file has an empty span.
pub proof fn lemma_end_of_file_once(states: Seq<Tokenizer>, results: Seq<Option<Token>>)
    requires
        states.len() == results.len() + 1,
        forall|k: int| 0 <= k < results.len() ==> states[k].steps_to(&states[k + 1], #[trigger] results[k]),
    ensures
        forall|i: int, j: int| 0 <= i < j < results.len() && #[trigger] results[j] is Some
            ==> (#[trigger] results[i] matches Some(t) && !(t.tok@ is Eof)),
        forall|i: int, j: int| 0 <= i < j < results.len() && (#[trigger] results[i] matches Some(t) && t.tok@ is Eof)
            ==> #[trigger] results[j] is None,
        forall|i: int| 0 <= i < results.len() && (#[trigger] results[i] matches Some(t) && t.tok@ is Eof)
            ==> results[i]->0.span.start_line == results[i]->0.span.end_line
                && results[i]->0.span.start_column == results[i]->0.span.end_column,
{
    assert forall|i: int, j: int| 0 <= i < j < results.len() && #[trigger] results[j] is Some
        implies (#[trigger] results[i] matches Some(t) && !(t.tok@ is Eof)) by {
        assert(states[j].steps_to(&states[j + 1], results[j]));
        assert(states[i].steps_to(&states[i + 1], results[i]));
        if states[i].at_eof() {
            lemma_at_eof_stays(states, results, i, j);
        }
        if states[i + 1].at_eof() {
            lemma_at_eof_stays(states, results, i + 1, j);
        }
    }
    assert forall|i: int, j: int| 0 <= i < j < results.len() && (#[trigger] results[i] matches Some(t) && t.tok@ is Eof)
        implies #[trigger] results[j] is None by {
        assert(states[j].steps_to(&states[j + 1], results[j]));
        assert(states[i].steps_to(&states[i + 1], results[i]));
        lemma_at_eof_stays(states, results, i + 1, j);
    }
    assert forall|i: int| 0 <= i < results.len() && (#[trigger] results[i] matches Some(t) && t.tok@ is Eof)
        implies results[i]->0.span.start_line == results[i]->0.span.end_line
            && results[i]->0.span.start_column == results[i]->0.span.end_column by {
        assert(states[i].steps_to(&states[i + 1], results[i]));
    }
}

pub proof fn lemma_lex_token_not_eof(s: Seq<char>, j: int)
    ensures
        !(lex_token(s, j).0 is Eof),
{
}

/// A `#` followed by exactly 3, 4, 6 or 8 hex digits is a color token
/// holding those digits; followed by any other number of hex digits it is
/// an error holding them, reported with that number.
pub proof fn lemma_hex_colors(s: Seq<char>, j: int, n: int)
    requires
        0 <= j,
        0 <= n,
        j + 1 + n <= s.len(),
        s[j] == '#',
        forall|m: int| j < m <= j + n ==> #[trigger] hex_digit_char(s[m]),
        j + 1 + n == s.len() || !hex_digit_char(s[j + 1 + n]),
    ensures
        (n == 3 || n == 4 || n == 6 || n == 8) ==> lex_token(s, j) == (Lexeme::HexColor(s.subrange(j + 1, j + 1 + n)), j + 1 + n, false),
        !(n == 3 || n == 4 || n == 6 || n == 8) ==> lex_token(s, j) == (Lexeme::Error(s.subrange(j + 1, j + 1 + n)), j + 1 + n, true)
            && lex_error_message(s, j) == "expected 3, 4, 6, or 8 hex digits (found "@ + decimal(n as nat) + ")"@,
{
    assert forall|m: int| j + 1 <= m < j + 1 + n implies #[trigger] in_class(s[m], CharClass::HexDigit) by {
        assert(hex_digit_char(s[m]));
    }
    lemma_run_len_exact(s, j + 1, j + 1 + n, CharClass::HexDigit);
    assert(!name_first_char('#'));
    assert(!digit_char('#'));
}

/// The error reported for a malformed token that starts at `j`.
pub open spec fn lex_error_message(s: Seq<char>, j: int) -> Seq<char> {
    let c = s[j];
    if digit_char(c) {
        "expected digits following decimal point"@
    } else if c == '#' {
        "expected 3, 4, 6, or 8 hex digits (found "@ + decimal(run_len(s, j + 1, CharClass::HexDigit) as nat) + ")"@
    } else if c == '"' {
        "encountered unterminated string literal"@
    } else {
        "encountered illegal character: '"@ + seq![c] + " ("@ + escape_unicode_spec(c) + ")'"@
    }
}

/// Every token starts after the previous one and ends within the text.
pub proof fn lemma_lex_token_advances(s: Seq<char>, j: int)
    requires
        0 <= j < s.len(),
    ensures
        j < lex_token(s, j).1 <= s.len(),
{
    let c = s[j];
    lemma_run_len_bounds(s, j, CharClass::Name);
    lemma_run_len_bounds(s, j, CharClass::Digit);
    lemma_run_len_bounds(s, j + 1, CharClass::HexDigit);
    lemma_run_len_bounds(s, j + 1, CharClass::NotQuote);
    lemma_run_len_bounds(s, j + 1, CharClass::Name);
    if digit_char(c) {
        let k = j + run_len(s, j, CharClass::Digit);
        lemma_run_len_bounds(s, k, CharClass::Name);
        if k < s.len() && s[k] == '.' {
            lemma_run_len_bounds(s, k + 1, CharClass::Digit);
            let m = k + 1 + run_len(s, k + 1, CharClass::Digit);
            lemma_run_len_bounds(s, m, CharClass::Name);
        }
    }
}

/// The position where the next token starts is never before `i` and never past the end.
pub proof fn lemma_skip_trivia_bounds(s: Seq<char>, i: int)
    requires
        0 <= i <= s.len(),
    ensures
        i <= skip_trivia(s, i) <= s.len(),
    decreases s.len() - i,
{
    if i < s.len() {
        lemma_run_len_bounds(s, i, CharClass::Space);
        let j = i + run_len(s, i, CharClass::Space);
        if j + 1 < s.len() && s[j] == '/' && s[j + 1] == '/' {
            lemma_run_len_bounds(s, j, CharClass::NotNewline);
            assert(run_len(s, j + 1, CharClass::NotNewline) >= 0);
            lemma_run_len_bounds(s, j + 1, CharClass::NotNewline);
            lemma_skip_trivia_bounds(s, j + run_len(s, j, CharClass::NotNewline));
        } else if j + 1 < s.len() && s[j] == '/' && s[j + 1] == '*' {
            lemma_comment_end_bounds(s, j + 2, 1);
            lemma_skip_trivia_bounds(s, comment_end(s, j + 2, 1));
        }
    }
}

/// All the tokens from position `i` on, ending with a single end-of-file token.
pub open spec fn lex_all(s: Seq<char>, i: int) -> Seq<Lexeme>
    decreases s.len() - i,
{
    let j = skip_trivia(s, i);
    if i < 0 || j >= s.len() || j < i {
        seq![Lexeme::Eof]
    } else {
        let t = lex_token(s, j);
        if t.1 <= j || t.1 > s.len() {
            seq![Lexeme::Eof]
        } else {
            seq![t.0] + lex_all(s, t.1)
        }
    }
}

/// Whether any token from position `i` on is an error.
pub open spec fn lex_failed(s: Seq<char>, i: int) -> bool
    decreases s.len() - i,
{
    let j = skip_trivia(s, i);
    if i < 0 || j >= s.len() || j < i {
        false
    } else {
        let t = lex_token(s, j);
        if t.1 <= j || t.1 > s.len() {
            false
        } else {
            t.2 || lex_failed(s, t.1)
        }
    }
}

} // verus!

verus! {

/// The line and column reached after reading `cs` from line `line`, column
/// `col`: a newline moves to column one of the next line, any other character
/// moves one column right.
pub open spec fn advance(line: int, col: int, cs: Seq<char>) -> (int, int)
    decreases cs.len(),
{
    if cs.len() == 0 {
        (line, col)
    } else {
        let p = advance(line, col, cs.drop_last());
        if cs.last() == '\n' {
            (p.0 + 1, 1)
        } else {
            (p.0, p.1 + 1)
        }
    }
}

/// Merging a span with a later one gives the span from the start of the
/// first to the end of the second.
pub proof fn lemma_merge_in_order(a: &Span, b: &Span)
    requires
        pos_le((a.start_line as int, a.start_column as int), (a.end_line as int, a.end_column as int)),
        pos_le((a.end_line as int, a.end_column as int), (b.start_line as int, b.start_column as int)),
        pos_le((b.start_line as int, b.start_column as int), (b.end_line as int, b.end_column as int)),
    ensures
        merge_positions(a, b) == (a.start_line, a.start_column, b.end_line, b.end_column),
{
}

/// Reading from `a` to `b` and then on to `d` is reading from `a` to `d`,
/// and neither part moves back.
pub proof fn lemma_read_on(s: Seq<char>, a: int, b: int, d: int, p0: (int, int), p1: (int, int), p2: (int, int))
    requires
        0 <= a <= b <= d <= s.len(),
        p1 == advance(p0.0, p0.1, s.subrange(a, b)),
        p2 == advance(p1.0, p1.1, s.subrange(b, d)),
    ensures
        p2 == advance(p0.0, p0.1, s.subrange(a, d)),
        pos_le(p0, p1),
        pos_le(p1, p2),
{
    lemma_advance_split(p0.0, p0.1, s, a, b, d);
    lemma_advance_mono(p0.0, p0.1, s.subrange(a, b));
    lemma_advance_mono(p1.0, p1.1, s.subrange(b, d));
}

/// Line and column `a` come strictly before `b`.
pub open spec fn pos_lt(a: (int, int), b: (int, int)) -> bool {
    a.0 < b.0 || (a.0 == b.0 && a.1 < b.1)
}

/// Line and column `a` come no later than `b`.
pub open spec fn pos_le(a: (int, int), b: (int, int)) -> bool {
    a.0 < b.0 || (a.0 == b.0 && a.1 <= b.1)
}

/// Reading `x` and then `y` gets as far as reading them together.
pub proof fn lemma_advance_concat(l: int, c: int, x: Seq<char>, y: Seq<char>)
    ensures
        advance(l, c, x + y) == advance(advance(l, c, x).0, advance(l, c, x).1, y),
    decreases y.len(),
{
    if y.len() == 0 {
        assert(x + y =~= x);
    } else {
        assert((x + y).drop_last() =~= x + y.drop_last());
        lemma_advance_concat(l, c, x, y.drop_last());
    }
}

/// Reading a text from `a` to `d` gets as far as reading it to `b` and then on to `d`.
pub proof fn lemma_advance_split(l: int, c: int, s: Seq<char>, a: int, b: int, d: int)
    requires
        0 <= a <= b <= d <= s.len(),
    ensures
        advance(l, c, s.subrange(a, d)) == advance(advance(l, c, s.subrange(a, b)).0, advance(l, c, s.subrange(a, b)).1, s.subrange(b, d)),
{
    assert(s.subrange(a, d) =~= s.subrange(a, b) + s.subrange(b, d));
    lemma_advance_concat(l, c, s.subrange(a, b), s.subrange(b, d));
}

/// Reading never moves back, and reading something moves forward.
pub proof fn lemma_advance_mono(l: int, c: int, cs: Seq<char>)
    ensures
        pos_le((l, c), advance(l, c, cs)),
        cs.len() > 0 ==> pos_lt((l, c), advance(l, c, cs)),
    decreases cs.len(),
{
    if cs.len() > 0 {
        lemma_advance_mono(l, c, cs.drop_last());
    }
}

/// The line and column where a block comment whose body starts at `k`,
/// nested `depth` deep, has been read, from line `l` and column `c`: a
/// newline moves to column one of the next line, any other character one
/// column right, and the second character of a `/` or `*` pair one more.
pub open spec fn comment_lc(s: Seq<char>, k: int, depth: nat, l: int, c: int) -> (int, int)
    decreases s.len() - k,
{
    if depth == 0 || k >= s.len() || k < 0 {
        (l, c)
    } else {
        let p: (int, int) = if s[k] == '\n' { (l + 1, 1int) } else { (l, c + 1) };
        if (s[k] == '/' || s[k] == '*') && k + 1 < s.len() {
            let d: nat = if s[k] == '/' && s[k + 1] == '*' {
                depth + 1
            } else if s[k] == '*' && s[k + 1] == '/' {
                (depth - 1) as nat
            } else {
                depth
            };
            comment_lc(s, k + 2, d, p.0, p.1 + 1)
        } else {
            comment_lc(s, k + 1, depth, p.0, p.1)
        }
    }
}

/// The line and column of the first token at or after `i`, read from line
/// `l` and column `c`: whitespace and line comments advance as they are read,
/// block comments as `comment_lc` says.
pub open spec fn trivia_lc(s: Seq<char>, i: int, l: int, c: int) -> (int, int)
    decreases s.len() - i,
{
    if i < 0 || i >= s.len() {
        (l, c)
    } else {
        let j = i + run_len(s, i, CharClass::Space);
        let p = advance(l, c, s.subrange(i, j));
        if j + 1 < s.len() && s[j] == '/' && s[j + 1] == '/' {
            proof {
                lemma_run_len_bounds(s, i, CharClass::Space);
                lemma_run_len_bounds(s, j, CharClass::NotNewline);
                assert(run_len(s, j + 1, CharClass::NotNewline) >= 1);
            }
            let e = j + run_len(s, j, CharClass::NotNewline);
            let q = advance(p.0, p.1, s.subrange(j, e));
            trivia_lc(s, e, q.0, q.1)
        } else if j + 1 < s.len() && s[j] == '/' && s[j + 1] == '*' {
            proof {
                lemma_run_len_bounds(s, i, CharClass::Space);
                lemma_comment_end_bounds(s, j + 2, 1);
            }
            let q = comment_lc(s, j + 2, 1, p.0, p.1 + 2);
            trivia_lc(s, comment_end(s, j + 2, 1), q.0, q.1)
        } else {
            p
        }
    }
}

/// Reading a block comment never moves back.
pub proof fn lemma_comment_lc_mono(s: Seq<char>, k: int, depth: nat, l: int, c: int)
    ensures
        pos_le((l, c), comment_lc(s, k, depth, l, c)),
    decreases s.len() - k,
{
    if !(depth == 0 || k >= s.len() || k < 0) {
        let p: (int, int) = if s[k] == '\n' { (l + 1, 1int) } else { (l, c + 1) };
        if (s[k] == '/' || s[k] == '*') && k + 1 < s.len() {
            let d: nat = if s[k] == '/' && s[k + 1] == '*' {
                depth + 1
            } else if s[k] == '*' && s[k + 1] == '/' {
                (depth - 1) as nat
            } else {
                depth
            };
            lemma_comment_lc_mono(s, k + 2, d, p.0, p.1 + 1);
        } else {
            lemma_comment_lc_mono(s, k + 1, depth, p.0, p.1);
        }
    }
}

/// Skipping whitespace and comments never moves back.
pub proof fn lemma_trivia_lc_mono(s: Seq<char>, i: int, l: int, c: int)
    ensures
        pos_le((l, c), trivia_lc(s, i, l, c)),
    decreases s.len() - i,
{
    if !(i < 0 || i >= s.len()) {
        let j = i + run_len(s, i, CharClass::Space);
        lemma_run_len_bounds(s, i, CharClass::Space);
        let p = advance(l, c, s.subrange(i, j));
        lemma_advance_mono(l, c, s.subrange(i, j));
        if j + 1 < s.len() && s[j] == '/' && s[j + 1] == '/' {
            lemma_run_len_bounds(s, j, CharClass::NotNewline);
            assert(run_len(s, j + 1, CharClass::NotNewline) >= 1);
            let e = j + run_len(s, j, CharClass::NotNewline);
            let q = advance(p.0, p.1, s.subrange(j, e));
            lemma_advance_mono(p.0, p.1, s.subrange(j, e));
            lemma_trivia_lc_mono(s, e, q.0, q.1);
        } else if j + 1 < s.len() && s[j] == '/' && s[j + 1] == '*' {
            lemma_comment_end_bounds(s, j + 2, 1);
            let q = comment_lc(s, j + 2, 1, p.0, p.1 + 2);
            lemma_comment_lc_mono(s, j + 2, 1, p.0, p.1 + 2);
            lemma_trivia_lc_mono(s, comment_end(s, j + 2, 1), q.0, q.1);
        }
    }
}

/// Reads a source file's text and produces its tokens, collecting an error
/// for each malformed token.
pub struct Tokenizer {
    source_file: Rc<SourceFile>,
    chars: Vec<char>,
    pos: usize,
    line: usize,
    column: usize,
    failed: bool,
    eof: bool,
    issues: Vec<Issue>,
}

impl Tokenizer {
    /// The text being tokenized.
    pub closed spec fn text(&self) -> Seq<char> {
        self.chars@
    }

    /// How many characters have been read.
    pub closed spec fn position(&self) -> int {
        self.pos as int
    }

    /// The file the tokens' spans point into.
    pub closed spec fn file(&self) -> Rc<SourceFile> {
        self.source_file
    }

    /// Whether an error has been reported.
    pub closed spec fn has_failed(&self) -> bool {
        self.failed
    }

    /// Whether the end-of-file token has been produced.
    pub closed spec fn at_eof(&self) -> bool {
        self.eof
    }

    /// A call of `next` that turned `self` into `after` could give `r`: it
    /// gives nothing once the end of the file was given, and it gives the end
    /// of the file, with an empty span, just when it reaches it.
    pub open spec fn steps_to(&self, after: &Tokenizer, r: Option<Token>) -> bool {
        &&& (r is None <==> self.at_eof())
        &&& (self.at_eof() ==> after.at_eof())
        &&& (r matches Some(t) ==> (t.tok@ is Eof <==> after.at_eof()))
        &&& (r matches Some(t) ==> (t.tok@ is Eof ==> t.span.start_line == t.span.end_line
            && t.span.start_column == t.span.end_column))
    }

    /// The errors reported so far.
    pub closed spec fn issues(&self) -> Seq<Issue> {
        self.issues@
    }

    /// The current line and column.
    pub closed spec fn line_column(&self) -> (int, int) {
        (self.line as int, self.column as int)
    }

    /// The tokenizer's internal consistency.
    pub closed spec fn wf(&self) -> bool {
        &&& self.pos <= self.chars@.len() < usize::MAX
        &&& self.chars@ == self.source_file.buf@
        &&& self.line >= 1
        &&& self.column >= 1
        &&& (self.line - 1) + (self.column - 1) <= self.pos
        &&& self.failed == (self.issues@.len() > 0)
        &&& forall|i: int| 0 <= i < self.issues@.len() ==> #[trigger] self.issues@[i].level == crate::issue::IssueLevel::Error
        &&& self.eof ==> self.pos == self.chars@.len()
    }

    /// The token `tok` was read from where `mid` stood to where `self` stands:
    /// its span runs from `mid`'s line and column to `self`'s, which are as
    /// far as reading the token's characters gets.
    pub closed spec fn spanned(&self, mid: &Tokenizer, tok: &Token) -> bool {
        &&& tok.span.start_line == mid.line
        &&& tok.span.start_column == mid.column
        &&& tok.span.end_line == self.line
        &&& tok.span.end_column == self.column
        &&& (self.line as int, self.column as int) == advance(mid.line as int, mid.column as int,
            mid.chars@.subrange(mid.pos as int, self.pos as int))
    }

    /// `self` is `old` after reading the token at `j`, which is `tok`.
    pub closed spec fn lexed(&self, old: &Tokenizer, j: int, tok: &Token) -> bool {
        let t = lex_token(old.chars@, j);
        &&& self.wf()
        &&& self.chars == old.chars
        &&& self.source_file == old.source_file
        &&& self.eof == old.eof
        &&& self.line >= old.line
        &&& tok.tok@ == t.0
        &&& self.pos == t.1
        &&& tok.span.source_file == self.source_file
        &&& old.line <= tok.span.start_line <= self.line
        &&& self.failed == (old.failed || t.2)
        &&& if t.2 {
            &&& self.issues@.len() == old.issues@.len() + 1
            &&& self.issues@.take(old.issues@.len() as int) == old.issues@
            &&& self.issues@.last().message@ == lex_error_message(old.chars@, j)
            &&& self.issues@.last().span == tok.span
        } else {
            self.issues@ == old.issues@
        }
    }

    /// A tokenizer positioned at the start of the file.
    pub fn new(source_file: Rc<SourceFile>) -> (r: Tokenizer)
        requires
            source_file.buf@.len() < usize::MAX,
        ensures
            r.wf(),
            r.text() == source_file.buf@,
            r.position() == 0,
            r.file() == source_file,
            !r.has_failed(),
            !r.at_eof(),
            r.line_column() == (1int, 1int),
    {
        let chars = chars_of(source_file.buf.as_str());
        Tokenizer {
            source_file,
            chars,
            pos: 0,
            line: 1,
            column: 1,
            failed: false,
            eof: false,
            issues: Vec::new(),
        }
    }

    fn error(&mut self, message: String, span: Span)
        requires
            old(self).wf(),
        ensures
            final(self).wf(),
            final(self).chars == old(self).chars,
            final(self).source_file == old(self).source_file,
            final(self).pos == old(self).pos,
            final(self).line == old(self).line,
            final(self).column == old(self).column,
            final(self).eof == old(self).eof,
            final(self).failed,
            final(self).issues@.len() == old(self).issues@.len() + 1,
            final(self).issues@.take(old(self).issues@.len() as int) == old(self).issues@,
            final(self).issues@.last().message == message,
            final(self).issues@.last().span == span,
    {
        let issue = Issue::error(message, span);
        self.issues.push(issue);
        self.failed = true;
        assert(self.issues@.take(old(self).issues@.len() as int) == old(self).issues@);
    }

    fn span_from(&self, start_line: usize, start_column: usize) -> (r: Span)
        ensures
            r.start_line == start_line,
            r.start_column == start_column,
            r.end_line == self.line,
            r.end_column == self.column,
            r.source_file == self.source_file,
    {
        Span {
            start_line,
            start_column,
            end_line: self.line,
            end_column: self.column,
            source_file: rc_clone(&self.source_file),
        }
    }

    /// Reads the longest run of characters of class `k`.
    fn consume(&mut self, k: CharClass) -> (r: (String, Span))
        requires
            old(self).wf(),
        ensures
            final(self).wf(),
            final(self).chars == old(self).chars,
            final(self).source_file == old(self).source_file,
            final(self).eof == old(self).eof,
            final(self).failed == old(self).failed,
            final(self).issues == old(self).issues,
            final(self).pos == old(self).pos + run_len(old(self).chars@, old(self).pos as int, k),
            r.0@ == final(self).chars@.subrange(old(self).pos as int, final(self).pos as int),
            (final(self).line as int, final(self).column as int) == advance(old(self).line as int, old(self).column as int, r.0@),
            final(self).line >= old(self).line,
            r.1.start_line == old(self).line,
            r.1.start_column == old(self).column,
            r.1.end_line == final(self).line,
            r.1.end_column == final(self).column,
            r.1.source_file == final(self).source_file,
    {
        let start_line = self.line;
        let start_column = self.column;
        let start = self.pos;
        let mut i = self.pos;
        let mut line = self.line;
        let mut column = self.column;
        proof {
            lemma_run_len_bounds(self.chars@, start as int, k);
        }
        while i < self.chars.len() && class_contains(&k, self.chars[i])
            invariant
                self == old(self),
                self.wf(),
                self.pos == start,
                start <= i <= self.chars@.len(),
                forall|m: int| start <= m < i ==> #[trigger] in_class(self.chars@[m], k),
                line >= start_line,
                start_line == self.line,
                start_column == self.column,
                (line - 1) + (column - 1) <= i,
                line >= 1,
                column >= 1,
                (line as int, column as int) == advance(
                    start_line as int,
                    start_column as int,
                    self.chars@.subrange(start as int, i as int),
                ),
            decreases self.chars@.len() - i,
        {
            let c = self.chars[i];
            assert(self.chars@.subrange(start as int, i + 1).drop_last() == self.chars@.subrange(start as int, i as int));
            if c == '\n' {
                line = line + 1;
                column = 1;
            } else {
                column = column + 1;
            }
            i = i + 1;
        }
        proof {
            lemma_run_len_exact(self.chars@, start as int, i as int, k);
        }
        self.line = line;
        self.column = column;
        let s = string_from_chars(&self.chars, start, i);
        self.pos = i;
        let span = self.span_from(start_line, start_column);
        (s, span)
    }

    /// Reads one character.
    fn consume_single_char(&mut self) -> (r: (char, Span))
        requires
            old(self).wf(),
            old(self).pos < old(self).chars@.len(),
        ensures
            final(self).wf(),
            final(self).chars == old(self).chars,
            final(self).source_file == old(self).source_file,
            final(self).eof == old(self).eof,
            final(self).failed == old(self).failed,
            final(self).issues == old(self).issues,
            final(self).pos == old(self).pos + 1,
            r.0 == final(self).chars@[old(self).pos as int],
            (final(self).line as int, final(self).column as int) == advance(old(self).line as int, old(self).column as int, seq![r.0]),
            final(self).line >= old(self).line,
            r.1.start_line == old(self).line,
            r.1.start_column == old(self).column,
            r.1.end_line == final(self).line,
            r.1.end_column == final(self).column,
            r.1.source_file == final(self).source_file,
    {
        let start_line = self.line;
        let start_column = self.column;
        let c = self.chars[self.pos];
        assert(seq![c].drop_last() == Seq::<char>::empty());
        assert(advance(start_line as int, start_column as int, Seq::<char>::empty()) == (start_line as int, start_column as int));
        assert(advance(start_line as int, start_column as int, seq![c]) == (if c == '\n' {
            (start_line + 1, 1int)
        } else {
            (start_line as int, start_column + 1)
        }));
        if c == '\n' {
            self.line = self.line + 1;
            self.column = 1;
        } else {
            self.column = self.column + 1;
        }
        self.pos = self.pos + 1;
        let span = self.span_from(start_line, start_column);
        (c, span)
    }

    fn skip_space(&mut self)
        requires
            old(self).wf(),
        ensures
            final(self).wf(),
            final(self).chars == old(self).chars,
            final(self).source_file == old(self).source_file,
            final(self).eof == old(self).eof,
            final(self).failed == old(self).failed,
            final(self).issues == old(self).issues,
            final(self).line >= old(self).line,
            final(self).pos == old(self).pos + run_len(old(self).chars@, old(self).pos as int, CharClass::Space),
            (final(self).line as int, final(self).column as int) == advance(old(self).line as int, old(self).column as int,
                old(self).chars@.subrange(old(self).pos as int, final(self).pos as int)),
    {
        self.consume(CharClass::Space);
    }
}

/// A run of class `k` from `start` that stops at `end` has length `end - start`.
pub proof fn lemma_run_len_exact(s: Seq<char>, start: int, end: int, k: CharClass)
    requires
        0 <= start <= end <= s.len(),
        forall|m: int| start <= m < end ==> #[trigger] in_class(s[m], k),
        end == s.len() || !in_class(s[end], k),
    ensures
        run_len(s, start, k) == end - start,
    decreases end - start,
{
    if start < end {
        lemma_run_len_exact(s, start + 1, end, k);
    }
}

} // verus!

verus! {

/// Whitespace before a position does not change where the next token starts.
pub proof fn lemma_skip_trivia_after_space(s: Seq<char>, i: int)
    requires
        0 <= i <= s.len(),
    ensures
        skip_trivia(s, i) == skip_trivia(s, i + run_len(s, i, CharClass::Space)),
{
    lemma_run_len_bounds(s, i, CharClass::Space);
    let j = i + run_len(s, i, CharClass::Space);
    lemma_run_len_bounds(s, j, CharClass::Space);
    if j < s.len() {
        assert(run_len(s, j, CharClass::Space) == 0);
    }
}

/// Skipping whitespace first leaves the place of the next token as it was.
pub proof fn lemma_trivia_lc_after_space(s: Seq<char>, i: int, l: int, c: int)
    requires
        0 <= i <= s.len(),
    ensures
        trivia_lc(s, i, l, c) == trivia_lc(s, i + run_len(s, i, CharClass::Space),
            advance(l, c, s.subrange(i, i + run_len(s, i, CharClass::Space))).0,
            advance(l, c, s.subrange(i, i + run_len(s, i, CharClass::Space))).1),
{
    lemma_run_len_bounds(s, i, CharClass::Space);
    let j = i + run_len(s, i, CharClass::Space);
    lemma_run_len_bounds(s, j, CharClass::Space);
    if j < s.len() {
        assert(run_len(s, j, CharClass::Space) == 0);
        assert(s.subrange(j, j) =~= Seq::<char>::empty());
    }
}

/// Where no whitespace and no comment starts, the next token starts right
/// there, at the line and column already reached.
pub proof fn lemma_trivia_lc_at_token(s: Seq<char>, i: int, l: int, c: int)
    requires
        0 <= i < s.len(),
        run_len(s, i, CharClass::Space) == 0,
        !(i + 1 < s.len() && s[i] == '/' && (s[i + 1] == '/' || s[i + 1] == '*')),
    ensures
        trivia_lc(s, i, l, c) == (l, c),
        skip_trivia(s, i) == i,
{
    assert(s.subrange(i, i) =~= Seq::<char>::empty());
}

/// The tokens from `i` on are the token at the next token start followed by
/// the tokens after it.
pub proof fn lemma_lex_all_step(s: Seq<char>, i: int)
    requires
        0 <= i <= s.len(),
    ensures
        skip_trivia(s, i) < s.len() ==> {
            let j = skip_trivia(s, i);
            &&& i <= j < lex_token(s, j).1 <= s.len()
            &&& lex_all(s, i) == seq![lex_token(s, j).0] + lex_all(s, lex_token(s, j).1)
            &&& lex_failed(s, i) == (lex_token(s, j).2 || lex_failed(s, lex_token(s, j).1))
        },
        skip_trivia(s, i) >= s.len() ==> lex_all(s, i) == seq![Lexeme::Eof] && !lex_failed(s, i),
{
    lemma_skip_trivia_bounds(s, i);
    let j = skip_trivia(s, i);
    if j < s.len() {
        lemma_lex_token_advances(s, j);
    }
}

/// The message and the positions (start line and column, end line and
/// column) of an issue.
pub open spec fn issue_entry(i: Issue) -> (Seq<char>, (int, int, int, int)) {
    (i.message@, (i.span.start_line as int, i.span.start_column as int, i.span.end_line as int, i.span.end_column as int))
}

/// The errors reported for the malformed tokens from position `i` on, read
/// from line `l` and column `c`: for each, its message and the positions of
/// the token.
pub open spec fn lex_issues(s: Seq<char>, i: int, l: int, c: int) -> Seq<(Seq<char>, (int, int, int, int))>
    decreases s.len() - i,
{
    let j = skip_trivia(s, i);
    if i < 0 || j >= s.len() || j < i {
        Seq::empty()
    } else {
        let t = lex_token(s, j);
        if t.1 <= j || t.1 > s.len() {
            Seq::empty()
        } else {
            let st = trivia_lc(s, i, l, c);
            let en = advance(st.0, st.1, s.subrange(j, t.1));
            let head = if t.2 {
                seq![(lex_error_message(s, j), (st.0, st.1, en.0, en.1))]
            } else {
                Seq::empty()
            };
            head + lex_issues(s, t.1, en.0, en.1)
        }
    }
}

/// `lex_issues` unfolded once.
pub proof fn lemma_lex_issues_step(s: Seq<char>, i: int, l: int, c: int)
    requires
        0 <= i <= s.len(),
    ensures
        skip_trivia(s, i) < s.len() ==> {
            let j = skip_trivia(s, i);
            let t = lex_token(s, j);
            let st = trivia_lc(s, i, l, c);
            let en = advance(st.0, st.1, s.subrange(j, t.1));
            lex_issues(s, i, l, c) == (if t.2 {
                seq![(lex_error_message(s, j), (st.0, st.1, en.0, en.1))]
            } else {
                Seq::empty()
            }) + lex_issues(s, t.1, en.0, en.1)
        },
        skip_trivia(s, i) >= s.len() ==> lex_issues(s, i, l, c) == Seq::<(Seq<char>, (int, int, int, int))>::empty(),
{
    lemma_skip_trivia_bounds(s, i);
    let j = skip_trivia(s, i);
    if j < s.len() {
        lemma_lex_token_advances(s, j);
    }
}

impl Tokenizer {
    fn skip_multiline_comment(&mut self)
        requires
            old(self).wf(),
            old(self).pos + 1 < old(self).chars@.len(),
            old(self).chars@[old(self).pos as int] == '/',
            old(self).chars@[old(self).pos + 1] == '*',
        ensures
            final(self).wf(),
            final(self).chars == old(self).chars,
            final(self).source_file == old(self).source_file,
            final(self).eof == old(self).eof,
            final(self).failed == old(self).failed,
            final(self).issues == old(self).issues,
            final(self).line >= old(self).line,
            final(self).pos == comment_end(old(self).chars@, old(self).pos + 2, 1),
            (final(self).line as int, final(self).column as int) == comment_lc(old(self).chars@, old(self).pos + 2, 1,
                old(self).line as int, old(self).column + 2),
    {
        let len = self.chars.len();
        let mut k = self.pos + 2;
        let mut line = self.line;
        let mut column = self.column + 2;
        let mut depth: usize = 1;
        while depth > 0 && k < len
            invariant
                self == old(self),
                self.wf(),
                len == self.chars@.len(),
                self.pos + 2 <= k <= len,
                depth <= k,
                line >= self.line,
                line >= 1,
                column >= 1,
                (line - 1) + (column - 1) <= k,
                comment_end(self.chars@, k as int, depth as nat) == comment_end(self.chars@, self.pos + 2, 1),
                comment_lc(self.chars@, k as int, depth as nat, line as int, column as int)
                    == comment_lc(self.chars@, self.pos + 2, 1, self.line as int, self.column + 2),
            decreases len - k,
        {
            let c1 = self.chars[k];
            if c1 == '\n' {
                line = line + 1;
                column = 1;
            } else {
                column = column + 1;
            }
            if (c1 == '/' || c1 == '*') && k + 1 < len {
                let c2 = self.chars[k + 1];
                column = column + 1;
                if c1 == '/' && c2 == '*' {
                    depth = depth + 1;
                } else if c1 == '*' && c2 == '/' {
                    depth = depth - 1;
                }
                k = k + 2;
            } else {
                k = k + 1;
            }
        }
        self.pos = k;
        self.line = line;
        self.column = column;
    }

    fn op_one_token(&mut self, c: char, span: Span) -> (r: Token)
        requires
            op_one_char(c),
        ensures
            r.tok@ == op_lexeme(c),
            r.span == span,
            *final(self) == *old(self),
    {
        if c == '{' {
            Token { tok: TT::LBrace, span }
        } else if c == '}' {
            Token { tok: TT::RBrace, span }
        } else if c == '(' {
            Token { tok: TT::LParen, span }
        } else if c == ')' {
            Token { tok: TT::RParen, span }
        } else if c == ':' {
            Token { tok: TT::Colon, span }
        } else if c == ';' {
            Token { tok: TT::Semicolon, span }
        } else if c == '+' {
            Token { tok: TT::Plus, span }
        } else if c == '-' {
            Token { tok: TT::Minus, span }
        } else if c == '*' {
            Token { tok: TT::Asterisk, span }
        } else {
            Token { tok: TT::Comma, span }
        }
    }

    fn name_token(&mut self, data: String, span: Span) -> (r: Token)
        ensures
            r.tok@ == keyword_or_name(data@),
            r.span == span,
            *final(self) == *old(self),
    {
        if str_equal(data.as_str(), "true") {
            Token { tok: TT::True, span }
        } else if str_equal(data.as_str(), "false") {
            Token { tok: TT::False, span }
        } else if str_equal(data.as_str(), "pub") {
            Token { tok: TT::Pub, span }
        } else if str_equal(data.as_str(), "import") {
            Token { tok: TT::Import, span }
        } else if str_equal(data.as_str(), "as") {
            Token { tok: TT::As, span }
        } else if str_equal(data.as_str(), "for") {
            Token { tok: TT::For, span }
        } else if str_equal(data.as_str(), "in") {
            Token { tok: TT::In, span }
        } else if str_equal(data.as_str(), "if") {
            Token { tok: TT::If, span }
        } else {
            Token { tok: TT::Name(data), span }
        }
    }

    fn hex_color_token(&mut self, data: String, span: Span) -> (r: Token)
        requires
            old(self).wf(),
        ensures
            final(self).wf(),
            final(self).chars == old(self).chars,
            final(self).source_file == old(self).source_file,
            final(self).pos == old(self).pos,
            final(self).line == old(self).line,
            final(self).eof == old(self).eof,
            r.span == span,
            hex_color_len(data@.len() as int) ==> r.tok@ == Lexeme::HexColor(data@) && final(self).issues == old(self).issues && final(self).failed == old(self).failed,
            !hex_color_len(data@.len() as int) ==> r.tok@ == Lexeme::Error(data@) && final(self).failed
                && final(self).issues@.len() == old(self).issues@.len() + 1
                && final(self).issues@.take(old(self).issues@.len() as int) == old(self).issues@
                && final(self).issues@.last().message@ == "expected 3, 4, 6, or 8 hex digits (found "@
                    + decimal(data@.len()) + ")"@
                && final(self).issues@.last().span == span,
            final(self).column == old(self).column,
    {
        let n = chars_of(data.as_str()).len();
        if n == 3 || n == 4 || n == 6 || n == 8 {
            Token { tok: TT::HexColor(data), span }
        } else {
            let message = concat("expected 3, 4, 6, or 8 hex digits (found ", crate::text::usize_to_string(n).as_str());
            let mut message = message;
            message.append(")");
            self.error(message, span.duplicate());
            Token { tok: TT::Error(data), span }
        }
    }

    fn number_token(&mut self, num: String, float: bool, suffix: String, span: Span) -> (r: Token)
        ensures
            r.tok@ == Lexeme::Number(num@, float, suffix@),
            r.span == span,
            *final(self) == *old(self),
    {
        Token { tok: TT::Number((num, float, suffix)), span }
    }
}

} // verus!

verus! {

impl Tokenizer {
    fn lex_name(&mut self) -> (r: Token)
        requires
            old(self).wf(),
            old(self).pos < old(self).chars@.len(),
            name_first_char(old(self).chars@[old(self).pos as int]),
        ensures
            final(self).lexed(&*old(self), old(self).pos as int, &r),
            final(self).spanned(&*old(self), &r),
    {
        let (data, span) = self.consume(CharClass::Name);
        self.name_token(data, span)
    }

    fn lex_number(&mut self) -> (r: Token)
        requires
            old(self).wf(),
            old(self).pos < old(self).chars@.len(),
            digit_char(old(self).chars@[old(self).pos as int]),
        ensures
            final(self).lexed(&*old(self), old(self).pos as int, &r),
            final(self).spanned(&*old(self), &r),
    {
        let ghost s = self.chars@;
        let ghost j = self.pos as int;
        proof {
            lemma_run_len_bounds(s, j, CharClass::Digit);
        }
        let ghost st0 = *self;
        let (mut num, mut span) = self.consume(CharClass::Digit);
        let ghost st1 = *self;
        let k = self.pos;
        let mut float = false;
        if self.pos < self.chars.len() && self.chars[self.pos] == '.' {
            let (_, dot_span) = self.consume_single_char();
            let ghost st2 = *self;
            proof {
                lemma_run_len_bounds(s, k + 1, CharClass::Digit);
                assert(s.subrange(k as int, k + 1) == seq![s[k as int]]);
            }
            let (num2, span2) = self.consume(CharClass::Digit);
            let ghost st3 = *self;
            proof {
                lemma_read_on(s, j, k as int, k + 1, (st0.line as int, st0.column as int), (st1.line as int, st1.column as int), (st2.line as int, st2.column as int));
                lemma_read_on(s, j, k + 1, st3.pos as int, (st0.line as int, st0.column as int), (st2.line as int, st2.column as int), (st3.line as int, st3.column as int));
                lemma_advance_mono(st2.line as int, st2.column as int, s.subrange(k + 1, st3.pos as int));
            }
            if self.pos == k + 1 {
                proof {
                    lemma_merge_in_order(&span, &dot_span);
                }
                let span = span.merge(&dot_span);
                self.error("expected digits following decimal point".to_owned(), span.duplicate());
                let mut text = num;
                push_char(&mut text, '.');
                assert(s.subrange(j, k + 1) == s.subrange(j, k as int).push('.'));
                return Token { tok: TT::Error(text), span };
            }
            let mut joined = num;
            push_char(&mut joined, '.');
            joined.append(num2.as_str());
            assert(s.subrange(j, self.pos as int) == s.subrange(j, k as int).push('.') + s.subrange(k + 1, self.pos as int));
            num = joined;
            proof {
                lemma_merge_in_order(&span, &span2);
            }
            span = span.merge(&span2);
            float = true;
        }
        let ghost st4 = *self;
        let (suffix, suffix_span) = self.consume(CharClass::Name);
        proof {
            lemma_run_len_bounds(s, st4.pos as int, CharClass::Name);
            lemma_read_on(s, j, st4.pos as int, self.pos as int, (st0.line as int, st0.column as int), (st4.line as int, st4.column as int), ((*self).line as int, (*self).column as int));
            lemma_advance_mono(st0.line as int, st0.column as int, s.subrange(j, st4.pos as int));
            lemma_merge_in_order(&span, &suffix_span);
        }
        let span = span.merge(&suffix_span);
        self.number_token(num, float, suffix, span)
    }

    fn lex_hex_color(&mut self) -> (r: Token)
        requires
            old(self).wf(),
            old(self).pos < old(self).chars@.len(),
            old(self).chars@[old(self).pos as int] == '#',
        ensures
            final(self).lexed(&*old(self), old(self).pos as int, &r),
            final(self).spanned(&*old(self), &r),
    {
        let ghost st0 = *self;
        let (_, hash_span) = self.consume_single_char();
        let ghost st1 = *self;
        proof {
            lemma_run_len_bounds(self.chars@, self.pos as int, CharClass::HexDigit);
            assert(st0.chars@.subrange(st0.pos as int, st0.pos + 1) == seq![st0.chars@[st0.pos as int]]);
        }
        let (hex, hex_span) = self.consume(CharClass::HexDigit);
        proof {
            lemma_read_on(st0.chars@, st0.pos as int, st1.pos as int, self.pos as int, (st0.line as int, st0.column as int), (st1.line as int, st1.column as int), ((*self).line as int, (*self).column as int));
            lemma_merge_in_order(&hash_span, &hex_span);
        }
        let span = hash_span.merge(&hex_span);
        self.hex_color_token(hex, span)
    }

    fn lex_string(&mut self) -> (r: Token)
        requires
            old(self).wf(),
            old(self).pos < old(self).chars@.len(),
            old(self).chars@[old(self).pos as int] == '"',
        ensures
            final(self).lexed(&*old(self), old(self).pos as int, &r),
            final(self).spanned(&*old(self), &r),
    {
        let ghost st0 = *self;
        let (_, quote1_span) = self.consume_single_char();
        let ghost st1 = *self;
        proof {
            assert(st0.chars@.subrange(st0.pos as int, st0.pos + 1) == seq![st0.chars@[st0.pos as int]]);
            lemma_run_len_bounds(st0.chars@, st1.pos as int, CharClass::NotQuote);
        }
        let (content, content_span) = self.consume(CharClass::NotQuote);
        let ghost st2 = *self;
        proof {
            lemma_read_on(st0.chars@, st0.pos as int, st1.pos as int, st2.pos as int, (st0.line as int, st0.column as int), (st1.line as int, st1.column as int), (st2.line as int, st2.column as int));
            lemma_merge_in_order(&quote1_span, &content_span);
        }
        if self.pos == self.chars.len() {
            let span = quote1_span.merge(&content_span);
            self.error("encountered unterminated string literal".to_owned(), span.duplicate());
            return Token { tok: TT::Error(content), span };
        }
        let (_, quote2_span) = self.consume_single_char();
        proof {
            assert(st2.chars@.subrange(st2.pos as int, st2.pos + 1) == seq![st2.chars@[st2.pos as int]]);
            lemma_read_on(st0.chars@, st0.pos as int, st2.pos as int, self.pos as int, (st0.line as int, st0.column as int), (st2.line as int, st2.column as int), ((*self).line as int, (*self).column as int));
            lemma_advance_mono(st0.line as int, st0.column as int, st0.chars@.subrange(st0.pos as int, st1.pos as int));
            lemma_merge_in_order(&quote1_span, &quote2_span);
        }
        Token { tok: TT::String(content), span: quote1_span.merge(&quote2_span) }
    }

    fn lex_enum(&mut self) -> (r: Token)
        requires
            old(self).wf(),
            old(self).pos + 1 < old(self).chars@.len(),
            old(self).chars@[old(self).pos as int] == '.',
            name_first_char(old(self).chars@[old(self).pos + 1]),
        ensures
            final(self).lexed(&*old(self), old(self).pos as int, &r),
            final(self).spanned(&*old(self), &r),
    {
        let ghost st0 = *self;
        let (_, dot_span) = self.consume_single_char();
        let ghost st1 = *self;
        proof {
            assert(st0.chars@.subrange(st0.pos as int, st0.pos + 1) == seq![st0.chars@[st0.pos as int]]);
            lemma_run_len_bounds(st0.chars@, st1.pos as int, CharClass::Name);
        }
        let (name, name_span) = self.consume(CharClass::Name);
        proof {
            lemma_read_on(st0.chars@, st0.pos as int, st1.pos as int, self.pos as int, (st0.line as int, st0.column as int), (st1.line as int, st1.column as int), ((*self).line as int, (*self).column as int));
            lemma_merge_in_order(&dot_span, &name_span);
        }
        Token { tok: TT::Enum(name), span: dot_span.merge(&name_span) }
    }

    fn lex_illegal(&mut self) -> (r: Token)
        requires
            old(self).wf(),
            old(self).pos < old(self).chars@.len(),
            !digit_char(old(self).chars@[old(self).pos as int]),
            old(self).chars@[old(self).pos as int] != '#',
            old(self).chars@[old(self).pos as int] != '"',
        ensures
            ({
                let c = old(self).chars@[old(self).pos as int];
                &&& final(self).wf()
                &&& final(self).chars == old(self).chars
                &&& final(self).source_file == old(self).source_file
                &&& final(self).eof == old(self).eof
                &&& final(self).line >= old(self).line
                &&& r.tok@ == Lexeme::Error(seq![c])
                &&& final(self).pos == old(self).pos + 1
                &&& r.span.source_file == final(self).source_file
                &&& old(self).line <= r.span.start_line <= final(self).line
                &&& final(self).failed
                &&& final(self).issues@.len() == old(self).issues@.len() + 1
                &&& final(self).issues@.take(old(self).issues@.len() as int) == old(self).issues@
                &&& final(self).issues@.last().message@ == lex_error_message(old(self).chars@, old(self).pos as int)
                &&& final(self).issues@.last().span == r.span
                &&& final(self).spanned(&*old(self), &r)
            }),
    {
        let ghost st0 = *self;
        let (c, span) = self.consume_single_char();
        proof {
            assert(st0.chars@.subrange(st0.pos as int, st0.pos + 1) == seq![st0.chars@[st0.pos as int]]);
        }
        let mut message = "encountered illegal character: '".to_owned();
        push_char(&mut message, c);
        message.append(" (");
        message.append(crate::text::escape_unicode(c).as_str());
        message.append(")'");
        self.error(message, span.duplicate());
        let mut text = String::new();
        push_char(&mut text, c);
        Token { tok: TT::Error(text), span }
    }
}

} // verus!

verus! {

/// The token types of a sequence of tokens.
pub open spec fn token_lexemes(ts: Seq<Token>) -> Seq<Lexeme> {
    ts.map_values(|t: Token| t.tok@)
}

impl Tokenizer {
    /// Produces the next token: skips whitespace and comments, then reads
    /// one token, reporting an error for a malformed one. At the end of the
    /// text it produces one end-of-file token and then nothing.
    pub fn next(&mut self) -> (r: Option<Token>)
        requires
            old(self).wf(),
        ensures
            final(self).wf(),
            final(self).text() == old(self).text(),
            final(self).file() == old(self).file(),
            ({
                let s = old(self).text();
                let j = skip_trivia(s, old(self).position());
                if j < s.len() {
                    let k = lex_token(s, j);
                    &&& r is Some
                    &&& final(self).lexed(&*old(self), j, &r->0)
                    &&& r->0.tok@ == k.0
                    &&& final(self).position() == k.1
                    &&& r->0.span.source_file == final(self).file()
                    &&& final(self).has_failed() == (old(self).has_failed() || k.2)
                    &&& k.2 ==> final(self).issues().len() == old(self).issues().len() + 1
                        && final(self).issues().take(old(self).issues().len() as int) == old(self).issues()
                        && final(self).issues().last().message@ == lex_error_message(s, j)
                        && final(self).issues().last().span == r->0.span
                    &&& !k.2 ==> final(self).issues() == old(self).issues()
                } else if !old(self).at_eof() {
                    &&& r is Some
                    &&& r->0.tok@ == Lexeme::Eof
                    &&& r->0.span.source_file == final(self).file()
                    &&& r->0.span.start_line == final(self).line_column().0
                    &&& old(self).line_column().0 <= final(self).line_column().0
                    &&& final(self).at_eof()
                    &&& final(self).position() == s.len()
                    &&& final(self).has_failed() == old(self).has_failed()
                    &&& final(self).issues() == old(self).issues()
                } else {
                    &&& r is None
                    &&& final(self).position() == old(self).position()
                    &&& final(self).at_eof()
                    &&& final(self).has_failed() == old(self).has_failed()
                    &&& final(self).issues() == old(self).issues()
                }
            }),
            ({
                let s = old(self).text();
                let j = skip_trivia(s, old(self).position());
                let start = trivia_lc(s, old(self).position(), old(self).line_column().0, old(self).line_column().1);
                r matches Some(t) ==> {
                    &&& !old(self).at_eof()
                    &&& (t.tok@ is Eof <==> final(self).at_eof())
                    &&& (t.span.start_line as int, t.span.start_column as int) == start
                    &&& (t.span.end_line as int, t.span.end_column as int) == final(self).line_column()
                    &&& j <= final(self).position()
                    &&& final(self).line_column() == advance(start.0, start.1, s.subrange(j, final(self).position()))
                }
            }),
            r is None <==> old(self).at_eof(),
            old(self).at_eof() ==> final(self).at_eof(),
            old(self).steps_to(&*final(self), r),
    {
        let ghost s = self.chars@;
        let ghost j0 = skip_trivia(s, self.pos as int);
        let ghost start = trivia_lc(s, self.pos as int, self.line as int, self.column as int);
        proof {
            lemma_skip_trivia_after_space(s, self.pos as int);
            lemma_trivia_lc_after_space(s, self.pos as int, self.line as int, self.column as int);
        }
        self.skip_space();
        let ghost after_space = self.pos as int;
        proof {
            lemma_run_len_bounds(s, old(self).pos as int, CharClass::Space);
        }
        while self.pos < self.chars.len()
            invariant
                self.wf(),
                self.chars == old(self).chars,
                self.source_file == old(self).source_file,
                self.eof == old(self).eof,
                self.failed == old(self).failed,
                self.issues == old(self).issues,
                self.line >= old(self).line,
                s == self.chars@,
                j0 == skip_trivia(old(self).text(), old(self).position()),
                skip_trivia(s, self.pos as int) == j0,
                self.pos < s.len() ==> !space_char(s[self.pos as int]),
                start == trivia_lc(old(self).text(), old(self).position(), old(self).line_column().0, old(self).line_column().1),
                trivia_lc(s, self.pos as int, self.line as int, self.column as int) == start,
            decreases s.len() - self.pos,
        {
            proof {
                assert(s.subrange(self.pos as int, self.pos as int) =~= Seq::<char>::empty());
            }
            let c = self.chars[self.pos];
            let c2 = if self.pos + 1 < self.chars.len() { Some(self.chars[self.pos + 1]) } else { None };
            assert(run_len(s, self.pos as int, CharClass::Space) == 0);
            if is_name_first(c) {
                let ghost mid = *self;
                proof {
                    lemma_trivia_lc_at_token(s, self.pos as int, self.line as int, self.column as int);
                    lemma_lex_token_advances(s, self.pos as int);
                }
                let t = self.lex_name();
                proof {
                    Self::lemma_lexed_from(&*self, &mid, &*old(self), j0, &t);
                }
                return Some(t);
            } else if is_digit(c) {
                let ghost mid = *self;
                proof {
                    lemma_trivia_lc_at_token(s, self.pos as int, self.line as int, self.column as int);
                    lemma_lex_token_advances(s, self.pos as int);
                }
                let t = self.lex_number();
                proof {
                    Self::lemma_lexed_from(&*self, &mid, &*old(self), j0, &t);
                }
                return Some(t);
            } else if c == '#' {
                let ghost mid = *self;
                proof {
                    lemma_trivia_lc_at_token(s, self.pos as int, self.line as int, self.column as int);
                    lemma_lex_token_advances(s, self.pos as int);
                }
                let t = self.lex_hex_color();
                proof {
                    Self::lemma_lexed_from(&*self, &mid, &*old(self), j0, &t);
                }
                return Some(t);
            } else if c == '"' {
                let ghost mid = *self;
                proof {
                    lemma_trivia_lc_at_token(s, self.pos as int, self.line as int, self.column as int);
                    lemma_lex_token_advances(s, self.pos as int);
                }
                let t = self.lex_string();
                proof {
                    Self::lemma_lexed_from(&*self, &mid, &*old(self), j0, &t);
                }
                return Some(t);
            } else if c == '/' {
                if c2 == Some('/') {
                    let ghost p = self.pos as int;
                    proof {
                        lemma_run_len_bounds(s, p, CharClass::NotNewline);
                        lemma_run_len_bounds(s, p + 1, CharClass::NotNewline);
                    }
                    self.consume(CharClass::NotNewline);
                    proof {
                        lemma_skip_trivia_after_space(s, self.pos as int);
                        lemma_trivia_lc_after_space(s, self.pos as int, self.line as int, self.column as int);
                    }
                } else if c2 == Some('*') {
                    let ghost p = self.pos as int;
                    self.skip_multiline_comment();
                    proof {
                        lemma_comment_end_bounds(s, p + 2, 1);
                        lemma_skip_trivia_after_space(s, self.pos as int);
                        lemma_trivia_lc_after_space(s, self.pos as int, self.line as int, self.column as int);
                    }
                } else {
                    proof {
                        lemma_trivia_lc_at_token(s, self.pos as int, self.line as int, self.column as int);
                    }
                    assert(s.subrange(self.pos as int, self.pos + 1) == seq![s[self.pos as int]]);
                    let (_, span) = self.consume_single_char();
                    return Some(Token { tok: TT::Slash, span });
                }
            } else if c == '.' && c2.is_some() && is_name_first(c2.unwrap()) {
                let ghost mid = *self;
                proof {
                    lemma_trivia_lc_at_token(s, self.pos as int, self.line as int, self.column as int);
                    lemma_lex_token_advances(s, self.pos as int);
                }
                let t = self.lex_enum();
                proof {
                    Self::lemma_lexed_from(&*self, &mid, &*old(self), j0, &t);
                }
                return Some(t);
            } else if is_op_one(c) {
                proof {
                    lemma_trivia_lc_at_token(s, self.pos as int, self.line as int, self.column as int);
                }
                assert(s.subrange(self.pos as int, self.pos + 1) == seq![s[self.pos as int]]);
                let (c, span) = self.consume_single_char();
                let t = self.op_one_token(c, span);
                return Some(t);
            } else {
                proof {
                    lemma_trivia_lc_at_token(s, self.pos as int, self.line as int, self.column as int);
                }
                let t = self.lex_illegal();
                return Some(t);
            }
            let ghost before = self.pos as int;
            proof {
                lemma_trivia_lc_after_space(s, self.pos as int, self.line as int, self.column as int);
            }
            self.skip_space();
            proof {
                lemma_run_len_bounds(s, before, CharClass::Space);
            }
        }
        proof {
            lemma_skip_trivia_bounds(s, old(self).pos as int);
            assert(s.subrange(s.len() as int, s.len() as int) =~= Seq::<char>::empty());
        }
        if !self.eof {
            self.eof = true;
            Some(
                Token {
                    tok: TT::Eof,
                    span: Span {
                        start_line: self.line,
                        start_column: self.column,
                        end_line: self.line,
                        end_column: self.column,
                        source_file: rc_clone(&self.source_file),
                    },
                },
            )
        } else {
            None
        }
    }

    proof fn lemma_lexed_from(new: &Tokenizer, mid: &Tokenizer, old: &Tokenizer, j: int, tok: &Token)
        requires
            new.lexed(mid, j, tok),
            mid.chars == old.chars,
            mid.source_file == old.source_file,
            mid.eof == old.eof,
            mid.failed == old.failed,
            mid.issues == old.issues,
            mid.line >= old.line,
        ensures
            new.lexed(old, j, tok),
    {
    }

    /// All the tokens of the text from the current position on, ending with
    /// the end-of-file token; or, if any error was reported, the errors.
    pub fn tokenize(self) -> (r: Result<Vec<Token>, Vec<Issue>>)
        requires
            self.wf(),
            !self.at_eof(),
        ensures
            r is Ok <==> !self.has_failed() && !lex_failed(self.text(), self.position()),
            r matches Ok(tokens) ==> {
                &&& token_lexemes(tokens@) == lex_all(self.text(), self.position())
                &&& forall|i: int| 0 <= i < tokens@.len() ==> (#[trigger] tokens@[i]).span.source_file == self.file()
                &&& forall|i: int, k: int| 0 <= i <= k < tokens@.len() ==> (#[trigger] tokens@[i]).span.start_line <= (#[trigger] tokens@[k]).span.start_line
                &&& forall|i: int, k: int| 0 <= i < k < tokens@.len() ==> pos_lt(
                    ((#[trigger] tokens@[i]).span.start_line as int, tokens@[i].span.start_column as int),
                    ((#[trigger] tokens@[k]).span.start_line as int, tokens@[k].span.start_column as int))
            },
            r matches Err(issues) ==> {
                &&& issues@.len() > 0
                &&& forall|i: int| 0 <= i < issues@.len() ==> #[trigger] issues@[i].level == crate::issue::IssueLevel::Error
                &&& issues@.take(self.issues().len() as int) == self.issues()
                &&& issues@.skip(self.issues().len() as int).map_values(|i: Issue| issue_entry(i))
                    == lex_issues(self.text(), self.position(), self.line_column().0, self.line_column().1)
            },
    {
        let ghost s = self.chars@;
        let ghost p0 = self.pos as int;
        let ghost issues0 = self.issues@;
        let ghost n0 = self.issues@.len() as int;
        let ghost lc0 = (self.line as int, self.column as int);
        let ghost failed0 = self.failed;
        let ghost src = self.source_file;
        let mut this = self;
        let mut tokens: Vec<Token> = Vec::new();
        let mut eof = false;
        assert(token_lexemes(tokens@) == Seq::<Lexeme>::empty());
        assert(this.issues@.skip(n0) =~= Seq::<Issue>::empty());
        assert(this.issues@.take(n0) =~= issues0);
        assert(Seq::<Issue>::empty().map_values(|i: Issue| issue_entry(i)) + lex_issues(s, p0, lc0.0, lc0.1)
            =~= lex_issues(s, p0, lc0.0, lc0.1));
        while !eof
            invariant
                this.wf(),
                this.chars@ == s,
                this.source_file == src,
                forall|i: int| 0 <= i < tokens@.len() ==> (#[trigger] tokens@[i]).span.source_file == src,
                forall|i: int| 0 <= i < tokens@.len() ==> (#[trigger] tokens@[i]).span.start_line <= this.line,
                forall|i: int, k: int| 0 <= i <= k < tokens@.len() ==> (#[trigger] tokens@[i]).span.start_line <= (#[trigger] tokens@[k]).span.start_line,
                forall|i: int, k: int| 0 <= i < k < tokens@.len() ==> pos_lt(
                    ((#[trigger] tokens@[i]).span.start_line as int, tokens@[i].span.start_column as int),
                    ((#[trigger] tokens@[k]).span.start_line as int, tokens@[k].span.start_column as int)),
                !eof ==> forall|i: int| 0 <= i < tokens@.len() ==> pos_lt(
                    ((#[trigger] tokens@[i]).span.start_line as int, tokens@[i].span.start_column as int),
                    (this.line as int, this.column as int)),
                !eof ==> !this.eof,
                !eof ==> lex_all(s, p0) == token_lexemes(tokens@) + lex_all(s, this.pos as int),
                !eof ==> (failed0 || lex_failed(s, p0)) == (this.failed || lex_failed(s, this.pos as int)),
                eof ==> lex_all(s, p0) == token_lexemes(tokens@),
                eof ==> (failed0 || lex_failed(s, p0)) == this.failed,
                0 <= n0 <= this.issues@.len(),
                this.issues@.take(n0) == issues0,
                !eof ==> this.issues@.skip(n0).map_values(|i: Issue| issue_entry(i))
                    + lex_issues(s, this.pos as int, this.line as int, this.column as int) == lex_issues(s, p0, lc0.0, lc0.1),
                eof ==> this.issues@.skip(n0).map_values(|i: Issue| issue_entry(i)) == lex_issues(s, p0, lc0.0, lc0.1),
            decreases (if eof { 0 } else { s.len() - this.pos + 1 }),
        {
            proof {
                lemma_lex_all_step(s, this.pos as int);
                lemma_lex_issues_step(s, this.pos as int, this.line as int, this.column as int);
            }
            let ghost before = this;
            let t = this.next().unwrap();
            eof = match t.tok {
                TT::Eof => true,
                _ => false,
            };
            proof {
                let j = skip_trivia(s, before.pos as int);
                lemma_trivia_lc_mono(s, before.pos as int, before.line as int, before.column as int);
                if !eof {
                    assert(j < s.len());
                    lemma_lex_token_advances(s, j);
                    assert(this.pos as int == lex_token(s, j).1);
                    lemma_advance_mono(t.span.start_line as int, t.span.start_column as int, s.subrange(j, this.pos as int));
                }
            }
            proof {
                let j = skip_trivia(s, before.pos as int);
                let prev = before.issues@.skip(n0).map_values(|i: Issue| issue_entry(i));
                if j < s.len() {
                    let k = lex_token(s, j);
                    if k.2 {
                        assert(this.issues@ =~= before.issues@.push(this.issues@.last()));
                        assert(this.issues@.skip(n0) =~= before.issues@.skip(n0).push(this.issues@.last()));
                        assert(this.issues@.skip(n0).map_values(|i: Issue| issue_entry(i)) =~= prev.push(issue_entry(this.issues@.last())));
                        assert(this.issues@.take(n0) =~= before.issues@.take(n0));
                    } else {
                        assert(prev + Seq::<(Seq<char>, (int, int, int, int))>::empty() =~= prev);
                    }
                } else {
                    assert(prev + Seq::<(Seq<char>, (int, int, int, int))>::empty() =~= prev);
                }
            }
            let ghost old_tokens = tokens@;
            tokens.push(t);
            assert(token_lexemes(tokens@) == token_lexemes(old_tokens) + seq![t.tok@]);
        }
        if this.failed {
            Err(this.issues)
        } else {
            Ok(tokens)
        }
    }
}

} // verus!

verus! {

/// The token stream ends with exactly one end-of-file token: the last token
/// is `Eof` and no earlier token is.
pub proof fn lemma_lex_all_ends_with_eof(s: Seq<char>, i: int)
    requires
        0 <= i <= s.len(),
    ensures
        lex_all(s, i).len() >= 1,
        lex_all(s, i).last() == Lexeme::Eof,
        forall|k: int| 0 <= k < lex_all(s, i).len() - 1 ==> !(#[trigger] lex_all(s, i)[k] is Eof),
    decreases s.len() - i,
{
    lemma_lex_all_step(s, i);
    let j = skip_trivia(s, i);
    if j < s.len() {
        let t = lex_token(s, j);
        lemma_lex_all_ends_with_eof(s, t.1);
        let rest = lex_all(s, t.1);
        assert(lex_all(s, i) == seq![t.0] + rest);
        assert forall|k: int| 0 <= k < lex_all(s, i).len() - 1 implies !(#[trigger] lex_all(s, i)[k] is Eof) by {
            if k > 0 {
                assert(lex_all(s, i)[k] == rest[k - 1]);
            }
        }
    }
}

/// Tokenizing reports an error exactly when one of the tokens is an error token.
pub proof fn lemma_lex_failed_iff_error_token(s: Seq<char>, i: int)
    requires
        0 <= i <= s.len(),
    ensures
        lex_failed(s, i) <==> exists|k: int| 0 <= k < lex_all(s, i).len() && (#[trigger] lex_all(s, i)[k] is Error),
    decreases s.len() - i,
{
    lemma_lex_all_step(s, i);
    let j = skip_trivia(s, i);
    if j < s.len() {
        let t = lex_token(s, j);
        lemma_lex_failed_iff_error_token(s, t.1);
        let rest = lex_all(s, t.1);
        assert(lex_all(s, i) == seq![t.0] + rest);
        assert(t.2 <==> t.0 is Error);
        if lex_failed(s, i) {
            if t.2 {
                assert(lex_all(s, i)[0] is Error);
            } else {
                let k = choose|k: int| 0 <= k < rest.len() && (#[trigger] rest[k] is Error);
                assert(lex_all(s, i)[k + 1] is Error);
            }
        } else {
            assert forall|k: int| 0 <= k < lex_all(s, i).len() implies !(#[trigger] lex_all(s, i)[k] is Error) by {
                if k > 0 {
                    assert(lex_all(s, i)[k] == rest[k - 1]);
                }
            }
        }
    } else {
        assert(lex_all(s, i)[0] is Eof);
    }
}

} // verus!
