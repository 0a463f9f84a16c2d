//! Small verified string utilities shared by the tokenizer, the parser
//! and the diagnostics.

use vstd::prelude::*;
use vstd::string::StringExecFns;

verus! {

/// Appends one character to a string.
///
/// Trusted: `String::push` appends the character to the end of the string.
#[verifier::external_body]
pub(crate) fn push_char(s: &mut String, c: char)
    ensures
        final(s)@ == old(s)@.push(c),
{
    s.push(c);
}

/// The characters of a string slice, in order.
pub fn chars_of(s: &str) -> (v: Vec<char>)
    ensures
        v@ == s@,
{
    let mut v: Vec<char> = Vec::new();
    for c in it: s.chars()
        invariant
            it.seq() == s@,
            v@ == it.seq().take(it.index() as int),
    {
        v.push(c);
    }
    v
}

} // verus!

verus! {

/// The lowercase hexadecimal digit for `d` (`d < 16`).
pub open spec fn digit_char(d: nat) -> char {
    if d < 10 {
        (d + 48) as char
    } else {
        (d + 87) as char
    }
}

/// The digits of `n` in base `base`, most significant first, with no leading zeros.
pub open spec fn digits_in_base(n: nat, base: nat) -> Seq<char>
    recommends
        2 <= base <= 16,
    decreases n,
{
    if n < base || base < 2 {
        seq![digit_char(n)]
    } else {
        proof {
            lemma_div_decreases(n, base);
        }
        digits_in_base(n / base, base).push(digit_char(n % base))
    }
}

/// Dividing by a base of at least two makes a number at least as large as the base smaller.
pub proof fn lemma_div_decreases(n: nat, base: nat)
    requires
        2 <= base <= n,
    ensures
        n / base < n,
{
    assert(n / base < n) by (nonlinear_arith)
        requires
            2 <= base <= n,
    ;
}

/// The decimal representation of `n`.
pub open spec fn decimal(n: nat) -> Seq<char> {
    digits_in_base(n, 10)
}

fn digit_to_char(d: u32) -> (c: char)
    requires
        d < 16,
    ensures
        c == digit_char(d as nat),
{
    if d < 10 {
        ((d + 48) as u8) as char
    } else {
        ((d + 87) as u8) as char
    }
}

fn digits_u32(n: u32, base: u32) -> (s: String)
    requires
        2 <= base <= 16,
    ensures
        s@ == digits_in_base(n as nat, base as nat),
    decreases n,
{
    if n < base {
        let mut s = String::new();
        push_char(&mut s, digit_to_char(n));
        s
    } else {
        proof {
            lemma_div_decreases(n as nat, base as nat);
        }
        let mut s = digits_u32(n / base, base);
        push_char(&mut s, digit_to_char(n % base));
        s
    }
}

/// Decimal text of a `usize`.
pub fn usize_to_string(n: usize) -> (s: String)
    ensures
        s@ == decimal(n as nat),
    decreases n,
{
    if n < 10 {
        let mut s = String::new();
        push_char(&mut s, digit_to_char(n as u32));
        s
    } else {
        let mut s = usize_to_string(n / 10);
        push_char(&mut s, digit_to_char((n % 10) as u32));
        s
    }
}

} // verus!

verus! {

/// `c.escape_unicode()`: `\u{` followed by the lowercase hexadecimal code point
/// without leading zeros, then `}`.
pub open spec fn escape_unicode_spec(c: char) -> Seq<char> {
    seq!['\\', 'u', '{'] + digits_in_base(c as nat, 16) + seq!['}']
}

/// Writes `c.escape_unicode()`.
pub fn escape_unicode(c: char) -> (s: String)
    ensures
        s@ == escape_unicode_spec(c),
{
    let mut s = String::new();
    push_char(&mut s, '\\');
    push_char(&mut s, 'u');
    push_char(&mut s, '{');
    let hex = digits_u32(c as u32, 16);
    s.append(hex.as_str());
    push_char(&mut s, '}');
    s
}

/// How one character is written inside a quoted string literal.
pub open spec fn escape_char(c: char) -> Seq<char> {
    if c == '\n' {
        seq!['\\', 'n']
    } else if c == '\t' {
        seq!['\\', 't']
    } else if c == '"' {
        seq!['\\', '"']
    } else {
        seq![c]
    }
}

/// Every character of `s` written as `escape_char` writes it.
pub open spec fn escape_text(s: Seq<char>) -> Seq<char>
    decreases s.len(),
{
    if s.len() == 0 {
        Seq::empty()
    } else {
        escape_text(s.drop_last()) + escape_char(s.last())
    }
}

/// The quoted, escaped form of a string.
pub open spec fn string_repr_spec(s: Seq<char>) -> Seq<char> {
    seq!['"'] + escape_text(s) + seq!['"']
}

/// Quotes a string, escaping newlines, tabs and double quotes.
pub fn string_repr(unescaped: &String) -> (s: String)
    ensures
        s@ == string_repr_spec(unescaped@),
{
    let chars = chars_of(unescaped.as_str());
    let mut s = String::new();
    push_char(&mut s, '"');
    let mut i: usize = 0;
    while i < chars.len()
        invariant
            i <= chars@.len(),
            chars@ == unescaped@,
            s@ == seq!['"'] + escape_text(chars@.take(i as int)),
        decreases chars@.len() - i,
    {
        let c = chars[i];
        if c == '\n' {
            push_char(&mut s, '\\');
            push_char(&mut s, 'n');
        } else if c == '\t' {
            push_char(&mut s, '\\');
            push_char(&mut s, 't');
        } else if c == '"' {
            push_char(&mut s, '\\');
            push_char(&mut s, '"');
        } else {
            push_char(&mut s, c);
        }
        assert(chars@.take(i + 1).drop_last() == chars@.take(i as int));
        i = i + 1;
    }
    assert(chars@.take(i as int) == chars@);
    push_char(&mut s, '"');
    s
}

/// A new string holding `v[start..end]`.
pub fn string_from_chars(v: &Vec<char>, start: usize, end: usize) -> (s: String)
    requires
        start <= end <= v@.len(),
    ensures
        s@ == v@.subrange(start as int, end as int),
{
    let mut s = String::new();
    let mut i = start;
    while i < end
        invariant
            start <= i <= end <= v@.len(),
            s@ == v@.subrange(start as int, i as int),
        decreases end - i,
    {
        push_char(&mut s, v[i]);
        assert(v@.subrange(start as int, i + 1) == v@.subrange(start as int, i as int).push(v@[i as int]));
        i = i + 1;
    }
    s
}

/// A new string holding `a` followed by `b`.
pub fn concat(a: &str, b: &str) -> (s: String)
    ensures
        s@ == a@ + b@,
{
    let mut s = String::from_str(a);
    s.append(b);
    s
}

} // verus!

verus! {

/// Whether two string slices hold the same characters.
pub fn str_equal(a: &str, b: &str) -> (r: bool)
    ensures
        r == (a@ == b@),
{
    let x = chars_of(a);
    let y = chars_of(b);
    if x.len() != y.len() {
        return false;
    }
    let mut i: usize = 0;
    while i < x.len()
        invariant
            x@ == a@,
            y@ == b@,
            x@.len() == y@.len(),
            i <= x@.len(),
            forall|j: int| 0 <= j < i ==> x@[j] == y@[j],
        decreases x@.len() - i,
    {
        if x[i] != y[i] {
            return false;
        }
        i = i + 1;
    }
    assert(x@ == y@);
    true
}

} // verus!
