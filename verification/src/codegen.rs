//! Code generation: writes a checked component as a TypeScript module that
//! builds its elements with the runtime's DOM library.

use convert_case::{Case, Casing};
use vstd::prelude::*;
use vstd::string::StringExecFns;
use crate::ast::{Ctx, Expr, ExprValue, NumberLiteral, Type};
use crate::checker::{CheckedExpr, Component, Content, Element};
use crate::parser::{string_views, to_upper_camel_case, upper_camel_case};
use crate::scope::joined;
use crate::text::{chars_of, concat, push_char, string_from_chars};

verus! {

/// The runtime class of a property type, for the types that have one.
pub open spec fn type_js(t: Type) -> Option<Seq<char>> {
    match t {
        Type::Int => Some("Dom.Int"@),
        Type::Float => Some("Dom.Float"@),
        Type::Length => Some("Dom.Length"@),
        Type::Brush => Some("Dom.Brush"@),
        Type::String => Some("Dom.String"@),
        Type::Boolean => Some("Dom.Boolean"@),
        _ => None,
    }
}

/// The text of an optional string.
pub open spec fn opt_text(r: Option<String>) -> Option<Seq<char>> {
    match r {
        Some(s) => Some(s@),
        None => None,
    }
}

/// The runtime class of a property type; `None` for the types that have no
/// runtime class.
pub fn type_to_js(prop_type: &Type) -> (r: Option<String>)
    ensures
        opt_text(r) == type_js(*prop_type),
{
    match prop_type {
        Type::Int => Some("Dom.Int".to_owned()),
        Type::Float => Some("Dom.Float".to_owned()),
        Type::Length => Some("Dom.Length".to_owned()),
        Type::Brush => Some("Dom.Brush".to_owned()),
        Type::String => Some("Dom.String".to_owned()),
        Type::Boolean => Some("Dom.Boolean".to_owned()),
        _ => None,
    }
}

/// `s` without leading zeros, keeping one digit; `0` for no digits.
pub open spec fn without_leading_zeros(s: Seq<char>) -> Seq<char>
    decreases s.len(),
{
    if s.len() == 0 {
        seq!['0']
    } else if s[0] == '0' && s.len() > 1 {
        without_leading_zeros(s.drop_first())
    } else {
        s
    }
}

/// `s` without trailing zeros.
pub open spec fn without_trailing_zeros(s: Seq<char>) -> Seq<char>
    decreases s.len(),
{
    if s.len() > 0 && s.last() == '0' {
        without_trailing_zeros(s.drop_last())
    } else {
        s
    }
}

/// The index of the first `.` in `s`, or its length.
pub open spec fn dot_index(s: Seq<char>) -> int
    decreases s.len(),
{
    if s.len() == 0 {
        0
    } else if dot_index(s.drop_last()) < s.len() - 1 {
        dot_index(s.drop_last())
    } else if s.last() == '.' {
        s.len() - 1
    } else {
        s.len() as int
    }
}

/// How the runtime writes the number with the digits `digits` (an integer
/// part, then optionally a `.` and a fraction), negated if `negative`: no
/// leading zeros in the integer part, no trailing zeros in the fraction,
/// and no fraction at all if nothing is left of it.
pub open spec fn number_text(digits: Seq<char>, negative: bool) -> Seq<char> {
    let d = dot_index(digits);
    let int_part = without_leading_zeros(digits.subrange(0, d));
    let frac = if d < digits.len() { without_trailing_zeros(digits.subrange(d + 1, digits.len() as int)) } else { Seq::empty() };
    let body = if frac.len() == 0 { int_part } else { int_part + "."@ + frac };
    if negative { "-"@ + body } else { body }
}

/// A negative number is written as the same number with a minus sign in
/// front; so is a negative integer, unless it is zero.
pub proof fn lemma_negative_numbers_written_with_minus(digits: Seq<char>)
    ensures
        number_text(digits, true) == "-"@ + number_text(digits, false),
        integer_text(digits, false) != seq!['0'] ==> integer_text(digits, true) == "-"@ + integer_text(digits, false),
        integer_text(digits, false) == seq!['0'] ==> integer_text(digits, true) == seq!['0'],
{
}

/// How the runtime writes an integer with the digits `digits`: no leading
/// zeros, and no sign on zero.
pub open spec fn integer_text(digits: Seq<char>, negative: bool) -> Seq<char> {
    let body = without_leading_zeros(digits);
    if negative && body != seq!['0'] { "-"@ + body } else { body }
}

/// The index where the digits of `v[lo..hi]` start once leading zeros are
/// skipped (keeping one digit).
fn skip_leading_zeros(v: &Vec<char>, lo: usize, hi: usize) -> (r: usize)
    requires
        lo <= hi <= v@.len(),
    ensures
        lo <= r <= hi,
        hi > lo ==> r < hi,
        without_leading_zeros(v@.subrange(lo as int, hi as int)) == (if hi == lo {
            seq!['0']
        } else {
            v@.subrange(r as int, hi as int)
        }),
{
    let mut i = lo;
    while hi > 0 && i < hi - 1 && v[i] == '0'
        invariant
            lo <= i <= hi,
            hi > lo ==> i < hi,
            hi <= v@.len(),
            without_leading_zeros(v@.subrange(lo as int, hi as int)) == without_leading_zeros(v@.subrange(i as int, hi as int)),
        decreases hi - i,
    {
        assert(v@.subrange(i as int, hi as int).drop_first() =~= v@.subrange(i + 1, hi as int));
        i = i + 1;
    }
    i
}

/// The index where the digits of `v[lo..hi]` end once trailing zeros are
/// dropped.
fn skip_trailing_zeros(v: &Vec<char>, lo: usize, hi: usize) -> (r: usize)
    requires
        lo <= hi <= v@.len(),
    ensures
        lo <= r <= hi,
        without_trailing_zeros(v@.subrange(lo as int, hi as int)) == v@.subrange(lo as int, r as int),
{
    let mut j = hi;
    while j > lo && v[j - 1] == '0'
        invariant
            lo <= j <= hi,
            hi <= v@.len(),
            without_trailing_zeros(v@.subrange(lo as int, hi as int)) == without_trailing_zeros(v@.subrange(lo as int, j as int)),
        decreases j - lo,
    {
        assert(v@.subrange(lo as int, j as int).drop_last() =~= v@.subrange(lo as int, j - 1));
        j = j - 1;
    }
    j
}

/// The index of the first `.` in `v`, or its length.
fn find_dot(v: &Vec<char>) -> (r: usize)
    ensures
        r == dot_index(v@),
        r <= v@.len(),
{
    let mut i: usize = 0;
    while i < v.len()
        invariant
            i <= v@.len(),
            dot_index(v@.subrange(0, i as int)) == i,
            forall|j: int| 0 <= j < i ==> v@[j] != '.',
        decreases v@.len() - i,
    {
        if v[i] == '.' {
            proof {
                let t = v@.subrange(0, i + 1);
                assert(t.drop_last() =~= v@.subrange(0, i as int));
                lemma_dot_index_prefix(v@, i + 1);
            }
            return i;
        }
        proof {
            let t = v@.subrange(0, i + 1);
            assert(t.drop_last() =~= v@.subrange(0, i as int));
        }
        i = i + 1;
    }
    assert(v@.subrange(0, v@.len() as int) =~= v@);
    i
}

/// Once a prefix holds a `.`, longer prefixes find the same first `.`.
proof fn lemma_dot_index_prefix(s: Seq<char>, k: int)
    requires
        0 <= k <= s.len(),
        dot_index(s.subrange(0, k)) < k,
    ensures
        dot_index(s) == dot_index(s.subrange(0, k)),
    decreases s.len() - k,
{
    if k < s.len() {
        assert(s.subrange(0, k + 1).drop_last() =~= s.subrange(0, k));
        lemma_dot_index_prefix(s, k + 1);
    } else {
        assert(s.subrange(0, k) =~= s);
    }
}

/// Writes a number literal the way the runtime writes the number.
pub fn number_to_js(n: &NumberLiteral) -> (r: String)
    ensures
        r@ == number_text(n.digits@, n.negative),
{
    let v = chars_of(n.digits.as_str());
    let d = find_dot(&v);
    let a = skip_leading_zeros(&v, 0, d);
    let int_part = if d == 0 { "0".to_owned() } else { string_from_chars(&v, a, d) };
    let mut out = if n.negative { "-".to_owned() } else { String::new() };
    out.append(int_part.as_str());
    if d < v.len() {
        let e = skip_trailing_zeros(&v, d + 1, v.len());
        if e > d + 1 {
            out.append(".");
            out.append(string_from_chars(&v, d + 1, e).as_str());
        }
    }
    proof {
        reveal_strlit("0");
        reveal_strlit("-");
        reveal_strlit(".");
    }
    out
}

/// Writes an integer literal the way the runtime writes the integer.
pub fn integer_to_js(n: &NumberLiteral) -> (r: String)
    ensures
        r@ == integer_text(n.digits@, n.negative),
{
    let v = chars_of(n.digits.as_str());
    let a = skip_leading_zeros(&v, 0, v.len());
    assert(v@.subrange(0, v@.len() as int) =~= v@);
    let body = if v.len() == 0 { "0".to_owned() } else { string_from_chars(&v, a, v.len()) };
    proof {
        reveal_strlit("0");
        reveal_strlit("-");
    }
    let is_zero = v.len() == 0 || (a + 1 == v.len() && v[a] == '0');
    proof {
        if !is_zero && v@.len() > 0 && body@.len() == 1 {
            assert(body@[0] == v@[a as int]);
        }
        if is_zero && v@.len() > 0 {
            assert(body@ =~= seq!['0']);
        }
    }
    if n.negative && !is_zero {
        concat("-", body.as_str())
    } else {
        body
    }
}

/// The decimal text of the channel value `c / 255`, as the runtime's number
/// formatting writes it (the shortest text that reads back as that number).
pub open spec fn channel_text(c: u8) -> Seq<char> {
    match c {
        0u8 => "0"@,
        1u8 => "0.00392156862745098"@,
        2u8 => "0.00784313725490196"@,
        3u8 => "0.011764705882352941"@,
        4u8 => "0.01568627450980392"@,
        5u8 => "0.0196078431372549"@,
        6u8 => "0.023529411764705882"@,
        7u8 => "0.027450980392156862"@,
        8u8 => "0.03137254901960784"@,
        9u8 => "0.03529411764705882"@,
        10u8 => "0.0392156862745098"@,
        11u8 => "0.043137254901960784"@,
        12u8 => "0.047058823529411764"@,
        13u8 => "0.050980392156862744"@,
        14u8 => "0.054901960784313725"@,
        15u8 => "0.058823529411764705"@,
        16u8 => "0.06274509803921569"@,
        17u8 => "0.06666666666666667"@,
        18u8 => "0.07058823529411765"@,
        19u8 => "0.07450980392156863"@,
        20u8 => "0.0784313725490196"@,
        21u8 => "0.08235294117647059"@,
        22u8 => "0.08627450980392157"@,
        23u8 => "0.09019607843137255"@,
        24u8 => "0.09411764705882353"@,
        25u8 => "0.09803921568627451"@,
        26u8 => "0.10196078431372549"@,
        27u8 => "0.10588235294117647"@,
        28u8 => "0.10980392156862745"@,
        29u8 => "0.11372549019607843"@,
        30u8 => "0.11764705882352941"@,
        31u8 => "0.12156862745098039"@,
        32u8 => "0.12549019607843137"@,
        33u8 => "0.12941176470588237"@,
        34u8 => "0.13333333333333333"@,
        35u8 => "0.13725490196078433"@,
        36u8 => "0.1411764705882353"@,
        37u8 => "0.1450980392156863"@,
        38u8 => "0.14901960784313725"@,
        39u8 => "0.15294117647058825"@,
        40u8 => "0.1568627450980392"@,
        41u8 => "0.1607843137254902"@,
        42u8 => "0.16470588235294117"@,
        43u8 => "0.16862745098039217"@,
        44u8 => "0.17254901960784313"@,
        45u8 => "0.17647058823529413"@,
        46u8 => "0.1803921568627451"@,
        47u8 => "0.1843137254901961"@,
        48u8 => "0.18823529411764706"@,
        49u8 => "0.19215686274509805"@,
        50u8 => "0.19607843137254902"@,
        51u8 => "0.2"@,
        52u8 => "0.20392156862745098"@,
        53u8 => "0.20784313725490197"@,
        54u8 => "0.21176470588235294"@,
        55u8 => "0.21568627450980393"@,
        56u8 => "0.2196078431372549"@,
        57u8 => "0.2235294117647059"@,
        58u8 => "0.22745098039215686"@,
        59u8 => "0.23137254901960785"@,
        60u8 => "0.23529411764705882"@,
        61u8 => "0.23921568627450981"@,
        62u8 => "0.24313725490196078"@,
        63u8 => "0.24705882352941178"@,
        64u8 => "0.25098039215686274"@,
        65u8 => "0.2549019607843137"@,
        66u8 => "0.25882352941176473"@,
        67u8 => "0.2627450980392157"@,
        68u8 => "0.26666666666666666"@,
        69u8 => "0.27058823529411763"@,
        70u8 => "0.27450980392156865"@,
        71u8 => "0.2784313725490196"@,
        72u8 => "0.2823529411764706"@,
        73u8 => "0.28627450980392155"@,
        74u8 => "0.2901960784313726"@,
        75u8 => "0.29411764705882354"@,
        76u8 => "0.2980392156862745"@,
        77u8 => "0.30196078431372547"@,
        78u8 => "0.3058823529411765"@,
        79u8 => "0.30980392156862746"@,
        80u8 => "0.3137254901960784"@,
        81u8 => "0.3176470588235294"@,
        82u8 => "0.3215686274509804"@,
        83u8 => "0.3254901960784314"@,
        84u8 => "0.32941176470588235"@,
        85u8 => "0.3333333333333333"@,
        86u8 => "0.33725490196078434"@,
        87u8 => "0.3411764705882353"@,
        88u8 => "0.34509803921568627"@,
        89u8 => "0.34901960784313724"@,
        90u8 => "0.35294117647058826"@,
        91u8 => "0.3568627450980392"@,
        92u8 => "0.3607843137254902"@,
        93u8 => "0.36470588235294116"@,
        94u8 => "0.3686274509803922"@,
        95u8 => "0.37254901960784315"@,
        96u8 => "0.3764705882352941"@,
        97u8 => "0.3803921568627451"@,
        98u8 => "0.3843137254901961"@,
        99u8 => "0.38823529411764707"@,
        100u8 => "0.39215686274509803"@,
        101u8 => "0.396078431372549"@,
        102u8 => "0.4"@,
        103u8 => "0.403921568627451"@,
        104u8 => "0.40784313725490196"@,
        105u8 => "0.4117647058823529"@,
        106u8 => "0.41568627450980394"@,
        107u8 => "0.4196078431372549"@,
        108u8 => "0.4235294117647059"@,
        109u8 => "0.42745098039215684"@,
        110u8 => "0.43137254901960786"@,
        111u8 => "0.43529411764705883"@,
        112u8 => "0.4392156862745098"@,
        113u8 => "0.44313725490196076"@,
        114u8 => "0.4470588235294118"@,
        115u8 => "0.45098039215686275"@,
        116u8 => "0.4549019607843137"@,
        117u8 => "0.4588235294117647"@,
        118u8 => "0.4627450980392157"@,
        119u8 => "0.4666666666666667"@,
        120u8 => "0.47058823529411764"@,
        121u8 => "0.4745098039215686"@,
        122u8 => "0.47843137254901963"@,
        123u8 => "0.4823529411764706"@,
        124u8 => "0.48627450980392156"@,
        125u8 => "0.49019607843137253"@,
        126u8 => "0.49411764705882355"@,
        127u8 => "0.4980392156862745"@,
        128u8 => "0.5019607843137255"@,
        129u8 => "0.5058823529411764"@,
        130u8 => "0.5098039215686274"@,
        131u8 => "0.5137254901960784"@,
        132u8 => "0.5176470588235295"@,
        133u8 => "0.5215686274509804"@,
        134u8 => "0.5254901960784314"@,
        135u8 => "0.5294117647058824"@,
        136u8 => "0.5333333333333333"@,
        137u8 => "0.5372549019607843"@,
        138u8 => "0.5411764705882353"@,
        139u8 => "0.5450980392156862"@,
        140u8 => "0.5490196078431373"@,
        141u8 => "0.5529411764705883"@,
        142u8 => "0.5568627450980392"@,
        143u8 => "0.5607843137254902"@,
        144u8 => "0.5647058823529412"@,
        145u8 => "0.5686274509803921"@,
        146u8 => "0.5725490196078431"@,
        147u8 => "0.5764705882352941"@,
        148u8 => "0.5803921568627451"@,
        149u8 => "0.5843137254901961"@,
        150u8 => "0.5882352941176471"@,
        151u8 => "0.592156862745098"@,
        152u8 => "0.596078431372549"@,
        153u8 => "0.6"@,
        154u8 => "0.6039215686274509"@,
        155u8 => "0.6078431372549019"@,
        156u8 => "0.611764705882353"@,
        157u8 => "0.615686274509804"@,
        158u8 => "0.6196078431372549"@,
        159u8 => "0.6235294117647059"@,
        160u8 => "0.6274509803921569"@,
        161u8 => "0.6313725490196078"@,
        162u8 => "0.6352941176470588"@,
        163u8 => "0.6392156862745098"@,
        164u8 => "0.6431372549019608"@,
        165u8 => "0.6470588235294118"@,
        166u8 => "0.6509803921568628"@,
        167u8 => "0.6549019607843137"@,
        168u8 => "0.6588235294117647"@,
        169u8 => "0.6627450980392157"@,
        170u8 => "0.6666666666666666"@,
        171u8 => "0.6705882352941176"@,
        172u8 => "0.6745098039215687"@,
        173u8 => "0.6784313725490196"@,
        174u8 => "0.6823529411764706"@,
        175u8 => "0.6862745098039216"@,
        176u8 => "0.6901960784313725"@,
        177u8 => "0.6941176470588235"@,
        178u8 => "0.6980392156862745"@,
        179u8 => "0.7019607843137254"@,
        180u8 => "0.7058823529411765"@,
        181u8 => "0.7098039215686275"@,
        182u8 => "0.7137254901960784"@,
        183u8 => "0.7176470588235294"@,
        184u8 => "0.7215686274509804"@,
        185u8 => "0.7254901960784313"@,
        186u8 => "0.7294117647058823"@,
        187u8 => "0.7333333333333333"@,
        188u8 => "0.7372549019607844"@,
        189u8 => "0.7411764705882353"@,
        190u8 => "0.7450980392156863"@,
        191u8 => "0.7490196078431373"@,
        192u8 => "0.7529411764705882"@,
        193u8 => "0.7568627450980392"@,
        194u8 => "0.7607843137254902"@,
        195u8 => "0.7647058823529411"@,
        196u8 => "0.7686274509803922"@,
        197u8 => "0.7725490196078432"@,
        198u8 => "0.7764705882352941"@,
        199u8 => "0.7803921568627451"@,
        200u8 => "0.7843137254901961"@,
        201u8 => "0.788235294117647"@,
        202u8 => "0.792156862745098"@,
        203u8 => "0.796078431372549"@,
        204u8 => "0.8"@,
        205u8 => "0.803921568627451"@,
        206u8 => "0.807843137254902"@,
        207u8 => "0.8117647058823529"@,
        208u8 => "0.8156862745098039"@,
        209u8 => "0.8196078431372549"@,
        210u8 => "0.8235294117647058"@,
        211u8 => "0.8274509803921568"@,
        212u8 => "0.8313725490196079"@,
        213u8 => "0.8352941176470589"@,
        214u8 => "0.8392156862745098"@,
        215u8 => "0.8431372549019608"@,
        216u8 => "0.8470588235294118"@,
        217u8 => "0.8509803921568627"@,
        218u8 => "0.8549019607843137"@,
        219u8 => "0.8588235294117647"@,
        220u8 => "0.8627450980392157"@,
        221u8 => "0.8666666666666667"@,
        222u8 => "0.8705882352941177"@,
        223u8 => "0.8745098039215686"@,
        224u8 => "0.8784313725490196"@,
        225u8 => "0.8823529411764706"@,
        226u8 => "0.8862745098039215"@,
        227u8 => "0.8901960784313725"@,
        228u8 => "0.8941176470588236"@,
        229u8 => "0.8980392156862745"@,
        230u8 => "0.9019607843137255"@,
        231u8 => "0.9058823529411765"@,
        232u8 => "0.9098039215686274"@,
        233u8 => "0.9137254901960784"@,
        234u8 => "0.9176470588235294"@,
        235u8 => "0.9215686274509803"@,
        236u8 => "0.9254901960784314"@,
        237u8 => "0.9294117647058824"@,
        238u8 => "0.9333333333333333"@,
        239u8 => "0.9372549019607843"@,
        240u8 => "0.9411764705882353"@,
        241u8 => "0.9450980392156862"@,
        242u8 => "0.9490196078431372"@,
        243u8 => "0.9529411764705882"@,
        244u8 => "0.9568627450980393"@,
        245u8 => "0.9607843137254902"@,
        246u8 => "0.9647058823529412"@,
        247u8 => "0.9686274509803922"@,
        248u8 => "0.9725490196078431"@,
        249u8 => "0.9764705882352941"@,
        250u8 => "0.9803921568627451"@,
        251u8 => "0.984313725490196"@,
        252u8 => "0.9882352941176471"@,
        253u8 => "0.9921568627450981"@,
        254u8 => "0.996078431372549"@,
        _ => "1"@,
    }
}

/// The decimal text of the channel value `c / 255`.
pub fn channel_to_js(c: u8) -> (r: &'static str)
    ensures
        r@ == channel_text(c),
{
    match c {
        0u8 => "0",
        1u8 => "0.00392156862745098",
        2u8 => "0.00784313725490196",
        3u8 => "0.011764705882352941",
        4u8 => "0.01568627450980392",
        5u8 => "0.0196078431372549",
        6u8 => "0.023529411764705882",
        7u8 => "0.027450980392156862",
        8u8 => "0.03137254901960784",
        9u8 => "0.03529411764705882",
        10u8 => "0.0392156862745098",
        11u8 => "0.043137254901960784",
        12u8 => "0.047058823529411764",
        13u8 => "0.050980392156862744",
        14u8 => "0.054901960784313725",
        15u8 => "0.058823529411764705",
        16u8 => "0.06274509803921569",
        17u8 => "0.06666666666666667",
        18u8 => "0.07058823529411765",
        19u8 => "0.07450980392156863",
        20u8 => "0.0784313725490196",
        21u8 => "0.08235294117647059",
        22u8 => "0.08627450980392157",
        23u8 => "0.09019607843137255",
        24u8 => "0.09411764705882353",
        25u8 => "0.09803921568627451",
        26u8 => "0.10196078431372549",
        27u8 => "0.10588235294117647",
        28u8 => "0.10980392156862745",
        29u8 => "0.11372549019607843",
        30u8 => "0.11764705882352941",
        31u8 => "0.12156862745098039",
        32u8 => "0.12549019607843137",
        33u8 => "0.12941176470588237",
        34u8 => "0.13333333333333333",
        35u8 => "0.13725490196078433",
        36u8 => "0.1411764705882353",
        37u8 => "0.1450980392156863",
        38u8 => "0.14901960784313725",
        39u8 => "0.15294117647058825",
        40u8 => "0.1568627450980392",
        41u8 => "0.1607843137254902",
        42u8 => "0.16470588235294117",
        43u8 => "0.16862745098039217",
        44u8 => "0.17254901960784313",
        45u8 => "0.17647058823529413",
        46u8 => "0.1803921568627451",
        47u8 => "0.1843137254901961",
        48u8 => "0.18823529411764706",
        49u8 => "0.19215686274509805",
        50u8 => "0.19607843137254902",
        51u8 => "0.2",
        52u8 => "0.20392156862745098",
        53u8 => "0.20784313725490197",
        54u8 => "0.21176470588235294",
        55u8 => "0.21568627450980393",
        56u8 => "0.2196078431372549",
        57u8 => "0.2235294117647059",
        58u8 => "0.22745098039215686",
        59u8 => "0.23137254901960785",
        60u8 => "0.23529411764705882",
        61u8 => "0.23921568627450981",
        62u8 => "0.24313725490196078",
        63u8 => "0.24705882352941178",
        64u8 => "0.25098039215686274",
        65u8 => "0.2549019607843137",
        66u8 => "0.25882352941176473",
        67u8 => "0.2627450980392157",
        68u8 => "0.26666666666666666",
        69u8 => "0.27058823529411763",
        70u8 => "0.27450980392156865",
        71u8 => "0.2784313725490196",
        72u8 => "0.2823529411764706",
        73u8 => "0.28627450980392155",
        74u8 => "0.2901960784313726",
        75u8 => "0.29411764705882354",
        76u8 => "0.2980392156862745",
        77u8 => "0.30196078431372547",
        78u8 => "0.3058823529411765",
        79u8 => "0.30980392156862746",
        80u8 => "0.3137254901960784",
        81u8 => "0.3176470588235294",
        82u8 => "0.3215686274509804",
        83u8 => "0.3254901960784314",
        84u8 => "0.32941176470588235",
        85u8 => "0.3333333333333333",
        86u8 => "0.33725490196078434",
        87u8 => "0.3411764705882353",
        88u8 => "0.34509803921568627",
        89u8 => "0.34901960784313724",
        90u8 => "0.35294117647058826",
        91u8 => "0.3568627450980392",
        92u8 => "0.3607843137254902",
        93u8 => "0.36470588235294116",
        94u8 => "0.3686274509803922",
        95u8 => "0.37254901960784315",
        96u8 => "0.3764705882352941",
        97u8 => "0.3803921568627451",
        98u8 => "0.3843137254901961",
        99u8 => "0.38823529411764707",
        100u8 => "0.39215686274509803",
        101u8 => "0.396078431372549",
        102u8 => "0.4",
        103u8 => "0.403921568627451",
        104u8 => "0.40784313725490196",
        105u8 => "0.4117647058823529",
        106u8 => "0.41568627450980394",
        107u8 => "0.4196078431372549",
        108u8 => "0.4235294117647059",
        109u8 => "0.42745098039215684",
        110u8 => "0.43137254901960786",
        111u8 => "0.43529411764705883",
        112u8 => "0.4392156862745098",
        113u8 => "0.44313725490196076",
        114u8 => "0.4470588235294118",
        115u8 => "0.45098039215686275",
        116u8 => "0.4549019607843137",
        117u8 => "0.4588235294117647",
        118u8 => "0.4627450980392157",
        119u8 => "0.4666666666666667",
        120u8 => "0.47058823529411764",
        121u8 => "0.4745098039215686",
        122u8 => "0.47843137254901963",
        123u8 => "0.4823529411764706",
        124u8 => "0.48627450980392156",
        125u8 => "0.49019607843137253",
        126u8 => "0.49411764705882355",
        127u8 => "0.4980392156862745",
        128u8 => "0.5019607843137255",
        129u8 => "0.5058823529411764",
        130u8 => "0.5098039215686274",
        131u8 => "0.5137254901960784",
        132u8 => "0.5176470588235295",
        133u8 => "0.5215686274509804",
        134u8 => "0.5254901960784314",
        135u8 => "0.5294117647058824",
        136u8 => "0.5333333333333333",
        137u8 => "0.5372549019607843",
        138u8 => "0.5411764705882353",
        139u8 => "0.5450980392156862",
        140u8 => "0.5490196078431373",
        141u8 => "0.5529411764705883",
        142u8 => "0.5568627450980392",
        143u8 => "0.5607843137254902",
        144u8 => "0.5647058823529412",
        145u8 => "0.5686274509803921",
        146u8 => "0.5725490196078431",
        147u8 => "0.5764705882352941",
        148u8 => "0.5803921568627451",
        149u8 => "0.5843137254901961",
        150u8 => "0.5882352941176471",
        151u8 => "0.592156862745098",
        152u8 => "0.596078431372549",
        153u8 => "0.6",
        154u8 => "0.6039215686274509",
        155u8 => "0.6078431372549019",
        156u8 => "0.611764705882353",
        157u8 => "0.615686274509804",
        158u8 => "0.6196078431372549",
        159u8 => "0.6235294117647059",
        160u8 => "0.6274509803921569",
        161u8 => "0.6313725490196078",
        162u8 => "0.6352941176470588",
        163u8 => "0.6392156862745098",
        164u8 => "0.6431372549019608",
        165u8 => "0.6470588235294118",
        166u8 => "0.6509803921568628",
        167u8 => "0.6549019607843137",
        168u8 => "0.6588235294117647",
        169u8 => "0.6627450980392157",
        170u8 => "0.6666666666666666",
        171u8 => "0.6705882352941176",
        172u8 => "0.6745098039215687",
        173u8 => "0.6784313725490196",
        174u8 => "0.6823529411764706",
        175u8 => "0.6862745098039216",
        176u8 => "0.6901960784313725",
        177u8 => "0.6941176470588235",
        178u8 => "0.6980392156862745",
        179u8 => "0.7019607843137254",
        180u8 => "0.7058823529411765",
        181u8 => "0.7098039215686275",
        182u8 => "0.7137254901960784",
        183u8 => "0.7176470588235294",
        184u8 => "0.7215686274509804",
        185u8 => "0.7254901960784313",
        186u8 => "0.7294117647058823",
        187u8 => "0.7333333333333333",
        188u8 => "0.7372549019607844",
        189u8 => "0.7411764705882353",
        190u8 => "0.7450980392156863",
        191u8 => "0.7490196078431373",
        192u8 => "0.7529411764705882",
        193u8 => "0.7568627450980392",
        194u8 => "0.7607843137254902",
        195u8 => "0.7647058823529411",
        196u8 => "0.7686274509803922",
        197u8 => "0.7725490196078432",
        198u8 => "0.7764705882352941",
        199u8 => "0.7803921568627451",
        200u8 => "0.7843137254901961",
        201u8 => "0.788235294117647",
        202u8 => "0.792156862745098",
        203u8 => "0.796078431372549",
        204u8 => "0.8",
        205u8 => "0.803921568627451",
        206u8 => "0.807843137254902",
        207u8 => "0.8117647058823529",
        208u8 => "0.8156862745098039",
        209u8 => "0.8196078431372549",
        210u8 => "0.8235294117647058",
        211u8 => "0.8274509803921568",
        212u8 => "0.8313725490196079",
        213u8 => "0.8352941176470589",
        214u8 => "0.8392156862745098",
        215u8 => "0.8431372549019608",
        216u8 => "0.8470588235294118",
        217u8 => "0.8509803921568627",
        218u8 => "0.8549019607843137",
        219u8 => "0.8588235294117647",
        220u8 => "0.8627450980392157",
        221u8 => "0.8666666666666667",
        222u8 => "0.8705882352941177",
        223u8 => "0.8745098039215686",
        224u8 => "0.8784313725490196",
        225u8 => "0.8823529411764706",
        226u8 => "0.8862745098039215",
        227u8 => "0.8901960784313725",
        228u8 => "0.8941176470588236",
        229u8 => "0.8980392156862745",
        230u8 => "0.9019607843137255",
        231u8 => "0.9058823529411765",
        232u8 => "0.9098039215686274",
        233u8 => "0.9137254901960784",
        234u8 => "0.9176470588235294",
        235u8 => "0.9215686274509803",
        236u8 => "0.9254901960784314",
        237u8 => "0.9294117647058824",
        238u8 => "0.9333333333333333",
        239u8 => "0.9372549019607843",
        240u8 => "0.9411764705882353",
        241u8 => "0.9450980392156862",
        242u8 => "0.9490196078431372",
        243u8 => "0.9529411764705882",
        244u8 => "0.9568627450980393",
        245u8 => "0.9607843137254902",
        246u8 => "0.9647058823529412",
        247u8 => "0.9686274509803922",
        248u8 => "0.9725490196078431",
        249u8 => "0.9764705882352941",
        250u8 => "0.9803921568627451",
        251u8 => "0.984313725490196",
        252u8 => "0.9882352941176471",
        253u8 => "0.9921568627450981",
        254u8 => "0.996078431372549",
        _ => "1",
    }
}


/// A value known when the code is generated.
pub enum StaticValue {
    Px(NumberLiteral),
    Float(NumberLiteral),
    Int(NumberLiteral),
    Color(u8, u8, u8, u8),
    String(String),
    Boolean(bool),
}

/// The value of a literal expression, known when the code is generated; no
/// other expression has one (no builtin function is evaluated ahead).
pub open spec fn static_of(v: ExprValue) -> Option<StaticValue> {
    match v {
        ExprValue::Px(n) => Some(StaticValue::Px(n)),
        ExprValue::Float(n) => Some(StaticValue::Float(n)),
        ExprValue::Int(n) => Some(StaticValue::Int(n)),
        ExprValue::Color(r, g, b, a) => Some(StaticValue::Color(r, g, b, a)),
        ExprValue::String(s) => Some(StaticValue::String(s)),
        ExprValue::Boolean(b) => Some(StaticValue::Boolean(b)),
        _ => None,
    }
}

impl ExprValue {
    /// The value of the expression if it is known when the code is generated.
    pub fn try_into_static(&self) -> (r: Option<StaticValue>)
        ensures
            r == static_of(*self),
    {
        match self {
            ExprValue::Px(n) => Some(StaticValue::Px(n.duplicate())),
            ExprValue::Float(n) => Some(StaticValue::Float(n.duplicate())),
            ExprValue::Int(n) => Some(StaticValue::Int(n.duplicate())),
            ExprValue::Color(r, g, b, a) => Some(StaticValue::Color(*r, *g, *b, *a)),
            ExprValue::String(s) => Some(StaticValue::String(s.clone())),
            ExprValue::Boolean(b) => Some(StaticValue::Boolean(*b)),
            _ => None,
        }
    }
}

/// A string's text with newlines and tabs written as escapes.
pub open spec fn js_escaped(s: Seq<char>) -> Seq<char>
    decreases s.len(),
{
    if s.len() == 0 {
        Seq::empty()
    } else {
        js_escaped(s.drop_last()) + if s.last() == '\n' {
            seq!['\\', 'n']
        } else if s.last() == '\t' {
            seq!['\\', 't']
        } else {
            seq![s.last()]
        }
    }
}

/// Writes a string's text with newlines and tabs as escapes.
fn escape_js(s: &String) -> (r: String)
    ensures
        r@ == js_escaped(s@),
{
    let v = chars_of(s.as_str());
    let mut r = String::new();
    let mut i: usize = 0;
    while i < v.len()
        invariant
            i <= v@.len(),
            v@ == s@,
            r@ == js_escaped(v@.subrange(0, i as int)),
        decreases v@.len() - i,
    {
        let c = v[i];
        if c == '\n' {
            push_char(&mut r, '\\');
            push_char(&mut r, 'n');
        } else if c == '\t' {
            push_char(&mut r, '\\');
            push_char(&mut r, 't');
        } else {
            push_char(&mut r, c);
        }
        proof {
            assert(v@.subrange(0, i + 1).drop_last() =~= v@.subrange(0, i as int));
            assert(r@ =~= js_escaped(v@.subrange(0, i + 1)));
        }
        i = i + 1;
    }
    assert(v@.subrange(0, v@.len() as int) =~= v@);
    r
}

/// The code that makes a static value at run time.
pub open spec fn static_js(v: StaticValue) -> Seq<char> {
    match v {
        StaticValue::Px(n) => "Dom.Length.px("@ + number_text(n.digits@, n.negative) + ")"@,
        StaticValue::Float(n) => "Dom.Float.from("@ + number_text(n.digits@, n.negative) + ")"@,
        StaticValue::Int(n) => "Dom.Int.from("@ + integer_text(n.digits@, n.negative) + ")"@,
        StaticValue::Color(r, g, b, a) => "Dom.Brush.rgba("@ + channel_text(r) + ","@ + channel_text(g) + ","@
            + channel_text(b) + ","@ + channel_text(a) + ")"@,
        StaticValue::String(s) => "Dom.String.from(\""@ + js_escaped(s@) + "\")"@,
        StaticValue::Boolean(b) => if b {
            "Dom.Boolean.true"@
        } else {
            "Dom.Boolean.false"@
        },
    }
}

/// Writes the code that makes a static value at run time.
pub fn static_value_to_js(value: &StaticValue) -> (r: String)
    ensures
        r@ == static_js(*value),
{
    match value {
        StaticValue::Px(n) => {
            let mut s = concat("Dom.Length.px(", number_to_js(n).as_str());
            s.append(")");
            s
        },
        StaticValue::Float(n) => {
            let mut s = concat("Dom.Float.from(", number_to_js(n).as_str());
            s.append(")");
            s
        },
        StaticValue::Int(n) => {
            let mut s = concat("Dom.Int.from(", integer_to_js(n).as_str());
            s.append(")");
            s
        },
        StaticValue::Color(r, g, b, a) => {
            let mut s = concat("Dom.Brush.rgba(", channel_to_js(*r));
            s.append(",");
            s.append(channel_to_js(*g));
            s.append(",");
            s.append(channel_to_js(*b));
            s.append(",");
            s.append(channel_to_js(*a));
            s.append(")");
            s
        },
        StaticValue::String(text) => {
            let mut s = concat("Dom.String.from(\"", escape_js(text).as_str());
            s.append("\")");
            s
        },
        StaticValue::Boolean(b) => if *b {
            "Dom.Boolean.true".to_owned()
        } else {
            "Dom.Boolean.false".to_owned()
        },
    }
}


/// The code that computes an expression at run time, for the expressions
/// that are written as code: enum members, paths, conversions and calls.
pub open spec fn expr_js(v: ExprValue) -> Option<Seq<char>>
    decreases v, 1int, 0int,
{
    match v {
        ExprValue::Enum(name, Some(e)) => Some("Dom.Enum."@ + e@ + "."@ + upper_camel_case(name@)),
        ExprValue::Path(p, ctx) => Some((if ctx == Ctx::Builtin {
            "Dom.Builtins."@
        } else {
            Seq::empty()
        }) + joined(string_views(p@))),
        ExprValue::Coerce(e, t) => match (type_js(t), expr_js(e.value)) {
            (Some(a), Some(b)) => Some(a + ".coerce("@ + b + ")"@),
            _ => None,
        },
        ExprValue::FunctionCall(f, args) => match (expr_js(f.value), args_js(v, args@.len() as int)) {
            (Some(a), Some(b)) => Some(a + "("@ + b + ")"@),
            _ => None,
        },
        _ => None,
    }
}

/// The code of the first `k` arguments of the call `v`, separated by commas.
pub open spec fn args_js(v: ExprValue, k: int) -> Option<Seq<char>>
    decreases v, 0int, k,
{
    match v {
        ExprValue::FunctionCall(_, args) => if k <= 0 || k > args@.len() {
            Some(Seq::empty())
        } else {
            match (args_js(v, k - 1), expr_js(args@[k - 1].value)) {
                (Some(a), Some(b)) => Some(if k == 1 {
                    b
                } else {
                    a + ", "@ + b
                }),
                _ => None,
            }
        },
        _ => Some(Seq::empty()),
    }
}

/// A path resolved to a builtin item is written as the same dotted path
/// written for any other item, behind `Dom.Builtins.`; a call of a builtin
/// function is written that way too, followed by its arguments.
pub proof fn lemma_builtin_paths_are_prefixed(p: Vec<String>, ctx: Ctx, f: Expr, args: Vec<Expr>)
    requires
        ctx != Ctx::Builtin,
    ensures
        expr_js(ExprValue::Path(p, Ctx::Builtin)) == Some("Dom.Builtins."@ + joined(string_views(p@))),
        expr_js(ExprValue::Path(p, ctx)) == Some(joined(string_views(p@))),
        expr_js(ExprValue::Path(p, Ctx::Builtin)) == Some("Dom.Builtins."@ + expr_js(ExprValue::Path(p, ctx))->0),
        p@.len() == 1 ==> expr_js(ExprValue::Path(p, Ctx::Builtin)) == Some("Dom.Builtins."@ + p@[0]@),
        f.value == ExprValue::Path(p, Ctx::Builtin) ==> expr_js(ExprValue::FunctionCall(Box::new(f), args)) == match args_js(
            ExprValue::FunctionCall(Box::new(f), args), args@.len() as int) {
            Some(b) => Some("Dom.Builtins."@ + joined(string_views(p@)) + "("@ + b + ")"@),
            None => None,
        },
{
    if p@.len() == 1 {
        assert(string_views(p@).len() == 1);
        assert(string_views(p@)[0] == p@[0]@);
    }
}

/// Arguments that are written as code up to `k` are so up to any `j <= k`.
proof fn lemma_args_js_prefix(v: ExprValue, j: int, k: int)
    requires
        v is FunctionCall,
        1 <= j <= k <= v->FunctionCall_1@.len(),
        args_js(v, k) is Some,
    ensures
        args_js(v, j) is Some,
        expr_js(v->FunctionCall_1@[j - 1].value) is Some,
    decreases k - j,
{
    if j < k {
        lemma_args_js_prefix(v, j, k - 1);
    }
}

/// Writes the code that computes an expression at run time; `None` for the
/// expressions that are not written as code (literals, and enum members of
/// no known enum).
pub fn expr_to_js(value: &ExprValue) -> (r: Option<String>)
    ensures
        opt_text(r) == expr_js(*value),
    decreases *value,
{
    match value {
        ExprValue::Enum(name, enum_name) => match enum_name {
            Some(e) => {
                let mut s = concat("Dom.Enum.", e.as_str());
                s.append(".");
                s.append(to_upper_camel_case(name.as_str()).as_str());
                Some(s)
            },
            None => None,
        },
        ExprValue::Path(path, ctx) => {
            let prefix = match ctx {
                Ctx::Builtin => "Dom.Builtins.",
                _ => "",
            };
            proof {
                reveal_strlit("");
            }
            Some(concat(prefix, crate::scope::join_path(path).as_str()))
        },
        ExprValue::Coerce(e, t) => {
            let a = match type_to_js(t) {
                Some(a) => a,
                None => {
                    return None;
                },
            };
            proof {
                assert(decreases_to!(*value => (*value)->Coerce_0));
            }
            let b = match expr_to_js(&e.value) {
                Some(b) => b,
                None => {
                    return None;
                },
            };
            let mut s = a;
            s.append(".coerce(");
            s.append(b.as_str());
            s.append(")");
            Some(s)
        },
        ExprValue::FunctionCall(f, args) => {
            proof {
                assert(decreases_to!(*value => (*value)->FunctionCall_0));
            }
            let a = match expr_to_js(&f.value) {
                Some(a) => a,
                None => {
                    return None;
                },
            };
            let mut rendered = String::new();
            let mut i: usize = 0;
            while i < args.len()
                invariant
                    i <= args@.len(),
                    *value == ExprValue::FunctionCall(*f, *args),
                    args_js(*value, i as int) == Some(rendered@),
                decreases args@.len() - i,
            {
                proof {
                    assert(decreases_to!(*value => (*value)->FunctionCall_1));
                    assert(decreases_to!(*args => args@[i as int]));
                }
                let b = match expr_to_js(&args[i].value) {
                    Some(b) => b,
                    None => {
                        proof {
                            if args_js(*value, args@.len() as int) is Some {
                                lemma_args_js_prefix(*value, i + 1, args@.len() as int);
                            }
                        }
                        return None;
                    },
                };
                if i > 0 {
                    rendered.append(", ");
                }
                rendered.append(b.as_str());
                proof {
                    if i == 0 {
                        assert(rendered@ =~= b@);
                    }
                }
                i = i + 1;
            }
            let mut s = a;
            s.append("(");
            s.append(rendered.as_str());
            s.append(")");
            Some(s)
        },
        _ => None,
    }
}

/// The names joined by commas.
pub open spec fn comma_joined(p: Seq<Seq<char>>) -> Seq<char>
    decreases p.len(),
{
    if p.len() == 0 {
        Seq::empty()
    } else if p.len() == 1 {
        p[0]
    } else {
        comma_joined(p.drop_last()) + ","@ + p.last()
    }
}

/// Each name as `this.bindings.name,`.
pub open spec fn required_bindings(p: Seq<Seq<char>>) -> Seq<char>
    decreases p.len(),
{
    if p.len() == 0 {
        Seq::empty()
    } else {
        required_bindings(p.drop_last()) + "this.bindings."@ + p.last() + ","@
    }
}

/// Sets property `name` of `e` to the constant `c`.
pub open spec fn constant_assignment(name: Seq<char>, c: Seq<char>, is_preset: bool) -> Seq<char> {
    if is_preset {
        "e."@ + name + ".set("@ + c + "); "@
    } else {
        "e.props."@ + name + " = "@ + c + "; "@
    }
}

/// Connects property `name` of `e` to the component properties it reads.
pub open spec fn connected_assignment(name: Seq<char>, bindings: Seq<Seq<char>>, rendered: Seq<char>, is_preset: bool) -> Seq<char> {
    let received = comma_joined(bindings);
    let received = if received.len() == 0 { "()"@ } else { "(["@ + received + "])"@ };
    let binding = if is_preset { "e."@ + name } else { "e.bindings."@ + name };
    binding + ".connect(["@ + required_bindings(bindings) + "], "@ + received + " => "@ + rendered + "); "@
}

/// The code that sets property `name` of the element `e` to `expr`: a
/// constant where its value is known or reads no property, otherwise a
/// connection to the properties it reads.
pub open spec fn property_js(name: Seq<char>, expr: CheckedExpr, is_preset: bool) -> Option<Seq<char>> {
    match static_of(expr.expr.value) {
        Some(v) => Some(constant_assignment(name, static_js(v), is_preset)),
        None => match expr_js(expr.expr.value) {
            Some(c) => if expr.bindings@.len() == 0 {
                Some(constant_assignment(name, c, is_preset))
            } else {
                Some(connected_assignment(name, string_views(expr.bindings@), c, is_preset))
            },
            None => None,
        },
    }
}

/// Writes the code that sets property `name` of the element `e` to `expr`.
pub fn generate_property_assignment(name: &str, expr: &CheckedExpr, is_preset: bool) -> (r: Option<String>)
    ensures
        opt_text(r) == property_js(name@, *expr, is_preset),
{
    let constant = match expr.expr.value.try_into_static() {
        Some(v) => Some(static_value_to_js(&v)),
        None => if expr.bindings.len() == 0 {
            match expr_to_js(&expr.expr.value) {
                Some(c) => Some(c),
                None => {
                    return None;
                },
            }
        } else {
            None
        },
    };
    match constant {
        Some(c) => {
            let mut s = if is_preset { concat("e.", name) } else { concat("e.props.", name) };
            if is_preset {
                s.append(".set(");
                s.append(c.as_str());
                s.append("); ");
            } else {
                s.append(" = ");
                s.append(c.as_str());
                s.append("; ");
            }
            Some(s)
        },
        None => {
            let rendered = match expr_to_js(&expr.expr.value) {
                Some(x) => x,
                None => {
                    return None;
                },
            };
            let ghost b = string_views(expr.bindings@);
            let mut required = String::new();
            let mut received = String::new();
            let mut i: usize = 0;
            while i < expr.bindings.len()
                invariant
                    i <= expr.bindings@.len(),
                    b == string_views(expr.bindings@),
                    required@ == required_bindings(b.take(i as int)),
                    received@ == comma_joined(b.take(i as int)),
                decreases expr.bindings@.len() - i,
            {
                required.append("this.bindings.");
                required.append(expr.bindings[i].as_str());
                required.append(",");
                if i > 0 {
                    received.append(",");
                }
                received.append(expr.bindings[i].as_str());
                proof {
                    assert(b.take(i + 1).drop_last() =~= b.take(i as int));
                    if i == 0 {
                        assert(received@ =~= b[0]);
                    }
                }
                i = i + 1;
            }
            assert(b.take(b.len() as int) =~= b);
            let received = if chars_of(received.as_str()).len() == 0 {
                "()".to_owned()
            } else {
                let mut x = concat("([", received.as_str());
                x.append("])");
                x
            };
            let mut s = if is_preset { concat("e.", name) } else { concat("e.bindings.", name) };
            s.append(".connect([");
            s.append(required.as_str());
            s.append("], ");
            s.append(received.as_str());
            s.append(" => ");
            s.append(rendered.as_str());
            s.append("); ");
            Some(s)
        },
    }
}


/// The code that sets the properties `entries[..k]` of an element.
pub open spec fn assignments_js(entries: Seq<(String, CheckedExpr)>, k: int, is_preset: bool) -> Option<Seq<char>>
    decreases k,
{
    if k <= 0 || k > entries.len() {
        Some(Seq::empty())
    } else {
        match (assignments_js(entries, k - 1, is_preset), property_js(entries[k - 1].0@, entries[k - 1].1, is_preset)) {
            (Some(a), Some(b)) => Some(a + b),
            _ => None,
        }
    }
}

/// Assignments written up to `k` are written up to any `j <= k`.
proof fn lemma_assignments_prefix(entries: Seq<(String, CheckedExpr)>, j: int, k: int, is_preset: bool)
    requires
        1 <= j <= k <= entries.len(),
        assignments_js(entries, k, is_preset) is Some,
    ensures
        assignments_js(entries, j, is_preset) is Some,
        property_js(entries[j - 1].0@, entries[j - 1].1, is_preset) is Some,
    decreases k - j,
{
    if j < k {
        lemma_assignments_prefix(entries, j, k - 1, is_preset);
    }
}

/// Writes the code that sets the properties `entries` of an element.
fn generate_assignments(entries: &Vec<(String, CheckedExpr)>, is_preset: bool) -> (r: Option<String>)
    ensures
        opt_text(r) == assignments_js(entries@, entries@.len() as int, is_preset),
{
    let mut out = String::new();
    let mut i: usize = 0;
    while i < entries.len()
        invariant
            i <= entries@.len(),
            assignments_js(entries@, i as int, is_preset) == Some(out@),
        decreases entries@.len() - i,
    {
        match generate_property_assignment(entries[i].0.as_str(), &entries[i].1, is_preset) {
            Some(x) => {
                out.append(x.as_str());
            },
            None => {
                proof {
                    if assignments_js(entries@, entries@.len() as int, is_preset) is Some {
                        lemma_assignments_prefix(entries@, i + 1, entries@.len() as int, is_preset);
                    }
                }
                return None;
            },
        }
        i = i + 1;
    }
    Some(out)
}

/// The code that builds the element `e` and its children; with `skip`, the
/// element's repeater is left out (it is being written inside it).
pub open spec fn element_js(e: Element, skip: bool) -> Option<Seq<char>>
    decreases e, 2int, (if skip { 0int } else { 1int }),
{
    if !skip && e.repeater is Some {
        let rep = e.repeater->0;
        let index = match rep.index { Some(i) => i@, None => "_$unused_index"@ };
        let item = match rep.item { Some(i) => i@, None => "_$unused_item"@ };
        match (type_js(rep.item_type), property_js("collection"@, rep.collection, false), element_js(e, true)) {
            (Some(t), Some(c), Some(inner)) => Some("(() => {\n\t\t\t\tlet e = dom.Repeater<"@ + t + ", Dom."@ + rep.root_type@
                + ">\n\t\t\t\t("@ + t + ", ("@ + index + ", "@ + item + ") => {\n\t\t\t\t\treturn ["@ + inner
                + "];\n\t\t\t\t});\n\t\t\t\t"@ + c + "\n\t\t\t\treturn e;\n\t\t\t})()"@),
            _ => None,
        }
    } else if e.tag.path@.len() == 0 {
        None
    } else {
        match (
            assignments_js(e.props.entries@, e.props.entries@.len() as int, false),
            assignments_js(e.presets.entries@, e.presets.entries@.len() as int, true),
            children_js(e, e.children@.len() as int),
        ) {
            (Some(p), Some(q), Some(c)) => Some("(() => {\n\t\t\tlet e = dom."@ + e.tag.path@[0]@ + "();\n\t\t\t"@ + p + q + c
                + "\n\t\t\treturn e;\n\t\t})()"@),
            _ => None,
        }
    }
}

/// The code that appends the first `k` children of `e`; a placeholder for
/// children passed in is not written as code.
pub open spec fn children_js(e: Element, k: int) -> Option<Seq<char>>
    decreases e, 1int, k,
{
    if k <= 0 || k > e.children@.len() {
        Some(Seq::empty())
    } else {
        match children_js(e, k - 1) {
            Some(a) => match e.children@[k - 1] {
                Content::Element(c) => match element_js(c, false) {
                    Some(b) => Some(a + "e.children.append("@ + b + ");"@),
                    None => None,
                },
                Content::Children(_) => None,
            },
            None => None,
        }
    }
}

/// Children written up to `k` are written up to any `j <= k`.
proof fn lemma_children_prefix(e: Element, j: int, k: int)
    requires
        1 <= j <= k <= e.children@.len(),
        children_js(e, k) is Some,
    ensures
        children_js(e, j) is Some,
        e.children@[j - 1] is Element,
        element_js(e.children@[j - 1]->Element_0, false) is Some,
    decreases k - j,
{
    if j < k {
        lemma_children_prefix(e, j, k - 1);
    }
}

/// Writes the code that builds an element and its children.
pub fn generate_element(element: &Element) -> (r: Option<String>)
    ensures
        opt_text(r) == element_js(*element, false),
{
    generate_element_impl(element, false)
}

/// Writes the code that builds an element and its children; with
/// `skip_repeater`, the element's repeater is left out.
pub fn generate_element_impl(element: &Element, skip_repeater: bool) -> (r: Option<String>)
    ensures
        opt_text(r) == element_js(*element, skip_repeater),
    decreases *element, (if skip_repeater { 0int } else { 1int }),
{
    if !skip_repeater && element.repeater.is_some() {
        let repeater = match &element.repeater {
            Some(r) => r,
            None => {
                return None;
            },
        };
        let item_type = match type_to_js(&repeater.item_type) {
            Some(t) => t,
            None => {
                return None;
            },
        };
        let index = match &repeater.index {
            Some(i) => i.clone(),
            None => "_$unused_index".to_owned(),
        };
        let item = match &repeater.item {
            Some(i) => i.clone(),
            None => "_$unused_item".to_owned(),
        };
        let collection = match generate_property_assignment("collection", &repeater.collection, false) {
            Some(c) => c,
            None => {
                return None;
            },
        };
        let inner = match generate_element_impl(element, true) {
            Some(x) => x,
            None => {
                return None;
            },
        };
        let mut s = concat("(() => {\n\t\t\t\tlet e = dom.Repeater<", item_type.as_str());
        s.append(", Dom.");
        s.append(repeater.root_type.as_str());
        s.append(">\n\t\t\t\t(");
        s.append(item_type.as_str());
        s.append(", (");
        s.append(index.as_str());
        s.append(", ");
        s.append(item.as_str());
        s.append(") => {\n\t\t\t\t\treturn [");
        s.append(inner.as_str());
        s.append("];\n\t\t\t\t});\n\t\t\t\t");
        s.append(collection.as_str());
        s.append("\n\t\t\t\treturn e;\n\t\t\t})()");
        return Some(s);
    }
    if element.tag.path.len() == 0 {
        return None;
    }
    let props = match generate_assignments(&element.props.entries, false) {
        Some(p) => p,
        None => {
            return None;
        },
    };
    let presets = match generate_assignments(&element.presets.entries, true) {
        Some(p) => p,
        None => {
            return None;
        },
    };
    let mut children = String::new();
    let mut i: usize = 0;
    while i < element.children.len()
        invariant
            i <= element.children@.len(),
            children_js(*element, i as int) == Some(children@),
            !(!skip_repeater && element.repeater is Some),
            element.tag.path@.len() > 0,
            assignments_js(element.props.entries@, element.props.entries@.len() as int, false) == Some(props@),
            assignments_js(element.presets.entries@, element.presets.entries@.len() as int, true) == Some(presets@),
        decreases element.children@.len() - i,
    {
        match &element.children[i] {
            Content::Element(c) => {
                proof {
                    assert(decreases_to!(*element => element.children));
                    assert(decreases_to!(element.children => element.children@[i as int]));
                    assert(decreases_to!(element.children@[i as int] => (element.children@[i as int])->Element_0));
                }
                match generate_element_impl(c, false) {
                    Some(x) => {
                        children.append("e.children.append(");
                        children.append(x.as_str());
                        children.append(");");
                    },
                    None => {
                        proof {
                            if children_js(*element, element.children@.len() as int) is Some {
                                lemma_children_prefix(*element, i + 1, element.children@.len() as int);
                            }
                        }
                        return None;
                    },
                }
            },
            Content::Children(_) => {
                proof {
                    if children_js(*element, element.children@.len() as int) is Some {
                        lemma_children_prefix(*element, i + 1, element.children@.len() as int);
                    }
                }
                return None;
            },
        }
        i = i + 1;
    }
    let mut s = concat("(() => {\n\t\t\tlet e = dom.", element.tag.path[0].as_str());
    s.append("();\n\t\t\t");
    s.append(props.as_str());
    s.append(presets.as_str());
    s.append(children.as_str());
    s.append("\n\t\t\treturn e;\n\t\t})()");
    Some(s)
}


/// The model declarations of the first `k` properties `props` of a
/// component: each `name: new Dom.Binding(Type),`.
pub open spec fn model_props_js(props: Seq<crate::ast::PropDecl>, k: int) -> Option<Seq<char>>
    decreases k,
{
    if k <= 0 || k > props.len() {
        Some(Seq::empty())
    } else {
        match (model_props_js(props, k - 1), type_js(props[k - 1].prop_type)) {
            (Some(a), Some(t)) => Some(a + props[k - 1].name@ + ": new Dom.Binding("@ + t + "),"@),
            _ => None,
        }
    }
}

/// Model declarations written up to `k` are written up to any `j <= k`.
proof fn lemma_model_prefix(props: Seq<crate::ast::PropDecl>, j: int, k: int)
    requires
        1 <= j <= k <= props.len(),
        model_props_js(props, k) is Some,
    ensures
        model_props_js(props, j) is Some,
        type_js(props[j - 1].prop_type) is Some,
    decreases k - j,
{
    if j < k {
        lemma_model_prefix(props, j, k - 1);
    }
}

/// The methods every generated component class has.
pub open spec fn component_methods() -> Seq<char> {
    "get props() { return this.#model.props; } get bindings() { return this.#model.bindings; } getRoots() { return [this.root]; } get children() { return this.root.children } inject(deps: { [key: string]: any }) { this.root.inject(deps); }"@
}

/// The TypeScript module of a checked component: a class named after the
/// component, with a model of its properties, its root element, and the
/// runtime's component methods.
pub open spec fn module_js(c: Component) -> Option<Seq<char>> {
    if c.root.tag.path@.len() == 0 {
        None
    } else {
        let root_class = c.root.tag.path@[0]@;
        match (model_props_js(c.props@, c.props@.len() as int), element_js(c.root, false)) {
            (Some(m), Some(root)) => {
                let model = "#model = new Dom.Model({"@ + m + "});"@;
                let root_decl = "readonly root: Dom."@ + root_class + ";"@;
                let events = "readonly events: Dom."@ + root_class + "['events'];"@;
                let constructor = "constructor(dom: Dom.Dom) {"@ + "super(); this.root = "@ + root
                    + "; this.events = this.root.events; "@ + "}"@;
                let class_body = model + " "@ + root_decl + " "@ + events + " "@ + constructor + " "@ + component_methods();
                Some("import * as Dom from '../dom';\n"@ + "export default class "@ + c.name@ + " extends Dom.Component<Dom."@
                    + root_class + "> {"@ + class_body + "}\n"@)
            },
            _ => None,
        }
    }
}

/// Writes the TypeScript module of a checked component; `None` where part
/// of the component has no code (a property type or an expression the
/// runtime cannot take).
pub fn generate(component: &Component) -> (r: Option<String>)
    ensures
        opt_text(r) == module_js(*component),
{
    if component.root.tag.path.len() == 0 {
        return None;
    }
    let mut model_props = String::new();
    let mut i: usize = 0;
    while i < component.props.len()
        invariant
            i <= component.props@.len(),
            model_props_js(component.props@, i as int) == Some(model_props@),
        decreases component.props@.len() - i,
    {
        let t = match type_to_js(&component.props[i].prop_type) {
            Some(t) => t,
            None => {
                proof {
                    if model_props_js(component.props@, component.props@.len() as int) is Some {
                        lemma_model_prefix(component.props@, i + 1, component.props@.len() as int);
                    }
                }
                return None;
            },
        };
        model_props.append(component.props[i].name.as_str());
        model_props.append(": new Dom.Binding(");
        model_props.append(t.as_str());
        model_props.append("),");
        i = i + 1;
    }
    let root = match generate_element(&component.root) {
        Some(x) => x,
        None => {
            return None;
        },
    };
    let root_class = component.root.tag.path[0].as_str();
    let mut model = concat("#model = new Dom.Model({", model_props.as_str());
    model.append("});");
    let mut root_decl = concat("readonly root: Dom.", root_class);
    root_decl.append(";");
    let mut events = concat("readonly events: Dom.", root_class);
    events.append("['events'];");
    let mut constructor = "constructor(dom: Dom.Dom) {".to_owned();
    constructor.append("super(); this.root = ");
    constructor.append(root.as_str());
    constructor.append("; this.events = this.root.events; ");
    constructor.append("}");
    let mut class_body = model;
    class_body.append(" ");
    class_body.append(root_decl.as_str());
    class_body.append(" ");
    class_body.append(events.as_str());
    class_body.append(" ");
    class_body.append(constructor.as_str());
    class_body.append(" ");
    class_body.append("get props() { return this.#model.props; } get bindings() { return this.#model.bindings; } getRoots() { return [this.root]; } get children() { return this.root.children } inject(deps: { [key: string]: any }) { this.root.inject(deps); }");
    let mut out = "import * as Dom from '../dom';\n".to_owned();
    out.append("export default class ");
    out.append(component.name.as_str());
    out.append(" extends Dom.Component<Dom.");
    out.append(root_class);
    out.append("> {");
    out.append(class_body.as_str());
    out.append("}\n");
    Some(out)
}

/// `convert_case`'s kebab case of a text (`MyFile` becomes `my-file`).
pub uninterp spec fn kebab_case(s: Seq<char>) -> Seq<char>;

/// Converts a text to kebab case.
///
/// Trusted: `convert_case`'s `to_case(Case::Kebab)` is a function of the
/// text alone; its result is named `kebab_case`.
#[verifier::external_body]
fn to_kebab_case(s: &str) -> (r: String)
    ensures
        r@ == kebab_case(s@),
{
    s.to_case(Case::Kebab)
}

/// The name of the file a component's module is written to: the
/// component's name in kebab case, with the `.ts` extension.
pub fn module_file_name(component_name: &str) -> (r: String)
    ensures
        r@ == kebab_case(component_name@) + ".ts"@,
{
    let mut name = to_kebab_case(component_name);
    name.append(".ts");
    name
}

} // verus!
