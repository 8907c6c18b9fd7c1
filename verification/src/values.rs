//! Leaf CSS values and their parsers: lengths, percentages, colors and
//! URLs, plus the runtime value tree that generated parsers produce.
//!
//! Numeric payloads are carried as raw decimal text; interpreting them as
//! machine floats is left to callers outside the core.

use vstd::prelude::*;

use crate::grammar::{digit_run, digits_val, is_digit_byte};
use crate::text::{copy_bytes, is_upper, spec_lower};
use crate::tokens::{CssToken, TokenCursor};

verus! {

/// A color as three channel bytes.
#[derive(Debug, Clone, Copy, PartialEq, Eq, Structural)]
pub struct Color(pub u8, pub u8, pub u8);

/// A CSS length unit.
#[derive(Debug, Clone, Copy, PartialEq, Eq, Structural)]
pub enum LengthUnit {
    Em,
    Ex,
    In,
    Cm,
    Mm,
    Pt,
    Pc,
    Px,
}

/// A length: the raw number text and its unit.
#[derive(Debug, PartialEq, Eq)]
pub struct Length {
    pub value: Vec<u8>,
    pub unit: LengthUnit,
}

/// A percentage: the raw number text before the `%`.
#[derive(Debug, PartialEq, Eq)]
pub struct Percentage {
    pub value: Vec<u8>,
}

/// A URL, normalized by the URL parser.
#[derive(Debug, PartialEq, Eq)]
pub struct Uri {
    pub url: Vec<u8>,
}

/// A runtime CSS value: the result of running a generated parser.
#[derive(Debug, PartialEq, Eq)]
pub enum CssValue {
    /// A matched keyword, by its token text.
    Keyword(Vec<u8>),
    Length(Length),
    Percentage(Percentage),
    Color(Color),
    Uri(Uri),
    /// An instance of a generated struct: the field values in declared
    /// order, named by the struct's IR item.
    StructVal { name: Vec<u8>, fields: Vec<CssValue> },
    /// An instance of a generated enum: the matched variant by index, with
    /// its payload if the variant carries one.
    EnumVal { name: Vec<u8>, variant: usize, payload: Option<Box<CssValue>> },
    /// The elements collected by a repetition.
    List(Vec<CssValue>),
    /// An optional value: present or absent.
    Maybe(Option<Box<CssValue>>),
}

/// The mathematical value of a runtime CSS value.
pub enum ValV {
    Keyword(Seq<u8>),
    Length { value: Seq<u8>, unit: LengthUnit },
    Percentage(Seq<u8>),
    Color(Color),
    Uri(Seq<u8>),
    StructVal { name: Seq<u8>, fields: Seq<ValV> },
    EnumVal { name: Seq<u8>, variant: nat, payload: Option<Box<ValV>> },
    List(Seq<ValV>),
    Maybe(Option<Box<ValV>>),
}

/// The mathematical value of a runtime CSS value.
pub open spec fn val_view(v: CssValue) -> ValV
    decreases v, 0int,
{
    match v {
        CssValue::Keyword(s) => ValV::Keyword(s@),
        CssValue::Length(l) => ValV::Length { value: l.value@, unit: l.unit },
        CssValue::Percentage(p) => ValV::Percentage(p.value@),
        CssValue::Color(c) => ValV::Color(c),
        CssValue::Uri(u) => ValV::Uri(u.url@),
        CssValue::StructVal { name, fields } => ValV::StructVal {
            name: name@,
            fields: val_view_list(fields@, 0),
        },
        CssValue::EnumVal { name, variant, payload } => ValV::EnumVal {
            name: name@,
            variant: variant as nat,
            payload: match payload {
                Some(b) => Some(Box::new(val_view(*b))),
                None => None,
            },
        },
        CssValue::List(es) => ValV::List(val_view_list(es@, 0)),
        CssValue::Maybe(o) => ValV::Maybe(
            match o {
                Some(b) => Some(Box::new(val_view(*b))),
                None => None,
            },
        ),
    }
}

/// The mathematical values of a list of runtime values, from index `i` on.
pub open spec fn val_view_list(s: Seq<CssValue>, i: nat) -> Seq<ValV>
    decreases s, s.len() - i,
{
    if i >= s.len() {
        Seq::<ValV>::empty()
    } else {
        seq![val_view(s[i as int])] + val_view_list(s, i + 1)
    }
}

/// The view list is the element-wise view.
pub proof fn lemma_val_view_list(s: Seq<CssValue>, i: nat)
    ensures
        val_view_list(s, i).len() == if i <= s.len() {
            s.len() - i
        } else {
            0
        },
        forall|k: int|
            0 <= k < val_view_list(s, i).len() ==> val_view_list(s, i)[k] == val_view(s[i + k]),
    decreases s.len() - i,
{
    if i < s.len() {
        lemma_val_view_list(s, i + 1);
    }
}

/// The unit named by the (case-insensitive) unit text of a dimension.
pub open spec fn spec_unit_of(u: Seq<u8>) -> Option<LengthUnit> {
    if u.len() != 2 {
        None
    } else {
        let a = spec_lower(u[0]);
        let b = spec_lower(u[1]);
        if a == 101 && b == 109 {
            Some(LengthUnit::Em)
        } else if a == 101 && b == 120 {
            Some(LengthUnit::Ex)
        } else if a == 105 && b == 110 {
            Some(LengthUnit::In)
        } else if a == 99 && b == 109 {
            Some(LengthUnit::Cm)
        } else if a == 109 && b == 109 {
            Some(LengthUnit::Mm)
        } else if a == 112 && b == 116 {
            Some(LengthUnit::Pt)
        } else if a == 112 && b == 99 {
            Some(LengthUnit::Pc)
        } else if a == 112 && b == 120 {
            Some(LengthUnit::Px)
        } else {
            None
        }
    }
}

/// The unit named by the unit text of a dimension.
pub fn unit_of(u: &Vec<u8>) -> (r: Option<LengthUnit>)
    ensures
        r == spec_unit_of(u@),
{
    if u.len() != 2 {
        return None;
    }
    let a = if 65 <= u[0] && u[0] <= 90 {
        u[0] + 32
    } else {
        u[0]
    };
    let b = if 65 <= u[1] && u[1] <= 90 {
        u[1] + 32
    } else {
        u[1]
    };
    proof {
        assert(is_upper(u@[0]) ==> a == spec_lower(u@[0]));
        assert(is_upper(u@[1]) ==> b == spec_lower(u@[1]));
    }
    if a == 101 && b == 109 {
        Some(LengthUnit::Em)
    } else if a == 101 && b == 120 {
        Some(LengthUnit::Ex)
    } else if a == 105 && b == 110 {
        Some(LengthUnit::In)
    } else if a == 99 && b == 109 {
        Some(LengthUnit::Cm)
    } else if a == 109 && b == 109 {
        Some(LengthUnit::Mm)
    } else if a == 112 && b == 116 {
        Some(LengthUnit::Pt)
    } else if a == 112 && b == 99 {
        Some(LengthUnit::Pc)
    } else if a == 112 && b == 120 {
        Some(LengthUnit::Px)
    } else {
        None
    }
}

/// The value of a hexadecimal digit.
pub open spec fn spec_hex_val(c: u8) -> Option<u8> {
    if 48 <= c <= 57 {
        Some((c - 48) as u8)
    } else if 97 <= c <= 102 {
        Some((c - 97 + 10) as u8)
    } else if 65 <= c <= 70 {
        Some((c - 65 + 10) as u8)
    } else {
        None
    }
}

/// The channel value of two hexadecimal digits.
pub open spec fn spec_hex_pair(a: u8, b: u8) -> Option<u8> {
    match (spec_hex_val(a), spec_hex_val(b)) {
        (Some(x), Some(y)) => Some((x * 16 + y) as u8),
        _ => None,
    }
}

/// The color denoted by a `#` hash of 3, 4, 6 or 8 hexadecimal digits;
/// the alpha digits of the longer forms are checked and dropped.
pub open spec fn spec_hash_color(s: Seq<u8>) -> Option<Color> {
    if s.len() == 8 || s.len() == 6 {
        match (spec_hex_pair(s[0], s[1]), spec_hex_pair(s[2], s[3]), spec_hex_pair(s[4], s[5])) {
            (Some(r), Some(g), Some(b)) => if s.len() == 8 && spec_hex_pair(s[6], s[7]).is_none() {
                None
            } else {
                Some(Color(r, g, b))
            },
            _ => None,
        }
    } else if s.len() == 4 || s.len() == 3 {
        match (spec_hex_val(s[0]), spec_hex_val(s[1]), spec_hex_val(s[2])) {
            (Some(r), Some(g), Some(b)) => if s.len() == 4 && spec_hex_val(s[3]).is_none() {
                None
            } else {
                Some(Color((r * 17) as u8, (g * 17) as u8, (b * 17) as u8))
            },
            _ => None,
        }
    } else {
        None
    }
}

/// The value of a hexadecimal digit.
fn hex_val(c: u8) -> (r: Option<u8>)
    ensures
        r == spec_hex_val(c),
{
    if 48 <= c && c <= 57 {
        Some(c - 48)
    } else if 97 <= c && c <= 102 {
        Some(c - 97 + 10)
    } else if 65 <= c && c <= 70 {
        Some(c - 65 + 10)
    } else {
        None
    }
}

/// The channel value of two hexadecimal digits.
fn hex_pair(a: u8, b: u8) -> (r: Option<u8>)
    ensures
        r == spec_hex_pair(a, b),
{
    match (hex_val(a), hex_val(b)) {
        (Some(x), Some(y)) => Some(x * 16 + y),
        _ => None,
    }
}

/// The color denoted by a `#` hash.
pub fn hash_color(s: &Vec<u8>) -> (r: Option<Color>)
    ensures
        r == spec_hash_color(s@),
{
    if s.len() == 8 || s.len() == 6 {
        match (hex_pair(s[0], s[1]), hex_pair(s[2], s[3]), hex_pair(s[4], s[5])) {
            (Some(r), Some(g), Some(b)) => {
                if s.len() == 8 {
                    match hex_pair(s[6], s[7]) {
                        Some(_) => Some(Color(r, g, b)),
                        None => None,
                    }
                } else {
                    Some(Color(r, g, b))
                }
            },
            _ => None,
        }
    } else if s.len() == 4 || s.len() == 3 {
        match (hex_val(s[0]), hex_val(s[1]), hex_val(s[2])) {
            (Some(r), Some(g), Some(b)) => {
                if s.len() == 4 {
                    match hex_val(s[3]) {
                        Some(_) => Some(Color(r * 17, g * 17, b * 17)),
                        None => None,
                    }
                } else {
                    Some(Color(r * 17, g * 17, b * 17))
                }
            },
            _ => None,
        }
    } else {
        None
    }
}

/// The color of a named-color identifier.  Opaque to the verifier: defined
/// as what the named-color table of the CSS parser library returns.
pub uninterp spec fn named_color_of(s: Seq<u8>) -> Option<(u8, u8, u8)>;

/// Relies on cssparser::color::parse_named_color: the looked-up color
/// depends on the identifier text alone.
#[verifier::external_body]
fn named_color(ident: &Vec<u8>) -> (r: Option<Color>)
    ensures
        match r {
            Some(c) => named_color_of(ident@) == Some((c.0, c.1, c.2)),
            None => named_color_of(ident@) == None::<(u8, u8, u8)>,
        },
{
    match core::str::from_utf8(ident.as_slice()) {
        Ok(s) => cssparser::color::parse_named_color(s).ok().map(|(r, g, b)| Color(r, g, b)),
        Err(_) => None,
    }
}

/// The normalized serialization of a URL text, `None` if the text is no
/// valid URL.  Opaque to the verifier: defined as what the URL parser
/// library returns.
pub uninterp spec fn url_parse(s: Seq<u8>) -> Option<Seq<u8>>;

/// Relies on url::Url::parse: parsing and normalization depend on the URL
/// text alone.
#[verifier::external_body]
fn parse_url_bytes(s: &Vec<u8>) -> (r: Option<Vec<u8>>)
    ensures
        match r {
            Some(n) => url_parse(s@) == Some(n@),
            None => url_parse(s@) == None::<Seq<u8>>,
        },
{
    match core::str::from_utf8(s.as_slice()) {
        Ok(t) => url::Url::parse(t).ok().map(|u| u.as_str().as_bytes().to_vec()),
        Err(_) => None,
    }
}

/// The integer part of a raw decimal text, saturated to a channel byte:
/// the value of the leading digit run, or 255 if it exceeds 255.
pub open spec fn spec_channel_of(s: Seq<u8>) -> u8 {
    let v = digits_val(s.take(digit_run(s) as int));
    if v > 255 {
        255
    } else {
        v as u8
    }
}

/// The integer part of a raw decimal text, saturated to a channel byte.
#[verifier::loop_isolation(false)]
pub fn channel_of(s: &Vec<u8>) -> (r: u8)
    ensures
        r == spec_channel_of(s@),
{
    let mut val: u16 = 0;
    let mut j: usize = 0;
    let mut big: bool = false;
    while j < s.len() && 48 <= s[j] && s[j] <= 57
        invariant
            j <= s@.len(),
            forall|x: int| 0 <= x < j ==> is_digit_byte(#[trigger] s@[x]),
            !big ==> val as nat == digits_val(s@.subrange(0, j as int)) && val <= 255,
            big ==> digits_val(s@.subrange(0, j as int)) > 255,
        decreases s@.len() - j,
    {
        let d = s[j];
        proof {
            assert(s@.subrange(0, j + 1).drop_last() =~= s@.subrange(0, j as int));
            assert(s@.subrange(0, j + 1).last() == s@[j as int]);
        }
        if !big {
            if val > 25 || (val == 25 && d > 53) {
                big = true;
                proof {
                    assert(digits_val(s@.subrange(0, j + 1)) == (val as nat) * 10 + (d - 48));
                }
            } else {
                val = val * 10 + (d - 48) as u16;
            }
        } else {
            proof {
                let pre = s@.subrange(0, j as int);
                assert(digits_val(s@.subrange(0, j + 1)) == digits_val(pre) * 10 + (s@[j as int]
                    - 48));
            }
        }
        j = j + 1;
    }
    proof {
        assert forall|x: int| 0 <= x < j - 0 implies is_digit_byte(#[trigger] s@[x]) by {}
        crate::grammar::lemma_digit_run(s@, j as nat);
        assert(s@.take(j as int) =~= s@.subrange(0, j as int));
    }
    if big {
        255
    } else if val > 255 {
        255
    } else {
        val as u8
    }
}

/// The channel byte of a percentage argument: the integer part of the
/// percent text, scaled by 255/100 with truncation and saturated to a
/// channel byte.
pub open spec fn spec_pct_channel_of(s: Seq<u8>) -> u8 {
    let v = digits_val(s.take(digit_run(s) as int));
    if v * 255 / 100 > 255 {
        255
    } else {
        (v * 255 / 100) as u8
    }
}

/// The channel byte of a percentage argument.
#[verifier::loop_isolation(false)]
pub fn pct_channel_of(s: &Vec<u8>) -> (r: u8)
    ensures
        r == spec_pct_channel_of(s@),
{
    let mut val: u16 = 0;
    let mut j: usize = 0;
    let mut big: bool = false;
    while j < s.len() && 48 <= s[j] && s[j] <= 57
        invariant
            j <= s@.len(),
            forall|x: int| 0 <= x < j ==> is_digit_byte(#[trigger] s@[x]),
            !big ==> val as nat == digits_val(s@.subrange(0, j as int)) && val <= 1000,
            big ==> digits_val(s@.subrange(0, j as int)) > 1000,
        decreases s@.len() - j,
    {
        let d = s[j];
        proof {
            assert(s@.subrange(0, j + 1).drop_last() =~= s@.subrange(0, j as int));
            assert(s@.subrange(0, j + 1).last() == s@[j as int]);
        }
        if !big {
            if val > 100 || (val == 100 && d > 48) {
                big = true;
                proof {
                    assert(digits_val(s@.subrange(0, j + 1)) == (val as nat) * 10 + (d - 48));
                }
            } else {
                val = val * 10 + (d - 48) as u16;
            }
        } else {
            proof {
                let pre = s@.subrange(0, j as int);
                assert(digits_val(s@.subrange(0, j + 1)) == digits_val(pre) * 10 + (s@[j as int]
                    - 48));
            }
        }
        j = j + 1;
    }
    proof {
        assert forall|x: int| 0 <= x < j - 0 implies is_digit_byte(#[trigger] s@[x]) by {}
        crate::grammar::lemma_digit_run(s@, j as nat);
        assert(s@.take(j as int) =~= s@.subrange(0, j as int));
    }
    if big {
        proof {
            let w = digits_val(s@.take(digit_run(s@) as int));
            assert(w > 1000);
            assert(w * 255 / 100 >= 1000 * 255 / 100) by (nonlinear_arith)
                requires
                    w > 1000nat;
        }
        255
    } else {
        let scaled: u32 = (val as u32) * 255 / 100;
        if scaled > 255 {
            255
        } else {
            scaled as u8
        }
    }
}

/// The sentinel failure of a runtime parse attempt: the input did not
/// match at the current position.  Always recoverable by the caller.
#[derive(Debug, Clone, Copy, PartialEq, Eq, Structural)]
pub struct NoMatch;

/// Parse a `<length>` leaf: a dimension token with a known unit.
pub fn parse_length(cur: &mut TokenCursor) -> (r: Result<Length, NoMatch>)
    requires
        old(cur).wf(),
    ensures
        final(cur).wf(),
        final(cur).toks() == old(cur).toks(),
        match r {
            Ok(l) => {
                &&& old(cur).at() < old(cur).toks().len()
                &&& match old(cur).toks()[old(cur).at() as int] {
                    CssToken::Dimension { value, unit } => l.value@ == value@ && Some(l.unit)
                        == spec_unit_of(unit@),
                    _ => false,
                }
                &&& final(cur).at() == old(cur).at() + 1
            },
            Err(_) => {
                &&& final(cur).at() == old(cur).at()
                &&& (old(cur).at() < old(cur).toks().len() ==> match old(cur).toks()[old(
                    cur,
                ).at() as int] {
                    CssToken::Dimension { unit, .. } => spec_unit_of(unit@) == None::<LengthUnit>,
                    _ => true,
                })
            },
        },
{
    let l = match cur.peek() {
        Some(CssToken::Dimension { value, unit }) => {
            match unit_of(unit) {
                Some(u) => Some(Length { value: copy_bytes(value), unit: u }),
                None => None,
            }
        },
        _ => None,
    };
    match l {
        Some(l) => {
            cur.advance();
            Ok(l)
        },
        None => Err(NoMatch),
    }
}

/// Parse a `<percentage>` leaf: a percentage token.
pub fn parse_percentage(cur: &mut TokenCursor) -> (r: Result<Percentage, NoMatch>)
    requires
        old(cur).wf(),
    ensures
        final(cur).wf(),
        final(cur).toks() == old(cur).toks(),
        match r {
            Ok(p) => {
                &&& old(cur).at() < old(cur).toks().len()
                &&& match old(cur).toks()[old(cur).at() as int] {
                    CssToken::Percentage(value) => p.value@ == value@,
                    _ => false,
                }
                &&& final(cur).at() == old(cur).at() + 1
            },
            Err(_) => {
                &&& final(cur).at() == old(cur).at()
                &&& (old(cur).at() < old(cur).toks().len() ==> !(old(cur).toks()[old(
                    cur,
                ).at() as int] is Percentage))
            },
        },
{
    let p = match cur.peek() {
        Some(CssToken::Percentage(value)) => Some(Percentage { value: copy_bytes(value) }),
        _ => None,
    };
    match p {
        Some(p) => {
            cur.advance();
            Ok(p)
        },
        None => Err(NoMatch),
    }
}

/// Parse a `<uri>` leaf: a URL token whose text the URL parser accepts.
pub fn parse_uri(cur: &mut TokenCursor) -> (r: Result<Uri, NoMatch>)
    requires
        old(cur).wf(),
    ensures
        final(cur).wf(),
        final(cur).toks() == old(cur).toks(),
        match r {
            Ok(u) => {
                &&& old(cur).at() < old(cur).toks().len()
                &&& match old(cur).toks()[old(cur).at() as int] {
                    CssToken::Url(s) => url_parse(s@) == Some(u.url@),
                    _ => false,
                }
                &&& final(cur).at() == old(cur).at() + 1
            },
            Err(_) => {
                &&& final(cur).at() == old(cur).at()
                &&& (old(cur).at() < old(cur).toks().len() ==> match old(cur).toks()[old(
                    cur,
                ).at() as int] {
                    CssToken::Url(s) => url_parse(s@) == None::<Seq<u8>>,
                    _ => true,
                })
            },
        },
{
    let u = match cur.peek() {
        Some(CssToken::Url(s)) => {
            match parse_url_bytes(s) {
                Some(n) => Some(Uri { url: n }),
                None => None,
            }
        },
        _ => None,
    };
    match u {
        Some(u) => {
            cur.advance();
            Ok(u)
        },
        None => Err(NoMatch),
    }
}

/// The function name that introduces an `rgb(...)` color.
pub open spec fn rgb_name() -> Seq<u8> {
    seq![114u8, 103u8, 98u8]
}

/// Where a color stands at position `i` of a token stream, the color and
/// the position after it: a named color identifier, a hash, or an
/// `rgb(a, b, c)` call with plain number arguments.
pub open spec fn spec_color_at(toks: Seq<CssToken>, i: nat) -> Option<(Color, nat)> {
    if i >= toks.len() {
        None
    } else {
        match toks[i as int] {
            CssToken::Ident(s) => match named_color_of(s@) {
                Some(rgb) => Some((Color(rgb.0, rgb.1, rgb.2), (i + 1) as nat)),
                None => None,
            },
            CssToken::Hash(h) => match spec_hash_color(h@) {
                Some(c) => Some((c, (i + 1) as nat)),
                None => None,
            },
            CssToken::FunctionStart(f) => if f@ == rgb_name() && i + 7 <= toks.len() {
                match (
                    toks[i as int + 1],
                    toks[i as int + 2],
                    toks[i as int + 3],
                    toks[i as int + 4],
                    toks[i as int + 5],
                    toks[i as int + 6],
                ) {
                    (
                        CssToken::Number(a),
                        CssToken::Comma,
                        CssToken::Number(b),
                        CssToken::Comma,
                        CssToken::Number(c),
                        CssToken::CloseParen,
                    ) => Some(
                        (
                            Color(spec_channel_of(a@), spec_channel_of(b@), spec_channel_of(c@)),
                            (i + 7) as nat,
                        ),
                    ),
                    (
                        CssToken::Percentage(a),
                        CssToken::Comma,
                        CssToken::Percentage(b),
                        CssToken::Comma,
                        CssToken::Percentage(c),
                        CssToken::CloseParen,
                    ) => Some(
                        (
                            Color(
                                spec_pct_channel_of(a@),
                                spec_pct_channel_of(b@),
                                spec_pct_channel_of(c@),
                            ),
                            (i + 7) as nat,
                        ),
                    ),
                    _ => None,
                }
            } else {
                None
            },
            _ => None,
        }
    }
}

impl Color {
    /// Parse a `<color>` leaf: a named color, a `#` hash color, or an
    /// `rgb(a, b, c)` call whose arguments are all numbers or all
    /// percentages, saturated to channel bytes.
    pub fn parse(cur: &mut TokenCursor) -> (r: Result<Color, NoMatch>)
        requires
            old(cur).wf(),
        ensures
            final(cur).wf(),
            final(cur).toks() == old(cur).toks(),
            match r {
                Ok(c) => spec_color_at(old(cur).toks(), old(cur).at()) == Some(
                    (c, final(cur).at()),
                ),
                Err(_) => spec_color_at(old(cur).toks(), old(cur).at()) == None::<(Color, nat)>
                    && final(cur).at() == old(cur).at(),
            },
    {
        let c: Option<Color> = match cur.peek() {
            Some(CssToken::Ident(s)) => named_color(s),
            Some(CssToken::Hash(h)) => hash_color(h),
            _ => None,
        };
        if let Some(c) = c {
            cur.advance();
            return Ok(c);
        }
        let is_rgb = match cur.peek() {
            Some(CssToken::FunctionStart(f)) => f.len() == 3 && f[0] == 114 && f[1] == 103 && f[2]
                == 98,
            _ => false,
        };
        proof {
            if old(cur).at() < old(cur).toks().len() {
                match old(cur).toks()[old(cur).at() as int] {
                    CssToken::FunctionStart(f) => {
                        if is_rgb {
                            assert(f@ =~= rgb_name());
                        } else {
                            assert(f@ != rgb_name());
                        }
                    },
                    _ => {},
                }
            }
        }
        if !is_rgb {
            return Err(NoMatch);
        }
        let percents = matches!(cur.peek_at(1), Some(CssToken::Percentage(_)));
        let a = match cur.peek_at(1) {
            Some(CssToken::Number(a)) => Some(channel_of(a)),
            Some(CssToken::Percentage(a)) => Some(pct_channel_of(a)),
            _ => None,
        };
        let comma1 = matches!(cur.peek_at(2), Some(CssToken::Comma));
        let b = if percents {
            match cur.peek_at(3) {
                Some(CssToken::Percentage(b)) => Some(pct_channel_of(b)),
                _ => None,
            }
        } else {
            match cur.peek_at(3) {
                Some(CssToken::Number(b)) => Some(channel_of(b)),
                _ => None,
            }
        };
        let comma2 = matches!(cur.peek_at(4), Some(CssToken::Comma));
        let g = if percents {
            match cur.peek_at(5) {
                Some(CssToken::Percentage(c)) => Some(pct_channel_of(c)),
                _ => None,
            }
        } else {
            match cur.peek_at(5) {
                Some(CssToken::Number(c)) => Some(channel_of(c)),
                _ => None,
            }
        };
        let closed = matches!(cur.peek_at(6), Some(CssToken::CloseParen));
        match (a, b, g) {
            (Some(a), Some(b), Some(g)) => {
                if comma1 && comma2 && closed {
                    cur.advance_by(7);
                    Ok(Color(a, b, g))
                } else {
                    Err(NoMatch)
                }
            },
            _ => Err(NoMatch),
        }
    }
}

/// Copy a runtime value.
#[verifier::loop_isolation(false)]
pub fn clone_value(v: &CssValue) -> (r: CssValue)
    ensures
        val_view(r) == val_view(*v),
    decreases *v,
{
    match v {
        CssValue::Keyword(s) => CssValue::Keyword(copy_bytes(s)),
        CssValue::Length(l) => CssValue::Length(Length { value: copy_bytes(&l.value), unit: l.unit }),
        CssValue::Percentage(p) => CssValue::Percentage(Percentage { value: copy_bytes(&p.value) }),
        CssValue::Color(c) => CssValue::Color(*c),
        CssValue::Uri(u) => CssValue::Uri(Uri { url: copy_bytes(&u.url) }),
        CssValue::StructVal { name, fields } => {
            let mut fs: Vec<CssValue> = Vec::new();
            let mut i: usize = 0;
            while i < fields.len()
                invariant
                    i <= fields@.len(),
                    fs@.len() == i,
                    forall|k: int|
                        0 <= k < i ==> val_view(#[trigger] fs@[k]) == val_view(fields@[k]),
                decreases fields@.len() - i,
            {
                fs.push(clone_value(&fields[i]));
                i = i + 1;
            }
            proof {
                lemma_val_view_list(fs@, 0);
                lemma_val_view_list(fields@, 0);
                assert(val_view_list(fs@, 0) =~= val_view_list(fields@, 0));
            }
            CssValue::StructVal { name: copy_bytes(name), fields: fs }
        },
        CssValue::EnumVal { name, variant, payload } => {
            let pl = match payload {
                Some(b) => Some(Box::new(clone_value(&**b))),
                None => None,
            };
            CssValue::EnumVal { name: copy_bytes(name), variant: *variant, payload: pl }
        },
        CssValue::List(es) => {
            let mut fs: Vec<CssValue> = Vec::new();
            let mut i: usize = 0;
            while i < es.len()
                invariant
                    i <= es@.len(),
                    fs@.len() == i,
                    forall|k: int| 0 <= k < i ==> val_view(#[trigger] fs@[k]) == val_view(es@[k]),
                decreases es@.len() - i,
            {
                fs.push(clone_value(&es[i]));
                i = i + 1;
            }
            proof {
                lemma_val_view_list(fs@, 0);
                lemma_val_view_list(es@, 0);
                assert(val_view_list(fs@, 0) =~= val_view_list(es@, 0));
            }
            CssValue::List(fs)
        },
        CssValue::Maybe(o) => {
            let pl = match o {
                Some(b) => Some(Box::new(clone_value(&**b))),
                None => None,
            };
            CssValue::Maybe(pl)
        },
    }
}

} // verus!
