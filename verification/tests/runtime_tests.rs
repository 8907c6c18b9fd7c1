//! Tests of the registry and the generated runtime parsers.

use css_vds::props::Props;
use css_vds::registry::{BuildError, PropertyDescriptor, Registry};
use css_vds::runtime::parse_prop;
use css_vds::tokens::{CssToken, TokenCursor};
use css_vds::values::{Color, CssValue, Length, LengthUnit, Uri};

fn b(s: &str) -> Vec<u8> {
    s.as_bytes().to_vec()
}

fn prop(name: &str, values: &str) -> PropertyDescriptor {
    PropertyDescriptor {
        name: b(name),
        values: b(values),
        initial_value: Vec::new(),
        inherited: false,
    }
}

fn ident(s: &str) -> CssToken {
    CssToken::Ident(b(s))
}

fn dim(v: &str, u: &str) -> CssToken {
    CssToken::Dimension { value: b(v), unit: b(u) }
}

fn length(v: &str, u: LengthUnit) -> CssValue {
    CssValue::Length(Length { value: b(v), unit: u })
}

#[test]
fn width_length_parses_and_bogus_recovers() {
    let reg = Registry::build(&vec![prop("width", "<length> | auto")]).unwrap();
    // width: 10px
    let mut cur = TokenCursor::new(vec![dim("10", "px")]);
    let (tag, v) = reg.parse_declaration(&b("width"), &mut cur).unwrap();
    assert_eq!(tag, 0);
    assert_eq!(
        v,
        CssValue::EnumVal {
            name: b("Width"),
            variant: 0,
            payload: Some(Box::new(length("10", LengthUnit::Px))),
        }
    );
    assert!(cur.at_end());
    // width: bogus fails, and the next declaration still parses
    let mut cur = TokenCursor::new(vec![ident("bogus")]);
    assert!(reg.parse_declaration(&b("width"), &mut cur).is_err());
    assert_eq!(cur.save(), 0);
    let mut cur = TokenCursor::new(vec![ident("auto")]);
    let (_, v) = reg.parse_declaration(&b("width"), &mut cur).unwrap();
    assert_eq!(
        v,
        CssValue::EnumVal { name: b("Width"), variant: 1, payload: None }
    );
}

#[test]
fn lookup_is_case_insensitive_and_unknown_fails() {
    let reg = Registry::build(&vec![prop("width", "<length> | auto")]).unwrap();
    let mut cur = TokenCursor::new(vec![ident("auto")]);
    assert!(reg.parse_declaration(&b("WiDtH"), &mut cur).is_ok());
    let mut cur = TokenCursor::new(vec![ident("auto")]);
    assert!(reg.parse_declaration(&b("wobble"), &mut cur).is_err());
}

#[test]
fn one_or_more_succeeds_with_one_field_absent() {
    // a OneOrMore struct over two keyword fields, where the input matches
    // only the second
    let reg = Registry::build(&vec![prop("deco", "thin || thick")]).unwrap();
    let mut cur = TokenCursor::new(vec![ident("thick")]);
    let (_, v) = reg.parse_declaration(&b("deco"), &mut cur).unwrap();
    assert_eq!(
        v,
        CssValue::StructVal {
            name: b("Deco"),
            fields: vec![
                CssValue::Maybe(None),
                CssValue::Maybe(Some(Box::new(CssValue::Keyword(b("thick"))))),
            ],
        }
    );
    // matching nothing fails without consuming input
    let mut cur = TokenCursor::new(vec![ident("wavy")]);
    assert!(reg.parse_declaration(&b("deco"), &mut cur).is_err());
    assert_eq!(cur.save(), 0);
}

#[test]
fn unordered_group_matches_any_order() {
    let reg = Registry::build(&vec![prop("edge", "thin && <length>")]).unwrap();
    let mut cur = TokenCursor::new(vec![dim("2", "px"), ident("thin")]);
    let (_, v) = reg.parse_declaration(&b("edge"), &mut cur).unwrap();
    assert_eq!(
        v,
        CssValue::StructVal {
            name: b("Edge"),
            fields: vec![CssValue::Keyword(b("thin")), length("2", LengthUnit::Px)],
        }
    );
    // a missing member fails the whole group and restores the cursor
    let mut cur = TokenCursor::new(vec![dim("2", "px")]);
    assert!(reg.parse_declaration(&b("edge"), &mut cur).is_err());
    assert_eq!(cur.save(), 0);
}

#[test]
fn repetition_bounds_are_enforced() {
    let reg = Registry::build(&vec![prop("pads", "<length>{1,2}")]).unwrap();
    // three lengths: only two are collected, the third stays unconsumed
    let toks = vec![dim("1", "px"), dim("2", "px"), dim("3", "px")];
    let mut cur = TokenCursor::new(toks);
    let (_, v) = reg.parse_declaration(&b("pads"), &mut cur).unwrap();
    assert_eq!(
        v,
        CssValue::List(vec![length("1", LengthUnit::Px), length("2", LengthUnit::Px)])
    );
    assert_eq!(cur.save(), 2);
    // zero lengths: below the lower bound, failure restores the cursor
    let mut cur = TokenCursor::new(vec![ident("auto")]);
    assert!(reg.parse_declaration(&b("pads"), &mut cur).is_err());
    assert_eq!(cur.save(), 0);
}

#[test]
fn optional_yields_maybe() {
    let reg = Registry::build(&vec![prop("gap", "<length>?")]).unwrap();
    let mut cur = TokenCursor::new(vec![dim("4", "em")]);
    let (_, v) = reg.parse_declaration(&b("gap"), &mut cur).unwrap();
    assert_eq!(v, CssValue::Maybe(Some(Box::new(length("4", LengthUnit::Em)))));
    let mut cur = TokenCursor::new(vec![]);
    let (_, v) = reg.parse_declaration(&b("gap"), &mut cur).unwrap();
    assert_eq!(v, CssValue::Maybe(None));
}

#[test]
fn choice_backtracks_between_branches() {
    let reg = Registry::build(&vec![prop(
        "pair",
        "[<length> <length>] | [<length> auto]",
    )])
    .unwrap();
    let mut cur = TokenCursor::new(vec![dim("1", "px"), ident("auto")]);
    let (_, v) = reg.parse_declaration(&b("pair"), &mut cur).unwrap();
    match v {
        CssValue::EnumVal { variant, .. } => assert_eq!(variant, 1),
        other => panic!("expected an enum value, got {:?}", other),
    }
    assert!(cur.at_end());
}

#[test]
fn type_placeholder_delegates_to_earlier_property() {
    let reg = Registry::build(&vec![
        prop("margin-width", "<length> | auto"),
        prop("margin-top", "'margin-width' | inherit"),
    ])
    .unwrap();
    let mut cur = TokenCursor::new(vec![dim("3", "pt")]);
    let (tag, v) = reg.parse_declaration(&b("margin-top"), &mut cur).unwrap();
    assert_eq!(tag, 1);
    assert_eq!(
        v,
        CssValue::EnumVal {
            name: b("MarginTop"),
            variant: 0,
            payload: Some(Box::new(CssValue::EnumVal {
                name: b("MarginWidth"),
                variant: 0,
                payload: Some(Box::new(length("3", LengthUnit::Pt))),
            })),
        }
    );
}

#[test]
fn colors_parse_in_all_forms() {
    let reg = Registry::build(&vec![prop("background-color", "<color> | transparent")]).unwrap();
    let cases: Vec<(CssToken, Color)> = vec![
        (ident("red"), Color(255, 0, 0)),
        (CssToken::Hash(b("00ff00")), Color(0, 255, 0)),
        (CssToken::Hash(b("00f")), Color(0, 0, 255)),
        (
            CssToken::FunctionStart(b("rgb")),
            // arguments follow below
            Color(1, 2, 300u16.min(255) as u8),
        ),
    ];
    for (tok, expect) in cases {
        let toks = match &tok {
            CssToken::FunctionStart(_) => vec![
                tok,
                CssToken::Number(b("1")),
                CssToken::Comma,
                CssToken::Number(b("2")),
                CssToken::Comma,
                CssToken::Number(b("300")),
                CssToken::CloseParen,
            ],
            _ => vec![tok],
        };
        let mut cur = TokenCursor::new(toks);
        let (_, v) = reg.parse_declaration(&b("background-color"), &mut cur).unwrap();
        assert_eq!(
            v,
            CssValue::EnumVal {
                name: b("BackgroundColor"),
                variant: 0,
                payload: Some(Box::new(CssValue::Color(expect))),
            }
        );
    }
    // an unknown color name falls through to the keyword variant only when
    // it matches; otherwise the declaration fails
    let mut cur = TokenCursor::new(vec![ident("notacolor")]);
    assert!(reg.parse_declaration(&b("background-color"), &mut cur).is_err());
}

#[test]
fn urls_are_validated_and_normalized() {
    let reg = Registry::build(&vec![prop("background-image", "<uri> | none")]).unwrap();
    let mut cur = TokenCursor::new(vec![CssToken::Url(b("HTTP://Example.Com/A"))]);
    let (_, v) = reg.parse_declaration(&b("background-image"), &mut cur).unwrap();
    assert_eq!(
        v,
        CssValue::EnumVal {
            name: b("BackgroundImage"),
            variant: 0,
            payload: Some(Box::new(CssValue::Uri(Uri { url: b("http://example.com/A") }))),
        }
    );
    // an invalid URL is no match
    let mut cur = TokenCursor::new(vec![CssToken::Url(b("::not a url::"))]);
    assert!(reg.parse_declaration(&b("background-image"), &mut cur).is_err());
}

#[test]
fn registry_overflow_fails() {
    let mut descs = Vec::new();
    for i in 0..257 {
        descs.push(prop(&format!("p-{}", i), "auto"));
    }
    assert_eq!(Registry::build(&descs), Err(BuildError::TooManyProperties));
}

#[test]
fn registry_bad_grammar_fails() {
    let r = Registry::build(&vec![prop("width", "<length> | | auto")]);
    assert!(matches!(r, Err(BuildError::BadGrammar(_))));
}

#[test]
fn parse_prop_by_index() {
    let reg = Registry::build(&vec![prop("width", "<length> | auto")]).unwrap();
    let mut cur = TokenCursor::new(vec![ident("auto")]);
    let v = parse_prop(&reg, 0, &mut cur).unwrap();
    assert_eq!(v, CssValue::EnumVal { name: b("Width"), variant: 1, payload: None });
}

#[test]
fn keyword_matching_is_case_insensitive() {
    let reg = Registry::build(&vec![prop("width", "<length> | auto")]).unwrap();
    for spelling in ["auto", "Auto", "AUTO", "aUtO"] {
        let mut cur = TokenCursor::new(vec![ident(spelling)]);
        let (_, v) = reg.parse_declaration(&b("width"), &mut cur).unwrap();
        assert_eq!(
            v,
            CssValue::EnumVal { name: b("Width"), variant: 1, payload: None }
        );
    }
    // a different identifier still fails
    let mut cur = TokenCursor::new(vec![ident("autos")]);
    assert!(reg.parse_declaration(&b("width"), &mut cur).is_err());
}

#[test]
fn keyword_matching_is_exact_on_hyphens() {
    let reg = Registry::build(&vec![prop("pointer", "nw-resize | auto")]).unwrap();
    // the kebab text matches in any letter case
    for spelling in ["nw-resize", "NW-Resize", "Nw-ReSiZe"] {
        let mut cur = TokenCursor::new(vec![ident(spelling)]);
        let (_, v) = reg.parse_declaration(&b("pointer"), &mut cur).unwrap();
        assert_eq!(
            v,
            CssValue::EnumVal { name: b("Pointer"), variant: 0, payload: None }
        );
    }
    // hyphen placement is significant: folding it away must not match
    for bad in ["nwresize", "nw--resize", "-nw-resize", "nw-resize-", "-auto", "auto-"] {
        let mut cur = TokenCursor::new(vec![ident(bad)]);
        assert!(reg.parse_declaration(&b("pointer"), &mut cur).is_err());
        assert_eq!(cur.save(), 0);
    }
}

#[test]
fn rgb_accepts_percentage_arguments() {
    let reg = Registry::build(&vec![prop("background-color", "<color> | transparent")]).unwrap();
    let toks = vec![
        CssToken::FunctionStart(b("rgb")),
        CssToken::Percentage(b("50")),
        CssToken::Comma,
        CssToken::Percentage(b("0")),
        CssToken::Comma,
        CssToken::Percentage(b("200")),
        CssToken::CloseParen,
    ];
    let mut cur = TokenCursor::new(toks);
    let (_, v) = reg.parse_declaration(&b("background-color"), &mut cur).unwrap();
    // 50% scales to 127 with truncation; 200% saturates to 255
    assert_eq!(
        v,
        CssValue::EnumVal {
            name: b("BackgroundColor"),
            variant: 0,
            payload: Some(Box::new(CssValue::Color(Color(127, 0, 255)))),
        }
    );
    // mixed number and percentage arguments do not match
    let toks = vec![
        CssToken::FunctionStart(b("rgb")),
        CssToken::Number(b("1")),
        CssToken::Comma,
        CssToken::Percentage(b("0")),
        CssToken::Comma,
        CssToken::Number(b("2")),
        CssToken::CloseParen,
    ];
    let mut cur = TokenCursor::new(toks);
    assert!(reg.parse_declaration(&b("background-color"), &mut cur).is_err());
}

#[test]
fn props_store_by_tag() {
    let mut props = Props::new();
    assert!(props.get(7).is_none());
    props.set(7, CssValue::Keyword(b("auto")));
    assert_eq!(props.get(7), Some(&CssValue::Keyword(b("auto"))));
    props.set(7, CssValue::Keyword(b("none")));
    assert_eq!(props.get(7), Some(&CssValue::Keyword(b("none"))));
    assert!(props.get(8).is_none());
}

#[test]
fn props_extend_overwrites() {
    let mut base = Props::new();
    base.set(1, CssValue::Keyword(b("a")));
    base.set(2, CssValue::Keyword(b("b")));
    let mut over = Props::new();
    over.set(2, CssValue::Keyword(b("c")));
    over.set(3, CssValue::Keyword(b("d")));
    base.extend(&over);
    assert_eq!(base.get(1), Some(&CssValue::Keyword(b("a"))));
    assert_eq!(base.get(2), Some(&CssValue::Keyword(b("c"))));
    assert_eq!(base.get(3), Some(&CssValue::Keyword(b("d"))));
}
