//! Tests of the grammar parser and the serializer.

use css_vds::grammar::{parse, to_text, SyntaxError};
use css_vds::vds::VDS;

fn kw(s: &str) -> VDS {
    VDS::Keyword(s.as_bytes().to_vec())
}

fn val(s: &str) -> VDS {
    VDS::Value(s.as_bytes().to_vec())
}

fn ty(s: &str) -> VDS {
    VDS::Type(s.as_bytes().to_vec())
}

#[test]
fn simple_test() {
    let input = b"<length> | <percentage> | auto".to_vec();
    let ast = parse(&input).unwrap();
    assert_eq!(
        ast,
        VDS::Choice(vec![val("length"), val("percentage"), kw("auto")])
    );
}

#[test]
fn keyword_alone_is_not_wrapped() {
    let ast = parse(&b"auto".to_vec()).unwrap();
    assert_eq!(ast, kw("auto"));
}

#[test]
fn optional_group() {
    let ast = parse(&b"[ <percentage> | <length> ]?".to_vec()).unwrap();
    assert_eq!(
        ast,
        VDS::Repetition {
            inner: Box::new(VDS::Choice(vec![val("percentage"), val("length")])),
            min: 0,
            max: Some(1),
        }
    );
}

#[test]
fn type_placeholders_and_one_or_more_of() {
    let ast = parse(&b"'background-color' || 'background-image'".to_vec()).unwrap();
    assert_eq!(
        ast,
        VDS::OneOrMoreOf(vec![ty("background-color"), ty("background-image")])
    );
}

#[test]
fn multipliers() {
    assert_eq!(
        parse(&b"a*".to_vec()).unwrap(),
        VDS::Repetition { inner: Box::new(kw("a")), min: 0, max: None }
    );
    assert_eq!(
        parse(&b"a+".to_vec()).unwrap(),
        VDS::Repetition { inner: Box::new(kw("a")), min: 1, max: None }
    );
    assert_eq!(
        parse(&b"a{2,4}".to_vec()).unwrap(),
        VDS::Repetition { inner: Box::new(kw("a")), min: 2, max: Some(4) }
    );
}

#[test]
fn sequence_and_precedence() {
    // juxtaposition binds tighter than `&&`, which binds tighter than `||`,
    // which binds tighter than `|`
    let ast = parse(&b"a b && c || d | e".to_vec()).unwrap();
    assert_eq!(
        ast,
        VDS::Choice(vec![
            VDS::OneOrMoreOf(vec![
                VDS::AllOf(vec![VDS::Sequence(vec![kw("a"), kw("b")]), kw("c")]),
                kw("d"),
            ]),
            kw("e"),
        ])
    );
}

#[test]
fn nested_groups_collapse() {
    let ast = parse(&b"[[auto]]".to_vec()).unwrap();
    assert_eq!(ast, kw("auto"));
}

#[test]
fn rejects_bad_input() {
    assert!(matches!(parse(&b"a $ b".to_vec()), Err(SyntaxError::BadByte)));
    assert!(matches!(parse(&b"a &".to_vec()), Err(SyntaxError::BadByte)));
    assert!(matches!(parse(&b"[a".to_vec()), Err(_)));
    assert!(matches!(parse(&b"a ]".to_vec()), Err(SyntaxError::TrailingInput)));
    assert!(matches!(parse(&b"".to_vec()), Err(SyntaxError::BadSyntax)));
    assert!(matches!(parse(&b"'a".to_vec()), Err(_)));
    assert!(matches!(parse(&b"<a".to_vec()), Err(_)));
}

#[test]
fn rejects_reversed_range() {
    assert!(matches!(parse(&b"a{5,2}".to_vec()), Err(_)));
}

#[test]
fn rejects_huge_repetition_count() {
    let input = b"a{1,99999999999999999999999999}".to_vec();
    assert!(matches!(parse(&input), Err(SyntaxError::NumberTooLarge)));
}

#[test]
fn round_trip_structure() {
    let cases: Vec<&[u8]> = vec![
        b"auto",
        b"<length> | <percentage> | auto",
        b"[ <percentage> | <length> ]?",
        b"a b && c || d | e",
        b"a{2,4} <len-gth>* 'other-prop'+",
        b"[['background-color' || 'background-image'] | inherit]*",
        b"[a*]?",
        b"[[b?]{1,3}]+",
    ];
    for case in cases {
        let ast = parse(&case.to_vec()).unwrap();
        let text = to_text(&ast);
        let again = parse(&text).unwrap();
        assert_eq!(ast, again);
    }
}
