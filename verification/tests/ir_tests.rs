//! Tests of the IR builder and the declaration emitter.

use css_vds::decl::{emit_declaration, DeclTy, FieldDecl, TypeDeclaration, VariantDecl};
use css_vds::grammar::parse;
use css_vds::ir::{build_ir, IrItem, IrType, Order};
use css_vds::vds::VDS;

fn b(s: &str) -> Vec<u8> {
    s.as_bytes().to_vec()
}

fn item_name(it: &IrItem) -> &Vec<u8> {
    match it {
        IrItem::Struct(s) => &s.name,
        IrItem::Enum(e) => &e.name,
    }
}

#[test]
fn ir_testing() {
    let input = b(
        "['background-color' || 'background-image' || 'background-repeat' || \
         'background-attachment' || 'background-position'] | inherit",
    );
    let vds = parse(&input).unwrap();
    let mut items = Vec::new();
    let top = build_ir(&b("cursor"), &vds, &mut items);
    // one struct for the `||` group, one enum for the choice
    assert_eq!(items.len(), 2);
    assert_eq!(item_name(&items[0]), &b("CursorV0"));
    assert_eq!(item_name(&items[1]), &b("Cursor"));
    assert_eq!(top, IrType::Named(b("Cursor")));
    match &items[0] {
        IrItem::Struct(st) => {
            assert_eq!(st.kind, Order::OneOrMore);
            assert_eq!(st.fields.len(), 5);
            assert_eq!(st.fields[0].name, b("background_color"));
            assert_eq!(st.fields[0].ty, IrType::Leaf(b("BackgroundColor")));
        }
        _ => panic!("expected a struct for the || group"),
    }
    match &items[1] {
        IrItem::Enum(en) => {
            assert_eq!(en.variants.len(), 2);
            assert_eq!(en.variants[0].name, b("CursorV0"));
            assert_eq!(en.variants[0].payload, Some(IrType::Named(b("CursorV0"))));
            assert_eq!(en.variants[1].name, b("Inherit"));
            assert_eq!(en.variants[1].payload, None);
        }
        _ => panic!("expected an enum for the choice"),
    }
}

#[test]
fn choice_of_leaves_builds_one_enum() {
    let vds = parse(&b("<length> | <percentage> | auto")).unwrap();
    let mut items = Vec::new();
    let top = build_ir(&b("margin-top"), &vds, &mut items);
    assert_eq!(top, IrType::Named(b("MarginTop")));
    assert_eq!(items.len(), 1);
    match &items[0] {
        IrItem::Enum(en) => {
            assert_eq!(en.name, b("MarginTop"));
            assert_eq!(en.variants.len(), 3);
            assert_eq!(en.variants[0].name, b("Length"));
            assert_eq!(en.variants[0].payload, Some(IrType::Leaf(b("Length"))));
            assert_eq!(en.variants[2].name, b("Auto"));
            assert_eq!(en.variants[2].payload, None);
        }
        _ => panic!("expected an enum"),
    }
}

#[test]
fn all_of_leaf_fields_use_leaf_names() {
    // the fields take their names from the leaf texts, not positional names
    let vds = VDS::AllOf(vec![
        VDS::Keyword(b("thin")),
        VDS::Value(b("length")),
    ]);
    let mut items = Vec::new();
    let top = build_ir(&b("x"), &vds, &mut items);
    assert_eq!(top, IrType::Named(b("X")));
    assert_eq!(items.len(), 1);
    match &items[0] {
        IrItem::Struct(st) => {
            assert_eq!(st.kind, Order::UnorderedAnd);
            assert_eq!(st.fields.len(), 2);
            assert_eq!(st.fields[0].name, b("thin"));
            assert_eq!(st.fields[0].ty, IrType::Leaf(b("Thin")));
            assert_eq!(st.fields[1].name, b("length"));
            assert_eq!(st.fields[1].ty, IrType::Leaf(b("Length")));
        }
        _ => panic!("expected a struct"),
    }
}

#[test]
fn sequence_fields_use_positional_names() {
    let vds = parse(&b("<length> auto")).unwrap();
    let mut items = Vec::new();
    build_ir(&b("pad"), &vds, &mut items);
    match &items[0] {
        IrItem::Struct(st) => {
            assert_eq!(st.kind, Order::OrderedAnd);
            assert_eq!(st.fields[0].name, b("pad_f0"));
            assert_eq!(st.fields[1].name, b("pad_f1"));
        }
        _ => panic!("expected a struct"),
    }
}

#[test]
fn build_ir_is_deterministic() {
    let input = b("[a b | c]{1,2} && <length> || 'other'");
    let vds1 = parse(&input).unwrap();
    let vds2 = parse(&input).unwrap();
    let mut items1 = Vec::new();
    let mut items2 = Vec::new();
    let top1 = build_ir(&b("some-prop"), &vds1, &mut items1);
    let top2 = build_ir(&b("some-prop"), &vds2, &mut items2);
    assert_eq!(items1, items2);
    assert_eq!(top1, top2);
}

#[test]
fn item_names_are_unique() {
    let input = b("[a b | c d]{1,2} && [e | f g] || [h i]* | inherit");
    let vds = parse(&input).unwrap();
    let mut items = Vec::new();
    build_ir(&b("prop"), &vds, &mut items);
    for i in 0..items.len() {
        for j in (i + 1)..items.len() {
            assert_ne!(item_name(&items[i]), item_name(&items[j]));
        }
    }
}

#[test]
fn repetition_emits_no_item() {
    let vds = parse(&b("<length>*")).unwrap();
    let mut items = Vec::new();
    let top = build_ir(&b("pads"), &vds, &mut items);
    assert_eq!(items.len(), 0);
    assert_eq!(
        top,
        IrType::Repetition { inner: Box::new(IrType::Leaf(b("Length"))), min: 0, max: None }
    );
}

#[test]
fn declaration_of_repetitions() {
    let vds = parse(&b("<length>* <length>+ <length>? <length>{2,3}")).unwrap();
    let mut items = Vec::new();
    build_ir(&b("r"), &vds, &mut items);
    let decl = emit_declaration(&items[0]);
    let plain = || Box::new(DeclTy::Plain(b("Length")));
    match decl {
        TypeDeclaration::Struct { name, fields } => {
            assert_eq!(name, b("R"));
            let expect = vec![
                FieldDecl { name: b("r_f0"), ty: DeclTy::VecOf(plain()) },
                FieldDecl { name: b("r_f1"), ty: DeclTy::NonEmptyVecOf(plain()) },
                FieldDecl { name: b("r_f2"), ty: DeclTy::OptionOf(plain()) },
                FieldDecl { name: b("r_f3"), ty: DeclTy::VecOf(plain()) },
            ];
            assert_eq!(fields, expect);
        }
        _ => panic!("expected a struct declaration"),
    }
}

#[test]
fn one_or_more_fields_are_declared_optional() {
    let vds = parse(&b("thin || <length>")).unwrap();
    let mut items = Vec::new();
    build_ir(&b("border"), &vds, &mut items);
    let decl = emit_declaration(&items[0]);
    match decl {
        TypeDeclaration::Struct { fields, .. } => {
            assert_eq!(
                fields[0].ty,
                DeclTy::OptionOf(Box::new(DeclTy::Plain(b("Thin"))))
            );
            assert_eq!(
                fields[1].ty,
                DeclTy::OptionOf(Box::new(DeclTy::Plain(b("Length"))))
            );
        }
        _ => panic!("expected a struct declaration"),
    }
}

#[test]
fn enum_declaration_carries_payloads() {
    let vds = parse(&b("<length> | auto")).unwrap();
    let mut items = Vec::new();
    build_ir(&b("width"), &vds, &mut items);
    let decl = emit_declaration(&items[0]);
    match decl {
        TypeDeclaration::Enum { name, variants } => {
            assert_eq!(name, b("Width"));
            let expect = vec![
                VariantDecl { name: b("Length"), payload: Some(DeclTy::Plain(b("Length"))) },
                VariantDecl { name: b("Auto"), payload: None },
            ];
            assert_eq!(variants, expect);
        }
        _ => panic!("expected an enum declaration"),
    }
}
