//! The type-declaration emitter: a pure mapping from one IR item to a
//! concrete data-type declaration.
//!
//! A repetition maps to a container type: `(0, unbounded)` and `(1,
//! unbounded)` to a sequence (the latter known non-empty), `(0, 1)` to an
//! option, and an explicit `{m,n}` range to a sequence whose bounds are
//! enforced at parse time only.  In a one-or-more struct every field is
//! additionally wrapped optional, because its parser may leave any one
//! field unmatched.

use vstd::prelude::*;

use crate::ir::{
    field_view, item_view, ty_view, variant_view, FieldV, IrField, IrItem, IrType, IrVariant,
    ItemV, Order, TyV, VariantV,
};
use crate::text::copy_bytes;

verus! {

/// The declared type of a field or payload.
#[derive(Debug, PartialEq, Eq)]
pub enum DeclTy {
    /// A direct reference to a type, by name.
    Plain(Vec<u8>),
    /// An optional value of the inner type.
    OptionOf(Box<DeclTy>),
    /// A sequence of values of the inner type.
    VecOf(Box<DeclTy>),
    /// A non-empty sequence of values of the inner type.
    NonEmptyVecOf(Box<DeclTy>),
}

/// One declared struct field.
#[derive(Debug, PartialEq, Eq)]
pub struct FieldDecl {
    pub name: Vec<u8>,
    pub ty: DeclTy,
}

/// One declared enum variant.
#[derive(Debug, PartialEq, Eq)]
pub struct VariantDecl {
    pub name: Vec<u8>,
    pub payload: Option<DeclTy>,
}

/// A concrete data-type declaration emitted from one IR item.
#[derive(Debug, PartialEq, Eq)]
pub enum TypeDeclaration {
    Struct { name: Vec<u8>, fields: Vec<FieldDecl> },
    Enum { name: Vec<u8>, variants: Vec<VariantDecl> },
}

/// The mathematical value of a declared type.
pub enum DeclTyV {
    Plain(Seq<u8>),
    OptionOf(Box<DeclTyV>),
    VecOf(Box<DeclTyV>),
    NonEmptyVecOf(Box<DeclTyV>),
}

/// The mathematical value of a declared field.
pub struct FieldDeclV {
    pub name: Seq<u8>,
    pub ty: DeclTyV,
}

/// The mathematical value of a declared variant.
pub struct VariantDeclV {
    pub name: Seq<u8>,
    pub payload: Option<DeclTyV>,
}

/// The mathematical value of a declaration.
pub enum DeclV {
    Struct { name: Seq<u8>, fields: Seq<FieldDeclV> },
    Enum { name: Seq<u8>, variants: Seq<VariantDeclV> },
}

/// The mathematical value of a declared type.
pub open spec fn decl_ty_view(t: DeclTy) -> DeclTyV
    decreases t,
{
    match t {
        DeclTy::Plain(s) => DeclTyV::Plain(s@),
        DeclTy::OptionOf(inner) => DeclTyV::OptionOf(Box::new(decl_ty_view(*inner))),
        DeclTy::VecOf(inner) => DeclTyV::VecOf(Box::new(decl_ty_view(*inner))),
        DeclTy::NonEmptyVecOf(inner) => DeclTyV::NonEmptyVecOf(Box::new(decl_ty_view(*inner))),
    }
}

/// The mathematical value of a declaration.
pub open spec fn decl_view(d: TypeDeclaration) -> DeclV {
    match d {
        TypeDeclaration::Struct { name, fields } => DeclV::Struct {
            name: name@,
            fields: fields@.map_values(
                |f: FieldDecl| FieldDeclV { name: f.name@, ty: decl_ty_view(f.ty) },
            ),
        },
        TypeDeclaration::Enum { name, variants } => DeclV::Enum {
            name: name@,
            variants: variants@.map_values(
                |v: VariantDecl| VariantDeclV {
                    name: v.name@,
                    payload: match v.payload {
                        Some(t) => Some(decl_ty_view(t)),
                        None => None,
                    },
                },
            ),
        },
    }
}

/// The declared type of a type reference, per the repetition table.
pub open spec fn spec_emit_ty(t: TyV) -> DeclTyV
    decreases t,
{
    match t {
        TyV::Leaf(n) => DeclTyV::Plain(n),
        TyV::Named(n) => DeclTyV::Plain(n),
        TyV::Rep { inner, min, max } => {
            let e = spec_emit_ty(*inner);
            if min == 0 && max == Some(1nat) {
                DeclTyV::OptionOf(Box::new(e))
            } else if min == 1 && max is None {
                DeclTyV::NonEmptyVecOf(Box::new(e))
            } else {
                DeclTyV::VecOf(Box::new(e))
            }
        },
    }
}

/// The declared type of one field: its emitted type, wrapped optional in a
/// one-or-more struct.
pub open spec fn spec_emit_field(kind: Order, f: FieldV) -> FieldDeclV {
    FieldDeclV {
        name: f.name,
        ty: if kind == Order::OneOrMore {
            DeclTyV::OptionOf(Box::new(spec_emit_ty(f.ty)))
        } else {
            spec_emit_ty(f.ty)
        },
    }
}

/// The declared variant of one IR variant.
pub open spec fn spec_emit_variant(v: VariantV) -> VariantDeclV {
    VariantDeclV {
        name: v.name,
        payload: match v.payload {
            Some(t) => Some(spec_emit_ty(t)),
            None => None,
        },
    }
}

/// The declaration emitted from one IR item.
pub open spec fn spec_emit(it: ItemV) -> DeclV {
    match it {
        ItemV::Struct { name, kind, fields } => DeclV::Struct {
            name: name,
            fields: fields.map_values(|f: FieldV| spec_emit_field(kind, f)),
        },
        ItemV::Enum { name, variants } => DeclV::Enum {
            name: name,
            variants: variants.map_values(|v: VariantV| spec_emit_variant(v)),
        },
    }
}

/// Emit the declared type of a type reference.
fn emit_type(t: &IrType) -> (r: DeclTy)
    ensures
        decl_ty_view(r) == spec_emit_ty(ty_view(*t)),
    decreases *t,
{
    match t {
        IrType::Leaf(n) => DeclTy::Plain(copy_bytes(n)),
        IrType::Named(n) => DeclTy::Plain(copy_bytes(n)),
        IrType::Repetition { inner, min, max } => {
            let e = emit_type(&**inner);
            let optional = *min == 0 && match *max {
                Some(m) => m == 1,
                None => false,
            };
            if optional {
                DeclTy::OptionOf(Box::new(e))
            } else if *min == 1 && matches!(*max, Option::None) {
                DeclTy::NonEmptyVecOf(Box::new(e))
            } else {
                DeclTy::VecOf(Box::new(e))
            }
        },
    }
}

/// Emit the declaration of one IR item.
#[verifier::loop_isolation(false)]
pub fn emit_declaration(item: &IrItem) -> (r: TypeDeclaration)
    ensures
        decl_view(r) == spec_emit(item_view(*item)),
{
    match item {
        IrItem::Struct(st) => {
            let mut fields: Vec<FieldDecl> = Vec::new();
            let mut k: usize = 0;
            while k < st.fields.len()
                invariant
                    k <= st.fields@.len(),
                    fields@.len() == k,
                    forall|q: int|
                        0 <= q < k ==> (FieldDeclV {
                            name: (#[trigger] fields@[q]).name@,
                            ty: decl_ty_view(fields@[q].ty),
                        }) == spec_emit_field(st.kind, field_view(st.fields@[q])),
                decreases st.fields@.len() - k,
            {
                let f = &st.fields[k];
                let base = emit_type(&f.ty);
                let ty = if matches!(st.kind, Order::OneOrMore) {
                    DeclTy::OptionOf(Box::new(base))
                } else {
                    base
                };
                fields.push(FieldDecl { name: copy_bytes(&f.name), ty });
                k = k + 1;
            }
            let r = TypeDeclaration::Struct { name: copy_bytes(&st.name), fields };
            proof {
                let lhs = decl_view(r)->Struct_fields;
                let rhs = spec_emit(item_view(*item))->Struct_fields;
                assert(lhs =~= rhs);
            }
            r
        },
        IrItem::Enum(en) => {
            let mut variants: Vec<VariantDecl> = Vec::new();
            let mut k: usize = 0;
            while k < en.variants.len()
                invariant
                    k <= en.variants@.len(),
                    variants@.len() == k,
                    forall|q: int|
                        0 <= q < k ==> (VariantDeclV {
                            name: (#[trigger] variants@[q]).name@,
                            payload: match variants@[q].payload {
                                Some(t) => Some(decl_ty_view(t)),
                                None => None,
                            },
                        }) == spec_emit_variant(variant_view(en.variants@[q])),
                decreases en.variants@.len() - k,
            {
                let v = &en.variants[k];
                let payload = match &v.payload {
                    Some(t) => Some(emit_type(t)),
                    None => None,
                };
                variants.push(VariantDecl { name: copy_bytes(&v.name), payload });
                k = k + 1;
            }
            let r = TypeDeclaration::Enum { name: copy_bytes(&en.name), variants };
            proof {
                let lhs = decl_view(r)->Enum_variants;
                let rhs = spec_emit(item_view(*item))->Enum_variants;
                assert(lhs =~= rhs);
            }
            r
        },
    }
}

} // verus!
