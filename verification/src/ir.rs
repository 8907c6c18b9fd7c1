//! The intermediate representation: named struct and enum declarations
//! derived from a grammar tree, and the builder that lowers a tree into an
//! ordered list of such declarations.
//!
//! The builder walks the tree depth first and appends one item per compound
//! construct; every `Named` reference in an item resolves to an item that
//! stands earlier in the same list, and all item names in one list are
//! distinct.  Names are synthesized from the path of ancestor constructs:
//! the Pascal-cased base name, extended with `F<index>` for a positional
//! slot and `V<index>` for a choice variant.

use vstd::prelude::*;

use crate::text::{
    copy_bytes, dec_digits, lemma_name_disjoint, path_code, seg_code, spec_pascal, spec_snake,
    to_pascal, to_snake, PathSeg, FIELD_SEP, VARIANT_SEP,
};
use crate::vds::{lemma_vds_view_list, vds_view, vds_view_list, VdsV, VDS};

verus! {

/// The runtime matching discipline of a generated struct.
#[derive(Debug, Clone, Copy, PartialEq, Eq, Structural)]
pub enum Order {
    /// Fields must match in declared order.
    OrderedAnd,
    /// All fields must match, in any order.
    UnorderedAnd,
    /// At least one field must match, in any order.
    OneOrMore,
}

/// A reference to a type: a pre-existing leaf, an item of the same list, or
/// a repetition of an inner type.
#[derive(Debug, PartialEq, Eq)]
pub enum IrType {
    /// A built-in or previously generated type, by canonical name.
    Leaf(Vec<u8>),
    /// An item declared earlier in the same item list, by name.
    Named(Vec<u8>),
    /// A repetition of an inner type; `min == 0, max == Some(1)` is an
    /// option, `max == None` is unbounded.
    Repetition { inner: Box<IrType>, min: usize, max: Option<usize> },
}

/// One field of a generated struct.
#[derive(Debug, PartialEq, Eq)]
pub struct IrField {
    pub name: Vec<u8>,
    pub ty: IrType,
}

/// A named struct with its matching discipline and fields.
#[derive(Debug, PartialEq, Eq)]
pub struct IrStruct {
    pub name: Vec<u8>,
    pub kind: Order,
    pub fields: Vec<IrField>,
}

/// One variant of a generated enum.
#[derive(Debug, PartialEq, Eq)]
pub struct IrVariant {
    pub name: Vec<u8>,
    pub payload: Option<IrType>,
}

/// A named enum with its variants.
#[derive(Debug, PartialEq, Eq)]
pub struct IrEnum {
    pub name: Vec<u8>,
    pub variants: Vec<IrVariant>,
}

/// A top-level generated item: a struct or an enum.
#[derive(Debug, PartialEq, Eq)]
pub enum IrItem {
    Struct(IrStruct),
    Enum(IrEnum),
}

/// The mathematical value of an `IrType`.
pub enum TyV {
    Leaf(Seq<u8>),
    Named(Seq<u8>),
    Rep { inner: Box<TyV>, min: nat, max: Option<nat> },
}

/// The mathematical value of an `IrField`.
pub struct FieldV {
    pub name: Seq<u8>,
    pub ty: TyV,
}

/// The mathematical value of an `IrVariant`.
pub struct VariantV {
    pub name: Seq<u8>,
    pub payload: Option<TyV>,
}

/// The mathematical value of an `IrItem`.
pub enum ItemV {
    Struct { name: Seq<u8>, kind: Order, fields: Seq<FieldV> },
    Enum { name: Seq<u8>, variants: Seq<VariantV> },
}

impl ItemV {
    /// The name of an item.
    pub open spec fn name(self) -> Seq<u8> {
        match self {
            ItemV::Struct { name, .. } => name,
            ItemV::Enum { name, .. } => name,
        }
    }
}

/// The mathematical value of an `IrType`.
pub open spec fn ty_view(t: IrType) -> TyV
    decreases t,
{
    match t {
        IrType::Leaf(s) => TyV::Leaf(s@),
        IrType::Named(s) => TyV::Named(s@),
        IrType::Repetition { inner, min, max } => TyV::Rep {
            inner: Box::new(ty_view(*inner)),
            min: min as nat,
            max: match max {
                Some(m) => Some(m as nat),
                None => None,
            },
        },
    }
}

/// The mathematical value of an `IrField`.
pub open spec fn field_view(f: IrField) -> FieldV {
    FieldV { name: f.name@, ty: ty_view(f.ty) }
}

/// The mathematical value of an `IrVariant`.
pub open spec fn variant_view(v: IrVariant) -> VariantV {
    VariantV {
        name: v.name@,
        payload: match v.payload {
            Some(t) => Some(ty_view(t)),
            None => None,
        },
    }
}

/// The mathematical value of an `IrItem`.
pub open spec fn item_view(it: IrItem) -> ItemV {
    match it {
        IrItem::Struct(s) => ItemV::Struct {
            name: s.name@,
            kind: s.kind,
            fields: s.fields@.map_values(|f: IrField| field_view(f)),
        },
        IrItem::Enum(e) => ItemV::Enum {
            name: e.name@,
            variants: e.variants@.map_values(|v: IrVariant| variant_view(v)),
        },
    }
}

/// The mathematical value of a whole item list.
pub open spec fn items_view(s: Seq<IrItem>) -> Seq<ItemV> {
    s.map_values(|it: IrItem| item_view(it))
}

/// What `build_ir` appends and returns for one node: the items emitted by
/// the subtree rooted at `node`, and the type reference handed to the
/// caller.  `p` is the canonical (Pascal-cased) base name of the node and
/// `n0` the number of items already in the list.
pub open spec fn spec_build(p: Seq<u8>, node: VdsV, n0: nat) -> (Seq<ItemV>, TyV)
    decreases node, 0int,
{
    match node {
        VdsV::Keyword(s) => (Seq::<ItemV>::empty(), TyV::Leaf(spec_pascal(s))),
        VdsV::Value(s) => (Seq::<ItemV>::empty(), TyV::Leaf(spec_pascal(s))),
        VdsV::Type(s) => (Seq::<ItemV>::empty(), TyV::Leaf(spec_pascal(s))),
        VdsV::Repetition { inner, min, max } => {
            let (its, t) = spec_build(p, *inner, n0);
            (its, TyV::Rep { inner: Box::new(t), min: min, max: max })
        },
        VdsV::Sequence(cs) => {
            let (its, fs) = spec_build_slots(p, cs, 0, n0);
            (
                its + seq![ItemV::Struct { name: p, kind: Order::OrderedAnd, fields: fs }],
                TyV::Named(p),
            )
        },
        VdsV::AllOf(cs) => {
            let (its, fs) = spec_build_unord(p, cs, 0, n0);
            (
                its + seq![ItemV::Struct { name: p, kind: Order::UnorderedAnd, fields: fs }],
                TyV::Named(p),
            )
        },
        VdsV::OneOrMoreOf(cs) => {
            let (its, fs) = spec_build_unord(p, cs, 0, n0);
            (
                its + seq![ItemV::Struct { name: p, kind: Order::OneOrMore, fields: fs }],
                TyV::Named(p),
            )
        },
        VdsV::Choice(os) => {
            let (its, vs) = spec_build_opts(p, os, 0, n0);
            (its + seq![ItemV::Enum { name: p, variants: vs }], TyV::Named(p))
        },
    }
}

/// The slots of a `Sequence`, from slot `i` on: slot `i` gets the base name
/// `p + F<i>` and a field named by its snake casing.
pub open spec fn spec_build_slots(p: Seq<u8>, cs: Seq<VdsV>, i: nat, n0: nat) -> (
    Seq<ItemV>,
    Seq<FieldV>,
)
    decreases cs, cs.len() - i,
{
    if i >= cs.len() {
        (Seq::<ItemV>::empty(), Seq::<FieldV>::empty())
    } else {
        let pi = p + seg_code(PathSeg { var: false, idx: i });
        let (its1, t) = spec_build(pi, cs[i as int], n0);
        let (its2, fs) = spec_build_slots(p, cs, i + 1, n0 + its1.len());
        (its1 + its2, seq![FieldV { name: spec_snake(pi), ty: t }] + fs)
    }
}

/// The children of an `AllOf` or `OneOrMoreOf`, from child `i` on: a leaf
/// child names its field after its own text, a compound child gets the base
/// name `p + F<n>` where `n` counts the items emitted so far.
pub open spec fn spec_build_unord(p: Seq<u8>, cs: Seq<VdsV>, i: nat, n: nat) -> (
    Seq<ItemV>,
    Seq<FieldV>,
)
    decreases cs, cs.len() - i,
{
    if i >= cs.len() {
        (Seq::<ItemV>::empty(), Seq::<FieldV>::empty())
    } else {
        match cs[i as int] {
            VdsV::Keyword(s) | VdsV::Value(s) | VdsV::Type(s) => {
                let (its2, fs) = spec_build_unord(p, cs, i + 1, n);
                (its2, seq![FieldV { name: spec_snake(s), ty: TyV::Leaf(spec_pascal(s)) }] + fs)
            },
            _ => {
                let pk = p + seg_code(PathSeg { var: false, idx: n });
                let (its1, t) = spec_build(pk, cs[i as int], n);
                let (its2, fs) = spec_build_unord(p, cs, i + 1, n + its1.len());
                (its1 + its2, seq![FieldV { name: spec_snake(pk), ty: t }] + fs)
            },
        }
    }
}

/// The options of a `Choice`, from option `i` on: a keyword becomes a
/// payload-less variant, another leaf a variant carrying that leaf type,
/// and a compound option a variant named `p + V<n>` carrying the type
/// derived with that base name.
pub open spec fn spec_build_opts(p: Seq<u8>, os: Seq<VdsV>, i: nat, n: nat) -> (
    Seq<ItemV>,
    Seq<VariantV>,
)
    decreases os, os.len() - i,
{
    if i >= os.len() {
        (Seq::<ItemV>::empty(), Seq::<VariantV>::empty())
    } else {
        match os[i as int] {
            VdsV::Keyword(s) => {
                let (its2, vs) = spec_build_opts(p, os, i + 1, n);
                (its2, seq![VariantV { name: spec_pascal(s), payload: None }] + vs)
            },
            VdsV::Value(s) | VdsV::Type(s) => {
                let (its2, vs) = spec_build_opts(p, os, i + 1, n);
                (
                    its2,
                    seq![
                        VariantV { name: spec_pascal(s), payload: Some(TyV::Leaf(spec_pascal(s))) },
                    ] + vs,
                )
            },
            _ => {
                let vk = p + seg_code(PathSeg { var: true, idx: n });
                let (its1, t) = spec_build(vk, os[i as int], n);
                let (its2, vs) = spec_build_opts(p, os, i + 1, n + its1.len());
                (its1 + its2, seq![VariantV { name: vk, payload: Some(t) }] + vs)
            },
        }
    }
}

/// `nm` is `p` followed by the encoding of some path of ancestor
/// constructs (possibly the empty path).
pub open spec fn has_tail(nm: Seq<u8>, p: Seq<u8>) -> bool {
    exists|q: Seq<PathSeg>| nm == p + path_code(q)
}

/// `nm` is `p` followed by a nonempty encoded path whose first step has
/// the given separator kind and an index of at least `lo`.
pub open spec fn has_seg_tail(nm: Seq<u8>, p: Seq<u8>, var: bool, lo: nat) -> bool {
    exists|g: PathSeg, q: Seq<PathSeg>|
        nm == p + seg_code(g) + path_code(q) && g.var == var && g.idx >= lo
}

/// A name with a nonempty path differs from the bare base name.
proof fn lemma_seg_longer(p: Seq<u8>, g: PathSeg, q: Seq<PathSeg>)
    ensures
        p + seg_code(g) + path_code(q) != p,
{
    crate::text::lemma_dec_digits(g.idx);
    assert((p + seg_code(g) + path_code(q)).len() >= p.len() + 2);
}

/// Names whose first path steps differ are distinct.
proof fn lemma_seg_disjoint(p: Seq<u8>, g1: PathSeg, q1: Seq<PathSeg>, g2: PathSeg, q2: Seq<
    PathSeg,
>)
    requires
        g1 != g2,
    ensures
        p + seg_code(g1) + path_code(q1) != p + seg_code(g2) + path_code(q2),
{
    assert((seq![g1] + q1).skip(1) =~= q1);
    assert((seq![g2] + q2).skip(1) =~= q2);
    assert(path_code(seq![g1] + q1) == seg_code(g1) + path_code(q1));
    assert(path_code(seq![g2] + q2) == seg_code(g2) + path_code(q2));
    assert(p + seg_code(g1) + path_code(q1) =~= p + path_code(seq![g1] + q1));
    assert(p + seg_code(g2) + path_code(q2) =~= p + path_code(seq![g2] + q2));
    assert((seq![g1] + q1)[0] == g1);
    assert((seq![g2] + q2)[0] == g2);
    lemma_name_disjoint(p, seq![g1] + q1, seq![g2] + q2);
}

/// A name with a first step at `p` is a name with some path at `p`.
proof fn lemma_seg_tail_is_tail(nm: Seq<u8>, p: Seq<u8>, var: bool, lo: nat)
    requires
        has_seg_tail(nm, p, var, lo),
    ensures
        has_tail(nm, p),
{
    let (g, q): (PathSeg, Seq<PathSeg>) = choose|g: PathSeg, q: Seq<PathSeg>|
        nm == p + seg_code(g) + path_code(q) && g.var == var && g.idx >= lo;
    assert((seq![g] + q).skip(1) =~= q);
    assert(path_code(seq![g] + q) == seg_code(g) + path_code(q));
    assert(nm =~= p + path_code(seq![g] + q));
}

/// A name whose path starts below `p + seg_code(g)` has a first step `g`
/// at `p`.
proof fn lemma_tail_shift(nm: Seq<u8>, p: Seq<u8>, g: PathSeg)
    requires
        has_tail(nm, p + seg_code(g)),
    ensures
        has_seg_tail(nm, p, g.var, g.idx),
{
    let q = choose|q: Seq<PathSeg>| nm == (p + seg_code(g)) + path_code(q);
    assert(nm =~= p + seg_code(g) + path_code(q));
}

/// A first-step bound weakens downward.
proof fn lemma_seg_tail_weaken(nm: Seq<u8>, p: Seq<u8>, var: bool, lo1: nat, lo2: nat)
    requires
        has_seg_tail(nm, p, var, lo1),
        lo2 <= lo1,
    ensures
        has_seg_tail(nm, p, var, lo2),
{
    let (g, q): (PathSeg, Seq<PathSeg>) = choose|g: PathSeg, q: Seq<PathSeg>|
        nm == p + seg_code(g) + path_code(q) && g.var == var && g.idx >= lo1;
    assert(nm == p + seg_code(g) + path_code(q) && g.var == var && g.idx >= lo2);
}

/// Every name among the items that `spec_build` emits extends the base
/// name with an encoded path, and all those names are distinct.
pub proof fn lemma_build_unique(p: Seq<u8>, node: VdsV, n0: nat)
    ensures
        ({
            let its = spec_build(p, node, n0).0;
            &&& forall|k: int, l: int|
                0 <= k < l < its.len() ==> its[k].name() != its[l].name()
            &&& forall|k: int| 0 <= k < its.len() ==> has_tail(#[trigger] its[k].name(), p)
        }),
    decreases node, 0int,
{
    match node {
        VdsV::Keyword(_) | VdsV::Value(_) | VdsV::Type(_) => {
        },
        VdsV::Repetition { inner, .. } => {
            lemma_build_unique(p, *inner, n0);
            let its_i = spec_build(p, *inner, n0).0;
            let its = spec_build(p, node, n0).0;
            assert(its == its_i);
            assert forall|k: int, l: int|
                0 <= k < l < its.len() implies its[k].name() != its[l].name() by {
                assert(its_i[k].name() != its_i[l].name());
            }
            assert forall|k: int| 0 <= k < its.len() implies has_tail(#[trigger] its[k].name(), p) by {
                assert(has_tail(its_i[k].name(), p));
            }
        },
        VdsV::Sequence(cs) => {
            lemma_slots_unique(p, cs, 0, n0);
            let sub = spec_build_slots(p, cs, 0, n0).0;
            let its = spec_build(p, node, n0).0;
            let own = ItemV::Struct {
                name: p,
                kind: Order::OrderedAnd,
                fields: spec_build_slots(p, cs, 0, n0).1,
            };
            assert(its =~= sub + seq![own]);
            assert(own.name() == p);
            assert(p + path_code(Seq::<PathSeg>::empty()) =~= p);
            assert(has_tail(own.name(), p));
            assert forall|k: int| 0 <= k < its.len() implies has_tail(#[trigger] its[k].name(), p) by {
                if k < sub.len() {
                    assert(its[k] == sub[k]);
                    lemma_seg_tail_is_tail(sub[k].name(), p, false, 0);
                }
            }
            assert forall|k: int, l: int|
                0 <= k < l < its.len() implies its[k].name() != its[l].name() by {
                if l < sub.len() {
                    assert(its[k] == sub[k] && its[l] == sub[l]);
                } else {
                    assert(its[k] == sub[k] && its[l] == own);
                    assert(has_seg_tail(sub[k].name(), p, false, 0));
                    let (g, q): (PathSeg, Seq<PathSeg>) = choose|g: PathSeg, q: Seq<PathSeg>|
                        sub[k].name() == p + seg_code(g) + path_code(q) && g.var == false && g.idx
                            >= 0;
                    lemma_seg_longer(p, g, q);
                }
            }

        },
        VdsV::AllOf(cs) | VdsV::OneOrMoreOf(cs) => {
            lemma_unord_unique(p, cs, 0, n0);
            let sub = spec_build_unord(p, cs, 0, n0).0;
            let its = spec_build(p, node, n0).0;
            let own = its[its.len() - 1];
            assert(its =~= sub + seq![own]);
            assert(own.name() == p);
            assert(p + path_code(Seq::<PathSeg>::empty()) =~= p);
            assert(has_tail(own.name(), p));
            assert forall|k: int| 0 <= k < its.len() implies has_tail(#[trigger] its[k].name(), p) by {
                if k < sub.len() {
                    assert(its[k] == sub[k]);
                    lemma_seg_tail_is_tail(sub[k].name(), p, false, n0);
                }
            }
            assert forall|k: int, l: int|
                0 <= k < l < its.len() implies its[k].name() != its[l].name() by {
                if l < sub.len() {
                    assert(its[k] == sub[k] && its[l] == sub[l]);
                } else {
                    assert(its[k] == sub[k] && its[l] == own);
                    assert(has_seg_tail(sub[k].name(), p, false, n0));
                    let (g, q): (PathSeg, Seq<PathSeg>) = choose|g: PathSeg, q: Seq<PathSeg>|
                        sub[k].name() == p + seg_code(g) + path_code(q) && g.var == false && g.idx
                            >= n0;
                    lemma_seg_longer(p, g, q);
                }
            }

        },
        VdsV::Choice(os) => {
            lemma_opts_unique(p, os, 0, n0);
            let sub = spec_build_opts(p, os, 0, n0).0;
            let its = spec_build(p, node, n0).0;
            let own = ItemV::Enum { name: p, variants: spec_build_opts(p, os, 0, n0).1 };
            assert(its =~= sub + seq![own]);
            assert(own.name() == p);
            assert(p + path_code(Seq::<PathSeg>::empty()) =~= p);
            assert(has_tail(own.name(), p));
            assert forall|k: int| 0 <= k < its.len() implies has_tail(#[trigger] its[k].name(), p) by {
                if k < sub.len() {
                    assert(its[k] == sub[k]);
                    lemma_seg_tail_is_tail(sub[k].name(), p, true, n0);
                }
            }
            assert forall|k: int, l: int|
                0 <= k < l < its.len() implies its[k].name() != its[l].name() by {
                if l < sub.len() {
                    assert(its[k] == sub[k] && its[l] == sub[l]);
                } else {
                    assert(its[k] == sub[k] && its[l] == own);
                    assert(has_seg_tail(sub[k].name(), p, true, n0));
                    let (g, q): (PathSeg, Seq<PathSeg>) = choose|g: PathSeg, q: Seq<PathSeg>|
                        sub[k].name() == p + seg_code(g) + path_code(q) && g.var == true && g.idx
                            >= n0;
                    lemma_seg_longer(p, g, q);
                }
            }

        },
    }
}

/// Names among the items of the slot walker: each starts with a positional
/// step of index at least `i`, and all are distinct.
proof fn lemma_slots_unique(p: Seq<u8>, cs: Seq<VdsV>, i: nat, n0: nat)
    ensures
        ({
            let its = spec_build_slots(p, cs, i, n0).0;
            &&& forall|k: int, l: int|
                0 <= k < l < its.len() ==> its[k].name() != its[l].name()
            &&& forall|k: int|
                0 <= k < its.len() ==> has_seg_tail(#[trigger] its[k].name(), p, false, i)
        }),
    decreases cs, cs.len() - i,
{
    if i < cs.len() {
        let gi = PathSeg { var: false, idx: i };
        let pi = p + seg_code(gi);
        let a = spec_build(pi, cs[i as int], n0).0;
        let rest = spec_build_slots(p, cs, i + 1, n0 + a.len()).0;
        let its = spec_build_slots(p, cs, i, n0).0;
        assert(its =~= a + rest);
        lemma_build_unique(pi, cs[i as int], n0);
        lemma_slots_unique(p, cs, i + 1, n0 + a.len());
        assert forall|k: int| 0 <= k < its.len() implies has_seg_tail(
            #[trigger] its[k].name(),
            p,
            false,
            i,
        ) by {
            if k < a.len() {
                assert(its[k] == a[k]);
                assert(has_tail(a[k].name(), pi));
                lemma_tail_shift(a[k].name(), p, gi);
            } else {
                assert(its[k] == rest[k - a.len()]);
                lemma_seg_tail_weaken(rest[k - a.len()].name(), p, false, i + 1, i);
            }
        }
        assert forall|k: int, l: int|
            0 <= k < l < its.len() implies its[k].name() != its[l].name() by {
            if l < a.len() {
                assert(its[k] == a[k] && its[l] == a[l]);
            } else if k >= a.len() {
                assert(its[k] == rest[k - a.len()] && its[l] == rest[l - a.len()]);
            } else {
                assert(its[k] == a[k] && its[l] == rest[l - a.len()]);
                assert(has_tail(a[k].name(), pi));
                let q1 = choose|q: Seq<PathSeg>| a[k].name() == pi + path_code(q);
                assert(a[k].name() =~= p + seg_code(gi) + path_code(q1));
                let (g2, q2): (PathSeg, Seq<PathSeg>) = choose|g: PathSeg, q: Seq<PathSeg>|
                    rest[l - a.len()].name() == p + seg_code(g) + path_code(q) && g.var == false
                        && g.idx >= i + 1;
                lemma_seg_disjoint(p, gi, q1, g2, q2);
            }
        }
    }
}

/// Names among the items of the unordered-children walker: each starts
/// with a positional step of index at least `n`, and all are distinct.
proof fn lemma_unord_unique(p: Seq<u8>, cs: Seq<VdsV>, i: nat, n: nat)
    ensures
        ({
            let its = spec_build_unord(p, cs, i, n).0;
            &&& forall|k: int, l: int|
                0 <= k < l < its.len() ==> its[k].name() != its[l].name()
            &&& forall|k: int|
                0 <= k < its.len() ==> has_seg_tail(#[trigger] its[k].name(), p, false, n)
        }),
    decreases cs, cs.len() - i,
{
    if i < cs.len() {
        match cs[i as int] {
            VdsV::Keyword(_) | VdsV::Value(_) | VdsV::Type(_) => {
                lemma_unord_unique(p, cs, i + 1, n);
                assert(spec_build_unord(p, cs, i, n).0 == spec_build_unord(p, cs, i + 1, n).0);
            },
            _ => {
                let gn = PathSeg { var: false, idx: n };
                let pk = p + seg_code(gn);
                let a = spec_build(pk, cs[i as int], n).0;
                let rest = spec_build_unord(p, cs, i + 1, n + a.len()).0;
                let its = spec_build_unord(p, cs, i, n).0;
                assert(its =~= a + rest);
                lemma_build_unique(pk, cs[i as int], n);
                lemma_unord_unique(p, cs, i + 1, n + a.len());
                assert forall|k: int| 0 <= k < its.len() implies has_seg_tail(
                    #[trigger] its[k].name(),
                    p,
                    false,
                    n,
                ) by {
                    if k < a.len() {
                        assert(its[k] == a[k]);
                        assert(has_tail(a[k].name(), pk));
                        lemma_tail_shift(a[k].name(), p, gn);
                    } else {
                        assert(its[k] == rest[k - a.len()]);
                        lemma_seg_tail_weaken(rest[k - a.len()].name(), p, false, n + a.len(), n);
                    }
                }
                assert forall|k: int, l: int|
                    0 <= k < l < its.len() implies its[k].name() != its[l].name() by {
                    if l < a.len() {
                        assert(its[k] == a[k] && its[l] == a[l]);
                    } else if k >= a.len() {
                        assert(its[k] == rest[k - a.len()] && its[l] == rest[l - a.len()]);
                    } else {
                        assert(its[k] == a[k] && its[l] == rest[l - a.len()]);
                        assert(has_tail(a[k].name(), pk));
                        let q1 = choose|q: Seq<PathSeg>| a[k].name() == pk + path_code(q);
                        assert(a[k].name() =~= p + seg_code(gn) + path_code(q1));
                        let (g2, q2): (PathSeg, Seq<PathSeg>) = choose|
                            g: PathSeg,
                            q: Seq<PathSeg>,
                        |
                            rest[l - a.len()].name() == p + seg_code(g) + path_code(q) && g.var
                                == false && g.idx >= n + a.len();
                        assert(a.len() >= 1);
                        lemma_seg_disjoint(p, gn, q1, g2, q2);
                    }
                }
            },
        }
    }
}

/// Names among the items of the options walker: each starts with a
/// variant step of index at least `n`, and all are distinct.
proof fn lemma_opts_unique(p: Seq<u8>, os: Seq<VdsV>, i: nat, n: nat)
    ensures
        ({
            let its = spec_build_opts(p, os, i, n).0;
            &&& forall|k: int, l: int|
                0 <= k < l < its.len() ==> its[k].name() != its[l].name()
            &&& forall|k: int|
                0 <= k < its.len() ==> has_seg_tail(#[trigger] its[k].name(), p, true, n)
        }),
    decreases os, os.len() - i,
{
    if i < os.len() {
        match os[i as int] {
            VdsV::Keyword(_) | VdsV::Value(_) | VdsV::Type(_) => {
                lemma_opts_unique(p, os, i + 1, n);
                assert(spec_build_opts(p, os, i, n).0 == spec_build_opts(p, os, i + 1, n).0);
            },
            _ => {
                let gn = PathSeg { var: true, idx: n };
                let vk = p + seg_code(gn);
                let a = spec_build(vk, os[i as int], n).0;
                let rest = spec_build_opts(p, os, i + 1, n + a.len()).0;
                let its = spec_build_opts(p, os, i, n).0;
                assert(its =~= a + rest);
                lemma_build_unique(vk, os[i as int], n);
                lemma_opts_unique(p, os, i + 1, n + a.len());
                assert forall|k: int| 0 <= k < its.len() implies has_seg_tail(
                    #[trigger] its[k].name(),
                    p,
                    true,
                    n,
                ) by {
                    if k < a.len() {
                        assert(its[k] == a[k]);
                        assert(has_tail(a[k].name(), vk));
                        lemma_tail_shift(a[k].name(), p, gn);
                    } else {
                        assert(its[k] == rest[k - a.len()]);
                        lemma_seg_tail_weaken(rest[k - a.len()].name(), p, true, n + a.len(), n);
                    }
                }
                assert forall|k: int, l: int|
                    0 <= k < l < its.len() implies its[k].name() != its[l].name() by {
                    if l < a.len() {
                        assert(its[k] == a[k] && its[l] == a[l]);
                    } else if k >= a.len() {
                        assert(its[k] == rest[k - a.len()] && its[l] == rest[l - a.len()]);
                    } else {
                        assert(its[k] == a[k] && its[l] == rest[l - a.len()]);
                        assert(has_tail(a[k].name(), vk));
                        let q1 = choose|q: Seq<PathSeg>| a[k].name() == vk + path_code(q);
                        assert(a[k].name() =~= p + seg_code(gn) + path_code(q1));
                        let (g2, q2): (PathSeg, Seq<PathSeg>) = choose|
                            g: PathSeg,
                            q: Seq<PathSeg>,
                        |
                            rest[l - a.len()].name() == p + seg_code(g) + path_code(q) && g.var
                                == true && g.idx >= n + a.len();
                        assert(a.len() >= 1);
                        lemma_seg_disjoint(p, gn, q1, g2, q2);
                    }
                }
            },
        }
    }
}

/// Name uniqueness: in the item list that `build_ir` emits for one grammar
/// tree, no two items carry the same name.
pub proof fn lemma_build_ir_names_unique(name: Seq<u8>, node: VdsV, n0: nat)
    ensures
        ({
            let its = spec_build(spec_pascal(name), node, n0).0;
            forall|k: int, l: int| 0 <= k < l < its.len() ==> its[k].name() != its[l].name()
        }),
{
    lemma_build_unique(spec_pascal(name), node, n0);
}

/// The base name of a nested construct: the parent name extended with a
/// separator letter and a decimal index.
fn child_name(p: &Vec<u8>, var: bool, idx: usize) -> (r: Vec<u8>)
    ensures
        r@ == p@ + seg_code(PathSeg { var, idx: idx as nat }),
{
    let mut r = copy_bytes(p);
    if var {
        r.push(VARIANT_SEP);
    } else {
        r.push(FIELD_SEP);
    }
    let mut d = dec_digits(idx);
    r.append(&mut d);
    proof {
        assert(r@ =~= p@ + seg_code(PathSeg { var, idx: idx as nat }));
    }
    r
}

/// Lower `node` into `items`, with `p` the canonical base name; the body of
/// `build_ir` after the base name has been canonicalized.
#[verifier::loop_isolation(false)]
#[verifier::rlimit(100)]
#[verifier::spinoff_prover]
fn build_canon(p: &Vec<u8>, node: &VDS, items: &mut Vec<IrItem>) -> (t: IrType)
    ensures
        items_view(final(items)@) == items_view(old(items)@) + spec_build(
            p@,
            vds_view(*node),
            old(items)@.len() as nat,
        ).0,
        ty_view(t) == spec_build(p@, vds_view(*node), old(items)@.len() as nat).1,
    decreases *node,
{
    let ghost n0 = items@.len() as nat;
    match node {
        VDS::Keyword(s) | VDS::Value(s) | VDS::Type(s) => {
            proof {
                assert(items_view(items@) + Seq::<ItemV>::empty() =~= items_view(items@));
            }
            IrType::Leaf(to_pascal(s))
        },
        VDS::Repetition { inner, min, max } => {
            let t = build_canon(p, &**inner, items);
            IrType::Repetition { inner: Box::new(t), min: *min, max: *max }
        },
        VDS::Sequence(cs) => {
            let ghost csv = vds_view_list(cs@, 0);
            let mut fields: Vec<IrField> = Vec::new();
            let mut i: usize = 0;
            proof {
                lemma_vds_view_list(cs@, 0);
                assert(vds_view(*node) == VdsV::Sequence(csv));
                assert(items_view(items@).skip(n0 as int) =~= Seq::<ItemV>::empty());
            }
            while i < cs.len()
                invariant
                    i <= cs@.len(),
                    items@.len() >= n0,
                    items_view(items@).take(n0 as int) == items_view(old(items)@),
                    spec_build_slots(p@, csv, 0, n0) == (
                        items_view(items@).skip(n0 as int) + spec_build_slots(
                            p@,
                            csv,
                            i as nat,
                            items@.len() as nat,
                        ).0,
                        fields@.map_values(|f: IrField| field_view(f)) + spec_build_slots(
                            p@,
                            csv,
                            i as nat,
                            items@.len() as nat,
                        ).1,
                    ),
                decreases cs@.len() - i,
            {
                let ghost items_pre = items@;
                let ghost fs_pre = fields@;
                let ghost l_pre = items@.len() as nat;
                let pi = child_name(p, false, i);
                let t = build_canon(&pi, &cs[i], items);
                let fname = to_snake(&pi);
                fields.push(IrField { name: fname, ty: t });
                i = i + 1;
                proof {
                    assert(csv[i - 1] == vds_view(cs@[i - 1]));
                    let (its1, t1) = spec_build(pi@, csv[i - 1], l_pre);
                    let (rest_its, rest_fs) = spec_build_slots(
                        p@,
                        csv,
                        i as nat,
                        items@.len() as nat,
                    );
                    assert(items_view(items@) =~= items_view(items_pre) + its1);
                    assert(items_view(items@).take(n0 as int) =~= items_view(items_pre).take(
                        n0 as int,
                    ));
                    assert(items_view(items@).skip(n0 as int) =~= items_view(items_pre).skip(
                        n0 as int,
                    ) + its1);
                    assert((items_view(items_pre).skip(n0 as int) + its1) + rest_its
                        =~= items_view(items_pre).skip(n0 as int) + (its1 + rest_its));
                    assert(fields@.map_values(|f: IrField| field_view(f)) =~= fs_pre.map_values(
                        |f: IrField| field_view(f),
                    ) + seq![FieldV { name: spec_snake(pi@), ty: t1 }]);
                    assert((fs_pre.map_values(|f: IrField| field_view(f)) + seq![
                        FieldV { name: spec_snake(pi@), ty: t1 },
                    ]) + rest_fs =~= fs_pre.map_values(|f: IrField| field_view(f)) + (seq![
                        FieldV { name: spec_snake(pi@), ty: t1 },
                    ] + rest_fs));
                }
            }
            let name = copy_bytes(p);
            let ghost fs_all = fields@.map_values(|f: IrField| field_view(f));
            let ghost items_before_push = items@;
            items.push(IrItem::Struct(IrStruct { name, kind: Order::OrderedAnd, fields }));
            proof {
                assert(spec_build_slots(p@, csv, cs@.len(), items_before_push.len() as nat).0
                    =~= Seq::<ItemV>::empty());
                assert(spec_build_slots(p@, csv, cs@.len(), items_before_push.len() as nat).1
                    =~= Seq::<FieldV>::empty());
                assert(items_view(items_before_push).skip(n0 as int) + Seq::<ItemV>::empty()
                    =~= items_view(items_before_push).skip(n0 as int));
                assert(fs_all + Seq::<FieldV>::empty() =~= fs_all);
                assert(items_view(items_before_push) =~= items_view(items_before_push).take(
                    n0 as int,
                ) + items_view(items_before_push).skip(n0 as int));
                assert(items_view(items@) =~= items_view(items_before_push) + seq![
                    ItemV::Struct { name: p@, kind: Order::OrderedAnd, fields: fs_all },
                ]);
                assert(items_view(items@) =~= items_view(old(items)@) + (items_view(
                    items_before_push,
                ).skip(n0 as int) + seq![
                    ItemV::Struct { name: p@, kind: Order::OrderedAnd, fields: fs_all },
                ]));
            }
            IrType::Named(copy_bytes(p))
        },
        VDS::AllOf(cs) | VDS::OneOrMoreOf(cs) => {
            let ghost csv = vds_view_list(cs@, 0);
            let mut fields: Vec<IrField> = Vec::new();
            let mut i: usize = 0;
            proof {
                lemma_vds_view_list(cs@, 0);
                assert(vds_view(*node) == if node is AllOf {
                    VdsV::AllOf(csv)
                } else {
                    VdsV::OneOrMoreOf(csv)
                });
                assert(items_view(items@).skip(n0 as int) =~= Seq::<ItemV>::empty());
            }
            while i < cs.len()
                invariant
                    i <= cs@.len(),
                    items@.len() >= n0,
                    items_view(items@).take(n0 as int) == items_view(old(items)@),
                    spec_build_unord(p@, csv, 0, n0) == (
                        items_view(items@).skip(n0 as int) + spec_build_unord(
                            p@,
                            csv,
                            i as nat,
                            items@.len() as nat,
                        ).0,
                        fields@.map_values(|f: IrField| field_view(f)) + spec_build_unord(
                            p@,
                            csv,
                            i as nat,
                            items@.len() as nat,
                        ).1,
                    ),
                decreases cs@.len() - i,
            {
                let ghost items_pre = items@;
                let ghost fs_pre = fields@;
                let ghost l_pre = items@.len() as nat;
                let child = &cs[i];
                match child {
                    VDS::Keyword(s) | VDS::Value(s) | VDS::Type(s) => {
                        let fname = to_snake(s);
                        let fty = IrType::Leaf(to_pascal(s));
                        fields.push(IrField { name: fname, ty: fty });
                        i = i + 1;
                        proof {
                            assert(csv[i - 1] == vds_view(cs@[i - 1]));
                            let (rest_its, rest_fs) = spec_build_unord(
                                p@,
                                csv,
                                i as nat,
                                items@.len() as nat,
                            );
                            let f = FieldV {
                                name: spec_snake(s@),
                                ty: TyV::Leaf(spec_pascal(s@)),
                            };
                            assert(fields@.map_values(|f: IrField| field_view(f))
                                =~= fs_pre.map_values(|f: IrField| field_view(f)) + seq![f]);
                            assert((fs_pre.map_values(|f: IrField| field_view(f)) + seq![f])
                                + rest_fs =~= fs_pre.map_values(|f: IrField| field_view(f)) + (
                            seq![f] + rest_fs));
                        }
                    },
                    _ => {
                        let pk = child_name(p, false, items.len());
                        let t = build_canon(&pk, child, items);
                        let fname = to_snake(&pk);
                        fields.push(IrField { name: fname, ty: t });
                        i = i + 1;
                        proof {
                            assert(csv[i - 1] == vds_view(cs@[i - 1]));
                            let (its1, t1) = spec_build(pk@, csv[i - 1], l_pre);
                            let (rest_its, rest_fs) = spec_build_unord(
                                p@,
                                csv,
                                i as nat,
                                items@.len() as nat,
                            );
                            let f = FieldV { name: spec_snake(pk@), ty: t1 };
                            assert(items_view(items@) =~= items_view(items_pre) + its1);
                            assert(items_view(items@).take(n0 as int) =~= items_view(
                                items_pre,
                            ).take(n0 as int));
                            assert(items_view(items@).skip(n0 as int) =~= items_view(
                                items_pre,
                            ).skip(n0 as int) + its1);
                            assert((items_view(items_pre).skip(n0 as int) + its1) + rest_its
                                =~= items_view(items_pre).skip(n0 as int) + (its1 + rest_its));
                            assert(fields@.map_values(|f: IrField| field_view(f))
                                =~= fs_pre.map_values(|f: IrField| field_view(f)) + seq![f]);
                            assert((fs_pre.map_values(|f: IrField| field_view(f)) + seq![f])
                                + rest_fs =~= fs_pre.map_values(|f: IrField| field_view(f)) + (
                            seq![f] + rest_fs));
                        }
                    },
                }
            }
            let name = copy_bytes(p);
            let ghost fs_all = fields@.map_values(|f: IrField| field_view(f));
            let ghost items_before_push = items@;
            let k = if matches!(node, VDS::AllOf(_)) {
                Order::UnorderedAnd
            } else {
                Order::OneOrMore
            };
            items.push(IrItem::Struct(IrStruct { name, kind: k, fields }));
            proof {
                assert(spec_build_unord(p@, csv, cs@.len(), items_before_push.len() as nat).0
                    =~= Seq::<ItemV>::empty());
                assert(spec_build_unord(p@, csv, cs@.len(), items_before_push.len() as nat).1
                    =~= Seq::<FieldV>::empty());
                assert(items_view(items_before_push).skip(n0 as int) + Seq::<ItemV>::empty()
                    =~= items_view(items_before_push).skip(n0 as int));
                assert(fs_all + Seq::<FieldV>::empty() =~= fs_all);
                assert(items_view(items_before_push) =~= items_view(items_before_push).take(
                    n0 as int,
                ) + items_view(items_before_push).skip(n0 as int));
                assert(items_view(items@) =~= items_view(items_before_push) + seq![
                    ItemV::Struct { name: p@, kind: k, fields: fs_all },
                ]);
                assert(items_view(items@) =~= items_view(old(items)@) + (items_view(
                    items_before_push,
                ).skip(n0 as int) + seq![ItemV::Struct { name: p@, kind: k, fields: fs_all }]));
            }
            IrType::Named(copy_bytes(p))
        },
        VDS::Choice(os) => {
            let ghost osv = vds_view_list(os@, 0);
            let mut variants: Vec<IrVariant> = Vec::new();
            let mut i: usize = 0;
            proof {
                lemma_vds_view_list(os@, 0);
                assert(vds_view(*node) == VdsV::Choice(osv));
                assert(items_view(items@).skip(n0 as int) =~= Seq::<ItemV>::empty());
            }
            while i < os.len()
                invariant
                    i <= os@.len(),
                    items@.len() >= n0,
                    items_view(items@).take(n0 as int) == items_view(old(items)@),
                    spec_build_opts(p@, osv, 0, n0) == (
                        items_view(items@).skip(n0 as int) + spec_build_opts(
                            p@,
                            osv,
                            i as nat,
                            items@.len() as nat,
                        ).0,
                        variants@.map_values(|v: IrVariant| variant_view(v)) + spec_build_opts(
                            p@,
                            osv,
                            i as nat,
                            items@.len() as nat,
                        ).1,
                    ),
                decreases os@.len() - i,
            {
                let ghost items_pre = items@;
                let ghost vs_pre = variants@;
                let ghost l_pre = items@.len() as nat;
                let opt = &os[i];
                match opt {
                    VDS::Keyword(s) => {
                        variants.push(IrVariant { name: to_pascal(s), payload: None });
                        i = i + 1;
                        proof {
                            assert(osv[i - 1] == vds_view(os@[i - 1]));
                            let (rest_its, rest_vs) = spec_build_opts(
                                p@,
                                osv,
                                i as nat,
                                items@.len() as nat,
                            );
                            let v = VariantV { name: spec_pascal(s@), payload: None };
                            assert(variants@.map_values(|v: IrVariant| variant_view(v))
                                =~= vs_pre.map_values(|v: IrVariant| variant_view(v)) + seq![v]);
                            assert((vs_pre.map_values(|v: IrVariant| variant_view(v)) + seq![v])
                                + rest_vs =~= vs_pre.map_values(|v: IrVariant| variant_view(v)) + (
                            seq![v] + rest_vs));
                        }
                    },
                    VDS::Value(s) | VDS::Type(s) => {
                        let vname = to_pascal(s);
                        let pty = IrType::Leaf(to_pascal(s));
                        variants.push(IrVariant { name: vname, payload: Some(pty) });
                        i = i + 1;
                        proof {
                            assert(osv[i - 1] == vds_view(os@[i - 1]));
                            let (rest_its, rest_vs) = spec_build_opts(
                                p@,
                                osv,
                                i as nat,
                                items@.len() as nat,
                            );
                            let v = VariantV {
                                name: spec_pascal(s@),
                                payload: Some(TyV::Leaf(spec_pascal(s@))),
                            };
                            assert(variants@.map_values(|v: IrVariant| variant_view(v))
                                =~= vs_pre.map_values(|v: IrVariant| variant_view(v)) + seq![v]);
                            assert((vs_pre.map_values(|v: IrVariant| variant_view(v)) + seq![v])
                                + rest_vs =~= vs_pre.map_values(|v: IrVariant| variant_view(v)) + (
                            seq![v] + rest_vs));
                        }
                    },
                    _ => {
                        let vk = child_name(p, true, items.len());
                        let t = build_canon(&vk, opt, items);
                        let vname = copy_bytes(&vk);
                        variants.push(IrVariant { name: vname, payload: Some(t) });
                        i = i + 1;
                        proof {
                            assert(osv[i - 1] == vds_view(os@[i - 1]));
                            let (its1, t1) = spec_build(vk@, osv[i - 1], l_pre);
                            let (rest_its, rest_vs) = spec_build_opts(
                                p@,
                                osv,
                                i as nat,
                                items@.len() as nat,
                            );
                            let v = VariantV { name: vk@, payload: Some(t1) };
                            assert(items_view(items@) =~= items_view(items_pre) + its1);
                            assert(items_view(items@).take(n0 as int) =~= items_view(
                                items_pre,
                            ).take(n0 as int));
                            assert(items_view(items@).skip(n0 as int) =~= items_view(
                                items_pre,
                            ).skip(n0 as int) + its1);
                            assert((items_view(items_pre).skip(n0 as int) + its1) + rest_its
                                =~= items_view(items_pre).skip(n0 as int) + (its1 + rest_its));
                            assert(variants@.map_values(|v: IrVariant| variant_view(v))
                                =~= vs_pre.map_values(|v: IrVariant| variant_view(v)) + seq![v]);
                            assert((vs_pre.map_values(|v: IrVariant| variant_view(v)) + seq![v])
                                + rest_vs =~= vs_pre.map_values(|v: IrVariant| variant_view(v)) + (
                            seq![v] + rest_vs));
                        }
                    },
                }
            }
            let name = copy_bytes(p);
            let ghost vs_all = variants@.map_values(|v: IrVariant| variant_view(v));
            let ghost items_before_push = items@;
            items.push(IrItem::Enum(IrEnum { name, variants }));
            proof {
                assert(spec_build_opts(p@, osv, os@.len(), items_before_push.len() as nat).0
                    =~= Seq::<ItemV>::empty());
                assert(spec_build_opts(p@, osv, os@.len(), items_before_push.len() as nat).1
                    =~= Seq::<VariantV>::empty());
                assert(items_view(items_before_push).skip(n0 as int) + Seq::<ItemV>::empty()
                    =~= items_view(items_before_push).skip(n0 as int));
                assert(vs_all + Seq::<VariantV>::empty() =~= vs_all);
                assert(items_view(items_before_push) =~= items_view(items_before_push).take(
                    n0 as int,
                ) + items_view(items_before_push).skip(n0 as int));
                assert(items_view(items@) =~= items_view(items_before_push) + seq![
                    ItemV::Enum { name: p@, variants: vs_all },
                ]);
                assert(items_view(items@) =~= items_view(old(items)@) + (items_view(
                    items_before_push,
                ).skip(n0 as int) + seq![ItemV::Enum { name: p@, variants: vs_all }]));
            }
            IrType::Named(copy_bytes(p))
        },
    }
}

/// Lower a grammar tree into an ordered list of IR items.
///
/// Appends the items synthesized for `node` (depth first, each compound
/// construct after the items its fields reference) to `items` and returns
/// the type reference for the whole of `node`.  The result is a function of
/// the base name, the tree, and the number of items already in the list,
/// and of nothing else.
pub fn build_ir(name: &Vec<u8>, node: &VDS, items: &mut Vec<IrItem>) -> (t: IrType)
    ensures
        items_view(final(items)@) == items_view(old(items)@) + spec_build(
            spec_pascal(name@),
            vds_view(*node),
            old(items)@.len() as nat,
        ).0,
        ty_view(t) == spec_build(spec_pascal(name@), vds_view(*node), old(items)@.len() as nat).1,
{
    let p = to_pascal(name);
    build_canon(&p, node, items)
}

} // verus!
