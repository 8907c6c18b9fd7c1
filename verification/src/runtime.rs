//! The runtime value parser: an interpreter that runs the IR of a property
//! as a recursive-descent parser over a CSS token stream.
//!
//! Each parsing function is specified against a specification-level run of
//! the same IR over the plain token list (`spec_run_prop` and its
//! companions): it succeeds exactly when that run matches, with exactly its
//! value and final position, and fails exactly where it does, leaving the
//! cursor where it started (the backtracking contract).  A repetition
//! never collects more than its upper bound and never succeeds below its
//! lower bound.  An ordered struct matches its fields in declared order;
//! an unordered struct matches them greedily over repeated passes, in
//! field order within each pass, until a pass matches nothing (a design
//! choice where permutation search would also be defensible); a
//! one-or-more struct makes a single pass, each field tried once, and
//! succeeds when at least one field matched; an enum takes the first
//! variant that matches.  A leaf type is a built-in value type, the top
//! type of the first earlier property of that name, or a keyword matched
//! ASCII-case-insensitively against the identifier under the cursor (the
//! token's lower-cased text, canonically cased, must equal the name).

use vstd::prelude::*;

use crate::ir::{item_view, ty_view, IrItem, IrType, ItemV, Order, TyV};
use crate::registry::Registry;
use crate::text::{bytes_eq, copy_bytes};
use crate::tokens::{CssToken, TokenCursor};
use crate::values::{
    lemma_val_view_list, parse_length, parse_percentage, parse_uri, spec_color_at, spec_unit_of,
    url_parse, val_view, val_view_list, Color, CssValue, NoMatch, ValV,
};

verus! {

/// The canonical name of the built-in length type.
pub open spec fn name_length() -> Seq<u8> {
    seq![76u8, 101u8, 110u8, 103u8, 116u8, 104u8]
}

/// The canonical name of the built-in percentage type.
pub open spec fn name_percentage() -> Seq<u8> {
    seq![80u8, 101u8, 114u8, 99u8, 101u8, 110u8, 116u8, 97u8, 103u8, 101u8]
}

/// The canonical name of the built-in color type.
pub open spec fn name_color() -> Seq<u8> {
    seq![67u8, 111u8, 108u8, 111u8, 114u8]
}

/// The canonical name of the built-in URL type.
pub open spec fn name_uri() -> Seq<u8> {
    seq![85u8, 114u8, 105u8]
}

/// What a value parsed for a leaf type must be, as a coarse summary beside
/// the exact specification run: the built-in types produce their own value
/// kinds; any other leaf name is a property delegation or a keyword match,
/// whose result `spec_run_leaf` pins exactly.
pub open spec fn leaf_fits(n: Seq<u8>, v: CssValue) -> bool {
    if n == name_length() {
        v is Length
    } else if n == name_percentage() {
        v is Percentage
    } else if n == name_color() {
        v is Color
    } else if n == name_uri() {
        v is Uri
    } else {
        true
    }
}

/// What a value parsed for a type reference must be.  A repetition with
/// bounds `(0, 1)` yields an optional value; any other repetition yields a
/// list of at least `min` and, where bounded, at most `max` elements, each
/// fitting the inner type.
pub open spec fn val_fits(ty: TyV, v: CssValue) -> bool
    decreases ty,
{
    match ty {
        TyV::Leaf(n) => leaf_fits(n, v),
        TyV::Named(n) => match v {
            CssValue::StructVal { name, .. } => name@ == n,
            CssValue::EnumVal { name, .. } => name@ == n,
            _ => false,
        },
        TyV::Rep { inner, min, max } => {
            if min == 0 && max == Some(1nat) {
                match v {
                    CssValue::Maybe(o) => match o {
                        Some(b) => val_fits(*inner, *b),
                        None => true,
                    },
                    _ => false,
                }
            } else {
                match v {
                    CssValue::List(es) => {
                        &&& min <= es@.len()
                        &&& match max {
                            Some(m) => es@.len() <= m,
                            None => true,
                        }
                        &&& forall|k: int| 0 <= k < es@.len() ==> val_fits(*inner, #[trigger] es@[k])
                    },
                    _ => false,
                }
            }
        },
    }
}

/// What a value parsed for an IR item must be: a struct value with one
/// value per field (each wrapped optional for a one-or-more struct), or an
/// enum value carrying a declared variant.
pub open spec fn val_fits_item(it: ItemV, v: CssValue) -> bool {
    match it {
        ItemV::Struct { name, kind, fields } => match v {
            CssValue::StructVal { name: vn, fields: vs } => {
                &&& vn@ == name
                &&& vs@.len() == fields.len()
                &&& forall|k: int|
                    0 <= k < fields.len() ==> match kind {
                        Order::OneOrMore => match #[trigger] vs@[k] {
                            CssValue::Maybe(o) => match o {
                                Some(b) => val_fits(fields[k].ty, *b),
                                None => true,
                            },
                            _ => false,
                        },
                        _ => val_fits(fields[k].ty, vs@[k]),
                    }
            },
            _ => false,
        },
        ItemV::Enum { name, variants } => match v {
            CssValue::EnumVal { name: vn, variant, payload } => {
                &&& vn@ == name
                &&& (variant as int) < variants.len()
                &&& match variants[variant as int].payload {
                    Some(t) => match payload {
                        Some(b) => val_fits(t, *b),
                        None => false,
                    },
                    None => payload is None,
                }
            },
            _ => false,
        },
    }
}


/// Where a `<length>` leaf stands at position `i`: a dimension token with a
/// known unit.
pub open spec fn spec_length_at(toks: Seq<CssToken>, i: nat) -> Option<(ValV, nat)> {
    if i < toks.len() {
        match toks[i as int] {
            CssToken::Dimension { value, unit } => match spec_unit_of(unit@) {
                Some(u) => Some((ValV::Length { value: value@, unit: u }, (i + 1) as nat)),
                None => None,
            },
            _ => None,
        }
    } else {
        None
    }
}

/// Where a `<percentage>` leaf stands at position `i`.
pub open spec fn spec_percentage_at(toks: Seq<CssToken>, i: nat) -> Option<(ValV, nat)> {
    if i < toks.len() {
        match toks[i as int] {
            CssToken::Percentage(value) => Some((ValV::Percentage(value@), (i + 1) as nat)),
            _ => None,
        }
    } else {
        None
    }
}

/// Where a `<uri>` leaf stands at position `i`: a URL token whose text the
/// URL parser accepts, yielding the normalized text.
pub open spec fn spec_uri_at(toks: Seq<CssToken>, i: nat) -> Option<(ValV, nat)> {
    if i < toks.len() {
        match toks[i as int] {
            CssToken::Url(s) => match url_parse(s@) {
                Some(n) => Some((ValV::Uri(n), (i + 1) as nat)),
                None => None,
            },
            _ => None,
        }
    } else {
        None
    }
}

/// Whether the identifier token matches a keyword, ASCII
/// case-insensitively: the lower-cased token text equals, byte for byte,
/// the keyword's own kebab text (the canonical Pascal name written back in
/// kebab form, so `NwResize` matches exactly `nw-resize` in any letter
/// case, and nothing else).
pub open spec fn keyword_matches(s: Seq<u8>, n: Seq<u8>) -> bool {
    crate::text::spec_lower_all(s) == crate::text::spec_kebab(n)
}

/// The first property among the first `p` entries whose Pascal name is
/// `n`, scanning from `q`.
pub open spec fn spec_find_prop(reg: Registry, p: nat, n: Seq<u8>, q: nat) -> Option<nat>
    decreases p - q,
{
    if q >= p {
        None
    } else if reg.props@[q as int].pascal@ == n {
        Some(q)
    } else {
        spec_find_prop(reg, p, n, q + 1)
    }
}

/// The first item among the first `bound` items of property `p` whose name
/// is `n`, scanning from `j`.
pub open spec fn spec_find_item(reg: Registry, p: nat, bound: nat, n: Seq<u8>, j: nat) -> Option<
    nat,
>
    decreases bound - j,
{
    if j >= bound || p >= reg.props@.len() || bound > reg.props@[p as int].items@.len() {
        None
    } else if item_view(reg.props@[p as int].items@[j as int]).name() == n {
        Some(j)
    } else {
        spec_find_item(reg, p, bound, n, j + 1)
    }
}

/// The views of a list of optional field slots.
pub open spec fn slots_view(s: Seq<Option<CssValue>>) -> Seq<Option<ValV>> {
    s.map_values(
        |o: Option<CssValue>|
            match o {
                Some(v) => Some(val_view(v)),
                None => None::<ValV>,
            },
    )
}

/// Whether some slot is still empty.
pub open spec fn has_empty_slot(s: Seq<Option<ValV>>) -> bool {
    exists|q: int| 0 <= q < s.len() && s[q] is None
}

/// The values of a list of filled slots, empty slots skipped.
pub open spec fn unwrap_slots(s: Seq<Option<ValV>>, k: nat) -> Seq<ValV>
    decreases s.len() - k,
{
    if k >= s.len() {
        Seq::<ValV>::empty()
    } else {
        match s[k as int] {
            Some(v) => seq![v] + unwrap_slots(s, k + 1),
            None => unwrap_slots(s, k + 1),
        }
    }
}

/// Run the parser of the property at `p` from position `i`: the value and
/// the position after it, `None` where the tokens do not match.
pub open spec fn spec_run_prop(reg: Registry, p: nat, toks: Seq<CssToken>, i: nat) -> Option<
    (ValV, nat),
>
    decreases p, 1int, 0int, 0int, 0int, 0int, 0int,
{
    if p < reg.props@.len() && i <= toks.len() {
        let e = reg.props@[p as int];
        spec_run_ty(reg, p, e.items@.len(), e.top, toks, i)
    } else {
        None
    }
}

/// Run the parser of a leaf type from position `i`: a built-in value
/// type, the top type of the first earlier property of that name, or a
/// keyword matched case-insensitively against the identifier under the
/// cursor.
pub open spec fn spec_run_leaf(reg: Registry, p: nat, n: Seq<u8>, toks: Seq<CssToken>, i: nat)
    -> Option<(ValV, nat)>
    decreases p, 0int, 0int, 0int, 0int, 0int, 1int,
{
    if n == name_length() {
        spec_length_at(toks, i)
    } else if n == name_percentage() {
        spec_percentage_at(toks, i)
    } else if n == name_color() {
        match spec_color_at(toks, i) {
            Some((c, j)) => Some((ValV::Color(c), j)),
            None => None,
        }
    } else if n == name_uri() {
        spec_uri_at(toks, i)
    } else {
        match spec_find_prop(reg, p, n, 0) {
            Some(q) => if q < p {
                spec_run_prop(reg, q, toks, i)
            } else {
                None
            },
            None => {
                if i < toks.len() {
                    match toks[i as int] {
                        CssToken::Ident(s) => if keyword_matches(s@, n) {
                            Some((ValV::Keyword(s@), (i + 1) as nat))
                        } else {
                            None
                        },
                        _ => None,
                    }
                } else {
                    None
                }
            },
        }
    }
}

/// Run the parser of a type reference from position `i`.  A `Named`
/// reference resolves to the first item of that name among the first
/// `bound` items; an unresolved name never matches.
pub open spec fn spec_run_ty(
    reg: Registry,
    p: nat,
    bound: nat,
    ty: IrType,
    toks: Seq<CssToken>,
    i: nat,
) -> Option<(ValV, nat)>
    decreases p, 0int, bound, 1 + ir_ty_height(ty), toks.len() - i, 2int, 0int,
{
    match ty {
        IrType::Leaf(n) => spec_run_leaf(reg, p, n@, toks, i),
        IrType::Named(n) => match spec_find_item(reg, p, bound, n@, 0) {
            Some(j) => if j < bound && p < reg.props@.len() && j
                < reg.props@[p as int].items@.len() {
                spec_run_item(reg, p, j, toks, i)
            } else {
                None
            },
            None => None,
        },
        IrType::Repetition { inner, min, max } => {
            if i <= toks.len() {
                let (es, j) = spec_run_rep(reg, p, bound, *inner, max, toks, i, 0);
                if es.len() < min {
                    None
                } else if min == 0 && max == Some(1usize) {
                    if es.len() == 1 {
                        Some((ValV::Maybe(Some(Box::new(es[0]))), j))
                    } else {
                        Some((ValV::Maybe(None), j))
                    }
                } else {
                    Some((ValV::List(es), j))
                }
            } else {
                None
            }
        },
    }
}

/// Collect repetition elements from position `i`, `count` already
/// collected: stop at the upper bound, at the first failure, or after an
/// element that consumed nothing.
pub open spec fn spec_run_rep(
    reg: Registry,
    p: nat,
    bound: nat,
    inner: IrType,
    max: Option<usize>,
    toks: Seq<CssToken>,
    i: nat,
    count: nat,
) -> (Seq<ValV>, nat)
    decreases p, 0int, bound, 2 + ir_ty_height(inner), toks.len() - i, 1int, 0int,
{
    let stop = match max {
        Some(m) => count >= m,
        None => false,
    };
    if stop {
        (Seq::<ValV>::empty(), i)
    } else {
        match spec_run_ty(reg, p, bound, inner, toks, i) {
            None => (Seq::<ValV>::empty(), i),
            Some((v, j)) => if i < j <= toks.len() {
                let (rest, k) = spec_run_rep(reg, p, bound, inner, max, toks, j, count + 1);
                (seq![v] + rest, k)
            } else {
                (seq![v], j)
            },
        }
    }
}

/// Run the parser of the IR item at index `idx` of property `p` from
/// position `i`.
pub open spec fn spec_run_item(reg: Registry, p: nat, idx: nat, toks: Seq<CssToken>, i: nat)
    -> Option<(ValV, nat)>
    decreases p, 0int, idx + 1, 0int, 0int, 3int, 0int,
{
    if p < reg.props@.len() && idx < reg.props@[p as int].items@.len() {
        match reg.props@[p as int].items@[idx as int] {
            IrItem::Struct(st) => {
                match st.kind {
                    Order::OrderedAnd => {
                        match spec_run_fields_ord(reg, p, idx, st.fields@, 0, toks, i) {
                            Some((vs, j)) => Some(
                                (ValV::StructVal { name: st.name@, fields: vs }, j),
                            ),
                            None => None,
                        }
                    },
                    Order::UnorderedAnd => {
                        let init = Seq::<Option<ValV>>::new(st.fields@.len(), |q: int| None);
                        let (fv, j) = spec_run_passes(reg, p, idx, st.fields@, 0, init, toks, i);
                        if has_empty_slot(fv) {
                            None
                        } else {
                            Some(
                                (
                                    ValV::StructVal {
                                        name: st.name@,
                                        fields: unwrap_slots(fv, 0),
                                    },
                                    j,
                                ),
                            )
                        }
                    },
                    Order::OneOrMore => {
                        let (vs, j, any) = spec_run_fields_oom(
                            reg,
                            p,
                            idx,
                            st.fields@,
                            0,
                            toks,
                            i,
                        );
                        if any {
                            Some((ValV::StructVal { name: st.name@, fields: vs }, j))
                        } else {
                            None
                        }
                    },
                }
            },
            IrItem::Enum(en) => spec_run_variants(reg, p, idx, en.name@, en.variants@, 0, toks, i),
        }
    } else {
        None
    }
}

/// Run the fields of an ordered struct, in order from field `k`: all must
/// match consecutively.
pub open spec fn spec_run_fields_ord(
    reg: Registry,
    p: nat,
    idx: nat,
    fields: Seq<crate::ir::IrField>,
    k: nat,
    toks: Seq<CssToken>,
    i: nat,
) -> Option<(Seq<ValV>, nat)>
    decreases p, 0int, idx + 1, 0int, 0int, 2int, fields.len() - k,
{
    if k >= fields.len() {
        Some((Seq::<ValV>::empty(), i))
    } else {
        match spec_run_ty(reg, p, idx, fields[k as int].ty, toks, i) {
            None => None,
            Some((v, j)) => match spec_run_fields_ord(reg, p, idx, fields, k + 1, toks, j) {
                Some((vs, j2)) => Some((seq![v] + vs, j2)),
                None => None,
            },
        }
    }
}

/// Run the fields of a one-or-more struct: a single sweep, each field
/// tried once in order; a matched field is wrapped present, an unmatched
/// one absent.
pub open spec fn spec_run_fields_oom(
    reg: Registry,
    p: nat,
    idx: nat,
    fields: Seq<crate::ir::IrField>,
    k: nat,
    toks: Seq<CssToken>,
    i: nat,
) -> (Seq<ValV>, nat, bool)
    decreases p, 0int, idx + 1, 0int, 0int, 2int, fields.len() - k,
{
    if k >= fields.len() {
        (Seq::<ValV>::empty(), i, false)
    } else {
        match spec_run_ty(reg, p, idx, fields[k as int].ty, toks, i) {
            Some((v, j)) => {
                let (vs, j2, any) = spec_run_fields_oom(reg, p, idx, fields, k + 1, toks, j);
                (seq![ValV::Maybe(Some(Box::new(v)))] + vs, j2, true)
            },
            None => {
                let (vs, j2, any) = spec_run_fields_oom(reg, p, idx, fields, k + 1, toks, i);
                (seq![ValV::Maybe(None)] + vs, j2, any)
            },
        }
    }
}

/// Run the variants of an enum in declared order from variant `k`: the
/// first that matches wins.  A payload-less variant matches one identifier
/// token whose canonical casing is the variant's name; a variant with a
/// payload matches whatever its payload type matches.
pub open spec fn spec_run_variants(
    reg: Registry,
    p: nat,
    idx: nat,
    name: Seq<u8>,
    variants: Seq<crate::ir::IrVariant>,
    k: nat,
    toks: Seq<CssToken>,
    i: nat,
) -> Option<(ValV, nat)>
    decreases p, 0int, idx + 1, 0int, 0int, 2int, variants.len() - k,
{
    if k >= variants.len() {
        None
    } else {
        match variants[k as int].payload {
            None => {
                let matched = i < toks.len() && match toks[i as int] {
                    CssToken::Ident(s) => keyword_matches(s@, variants[k as int].name@),
                    _ => false,
                };
                if matched {
                    Some(
                        (
                            ValV::EnumVal { name: name, variant: k, payload: None },
                            (i + 1) as nat,
                        ),
                    )
                } else {
                    spec_run_variants(reg, p, idx, name, variants, k + 1, toks, i)
                }
            },
            Some(ty) => {
                match spec_run_ty(reg, p, idx, ty, toks, i) {
                    Some((v, j)) => Some(
                        (
                            ValV::EnumVal { name: name, variant: k, payload: Some(Box::new(v)) },
                            j,
                        ),
                    ),
                    None => spec_run_variants(reg, p, idx, name, variants, k + 1, toks, i),
                }
            },
        }
    }
}

/// Run the repeated passes of an unordered struct: each pass scans the
/// unfilled fields in order, committing to every match; passes stop when
/// one matches nothing or after one pass per field.
pub open spec fn spec_run_passes(
    reg: Registry,
    p: nat,
    idx: nat,
    fields: Seq<crate::ir::IrField>,
    pass: nat,
    filled: Seq<Option<ValV>>,
    toks: Seq<CssToken>,
    i: nat,
) -> (Seq<Option<ValV>>, nat)
    decreases p, 0int, idx + 1, 0int, 0int, 2int, fields.len() - pass,
{
    if pass >= fields.len() {
        (filled, i)
    } else {
        let (f2, j, progress) = spec_run_scan(reg, p, idx, fields, 0, filled, false, toks, i);
        if progress {
            spec_run_passes(reg, p, idx, fields, pass + 1, f2, toks, j)
        } else {
            (f2, j)
        }
    }
}

/// One pass over the fields of an unordered struct from field `k`: an
/// unfilled field whose type matches is filled and the scan continues.
pub open spec fn spec_run_scan(
    reg: Registry,
    p: nat,
    idx: nat,
    fields: Seq<crate::ir::IrField>,
    k: nat,
    filled: Seq<Option<ValV>>,
    progress: bool,
    toks: Seq<CssToken>,
    i: nat,
) -> (Seq<Option<ValV>>, nat, bool)
    decreases p, 0int, idx + 1, 0int, 0int, 1int, fields.len() - k,
{
    if k >= fields.len() || filled.len() != fields.len() {
        (filled, i, progress)
    } else if filled[k as int] is None {
        match spec_run_ty(reg, p, idx, fields[k as int].ty, toks, i) {
            Some((v, j)) => spec_run_scan(
                reg,
                p,
                idx,
                fields,
                k + 1,
                filled.update(k as int, Some(v)),
                true,
                toks,
                j,
            ),
            None => spec_run_scan(reg, p, idx, fields, k + 1, filled, progress, toks, i),
        }
    } else {
        spec_run_scan(reg, p, idx, fields, k + 1, filled, progress, toks, i)
    }
}

/// The name of an IR item.
pub fn item_name(it: &IrItem) -> (r: &Vec<u8>)
    ensures
        r@ == item_view(*it).name(),
{
    match it {
        IrItem::Struct(s) => &s.name,
        IrItem::Enum(e) => &e.name,
    }
}

/// The height of a type reference, for termination of the interpreter.
pub open spec fn ir_ty_height(t: IrType) -> nat
    decreases t,
{
    match t {
        IrType::Leaf(_) => 0,
        IrType::Named(_) => 0,
        IrType::Repetition { inner, .. } => 1 + ir_ty_height(*inner),
    }
}

/// Build a byte string from a literal name.
fn builtin_name(which: u8) -> (r: Vec<u8>)
    requires
        which < 4,
    ensures
        which == 0 ==> r@ == name_length(),
        which == 1 ==> r@ == name_percentage(),
        which == 2 ==> r@ == name_color(),
        which == 3 ==> r@ == name_uri(),
{
    let mut v: Vec<u8> = Vec::new();
    if which == 0 {
        v.push(76);
        v.push(101);
        v.push(110);
        v.push(103);
        v.push(116);
        v.push(104);
        proof {
            assert(v@ =~= name_length());
        }
    } else if which == 1 {
        v.push(80);
        v.push(101);
        v.push(114);
        v.push(99);
        v.push(101);
        v.push(110);
        v.push(116);
        v.push(97);
        v.push(103);
        v.push(101);
        proof {
            assert(v@ =~= name_percentage());
        }
    } else if which == 2 {
        v.push(67);
        v.push(111);
        v.push(108);
        v.push(111);
        v.push(114);
        proof {
            assert(v@ =~= name_color());
        }
    } else {
        v.push(85);
        v.push(114);
        v.push(105);
        proof {
            assert(v@ =~= name_uri());
        }
    }
    v
}

/// Parse a value of the property at `p`: run its top-level type reference.
/// Succeeds with exactly the value and final position of the specification
/// run over the tokens, and fails exactly where it does.
pub fn parse_prop(reg: &Registry, p: usize, cur: &mut TokenCursor) -> (r: Result<
    CssValue,
    NoMatch,
>)
    requires
        old(cur).wf(),
        p < reg.props@.len(),
    ensures
        final(cur).wf(),
        final(cur).toks() == old(cur).toks(),
        r is Err ==> final(cur).at() == old(cur).at(),
        r is Ok ==> old(cur).at() <= final(cur).at(),
        match r {
            Ok(v) => val_fits(ty_view(reg.props@[p as int].top), v) && spec_run_prop(
                *reg,
                p as nat,
                old(cur).toks(),
                old(cur).at(),
            ) == Some((val_view(v), final(cur).at())),
            Err(_) => spec_run_prop(*reg, p as nat, old(cur).toks(), old(cur).at()) == None::<
                (ValV, nat),
            >,
        },
    decreases p, 1int, 0int, 0int, 0int,
{
    let e = &reg.props[p];
    let bound = e.items.len();
    parse_ty(reg, p, bound, &e.top, cur)
}

/// Parse a value of a leaf type: a built-in value type, the top type of
/// the first earlier property of that name (looked up among the first `p`
/// entries), or a keyword matched ASCII-case-insensitively against the
/// identifier under the cursor.  Succeeds with exactly the value and final
/// position of the specification run, and fails exactly where it does.
#[verifier::loop_isolation(false)]
#[verifier::rlimit(100)]
fn parse_leaf(reg: &Registry, p: usize, name: &Vec<u8>, cur: &mut TokenCursor) -> (r: Result<
    CssValue,
    NoMatch,
>)
    requires
        old(cur).wf(),
        p < reg.props@.len(),
    ensures
        final(cur).wf(),
        final(cur).toks() == old(cur).toks(),
        r is Err ==> final(cur).at() == old(cur).at(),
        r is Ok ==> old(cur).at() <= final(cur).at(),
        match r {
            Ok(v) => leaf_fits(name@, v) && spec_run_leaf(
                *reg,
                p as nat,
                name@,
                old(cur).toks(),
                old(cur).at(),
            ) == Some((val_view(v), final(cur).at())),
            Err(_) => spec_run_leaf(*reg, p as nat, name@, old(cur).toks(), old(cur).at())
                == None::<(ValV, nat)>,
        },
    decreases p, 0int, 0int, 0int, 0int,
{
    if bytes_eq(name, &builtin_name(0)) {
        return match parse_length(cur) {
            Ok(l) => {
                let ghost vv = val_view(CssValue::Length(
                    crate::values::Length { value: l.value, unit: l.unit },
                ));
                Ok(CssValue::Length(l))
            },
            Err(e) => Err(e),
        };
    }
    if bytes_eq(name, &builtin_name(1)) {
        return match parse_percentage(cur) {
            Ok(x) => Ok(CssValue::Percentage(x)),
            Err(e) => Err(e),
        };
    }
    if bytes_eq(name, &builtin_name(2)) {
        return match Color::parse(cur) {
            Ok(c) => Ok(CssValue::Color(c)),
            Err(e) => Err(e),
        };
    }
    if bytes_eq(name, &builtin_name(3)) {
        return match parse_uri(cur) {
            Ok(u) => Ok(CssValue::Uri(u)),
            Err(e) => Err(e),
        };
    }
    let mut q: usize = 0;
    while q < p
        invariant
            q <= p,
            cur.wf(),
            cur.toks() == old(cur).toks(),
            cur.at() == old(cur).at(),
            spec_find_prop(*reg, p as nat, name@, 0) == spec_find_prop(
                *reg,
                p as nat,
                name@,
                q as nat,
            ),
        decreases p - q,
    {
        if bytes_eq(&reg.props[q].pascal, name) {
            return parse_prop(reg, q, cur);
        }
        q = q + 1;
    }
    // a keyword leaf: an identifier whose lower-cased text is exactly the
    // keyword's kebab text
    let matched = match cur.peek() {
        Some(CssToken::Ident(s)) => {
            let lowered = crate::text::to_lower(s);
            let kebab = crate::text::to_kebab(name);
            if bytes_eq(&lowered, &kebab) {
                Some(copy_bytes(s))
            } else {
                None
            }
        },
        _ => None,
    };
    match matched {
        Some(text) => {
            cur.advance();
            Ok(CssValue::Keyword(text))
        },
        None => Err(NoMatch),
    }
}

/// Parse a value of a type reference.  `bound` limits which items of the
/// property a `Named` reference may resolve to; the IR builder only emits
/// references to earlier items.  Succeeds with exactly the value and final
/// position of the specification run, and fails exactly where it does.
#[verifier::loop_isolation(false)]
#[verifier::rlimit(100)]
#[verifier::spinoff_prover]
pub fn parse_ty(reg: &Registry, p: usize, bound: usize, ty: &IrType, cur: &mut TokenCursor) -> (r:
    Result<CssValue, NoMatch>)
    requires
        old(cur).wf(),
        p < reg.props@.len(),
        bound <= reg.props@[p as int].items@.len(),
    ensures
        final(cur).wf(),
        final(cur).toks() == old(cur).toks(),
        r is Err ==> final(cur).at() == old(cur).at(),
        r is Ok ==> old(cur).at() <= final(cur).at(),
        match r {
            Ok(v) => val_fits(ty_view(*ty), v) && spec_run_ty(
                *reg,
                p as nat,
                bound as nat,
                *ty,
                old(cur).toks(),
                old(cur).at(),
            ) == Some((val_view(v), final(cur).at())),
            Err(_) => spec_run_ty(
                *reg,
                p as nat,
                bound as nat,
                *ty,
                old(cur).toks(),
                old(cur).at(),
            ) == None::<(ValV, nat)>,
        },
    decreases p, 0int, bound, 1 + ir_ty_height(*ty), 0int,
{
    match ty {
        IrType::Leaf(n) => parse_leaf(reg, p, n, cur),
        IrType::Named(n) => {
            let mut j: usize = 0;
            while j < bound
                invariant
                    j <= bound,
                    cur.wf(),
                    cur.toks() == old(cur).toks(),
                    cur.at() == old(cur).at(),
                    spec_find_item(*reg, p as nat, bound as nat, n@, 0) == spec_find_item(
                        *reg,
                        p as nat,
                        bound as nat,
                        n@,
                        j as nat,
                    ),
                decreases bound - j,
            {
                if bytes_eq(item_name(&reg.props[p].items[j]), n) {
                    return parse_item(reg, p, j, cur);
                }
                j = j + 1;
            }
            Err(NoMatch)
        },
        IrType::Repetition { inner, min, max } => {
            let ghost all = spec_run_rep(
                *reg,
                p as nat,
                bound as nat,
                **inner,
                *max,
                old(cur).toks(),
                old(cur).at(),
                0,
            );
            let start = cur.save();
            let mut collected: Vec<CssValue> = Vec::new();
            proof {
                lemma_val_view_list(collected@, 0);
                assert(val_view_list(collected@, 0) + spec_run_rep(
                    *reg,
                    p as nat,
                    bound as nat,
                    **inner,
                    *max,
                    cur.toks(),
                    cur.at(),
                    collected@.len() as nat,
                ).0 =~= spec_run_rep(
                    *reg,
                    p as nat,
                    bound as nat,
                    **inner,
                    *max,
                    cur.toks(),
                    cur.at(),
                    collected@.len() as nat,
                ).0);
            }
            #[verifier::loop_isolation(true)]
            loop
                invariant_except_break
                    all == (
                        val_view_list(collected@, 0) + spec_run_rep(
                            *reg,
                            p as nat,
                            bound as nat,
                            **inner,
                            *max,
                            cur.toks(),
                            cur.at(),
                            collected@.len() as nat,
                        ).0,
                        spec_run_rep(
                            *reg,
                            p as nat,
                            bound as nat,
                            **inner,
                            *max,
                            cur.toks(),
                            cur.at(),
                            collected@.len() as nat,
                        ).1,
                    ),
                invariant
                    p < reg.props@.len(),
                    bound <= reg.props@[p as int].items@.len(),
                    cur.wf(),
                    cur.toks() == old(cur).toks(),
                    start as nat == old(cur).at(),
                    old(cur).at() <= cur.at(),
                    match *max {
                        Some(m) => collected@.len() <= m,
                        None => true,
                    },
                    forall|k: int|
                        0 <= k < collected@.len() ==> val_fits(
                            ty_view(**inner),
                            #[trigger] collected@[k],
                        ),
                    ir_ty_height(**inner) < ir_ty_height(*ty),
                ensures
                    cur.wf(),
                    cur.toks() == old(cur).toks(),
                    start as nat == old(cur).at(),
                    old(cur).at() <= cur.at(),
                    match *max {
                        Some(m) => collected@.len() <= m,
                        None => true,
                    },
                    forall|k: int|
                        0 <= k < collected@.len() ==> val_fits(
                            ty_view(**inner),
                            #[trigger] collected@[k],
                        ),
                    all == (val_view_list(collected@, 0), cur.at()),
                decreases cur.toks().len() - cur.at(),
            {
                let ghost rest0 = spec_run_rep(
                    *reg,
                    p as nat,
                    bound as nat,
                    **inner,
                    *max,
                    cur.toks(),
                    cur.at(),
                    collected@.len() as nat,
                );
                match *max {
                    Some(m) => {
                        if collected.len() >= m {
                            proof {
                                assert(rest0 == (Seq::<ValV>::empty(), cur.at()));
                                assert(val_view_list(collected@, 0) + Seq::<ValV>::empty()
                                    =~= val_view_list(collected@, 0));
                            }
                            break;
                        }
                    },
                    None => {},
                }
                let before = cur.save();
                let ghost col0 = collected@;
                match parse_ty(reg, p, bound, &**inner, cur) {
                    Ok(v) => {
                        let ghost vv = val_view(v);
                        collected.push(v);
                        proof {
                            lemma_val_view_list(col0, 0);
                            lemma_val_view_list(collected@, 0);
                            assert(val_view_list(collected@, 0) =~= val_view_list(col0, 0).push(
                                vv,
                            ));
                        }
                        if cur.save() == before {
                            // a zero-width match would repeat forever
                            proof {
                                assert(rest0 == (seq![vv], cur.at()));
                                assert(val_view_list(col0, 0) + seq![vv] =~= val_view_list(
                                    collected@,
                                    0,
                                ));
                            }
                            break;
                        }
                        proof {
                            let rest1 = spec_run_rep(
                                *reg,
                                p as nat,
                                bound as nat,
                                **inner,
                                *max,
                                cur.toks(),
                                cur.at(),
                                collected@.len() as nat,
                            );
                            assert(rest0.0 == seq![vv] + rest1.0 && rest0.1 == rest1.1);
                            assert(val_view_list(col0, 0) + (seq![vv] + rest1.0)
                                =~= val_view_list(collected@, 0) + rest1.0);
                        }
                    },
                    Err(_) => {
                        proof {
                            assert(rest0 == (Seq::<ValV>::empty(), cur.at()));
                            assert(val_view_list(collected@, 0) + Seq::<ValV>::empty()
                                =~= val_view_list(collected@, 0));
                        }
                        break;
                    },
                }
            }
            proof {
                lemma_val_view_list(collected@, 0);
            }
            if collected.len() < *min {
                cur.restore(start);
                return Err(NoMatch);
            }
            let optional = *min == 0 && match *max {
                Some(m) => m == 1,
                None => false,
            };
            if optional {
                match collected.pop() {
                    Some(v) => {
                        proof {
                            assert(all.0.len() == 1);
                            assert(all.0[0] == val_view(v));
                        }
                        Ok(CssValue::Maybe(Some(Box::new(v))))
                    },
                    None => {
                        proof {
                            assert(all.0.len() == 0);
                        }
                        Ok(CssValue::Maybe(None))
                    },
                }
            } else {
                Ok(CssValue::List(collected))
            }
        },
    }
}

/// Each slot of a fully filled list unwraps to its value.
proof fn lemma_unwrap_all_some(s: Seq<Option<ValV>>, k: nat)
    requires
        forall|q: int| 0 <= q < s.len() ==> #[trigger] s[q] is Some,
        k <= s.len(),
    ensures
        unwrap_slots(s, k).len() == s.len() - k,
        forall|q: int|
            0 <= q < s.len() - k ==> #[trigger] unwrap_slots(s, k)[q] == s[k + q]->0,
    decreases s.len() - k,
{
    if k < s.len() {
        lemma_unwrap_all_some(s, k + 1);
    }
}

/// Parse a value of the IR item at index `i` of property `p`.  Succeeds
/// with exactly the value and final position of the specification run,
/// and fails exactly where it does.
#[verifier::loop_isolation(false)]
#[verifier::rlimit(100)]
#[verifier::spinoff_prover]
pub fn parse_item(reg: &Registry, p: usize, i: usize, cur: &mut TokenCursor) -> (r: Result<
    CssValue,
    NoMatch,
>)
    requires
        old(cur).wf(),
        p < reg.props@.len(),
        i < reg.props@[p as int].items@.len(),
    ensures
        final(cur).wf(),
        final(cur).toks() == old(cur).toks(),
        r is Err ==> final(cur).at() == old(cur).at(),
        r is Ok ==> old(cur).at() <= final(cur).at(),
        match r {
            Ok(v) => val_fits_item(item_view(reg.props@[p as int].items@[i as int]), v)
                && spec_run_item(*reg, p as nat, i as nat, old(cur).toks(), old(cur).at())
                == Some((val_view(v), final(cur).at())),
            Err(_) => spec_run_item(*reg, p as nat, i as nat, old(cur).toks(), old(cur).at())
                == None::<(ValV, nat)>,
        },
    decreases p, 0int, i + 1, 0int, 1int,
{
    let ghost itv = item_view(reg.props@[p as int].items@[i as int]);
    match &reg.props[p].items[i] {
        IrItem::Struct(st) => {
            match st.kind {
                Order::OrderedAnd => {
                    let ghost all = spec_run_fields_ord(
                        *reg,
                        p as nat,
                        i as nat,
                        st.fields@,
                        0,
                        cur.toks(),
                        cur.at(),
                    );
                    let start = cur.save();
                    let mut vals: Vec<CssValue> = Vec::new();
                    let mut k: usize = 0;
                    proof {
                        lemma_val_view_list(vals@, 0);
                    }
                    while k < st.fields.len()
                        invariant
                            cur.wf(),
                            cur.toks() == old(cur).toks(),
                            start as nat == old(cur).at(),
                            old(cur).at() <= cur.at(),
                            k <= st.fields@.len(),
                            vals@.len() == k,
                            forall|q: int|
                                0 <= q < k ==> val_fits(
                                    ty_view(st.fields@[q].ty),
                                    #[trigger] vals@[q],
                                ),
                            all == match spec_run_fields_ord(
                                *reg,
                                p as nat,
                                i as nat,
                                st.fields@,
                                k as nat,
                                cur.toks(),
                                cur.at(),
                            ) {
                                Some(vsj) => Some(
                                    (val_view_list(vals@, 0) + vsj.0, vsj.1),
                                ),
                                None => None::<(Seq<ValV>, nat)>,
                            },
                        decreases st.fields@.len() - k,
                    {
                        let ghost vals0 = vals@;
                        match parse_ty(reg, p, i, &st.fields[k].ty, cur) {
                            Ok(v) => {
                                let ghost vv = val_view(v);
                                vals.push(v);
                                k = k + 1;
                                proof {
                                    lemma_val_view_list(vals0, 0);
                                    lemma_val_view_list(vals@, 0);
                                    assert(val_view_list(vals@, 0) =~= val_view_list(
                                        vals0,
                                        0,
                                    ).push(vv));
                                    let rest1 = spec_run_fields_ord(
                                        *reg,
                                        p as nat,
                                        i as nat,
                                        st.fields@,
                                        k as nat,
                                        cur.toks(),
                                        cur.at(),
                                    );
                                    match rest1 {
                                        Some(vsj) => {
                                            assert(val_view_list(vals0, 0) + (seq![vv] + vsj.0)
                                                =~= val_view_list(vals@, 0) + vsj.0);
                                        },
                                        None => {},
                                    }
                                }
                            },
                            Err(_) => {
                                cur.restore(start);
                                return Err(NoMatch);
                            },
                        }
                    }
                    proof {
                        lemma_val_view_list(vals@, 0);
                        assert(val_view_list(vals@, 0) + Seq::<ValV>::empty() =~= val_view_list(
                            vals@,
                            0,
                        ));
                    }
                    let v = CssValue::StructVal { name: copy_bytes(&st.name), fields: vals };
                    proof {
                        assert(val_fits_item(itv, v));
                    }
                    Ok(v)
                },
                Order::UnorderedAnd => parse_unordered(reg, p, i, cur),
                Order::OneOrMore => {
                    let ghost all = spec_run_fields_oom(
                        *reg,
                        p as nat,
                        i as nat,
                        st.fields@,
                        0,
                        cur.toks(),
                        cur.at(),
                    );
                    let start = cur.save();
                    let mut vals: Vec<CssValue> = Vec::new();
                    let mut any: bool = false;
                    let mut k: usize = 0;
                    proof {
                        lemma_val_view_list(vals@, 0);
                    }
                    while k < st.fields.len()
                        invariant
                            cur.wf(),
                            cur.toks() == old(cur).toks(),
                            start as nat == old(cur).at(),
                            old(cur).at() <= cur.at(),
                            !any ==> cur.at() == old(cur).at(),
                            k <= st.fields@.len(),
                            vals@.len() == k,
                            forall|q: int|
                                0 <= q < k ==> match #[trigger] vals@[q] {
                                    CssValue::Maybe(o) => match o {
                                        Some(b) => val_fits(ty_view(st.fields@[q].ty), *b),
                                        None => true,
                                    },
                                    _ => false,
                                },
                            all.0 == val_view_list(vals@, 0) + spec_run_fields_oom(
                                *reg,
                                p as nat,
                                i as nat,
                                st.fields@,
                                k as nat,
                                cur.toks(),
                                cur.at(),
                            ).0,
                            all.1 == spec_run_fields_oom(
                                *reg,
                                p as nat,
                                i as nat,
                                st.fields@,
                                k as nat,
                                cur.toks(),
                                cur.at(),
                            ).1,
                            all.2 == (any || spec_run_fields_oom(
                                *reg,
                                p as nat,
                                i as nat,
                                st.fields@,
                                k as nat,
                                cur.toks(),
                                cur.at(),
                            ).2),
                        decreases st.fields@.len() - k,
                    {
                        let ghost vals0 = vals@;
                        match parse_ty(reg, p, i, &st.fields[k].ty, cur) {
                            Ok(v) => {
                                let ghost vv = val_view(v);
                                vals.push(CssValue::Maybe(Some(Box::new(v))));
                                any = true;
                                k = k + 1;
                                proof {
                                    lemma_val_view_list(vals0, 0);
                                    lemma_val_view_list(vals@, 0);
                                    assert(val_view_list(vals@, 0) =~= val_view_list(
                                        vals0,
                                        0,
                                    ).push(ValV::Maybe(Some(Box::new(vv)))));
                                    let rest1 = spec_run_fields_oom(
                                        *reg,
                                        p as nat,
                                        i as nat,
                                        st.fields@,
                                        k as nat,
                                        cur.toks(),
                                        cur.at(),
                                    );
                                    assert(val_view_list(vals0, 0) + (seq![
                                        ValV::Maybe(Some(Box::new(vv))),
                                    ] + rest1.0) =~= val_view_list(vals@, 0) + rest1.0);
                                }
                            },
                            Err(_) => {
                                vals.push(CssValue::Maybe(None));
                                k = k + 1;
                                proof {
                                    lemma_val_view_list(vals0, 0);
                                    lemma_val_view_list(vals@, 0);
                                    assert(val_view_list(vals@, 0) =~= val_view_list(
                                        vals0,
                                        0,
                                    ).push(ValV::Maybe(None)));
                                    let rest1 = spec_run_fields_oom(
                                        *reg,
                                        p as nat,
                                        i as nat,
                                        st.fields@,
                                        k as nat,
                                        cur.toks(),
                                        cur.at(),
                                    );
                                    assert(val_view_list(vals0, 0) + (seq![ValV::Maybe(None)]
                                        + rest1.0) =~= val_view_list(vals@, 0) + rest1.0);
                                }
                            },
                        }
                    }
                    proof {
                        lemma_val_view_list(vals@, 0);
                        assert(val_view_list(vals@, 0) + Seq::<ValV>::empty() =~= val_view_list(
                            vals@,
                            0,
                        ));
                    }
                    if any {
                        let v = CssValue::StructVal { name: copy_bytes(&st.name), fields: vals };
                        proof {
                            assert(val_fits_item(itv, v));
                        }
                        Ok(v)
                    } else {
                        Err(NoMatch)
                    }
                },
            }
        },
        IrItem::Enum(en) => {
            let ghost all = spec_run_variants(
                *reg,
                p as nat,
                i as nat,
                en.name@,
                en.variants@,
                0,
                cur.toks(),
                cur.at(),
            );
            let mut k: usize = 0;
            while k < en.variants.len()
                invariant
                    cur.wf(),
                    cur.toks() == old(cur).toks(),
                    cur.at() == old(cur).at(),
                    k <= en.variants@.len(),
                    all == spec_run_variants(
                        *reg,
                        p as nat,
                        i as nat,
                        en.name@,
                        en.variants@,
                        k as nat,
                        cur.toks(),
                        cur.at(),
                    ),
                decreases en.variants@.len() - k,
            {
                match &en.variants[k].payload {
                    None => {
                        let matched = match cur.peek() {
                            Some(CssToken::Ident(s)) => {
                                let lowered = crate::text::to_lower(s);
                                let kebab = crate::text::to_kebab(&en.variants[k].name);
                                bytes_eq(&lowered, &kebab)
                            },
                            _ => false,
                        };
                        if matched {
                            cur.advance();
                            let v = CssValue::EnumVal {
                                name: copy_bytes(&en.name),
                                variant: k,
                                payload: None,
                            };
                            proof {
                                assert(val_fits_item(itv, v));
                            }
                            return Ok(v);
                        }
                    },
                    Some(ty) => {
                        match parse_ty(reg, p, i, ty, cur) {
                            Ok(pv) => {
                                let ghost vv = val_view(pv);
                                let v = CssValue::EnumVal {
                                    name: copy_bytes(&en.name),
                                    variant: k,
                                    payload: Some(Box::new(pv)),
                                };
                                proof {
                                    assert(val_fits_item(itv, v));
                                }
                                return Ok(v);
                            },
                            Err(_) => {},
                        }
                    },
                }
                k = k + 1;
            }
            Err(NoMatch)
        },
    }
}

/// Parse an unordered struct: repeated passes over the unfilled fields, in
/// field order, committing to each match, until a pass matches nothing;
/// succeeds when every field was filled.  (Permutation search would also
/// be a defensible reading of an any-order group; the greedy policy is the
/// one specified here.)
#[verifier::loop_isolation(false)]
#[verifier::rlimit(100)]
#[verifier::spinoff_prover]
fn parse_unordered(reg: &Registry, p: usize, i: usize, cur: &mut TokenCursor) -> (r: Result<
    CssValue,
    NoMatch,
>)
    requires
        old(cur).wf(),
        p < reg.props@.len(),
        i < reg.props@[p as int].items@.len(),
        reg.props@[p as int].items@[i as int] is Struct,
        reg.props@[p as int].items@[i as int]->Struct_0.kind == Order::UnorderedAnd,
    ensures
        final(cur).wf(),
        final(cur).toks() == old(cur).toks(),
        r is Err ==> final(cur).at() == old(cur).at(),
        r is Ok ==> old(cur).at() <= final(cur).at(),
        match r {
            Ok(v) => val_fits_item(item_view(reg.props@[p as int].items@[i as int]), v)
                && spec_run_item(*reg, p as nat, i as nat, old(cur).toks(), old(cur).at())
                == Some((val_view(v), final(cur).at())),
            Err(_) => spec_run_item(*reg, p as nat, i as nat, old(cur).toks(), old(cur).at())
                == None::<(ValV, nat)>,
        },
    decreases p, 0int, i + 1, 0int, 0int,
{
    let ghost itv = item_view(reg.props@[p as int].items@[i as int]);
    match &reg.props[p].items[i] {
        IrItem::Struct(st) => {
            let start = cur.save();
            let n = st.fields.len();
            let ghost init = Seq::<Option<ValV>>::new(st.fields@.len(), |q: int| None::<ValV>);
            let ghost all = spec_run_passes(
                *reg,
                p as nat,
                i as nat,
                st.fields@,
                0,
                init,
                cur.toks(),
                cur.at(),
            );
            let mut filled: Vec<Option<CssValue>> = Vec::new();
            let mut k: usize = 0;
            while k < n
                invariant
                    k <= n,
                    filled@.len() == k,
                    forall|q: int| 0 <= q < k ==> #[trigger] filled@[q] is None,
                decreases n - k,
            {
                filled.push(None);
                k = k + 1;
            }
            proof {
                assert(slots_view(filled@) =~= init);
            }
            let mut pass: usize = 0;
            let mut progress: bool = true;
            while progress && pass < n
                invariant
                    cur.wf(),
                    cur.toks() == old(cur).toks(),
                    start as nat == old(cur).at(),
                    old(cur).at() <= cur.at(),
                    pass <= n,
                    filled@.len() == n,
                    n == st.fields@.len(),
                    forall|q: int|
                        0 <= q < n ==> match #[trigger] filled@[q] {
                            Some(v) => val_fits(ty_view(st.fields@[q].ty), v),
                            None => true,
                        },
                    progress ==> all == spec_run_passes(
                        *reg,
                        p as nat,
                        i as nat,
                        st.fields@,
                        pass as nat,
                        slots_view(filled@),
                        cur.toks(),
                        cur.at(),
                    ),
                    !progress ==> all == (slots_view(filled@), cur.at()),
                decreases n - pass,
            {
                let ghost pass0 = pass as nat;
                let ghost f0 = slots_view(filled@);
                let ghost i0 = cur.at();
                let ghost scan_all = spec_run_scan(
                    *reg,
                    p as nat,
                    i as nat,
                    st.fields@,
                    0,
                    f0,
                    false,
                    cur.toks(),
                    i0,
                );
                pass = pass + 1;
                progress = false;
                let mut k: usize = 0;
                while k < n
                    invariant
                        cur.wf(),
                        cur.toks() == old(cur).toks(),
                        start as nat == old(cur).at(),
                        old(cur).at() <= cur.at(),
                        k <= n,
                        filled@.len() == n,
                        n == st.fields@.len(),
                        forall|q: int|
                            0 <= q < n ==> match #[trigger] filled@[q] {
                                Some(v) => val_fits(ty_view(st.fields@[q].ty), v),
                                None => true,
                            },
                        scan_all == spec_run_scan(
                            *reg,
                            p as nat,
                            i as nat,
                            st.fields@,
                            k as nat,
                            slots_view(filled@),
                            progress,
                            cur.toks(),
                            cur.at(),
                        ),
                    decreases n - k,
                {
                    let ghost fpre = slots_view(filled@);
                    let is_empty_slot = matches!(&filled[k], Option::None);
                    proof {
                        assert(fpre[k as int] == match filled@[k as int] {
                            Some(v) => Some(val_view(v)),
                            None => None::<ValV>,
                        });
                    }
                    if is_empty_slot {
                        match parse_ty(reg, p, i, &st.fields[k].ty, cur) {
                            Ok(v) => {
                                let ghost vv = val_view(v);
                                filled.set(k, Some(v));
                                progress = true;
                                proof {
                                    assert(slots_view(filled@) =~= fpre.update(
                                        k as int,
                                        Some(vv),
                                    ));
                                }
                            },
                            Err(_) => {},
                        }
                    }
                    k = k + 1;
                }
            }
            proof {
                if progress {
                    assert(all == (slots_view(filled@), cur.at()));
                }
            }
            // every field must have been filled
            let mut k: usize = 0;
            while k < n
                invariant
                    cur.wf(),
                    cur.toks() == old(cur).toks(),
                    start as nat == old(cur).at(),
                    old(cur).at() <= cur.at(),
                    k <= n,
                    filled@.len() == n,
                    n == st.fields@.len(),
                    all == (slots_view(filled@), cur.at()),
                    forall|q: int|
                        0 <= q < n ==> match #[trigger] filled@[q] {
                            Some(v) => val_fits(ty_view(st.fields@[q].ty), v),
                            None => true,
                        },
                    forall|q: int| 0 <= q < k ==> #[trigger] filled@[q] is Some,
                decreases n - k,
            {
                if matches!(&filled[k], Option::None) {
                    proof {
                        assert(slots_view(filled@)[k as int] is None);
                        assert(has_empty_slot(all.0));
                    }
                    cur.restore(start);
                    return Err(NoMatch);
                }
                k = k + 1;
            }
            proof {
                assert forall|q: int| 0 <= q < all.0.len() implies !(#[trigger] all.0[q]
                    is None) by {
                    assert(filled@[q] is Some);
                }
                assert(!has_empty_slot(all.0));
            }
            // every slot holds a value: unwrap them, keeping field order
            let ghost snap = filled@;
            let ghost snapv = slots_view(filled@);
            let ghost at_end = cur.at();
            let mut rev: Vec<CssValue> = Vec::new();
            while filled.len() > 0
                invariant
                    cur.wf(),
                    cur.toks() == old(cur).toks(),
                    start as nat == old(cur).at(),
                    old(cur).at() <= cur.at(),
                    cur.at() == at_end,
                    snap.len() == n,
                    n == st.fields@.len(),
                    filled@ =~= snap.take(filled@.len() as int),
                    rev@.len() + filled@.len() == n,
                    forall|q: int| 0 <= q < n ==> #[trigger] snap[q] is Some,
                    forall|q: int|
                        0 <= q < n ==> match #[trigger] snap[q] {
                            Some(v) => val_fits(ty_view(st.fields@[q].ty), v),
                            None => true,
                        },
                    forall|q: int|
                        0 <= q < rev@.len() ==> snap[n - 1 - q] == Some(#[trigger] rev@[q]),
                decreases filled@.len(),
            {
                let ghost flen = filled@.len() as int;
                match filled.pop() {
                    Some(o) => {
                        proof {
                            assert(snap.take(flen)[flen - 1] == snap[flen - 1]);
                        }
                        match o {
                            Some(v) => {
                                rev.push(v);
                            },
                            None => {
                                proof {
                                    assert(false);
                                }
                                cur.restore(start);
                                return Err(NoMatch);
                            },
                        }
                    },
                    None => {
                        proof {
                            assert(false);
                        }
                        cur.restore(start);
                        return Err(NoMatch);
                    },
                }
                proof {
                    assert(filled@ =~= snap.take(filled@.len() as int));
                }
            }
            let mut ordered: Vec<CssValue> = Vec::new();
            while rev.len() > 0
                invariant
                    cur.wf(),
                    cur.toks() == old(cur).toks(),
                    start as nat == old(cur).at(),
                    old(cur).at() <= cur.at(),
                    cur.at() == at_end,
                    snap.len() == n,
                    n == st.fields@.len(),
                    ordered@.len() + rev@.len() == n,
                    forall|q: int| 0 <= q < n ==> #[trigger] snap[q] is Some,
                    forall|q: int|
                        0 <= q < n ==> match #[trigger] snap[q] {
                            Some(v) => val_fits(ty_view(st.fields@[q].ty), v),
                            None => true,
                        },
                    forall|q: int|
                        0 <= q < rev@.len() ==> snap[n - 1 - q] == Some(#[trigger] rev@[q]),
                    forall|q: int|
                        0 <= q < ordered@.len() ==> snap[q] == Some(#[trigger] ordered@[q]),
                decreases rev@.len(),
            {
                match rev.pop() {
                    Some(v) => {
                        proof {
                            assert(snap[n - 1 - (rev@.len() as int)] == Some(v));
                        }
                        ordered.push(v);
                    },
                    None => {
                        proof {
                            assert(false);
                        }
                        cur.restore(start);
                        return Err(NoMatch);
                    },
                }
            }
            let v = CssValue::StructVal { name: copy_bytes(&st.name), fields: ordered };
            proof {
                assert(val_fits_item(itv, v));
                lemma_unwrap_all_some(snapv, 0);
                lemma_val_view_list(ordered@, 0);
                assert forall|q: int| 0 <= q < n implies unwrap_slots(snapv, 0)[q] == val_view(
                    #[trigger] ordered@[q],
                ) by {
                    assert(snap[q] == Some(ordered@[q]));
                    assert(snapv[q] == Some(val_view(ordered@[q])));
                }
                assert(unwrap_slots(snapv, 0) =~= val_view_list(ordered@, 0));
            }
            Ok(v)
        },
        IrItem::Enum(_) => {
            proof {
                assert(false);
            }
            Err(NoMatch)
        },
    }
}

} // verus!

