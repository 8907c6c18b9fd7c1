//! The property registry: one entry per configured CSS property, built by
//! running the grammar parser and the IR builder over each descriptor in
//! declaration order.  Each entry carries a one-byte tag assigned by
//! position; a registry of more than 256 properties fails to build.

use vstd::prelude::*;

use crate::grammar::{parse, spec_parse, SyntaxError};
use crate::ir::{
    build_ir, item_view, items_view, lemma_build_ir_names_unique, spec_build, ty_view, IrItem,
    IrType, ItemV,
};
use crate::runtime::{parse_prop, spec_run_prop, val_fits};
use crate::text::{bytes_eq, spec_lower_all, spec_pascal, to_lower, to_pascal};
use crate::tokens::TokenCursor;
use crate::values::{val_view, CssValue, NoMatch, ValV};
use crate::vds::vds_view;

verus! {

/// One configured property: its name, the grammar of its legal values, and
/// the cascade data carried along for later use.
#[derive(Debug, PartialEq, Eq)]
pub struct PropertyDescriptor {
    pub name: Vec<u8>,
    pub values: Vec<u8>,
    pub initial_value: Vec<u8>,
    pub inherited: bool,
}

/// One registry entry: the lower-cased property name for lookup, the
/// Pascal-cased name that prefixes all synthesized type names, the one-byte
/// tag, and the IR derived from the property's grammar.
#[derive(Debug, PartialEq, Eq)]
pub struct PropEntry {
    pub name_lower: Vec<u8>,
    pub pascal: Vec<u8>,
    pub tag: u8,
    pub items: Vec<IrItem>,
    pub top: IrType,
}

/// The registry of all configured properties, in declaration order.
#[derive(Debug, PartialEq, Eq)]
pub struct Registry {
    pub props: Vec<PropEntry>,
}

/// Why a registry could not be built.
#[derive(Debug, Clone, Copy, PartialEq, Eq, Structural)]
pub enum BuildError {
    /// More than 256 properties were configured.
    TooManyProperties,
    /// A property's grammar text was rejected.
    BadGrammar(SyntaxError),
}

/// What a built entry holds for the descriptor at position `p`: the casings
/// of the name, the positional tag, and exactly the items and type that the
/// IR builder derives from the parsed grammar.
pub open spec fn entry_matches(e: PropEntry, d: PropertyDescriptor, p: int) -> bool {
    &&& e.tag == p as u8
    &&& e.name_lower@ == spec_lower_all(d.name@)
    &&& e.pascal@ == spec_pascal(d.name@)
    &&& match spec_parse(d.values@) {
        Some(v) => items_view(e.items@) == spec_build(spec_pascal(d.name@), v, 0).0 && ty_view(
            e.top,
        ) == spec_build(spec_pascal(d.name@), v, 0).1,
        None => false,
    }
}

/// The first registry entry whose lower-cased name is `lower`, scanning
/// from `q`.
pub open spec fn spec_find_decl(reg: Registry, lower: Seq<u8>, q: nat) -> Option<nat>
    decreases reg.props@.len() - q,
{
    if q >= reg.props@.len() {
        None
    } else if reg.props@[q as int].name_lower@ == lower {
        Some(q)
    } else {
        spec_find_decl(reg, lower, q + 1)
    }
}

/// Run one declaration against the registry: look the property up by its
/// case-insensitively lowered name and run its parser, tagging the result.
pub open spec fn spec_run_declaration(
    reg: Registry,
    name: Seq<u8>,
    toks: Seq<crate::tokens::CssToken>,
    i: nat,
) -> Option<(u8, ValV, nat)> {
    match spec_find_decl(reg, spec_lower_all(name), 0) {
        Some(q) => if q < reg.props@.len() {
            match spec_run_prop(reg, q, toks, i) {
                Some(vj) => Some((reg.props@[q as int].tag, vj.0, vj.1)),
                None => None,
            }
        } else {
            None
        },
        None => None,
    }
}

impl Registry {
    /// Build the registry from an ordered list of property descriptors.
    ///
    /// Succeeds exactly when at most 256 properties are given and every
    /// grammar text parses; each entry then holds the IR built from its
    /// descriptor, tagged with its position.
    pub fn build(descs: &Vec<PropertyDescriptor>) -> (r: Result<Registry, BuildError>)
        ensures
            match r {
                Ok(reg) => {
                    &&& descs@.len() <= 256
                    &&& reg.props@.len() == descs@.len()
                    &&& forall|p: int|
                        0 <= p < descs@.len() ==> entry_matches(
                            #[trigger] reg.props@[p],
                            descs@[p],
                            p,
                        )
                },
                Err(e) => match e {
                    BuildError::TooManyProperties => descs@.len() > 256,
                    BuildError::BadGrammar(_) => exists|p: int|
                        0 <= p < descs@.len() && spec_parse(#[trigger] descs@[p].values@)
                            == None::<crate::vds::VdsV>,
                },
            },
    {
        if descs.len() > 256 {
            return Err(BuildError::TooManyProperties);
        }
        let mut props: Vec<PropEntry> = Vec::new();
        let mut p: usize = 0;
        while p < descs.len()
            invariant
                p <= descs@.len() <= 256,
                props@.len() == p,
                forall|q: int| 0 <= q < p ==> entry_matches(#[trigger] props@[q], descs@[q], q),
            decreases descs@.len() - p,
        {
            let d = &descs[p];
            let node = match parse(&d.values) {
                Ok(v) => v,
                Err(e) => {
                    return Err(BuildError::BadGrammar(e));
                },
            };
            let mut items: Vec<IrItem> = Vec::new();
            proof {
                assert(items_view(items@) =~= Seq::<ItemV>::empty());
            }
            let top = build_ir(&d.name, &node, &mut items);
            proof {
                assert(Seq::<ItemV>::empty() + spec_build(
                    spec_pascal(d.name@),
                    vds_view(node),
                    0,
                ).0 =~= spec_build(spec_pascal(d.name@), vds_view(node), 0).0);
            }
            let entry = PropEntry {
                name_lower: to_lower(&d.name),
                pascal: to_pascal(&d.name),
                tag: p as u8,
                items,
                top,
            };
            props.push(entry);
            p = p + 1;
        }
        Ok(Registry { props })
    }

    /// Parse one declaration: look the property up by its case-insensitive
    /// name and run its generated parser, tagging the result.
    ///
    /// Succeeds exactly when some property carries the lowered name and the
    /// first such property's parser matches the tokens; the tag, the value
    /// and the final position are then exactly those of the specification
    /// run.  A failure consumes no input.
    pub fn parse_declaration(&self, name: &Vec<u8>, cur: &mut TokenCursor) -> (r: Result<
        (u8, CssValue),
        NoMatch,
    >)
        requires
            old(cur).wf(),
        ensures
            final(cur).wf(),
            final(cur).toks() == old(cur).toks(),
            r is Err ==> final(cur).at() == old(cur).at(),
            match r {
                Ok(tv) => (exists|q: int|
                    0 <= q < self.props@.len() && (#[trigger] self.props@[q]).name_lower@
                        == spec_lower_all(name@) && tv.0 == self.props@[q].tag && val_fits(
                        ty_view(self.props@[q].top),
                        tv.1,
                    )) && spec_run_declaration(*self, name@, old(cur).toks(), old(cur).at())
                    == Some((tv.0, val_view(tv.1), final(cur).at())),
                Err(_) => spec_run_declaration(*self, name@, old(cur).toks(), old(cur).at())
                    == None::<(u8, ValV, nat)>,
            },
    {
        let lower = to_lower(name);
        let mut q: usize = 0;
        while q < self.props.len()
            invariant
                q <= self.props@.len(),
                cur.wf(),
                cur.toks() == old(cur).toks(),
                cur.at() == old(cur).at(),
                lower@ == spec_lower_all(name@),
                spec_find_decl(*self, spec_lower_all(name@), 0) == spec_find_decl(
                    *self,
                    spec_lower_all(name@),
                    q as nat,
                ),
                forall|x: int|
                    0 <= x < q ==> (#[trigger] self.props@[x]).name_lower@ != spec_lower_all(
                        name@,
                    ),
            decreases self.props@.len() - q,
        {
            if bytes_eq(&self.props[q].name_lower, &lower) {
                let tag = self.props[q].tag;
                return match parse_prop(self, q, cur) {
                    Ok(v) => Ok((tag, v)),
                    Err(e) => Err(e),
                };
            }
            q = q + 1;
        }
        Err(NoMatch)
    }
}

/// Name uniqueness, at the registry: no two IR items of one built entry
/// carry the same name.
pub proof fn lemma_entry_names_unique(e: PropEntry, d: PropertyDescriptor, p: int)
    requires
        entry_matches(e, d, p),
    ensures
        forall|i: int, j: int|
            0 <= i < j < e.items@.len() ==> item_view(#[trigger] e.items@[i]).name() != item_view(
                #[trigger] e.items@[j],
            ).name(),
{
    match spec_parse(d.values@) {
        Some(v) => {
            lemma_build_ir_names_unique(d.name@, v, 0);
            let its = spec_build(spec_pascal(d.name@), v, 0).0;
            assert(items_view(e.items@) == its);
            assert forall|i: int, j: int|
                0 <= i < j < e.items@.len() implies item_view(#[trigger] e.items@[i]).name()
                != item_view(#[trigger] e.items@[j]).name() by {
                assert(items_view(e.items@)[i] == item_view(e.items@[i]));
                assert(items_view(e.items@)[j] == item_view(e.items@[j]));
                assert(its[i].name() != its[j].name());
            }
        },
        None => {
            assert(false);
        },
    }
}

} // verus!
