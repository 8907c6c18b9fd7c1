//! The grammar tree produced by the Value Definition Syntax parser.

use vstd::prelude::*;

verus! {

/// A node of a parsed value-definition grammar.
///
/// Compound nodes (`Sequence`, `Choice`, `AllOf`, `OneOrMoreOf`) always hold
/// at least two children in a well-formed tree: a grouping that parses to a
/// single operand collapses to that operand and never appears as a wrapper.
#[derive(Debug, PartialEq, Eq)]
pub enum VDS {
    /// A bare keyword, a plain identifier in the grammar text.
    Keyword(Vec<u8>),
    /// A built-in value placeholder, written `<ident>`.
    Value(Vec<u8>),
    /// A reference to an already defined property type, written `'ident'`.
    Type(Vec<u8>),
    /// Juxtaposed components that must match in order.
    Sequence(Vec<VDS>),
    /// Exactly one of the options must match (`|`).
    Choice(Vec<VDS>),
    /// All components must be present, in any order (`&&`).
    AllOf(Vec<VDS>),
    /// At least one component must be present, in any order (`||`).
    OneOrMoreOf(Vec<VDS>),
    /// A cardinality constraint wrapped around an inner node: `?` is
    /// `(0, Some(1))`, `*` is `(0, None)`, `+` is `(1, None)`, and `{m,n}`
    /// is `(m, Some(n))`.
    Repetition { inner: Box<VDS>, min: usize, max: Option<usize> },
}

/// The mathematical value of a grammar tree, with sequences in place of
/// vectors.
pub enum VdsV {
    Keyword(Seq<u8>),
    Value(Seq<u8>),
    Type(Seq<u8>),
    Sequence(Seq<VdsV>),
    Choice(Seq<VdsV>),
    AllOf(Seq<VdsV>),
    OneOrMoreOf(Seq<VdsV>),
    Repetition { inner: Box<VdsV>, min: nat, max: Option<nat> },
}

/// The mathematical value of a grammar tree.
pub open spec fn vds_view(v: VDS) -> VdsV
    decreases v, 0int,
{
    match v {
        VDS::Keyword(s) => VdsV::Keyword(s@),
        VDS::Value(s) => VdsV::Value(s@),
        VDS::Type(s) => VdsV::Type(s@),
        VDS::Sequence(cs) => VdsV::Sequence(vds_view_list(cs@, 0)),
        VDS::Choice(cs) => VdsV::Choice(vds_view_list(cs@, 0)),
        VDS::AllOf(cs) => VdsV::AllOf(vds_view_list(cs@, 0)),
        VDS::OneOrMoreOf(cs) => VdsV::OneOrMoreOf(vds_view_list(cs@, 0)),
        VDS::Repetition { inner, min, max } => VdsV::Repetition {
            inner: Box::new(vds_view(*inner)),
            min: min as nat,
            max: match max {
                Some(m) => Some(m as nat),
                None => None,
            },
        },
    }
}

/// The mathematical values of the trees of a list, from index `i` on.
pub open spec fn vds_view_list(s: Seq<VDS>, i: nat) -> Seq<VdsV>
    decreases s, s.len() - i,
{
    if i >= s.len() {
        Seq::<VdsV>::empty()
    } else {
        seq![vds_view(s[i as int])] + vds_view_list(s, i + 1)
    }
}

/// The view list is the element-wise view.
pub proof fn lemma_vds_view_list(s: Seq<VDS>, i: nat)
    ensures
        vds_view_list(s, i).len() == if i <= s.len() {
            s.len() - i
        } else {
            0
        },
        forall|k: int|
            0 <= k < vds_view_list(s, i).len() ==> vds_view_list(s, i)[k] == vds_view(
                s[i + k],
            ),
    decreases s.len() - i,
{
    if i < s.len() {
        lemma_vds_view_list(s, i + 1);
    }
}

/// No compound node holds fewer than two children: singleton wrappers are
/// always collapsed away.
pub open spec fn no_singletons_v(v: VdsV) -> bool
    decreases v,
{
    match v {
        VdsV::Keyword(_) | VdsV::Value(_) | VdsV::Type(_) => true,
        VdsV::Sequence(cs) => {
            &&& cs.len() >= 2
            &&& forall|i: int| 0 <= i < cs.len() ==> no_singletons_v(#[trigger] cs[i])
        },
        VdsV::Choice(cs) => {
            &&& cs.len() >= 2
            &&& forall|i: int| 0 <= i < cs.len() ==> no_singletons_v(#[trigger] cs[i])
        },
        VdsV::AllOf(cs) => {
            &&& cs.len() >= 2
            &&& forall|i: int| 0 <= i < cs.len() ==> no_singletons_v(#[trigger] cs[i])
        },
        VdsV::OneOrMoreOf(cs) => {
            &&& cs.len() >= 2
            &&& forall|i: int| 0 <= i < cs.len() ==> no_singletons_v(#[trigger] cs[i])
        },
        VdsV::Repetition { inner, .. } => no_singletons_v(*inner),
    }
}

impl VDS {
    /// The identifier text of a leaf node, `None` for compound nodes.
    pub fn as_ext_ty(&self) -> (r: Option<&Vec<u8>>)
        ensures
            r == self.spec_ext_ty(),
    {
        match self {
            VDS::Keyword(s) | VDS::Value(s) | VDS::Type(s) => Some(s),
            _ => None,
        }
    }

    /// The identifier text of a leaf node, `None` for compound nodes.
    pub open spec fn spec_ext_ty(&self) -> Option<&Vec<u8>> {
        match self {
            VDS::Keyword(s) | VDS::Value(s) | VDS::Type(s) => Some(s),
            _ => None,
        }
    }

    /// True of every tree the grammar parser returns: compound nodes hold at
    /// least two children, so no singleton wrapper ever appears.
    pub open spec fn no_singletons(self) -> bool
        decreases self,
    {
        match self {
            VDS::Keyword(_) | VDS::Value(_) | VDS::Type(_) => true,
            VDS::Sequence(cs) | VDS::Choice(cs) | VDS::AllOf(cs) | VDS::OneOrMoreOf(cs) => {
                &&& cs@.len() >= 2
                &&& forall|i: int| 0 <= i < cs@.len() ==> #[trigger] cs@[i].no_singletons()
            },
            VDS::Repetition { inner, .. } => inner.no_singletons(),
        }
    }
}

} // verus!
