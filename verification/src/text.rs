//! ASCII identifier handling: the canonical casing scheme for names in the
//! intermediate representation and the decimal suffixes that keep
//! synthesized names apart.
//!
//! Names synthesized for nested constructs are built as
//! `<parent name> + <separator letter> + <decimal index>`.  The separator
//! letters (`F` for positional slots, `V` for choice variants) never occur
//! inside a decimal index, which makes the encoding of a path of ancestor
//! constructs uniquely decodable; the lemmas at the end of this module turn
//! that into the name-uniqueness argument for the IR builder.

use vstd::prelude::*;

verus! {

/// `-`, the word separator of grammar identifiers.
pub const DASH: u8 = 45;
/// `_`, the word separator of emitted field names.
pub const UNDERSCORE: u8 = 95;
/// `F`, the separator letter of positional (field) suffixes.
pub const FIELD_SEP: u8 = 70;
/// `V`, the separator letter of choice-variant suffixes.
pub const VARIANT_SEP: u8 = 86;

pub open spec fn is_digit(c: u8) -> bool {
    48 <= c <= 57
}

pub open spec fn is_lower(c: u8) -> bool {
    97 <= c <= 122
}

pub open spec fn is_upper(c: u8) -> bool {
    65 <= c <= 90
}

/// The upper-case form of an ASCII letter; other bytes are unchanged.
pub open spec fn spec_upper(c: u8) -> u8 {
    if is_lower(c) {
        (c - 32) as u8
    } else {
        c
    }
}

/// The lower-case form of an ASCII letter; other bytes are unchanged.
pub open spec fn spec_lower(c: u8) -> u8 {
    if is_upper(c) {
        (c + 32) as u8
    } else {
        c
    }
}

/// Pascal casing of a hyphenated identifier: hyphens are dropped and the
/// letter that starts each word is upper-cased.  `cap` says whether the next
/// byte starts a word.
pub open spec fn spec_pascal_rec(s: Seq<u8>, cap: bool) -> Seq<u8>
    decreases s.len(),
{
    if s.len() == 0 {
        Seq::<u8>::empty()
    } else if s[0] == DASH {
        spec_pascal_rec(s.skip(1), true)
    } else if cap {
        seq![spec_upper(s[0])] + spec_pascal_rec(s.skip(1), false)
    } else {
        seq![s[0]] + spec_pascal_rec(s.skip(1), false)
    }
}

/// Pascal casing of an identifier: `margin-top` becomes `MarginTop`.
pub open spec fn spec_pascal(s: Seq<u8>) -> Seq<u8> {
    spec_pascal_rec(s, true)
}

/// Snake casing: hyphens become underscores, an upper-case letter is
/// lower-cased and, except at the start of a word, preceded by an
/// underscore.  `MarginTopF0` becomes `margin_top_f0`.
pub open spec fn spec_snake_rec(s: Seq<u8>, first: bool) -> Seq<u8>
    decreases s.len(),
{
    if s.len() == 0 {
        Seq::<u8>::empty()
    } else if s[0] == DASH {
        seq![UNDERSCORE] + spec_snake_rec(s.skip(1), true)
    } else if is_upper(s[0]) {
        if first {
            seq![spec_lower(s[0])] + spec_snake_rec(s.skip(1), false)
        } else {
            seq![UNDERSCORE, spec_lower(s[0])] + spec_snake_rec(s.skip(1), false)
        }
    } else {
        seq![s[0]] + spec_snake_rec(s.skip(1), false)
    }
}

/// Snake casing of an identifier.
pub open spec fn spec_snake(s: Seq<u8>) -> Seq<u8> {
    spec_snake_rec(s, true)
}

/// Pascal-case an identifier.
pub fn to_pascal(s: &Vec<u8>) -> (r: Vec<u8>)
    ensures
        r@ == spec_pascal(s@),
{
    let mut r: Vec<u8> = Vec::new();
    let mut i: usize = 0;
    let mut cap: bool = true;
    proof {
        assert(s@.skip(0) =~= s@);
        assert(r@ + spec_pascal_rec(s@, true) =~= spec_pascal_rec(s@, true));
    }
    while i < s.len()
        invariant
            i <= s@.len(),
            spec_pascal(s@) == r@ + spec_pascal_rec(s@.skip(i as int), cap),
        decreases s@.len() - i,
    {
        let ghost r0 = r@;
        let ghost cap0 = cap;
        let ghost i0 = i as int;
        let ghost rest = spec_pascal_rec(s@.skip(i0 + 1), false);
        proof {
            assert(s@.skip(i0).skip(1) =~= s@.skip(i0 + 1));
            assert(s@.skip(i0)[0] == s@[i0]);
        }
        let c = s[i];
        if c == DASH {
            cap = true;
        } else if cap {
            if 97 <= c && c <= 122 {
                r.push(c - 32);
            } else {
                r.push(c);
            }
            cap = false;
            proof {
                assert(spec_pascal_rec(s@.skip(i0), cap0) == seq![spec_upper(s@[i0])] + rest);
                assert((r0 + seq![spec_upper(s@[i0])]) + rest =~= r0 + (seq![spec_upper(s@[i0])]
                    + rest));
            }
        } else {
            r.push(c);
            cap = false;
            proof {
                assert(spec_pascal_rec(s@.skip(i0), cap0) == seq![s@[i0]] + rest);
                assert((r0 + seq![s@[i0]]) + rest =~= r0 + (seq![s@[i0]] + rest));
            }
        }
        i = i + 1;
    }
    proof {
        assert(s@.skip(i as int) =~= Seq::<u8>::empty());
        assert(r@ + Seq::<u8>::empty() =~= r@);
    }
    r
}

/// Snake-case an identifier.
pub fn to_snake(s: &Vec<u8>) -> (r: Vec<u8>)
    ensures
        r@ == spec_snake(s@),
{
    let mut r: Vec<u8> = Vec::new();
    let mut i: usize = 0;
    let mut first: bool = true;
    proof {
        assert(s@.skip(0) =~= s@);
        assert(r@ + spec_snake_rec(s@, true) =~= spec_snake_rec(s@, true));
    }
    while i < s.len()
        invariant
            i <= s@.len(),
            spec_snake(s@) == r@ + spec_snake_rec(s@.skip(i as int), first),
        decreases s@.len() - i,
    {
        let ghost r0 = r@;
        let ghost first0 = first;
        let ghost i0 = i as int;
        proof {
            assert(s@.skip(i0).skip(1) =~= s@.skip(i0 + 1));
            assert(s@.skip(i0)[0] == s@[i0]);
        }
        let c = s[i];
        if c == DASH {
            r.push(UNDERSCORE);
            first = true;
            proof {
                let rest = spec_snake_rec(s@.skip(i0 + 1), true);
                assert(spec_snake_rec(s@.skip(i0), first0) == seq![UNDERSCORE] + rest);
                assert((r0 + seq![UNDERSCORE]) + rest =~= r0 + (seq![UNDERSCORE] + rest));
            }
        } else if 65 <= c && c <= 90 {
            if !first {
                r.push(UNDERSCORE);
            }
            r.push(c + 32);
            proof {
                let rest = spec_snake_rec(s@.skip(i0 + 1), false);
                if first0 {
                    assert(spec_snake_rec(s@.skip(i0), first0) == seq![spec_lower(s@[i0])] + rest);
                    assert((r0 + seq![spec_lower(s@[i0])]) + rest =~= r0 + (seq![
                        spec_lower(s@[i0]),
                    ] + rest));
                } else {
                    assert(spec_snake_rec(s@.skip(i0), first0) == seq![
                        UNDERSCORE,
                        spec_lower(s@[i0]),
                    ] + rest);
                    assert(r0 + seq![UNDERSCORE] + seq![spec_lower(s@[i0])] =~= r0 + seq![
                        UNDERSCORE,
                        spec_lower(s@[i0]),
                    ]);
                    assert((r0 + seq![UNDERSCORE, spec_lower(s@[i0])]) + rest =~= r0 + (seq![
                        UNDERSCORE,
                        spec_lower(s@[i0]),
                    ] + rest));
                }
            }
            first = false;
        } else {
            r.push(c);
            first = false;
            proof {
                let rest = spec_snake_rec(s@.skip(i0 + 1), false);
                assert(spec_snake_rec(s@.skip(i0), first0) == seq![s@[i0]] + rest);
                assert((r0 + seq![s@[i0]]) + rest =~= r0 + (seq![s@[i0]] + rest));
            }
        }
        i = i + 1;
    }
    proof {
        assert(s@.skip(i as int) =~= Seq::<u8>::empty());
        assert(r@ + Seq::<u8>::empty() =~= r@);
    }
    r
}

/// Kebab casing of a canonical Pascal name: an upper-case letter is
/// lower-cased and, except at the start, preceded by a hyphen; other bytes
/// are unchanged.  `NwResize` becomes `nw-resize`.
pub open spec fn spec_kebab_rec(s: Seq<u8>, first: bool) -> Seq<u8>
    decreases s.len(),
{
    if s.len() == 0 {
        Seq::<u8>::empty()
    } else if is_upper(s[0]) {
        if first {
            seq![spec_lower(s[0])] + spec_kebab_rec(s.skip(1), false)
        } else {
            seq![DASH, spec_lower(s[0])] + spec_kebab_rec(s.skip(1), false)
        }
    } else {
        seq![s[0]] + spec_kebab_rec(s.skip(1), false)
    }
}

/// Kebab casing of a canonical Pascal name.
pub open spec fn spec_kebab(s: Seq<u8>) -> Seq<u8> {
    spec_kebab_rec(s, true)
}

/// Kebab-case a canonical Pascal name.
pub fn to_kebab(s: &Vec<u8>) -> (r: Vec<u8>)
    ensures
        r@ == spec_kebab(s@),
{
    let mut r: Vec<u8> = Vec::new();
    let mut i: usize = 0;
    let mut first: bool = true;
    proof {
        assert(s@.skip(0) =~= s@);
        assert(r@ + spec_kebab_rec(s@, true) =~= spec_kebab_rec(s@, true));
    }
    while i < s.len()
        invariant
            i <= s@.len(),
            spec_kebab(s@) == r@ + spec_kebab_rec(s@.skip(i as int), first),
        decreases s@.len() - i,
    {
        let ghost r0 = r@;
        let ghost first0 = first;
        let ghost i0 = i as int;
        proof {
            assert(s@.skip(i0).skip(1) =~= s@.skip(i0 + 1));
            assert(s@.skip(i0)[0] == s@[i0]);
        }
        let c = s[i];
        if 65 <= c && c <= 90 {
            if !first {
                r.push(DASH);
            }
            r.push(c + 32);
            proof {
                let rest = spec_kebab_rec(s@.skip(i0 + 1), false);
                if first0 {
                    assert(spec_kebab_rec(s@.skip(i0), first0) == seq![spec_lower(s@[i0])] + rest);
                    assert((r0 + seq![spec_lower(s@[i0])]) + rest =~= r0 + (seq![
                        spec_lower(s@[i0]),
                    ] + rest));
                } else {
                    assert(spec_kebab_rec(s@.skip(i0), first0) == seq![DASH, spec_lower(s@[i0])]
                        + rest);
                    assert(r0 + seq![DASH] + seq![spec_lower(s@[i0])] =~= r0 + seq![
                        DASH,
                        spec_lower(s@[i0]),
                    ]);
                    assert((r0 + seq![DASH, spec_lower(s@[i0])]) + rest =~= r0 + (seq![
                        DASH,
                        spec_lower(s@[i0]),
                    ] + rest));
                }
            }
            first = false;
        } else {
            r.push(c);
            first = false;
            proof {
                let rest = spec_kebab_rec(s@.skip(i0 + 1), false);
                assert(spec_kebab_rec(s@.skip(i0), first0) == seq![s@[i0]] + rest);
                assert((r0 + seq![s@[i0]]) + rest =~= r0 + (seq![s@[i0]] + rest));
            }
        }
        i = i + 1;
    }
    proof {
        assert(s@.skip(i as int) =~= Seq::<u8>::empty());
        assert(r@ + Seq::<u8>::empty() =~= r@);
    }
    r
}

/// The decimal digits of `n`, most significant first.
pub open spec fn spec_dec(n: nat) -> Seq<u8>
    decreases n,
{
    if n < 10 {
        seq![(48 + n) as u8]
    } else {
        spec_dec(n / 10) + seq![(48 + n % 10) as u8]
    }
}

pub proof fn lemma_dec_digits(n: nat)
    ensures
        spec_dec(n).len() >= 1,
        forall|i: int| 0 <= i < spec_dec(n).len() ==> is_digit(#[trigger] spec_dec(n)[i]),
    decreases n,
{
    if n >= 10 {
        lemma_dec_digits(n / 10);
    }
}

/// The decimal encoding is injective.
pub proof fn lemma_dec_injective(a: nat, b: nat)
    requires
        spec_dec(a) == spec_dec(b),
    ensures
        a == b,
    decreases a + b,
{
    if a < 10 && b < 10 {
        assert(spec_dec(a)[0] == (48 + a) as u8);
        assert(spec_dec(b)[0] == (48 + b) as u8);
    } else if a < 10 && b >= 10 {
        lemma_dec_digits(b / 10);
        assert(spec_dec(b).len() >= 2);
    } else if a >= 10 && b < 10 {
        lemma_dec_digits(a / 10);
        assert(spec_dec(a).len() >= 2);
    } else {
        assert(spec_dec(a) == spec_dec(a / 10) + seq![(48 + a % 10) as u8]);
        assert(spec_dec(b) == spec_dec(b / 10) + seq![(48 + b % 10) as u8]);
        assert(spec_dec(a).last() == (48 + a % 10) as u8);
        assert(spec_dec(b).last() == (48 + b % 10) as u8);
        assert(a % 10 == b % 10);
        assert(spec_dec(a).drop_last() =~= spec_dec(a / 10));
        assert(spec_dec(b).drop_last() =~= spec_dec(b / 10));
        lemma_dec_injective(a / 10, b / 10);
        assert(a == 10 * (a / 10) + a % 10);
        assert(b == 10 * (b / 10) + b % 10);
    }
}

/// A decimal run followed by a byte that is no digit (or by nothing)
/// determines both the number and what follows it.
pub proof fn lemma_dec_followed(a: nat, b: nat, s1: Seq<u8>, s2: Seq<u8>)
    requires
        spec_dec(a) + s1 == spec_dec(b) + s2,
        s1.len() == 0 || !is_digit(s1[0]),
        s2.len() == 0 || !is_digit(s2[0]),
    ensures
        a == b,
        s1 == s2,
{
    lemma_dec_digits(a);
    lemma_dec_digits(b);
    let la = spec_dec(a).len() as int;
    let lb = spec_dec(b).len() as int;
    if la < lb {
        // position `la` holds a digit of `spec_dec(b)` on the right, but on
        // the left it lies in `s1` or past the end
        assert((spec_dec(b) + s2)[la] == spec_dec(b)[la]);
        assert(is_digit(spec_dec(b)[la]));
        if s1.len() == 0 {
            assert((spec_dec(a) + s1).len() == la);
            assert((spec_dec(b) + s2).len() >= lb);
        } else {
            assert((spec_dec(a) + s1)[la] == s1[0]);
        }
        assert(false);
    } else if lb < la {
        assert((spec_dec(a) + s1)[lb] == spec_dec(a)[lb]);
        assert(is_digit(spec_dec(a)[lb]));
        if s2.len() == 0 {
            assert((spec_dec(b) + s2).len() == lb);
            assert((spec_dec(a) + s1).len() >= la);
        } else {
            assert((spec_dec(b) + s2)[lb] == s2[0]);
        }
        assert(false);
    } else {
        assert(spec_dec(a) =~= (spec_dec(a) + s1).take(la));
        assert(spec_dec(b) =~= (spec_dec(b) + s2).take(la));
        lemma_dec_injective(a, b);
        assert(s1 =~= (spec_dec(a) + s1).skip(la));
        assert(s2 =~= (spec_dec(b) + s2).skip(la));
    }
}

/// The decimal digits of `n`, most significant first.
pub fn dec_digits(n: usize) -> (r: Vec<u8>)
    ensures
        r@ == spec_dec(n as nat),
{
    let mut rev: Vec<u8> = Vec::new();
    if n == 0 {
        rev.push(48);
        proof {
            assert(rev@.reverse() =~= seq![48u8]);
            assert(spec_dec(0) == seq![48u8]);
        }
    } else {
        let mut m: usize = n;
        proof {
            assert(rev@.reverse() =~= Seq::<u8>::empty());
            assert(spec_dec(m as nat) + Seq::<u8>::empty() =~= spec_dec(m as nat));
        }
        while m > 0
            invariant
                spec_dec(n as nat) == if m > 0 {
                    spec_dec(m as nat) + rev@.reverse()
                } else {
                    rev@.reverse()
                },
            decreases m,
        {
            let ghost rev0 = rev@;
            let ghost m0 = m as nat;
            let d: u8 = 48 + (m % 10) as u8;
            rev.push(d);
            m = m / 10;
            proof {
                assert((rev0 + seq![d]).reverse() =~= seq![d] + rev0.reverse());
                if m0 >= 10 {
                    assert(spec_dec(m0) == spec_dec(m0 / 10) + seq![d]);
                    assert(spec_dec(m0 / 10) + (seq![d] + rev0.reverse()) =~= (spec_dec(m0 / 10)
                        + seq![d]) + rev0.reverse());
                } else {
                    assert(spec_dec(m0) == seq![d]);
                    assert(seq![d] + rev0.reverse() =~= spec_dec(m0) + rev0.reverse());
                }
            }
        }
    }
    let mut r: Vec<u8> = Vec::new();
    let mut i: usize = rev.len();
    while i > 0
        invariant
            i <= rev@.len(),
            r@ =~= rev@.skip(i as int).reverse(),
        decreases i,
    {
        i = i - 1;
        r.push(rev[i]);
        proof {
            assert(rev@.skip(i as int) =~= seq![rev@[i as int]] + rev@.skip(i as int + 1));
            assert(rev@.skip(i as int).reverse() =~= rev@.skip(i as int + 1).reverse() + seq![
                rev@[i as int],
            ]);
        }
    }
    proof {
        assert(rev@.skip(0) =~= rev@);
    }
    r
}

/// Copy a byte string.
pub fn copy_bytes(src: &Vec<u8>) -> (r: Vec<u8>)
    ensures
        r@ == src@,
{
    let mut r: Vec<u8> = Vec::new();
    let mut i: usize = 0;
    while i < src.len()
        invariant
            i <= src@.len(),
            r@ =~= src@.take(i as int),
        decreases src@.len() - i,
    {
        r.push(src[i]);
        i = i + 1;
    }
    proof {
        assert(src@.take(src@.len() as int) =~= src@);
    }
    r
}

/// Lower-casing of every byte of an identifier.
pub open spec fn spec_lower_all(s: Seq<u8>) -> Seq<u8> {
    s.map_values(|c: u8| spec_lower(c))
}

/// Lower-case an identifier byte for byte.
pub fn to_lower(s: &Vec<u8>) -> (r: Vec<u8>)
    ensures
        r@ == spec_lower_all(s@),
{
    let mut r: Vec<u8> = Vec::new();
    let mut i: usize = 0;
    while i < s.len()
        invariant
            i <= s@.len(),
            r@ =~= spec_lower_all(s@.take(i as int)),
        decreases s@.len() - i,
    {
        let c = s[i];
        if 65 <= c && c <= 90 {
            r.push(c + 32);
        } else {
            r.push(c);
        }
        i = i + 1;
        proof {
            assert(r@ =~= spec_lower_all(s@.take(i as int)));
        }
    }
    proof {
        assert(s@.take(s@.len() as int) =~= s@);
    }
    r
}

/// Whether two byte strings hold the same bytes.
pub fn bytes_eq(a: &Vec<u8>, b: &Vec<u8>) -> (r: bool)
    ensures
        r == (a@ == b@),
{
    if a.len() != b.len() {
        return false;
    }
    let mut i: usize = 0;
    while i < a.len()
        invariant
            i <= a@.len(),
            a@.len() == b@.len(),
            forall|x: int| 0 <= x < i ==> a@[x] == b@[x],
        decreases a@.len() - i,
    {
        if a[i] != b[i] {
            return false;
        }
        i = i + 1;
    }
    proof {
        assert(a@ =~= b@);
    }
    true
}

/// One step on the path from a construct to a nested construct: a positional
/// slot (`F`) or a choice variant (`V`), with its index.
pub struct PathSeg {
    pub var: bool,
    pub idx: nat,
}

/// The byte encoding of one path step.
pub open spec fn seg_code(g: PathSeg) -> Seq<u8> {
    seq![if g.var { VARIANT_SEP } else { FIELD_SEP }] + spec_dec(g.idx)
}

/// The byte encoding of a path of ancestor constructs.
pub open spec fn path_code(p: Seq<PathSeg>) -> Seq<u8>
    decreases p.len(),
{
    if p.len() == 0 {
        Seq::<u8>::empty()
    } else {
        seg_code(p[0]) + path_code(p.skip(1))
    }
}

/// A path encoding is empty or starts with a separator letter.
pub proof fn lemma_path_code_start(p: Seq<PathSeg>)
    ensures
        p.len() == 0 ==> path_code(p).len() == 0,
        p.len() > 0 ==> path_code(p).len() > 0 && (path_code(p)[0] == FIELD_SEP || path_code(p)[0]
            == VARIANT_SEP),
{
    if p.len() > 0 {
        assert(path_code(p) == seg_code(p[0]) + path_code(p.skip(1)));
        assert(path_code(p)[0] == seg_code(p[0])[0]);
    }
}

/// Two encoded paths that agree as bytes agree step for step.
pub proof fn lemma_path_code_injective(p1: Seq<PathSeg>, p2: Seq<PathSeg>)
    requires
        path_code(p1) == path_code(p2),
    ensures
        p1 == p2,
    decreases p1.len(),
{
    lemma_path_code_start(p1);
    lemma_path_code_start(p2);
    if p1.len() == 0 && p2.len() == 0 {
        assert(p1 =~= p2);
    } else if p1.len() > 0 && p2.len() > 0 {
        let g1 = p1[0];
        let g2 = p2[0];
        let r1 = path_code(p1.skip(1));
        let r2 = path_code(p2.skip(1));
        assert(seg_code(g1) + r1 == seg_code(g2) + r2);
        assert((seg_code(g1) + r1)[0] == seg_code(g1)[0]);
        assert((seg_code(g2) + r2)[0] == seg_code(g2)[0]);
        assert(seg_code(g1)[0] == seg_code(g2)[0]);
        assert(g1.var == g2.var);
        assert(spec_dec(g1.idx) + r1 =~= (seg_code(g1) + r1).skip(1));
        assert(spec_dec(g2.idx) + r2 =~= (seg_code(g2) + r2).skip(1));
        lemma_path_code_start(p1.skip(1));
        lemma_path_code_start(p2.skip(1));
        lemma_dec_followed(g1.idx, g2.idx, r1, r2);
        assert(g1 == PathSeg { var: g1.var, idx: g1.idx });
        assert(g2 == PathSeg { var: g2.var, idx: g2.idx });
        lemma_path_code_injective(p1.skip(1), p2.skip(1));
        assert(p1 =~= seq![p1[0]] + p1.skip(1));
        assert(p2 =~= seq![p2[0]] + p2.skip(1));
    } else {
        assert(false);
    }
}

/// Appending distinct encoded paths to one prefix gives distinct names.
pub proof fn lemma_name_disjoint(prefix: Seq<u8>, p1: Seq<PathSeg>, p2: Seq<PathSeg>)
    requires
        p1 != p2,
    ensures
        prefix + path_code(p1) != prefix + path_code(p2),
{
    if prefix + path_code(p1) == prefix + path_code(p2) {
        assert(path_code(p1) =~= (prefix + path_code(p1)).skip(prefix.len() as int));
        assert(path_code(p2) =~= (prefix + path_code(p2)).skip(prefix.len() as int));
        lemma_path_code_injective(p1, p2);
    }
}

} // verus!
