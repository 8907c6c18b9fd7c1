//! The Value Definition Syntax parser: a lexer over the grammar text and a
//! recursive-descent parser over its tokens.
//!
//! The grammar, from tightest to loosest binding: a multiplier suffix
//! (`*`, `+`, `?`, `{m,n}`) binds to the atom before it; juxtaposed atoms
//! form a `Sequence`; `&&` joins sequences into an `AllOf`; `||` joins
//! those into a `OneOrMoreOf`; `|` joins those into a `Choice`.  Atoms are
//! bare identifiers (keywords), `<ident>` value placeholders, `'ident'`
//! type placeholders, and bracketed groups.  A list of one operand
//! collapses to that operand.  The whole input must be consumed.  A range
//! `{m,n}` with `m > n`, a number that does not fit the machine word, and
//! any unexpected byte are rejected.

use vstd::prelude::*;

use crate::text::{copy_bytes, dec_digits, spec_dec};
use crate::vds::{lemma_vds_view_list, no_singletons_v, vds_view, vds_view_list, VdsV, VDS};

verus! {

/// Why a grammar string was rejected.
#[derive(Debug, Clone, Copy, PartialEq, Eq, Structural)]
pub enum SyntaxError {
    /// A byte that no token may start with, or a lone `&`.
    BadByte,
    /// A repetition count too large for the machine word.
    NumberTooLarge,
    /// The token stream does not form a grammar expression.
    BadSyntax,
    /// A grammar expression ends before the input does.
    TrailingInput,
}

/// One token of the grammar text.
#[derive(Debug, PartialEq, Eq)]
pub enum Tok {
    /// An identifier: ASCII letters and hyphens.
    Ident(Vec<u8>),
    /// An integer of a `{m,n}` range.
    Int(usize),
    Lt,
    Gt,
    Quote,
    LBracket,
    RBracket,
    LBrace,
    RBrace,
    Comma,
    Star,
    Plus,
    Question,
    Bar,
    BarBar,
    AmpAmp,
}

/// The mathematical value of a token.
pub enum TokV {
    Ident(Seq<u8>),
    Int(nat),
    Lt,
    Gt,
    Quote,
    LBracket,
    RBracket,
    LBrace,
    RBrace,
    Comma,
    Star,
    Plus,
    Question,
    Bar,
    BarBar,
    AmpAmp,
}

/// The mathematical value of a token.
pub open spec fn tok_view(t: Tok) -> TokV {
    match t {
        Tok::Ident(s) => TokV::Ident(s@),
        Tok::Int(n) => TokV::Int(n as nat),
        Tok::Lt => TokV::Lt,
        Tok::Gt => TokV::Gt,
        Tok::Quote => TokV::Quote,
        Tok::LBracket => TokV::LBracket,
        Tok::RBracket => TokV::RBracket,
        Tok::LBrace => TokV::LBrace,
        Tok::RBrace => TokV::RBrace,
        Tok::Comma => TokV::Comma,
        Tok::Star => TokV::Star,
        Tok::Plus => TokV::Plus,
        Tok::Question => TokV::Question,
        Tok::Bar => TokV::Bar,
        Tok::BarBar => TokV::BarBar,
        Tok::AmpAmp => TokV::AmpAmp,
    }
}

/// The mathematical value of a token list.
pub open spec fn toks_view(s: Seq<Tok>) -> Seq<TokV> {
    s.map_values(|t: Tok| tok_view(t))
}

/// Whitespace between tokens.
pub open spec fn is_ws(c: u8) -> bool {
    c == 32 || c == 9 || c == 10 || c == 13
}

/// A byte of an identifier: an ASCII letter or a hyphen.
pub open spec fn is_ident_byte(c: u8) -> bool {
    (65 <= c <= 90) || (97 <= c <= 122) || c == 45
}

/// A decimal digit.
pub open spec fn is_digit_byte(c: u8) -> bool {
    48 <= c <= 57
}

/// The length of the identifier run at the head of `s`.
pub open spec fn ident_run(s: Seq<u8>) -> nat
    decreases s.len(),
{
    if s.len() > 0 && is_ident_byte(s[0]) {
        1 + ident_run(s.skip(1))
    } else {
        0
    }
}

/// The length of the digit run at the head of `s`.
pub open spec fn digit_run(s: Seq<u8>) -> nat
    decreases s.len(),
{
    if s.len() > 0 && is_digit_byte(s[0]) {
        1 + digit_run(s.skip(1))
    } else {
        0
    }
}

/// The value of a run of decimal digits, most significant first.
pub open spec fn digits_val(ds: Seq<u8>) -> nat
    decreases ds.len(),
{
    if ds.len() == 0 {
        0
    } else {
        (digits_val(ds.drop_last()) * 10 + (ds.last() - 48)) as nat
    }
}

/// An identifier run is no longer than the text.
pub proof fn lemma_ident_run_le(s: Seq<u8>)
    ensures
        ident_run(s) <= s.len(),
    decreases s.len(),
{
    if s.len() > 0 && is_ident_byte(s[0]) {
        lemma_ident_run_le(s.skip(1));
    }
}

/// A digit run is no longer than the text.
pub proof fn lemma_digit_run_le(s: Seq<u8>)
    ensures
        digit_run(s) <= s.len(),
    decreases s.len(),
{
    if s.len() > 0 && is_digit_byte(s[0]) {
        lemma_digit_run_le(s.skip(1));
    }
}

/// The token list of the grammar text, `None` if some byte starts no token
/// or a number does not fit the machine word.
pub open spec fn spec_lex(s: Seq<u8>) -> Option<Seq<TokV>>
    decreases s.len(),
    via spec_lex_decreases
{
    if s.len() == 0 {
        Some(Seq::<TokV>::empty())
    } else if is_ws(s[0]) {
        spec_lex(s.skip(1))
    } else if is_ident_byte(s[0]) {
        let n = ident_run(s);
        match spec_lex(s.skip(n as int)) {
            Some(rest) => Some(seq![TokV::Ident(s.take(n as int))] + rest),
            None => None,
        }
    } else if is_digit_byte(s[0]) {
        let n = digit_run(s);
        if digits_val(s.take(n as int)) > usize::MAX as nat {
            None
        } else {
            match spec_lex(s.skip(n as int)) {
                Some(rest) => Some(seq![TokV::Int(digits_val(s.take(n as int)))] + rest),
                None => None,
            }
        }
    } else if s[0] == 124 {
        // `|` or `||`
        if s.len() >= 2 && s[1] == 124 {
            match spec_lex(s.skip(2)) {
                Some(rest) => Some(seq![TokV::BarBar] + rest),
                None => None,
            }
        } else {
            match spec_lex(s.skip(1)) {
                Some(rest) => Some(seq![TokV::Bar] + rest),
                None => None,
            }
        }
    } else if s[0] == 38 {
        // `&&`; a lone `&` is rejected
        if s.len() >= 2 && s[1] == 38 {
            match spec_lex(s.skip(2)) {
                Some(rest) => Some(seq![TokV::AmpAmp] + rest),
                None => None,
            }
        } else {
            None
        }
    } else {
        let t = if s[0] == 60 {
            Some(TokV::Lt)
        } else if s[0] == 62 {
            Some(TokV::Gt)
        } else if s[0] == 39 {
            Some(TokV::Quote)
        } else if s[0] == 91 {
            Some(TokV::LBracket)
        } else if s[0] == 93 {
            Some(TokV::RBracket)
        } else if s[0] == 123 {
            Some(TokV::LBrace)
        } else if s[0] == 125 {
            Some(TokV::RBrace)
        } else if s[0] == 44 {
            Some(TokV::Comma)
        } else if s[0] == 42 {
            Some(TokV::Star)
        } else if s[0] == 43 {
            Some(TokV::Plus)
        } else if s[0] == 63 {
            Some(TokV::Question)
        } else {
            None
        };
        match t {
            Some(t) => match spec_lex(s.skip(1)) {
                Some(rest) => Some(seq![t] + rest),
                None => None,
            },
            None => None,
        }
    }
}

#[via_fn]
proof fn spec_lex_decreases(s: Seq<u8>) {
    if s.len() > 0 {
        if is_ident_byte(s[0]) {
            lemma_ident_run_le(s);
        } else if !is_ws(s[0]) && is_digit_byte(s[0]) {
            lemma_digit_run_le(s);
        }
    }
}

/// A run of `k` identifier bytes bounded by a non-identifier byte is the
/// identifier run.
proof fn lemma_ident_run(s: Seq<u8>, k: nat)
    requires
        k <= s.len(),
        forall|x: int| 0 <= x < k ==> is_ident_byte(#[trigger] s[x]),
        k == s.len() || !is_ident_byte(s[k as int]),
    ensures
        ident_run(s) == k,
    decreases k,
{
    if k == 0 {
    } else {
        assert(s.skip(1).len() == s.len() - 1);
        assert forall|x: int| 0 <= x < k - 1 implies is_ident_byte(#[trigger] s.skip(1)[x]) by {
            assert(s.skip(1)[x] == s[x + 1]);
        }
        if k < s.len() {
            assert(s.skip(1)[k - 1] == s[k as int]);
        }
        lemma_ident_run(s.skip(1), (k - 1) as nat);
    }
}

/// A run of `k` digits bounded by a non-digit is the digit run.
pub proof fn lemma_digit_run(s: Seq<u8>, k: nat)
    requires
        k <= s.len(),
        forall|x: int| 0 <= x < k ==> is_digit_byte(#[trigger] s[x]),
        k == s.len() || !is_digit_byte(s[k as int]),
    ensures
        digit_run(s) == k,
    decreases k,
{
    if k == 0 {
    } else {
        assert(s.skip(1).len() == s.len() - 1);
        assert forall|x: int| 0 <= x < k - 1 implies is_digit_byte(#[trigger] s.skip(1)[x]) by {
            assert(s.skip(1)[x] == s[x + 1]);
        }
        if k < s.len() {
            assert(s.skip(1)[k - 1] == s[k as int]);
        }
        lemma_digit_run(s.skip(1), (k - 1) as nat);
    }
}

/// Tokenize a grammar text.
#[verifier::loop_isolation(false)]
#[verifier::rlimit(60)]
pub fn lex(text: &Vec<u8>) -> (r: Result<Vec<Tok>, SyntaxError>)
    ensures
        match r {
            Ok(ts) => spec_lex(text@) == Some(toks_view(ts@)),
            Err(_) => spec_lex(text@) == None::<Seq<TokV>>,
        },
{
    let mut toks: Vec<Tok> = Vec::new();
    let mut i: usize = 0;
    proof {
        assert(text@.skip(0) =~= text@);
    }
    while i < text.len()
        invariant
            i <= text@.len(),
            forall|rest: Seq<TokV>|
                spec_lex(text@.skip(i as int)) == Some(rest) ==> spec_lex(text@) == Some(
                    toks_view(toks@) + rest,
                ),
            spec_lex(text@.skip(i as int)) == None::<Seq<TokV>> ==> spec_lex(text@)
                == None::<Seq<TokV>>,
        decreases text@.len() - i,
    {
        let ghost i0 = i as int;
        let ghost toks0 = toks@;
        let c = text[i];
        proof {
            assert(text@.skip(i0)[0] == text@[i0]);
        }
        if c == 32 || c == 9 || c == 10 || c == 13 {
            i = i + 1;
            proof {
                assert(text@.skip(i0).skip(1) =~= text@.skip(i0 + 1));
            }
        } else if (65 <= c && c <= 90) || (97 <= c && c <= 122) || c == 45 {
            let mut word: Vec<u8> = Vec::new();
            let mut j: usize = i;
            while j < text.len() && ((65 <= text[j] && text[j] <= 90) || (97 <= text[j]
                && text[j] <= 122) || text[j] == 45)
                invariant
                    i <= j <= text@.len(),
                    word@ =~= text@.subrange(i0, j as int),
                    forall|x: int| i0 <= x < j ==> is_ident_byte(#[trigger] text@[x]),
                decreases text@.len() - j,
            {
                word.push(text[j]);
                j = j + 1;
            }
            proof {
                assert forall|x: int| 0 <= x < j - i0 implies is_ident_byte(
                    #[trigger] text@.skip(i0)[x],
                ) by {
                    assert(text@.skip(i0)[x] == text@[i0 + x]);
                }
                if j < text@.len() {
                    assert(text@.skip(i0)[j - i0] == text@[j as int]);
                }
                lemma_ident_run(text@.skip(i0), (j - i0) as nat);
                assert(text@.skip(i0).take(j - i0) =~= text@.subrange(i0, j as int));
                assert(text@.skip(i0).skip(j - i0) =~= text@.skip(j as int));
            }
            toks.push(Tok::Ident(word));
            i = j;
            proof {
                assert(toks_view(toks@) =~= toks_view(toks0) + seq![
                    TokV::Ident(text@.subrange(i0, j as int)),
                ]);
                assert forall|rest: Seq<TokV>|
                    spec_lex(text@.skip(i as int)) == Some(rest) implies spec_lex(text@) == Some(
                    toks_view(toks@) + rest,
                ) by {
                    assert(spec_lex(text@.skip(i0)) == Some(
                        seq![TokV::Ident(text@.subrange(i0, j as int))] + rest,
                    ));
                    assert((toks_view(toks0) + seq![TokV::Ident(text@.subrange(i0, j as int))])
                        + rest =~= toks_view(toks0) + (seq![
                        TokV::Ident(text@.subrange(i0, j as int)),
                    ] + rest));
                }
            }
        } else if 48 <= c && c <= 57 {
            let mut val: usize = 0;
            let mut j: usize = i;
            let mut too_big: bool = false;
            while j < text.len() && 48 <= text[j] && text[j] <= 57
                invariant
                    i <= j <= text@.len(),
                    forall|x: int| i0 <= x < j ==> is_digit_byte(#[trigger] text@[x]),
                    !too_big ==> val as nat == digits_val(text@.subrange(i0, j as int)),
                    too_big ==> digits_val(text@.subrange(i0, j as int)) > usize::MAX as nat,
                decreases text@.len() - j,
            {
                let d = text[j];
                proof {
                    assert(text@.subrange(i0, j + 1).drop_last() =~= text@.subrange(
                        i0,
                        j as int,
                    ));
                    assert(text@.subrange(i0, j + 1).last() == text@[j as int]);
                }
                proof {
                    assert((usize::MAX as nat) == ((usize::MAX as nat) / 10) * 10 + (
                    usize::MAX as nat) % 10);
                }
                if !too_big {
                    if val > usize::MAX / 10 || (val == usize::MAX / 10 && (d - 48) as usize
                        > usize::MAX % 10) {
                        too_big = true;
                        proof {
                            assert(digits_val(text@.subrange(i0, j + 1)) == (val as nat) * 10 + (
                            d - 48));
                        }
                    } else {
                        val = val * 10 + (d - 48) as usize;
                    }
                } else {
                    proof {
                        let pre = text@.subrange(i0, j as int);
                        let ext = text@.subrange(i0, j + 1);
                        assert(digits_val(ext) == digits_val(pre) * 10 + (text@[j as int] - 48));
                    }
                }
                j = j + 1;
            }
            proof {
                assert forall|x: int| 0 <= x < j - i0 implies is_digit_byte(
                    #[trigger] text@.skip(i0)[x],
                ) by {
                    assert(text@.skip(i0)[x] == text@[i0 + x]);
                }
                if j < text@.len() {
                    assert(text@.skip(i0)[j - i0] == text@[j as int]);
                }
                lemma_digit_run(text@.skip(i0), (j - i0) as nat);
                assert(text@.skip(i0).take(j - i0) =~= text@.subrange(i0, j as int));
                assert(text@.skip(i0).skip(j - i0) =~= text@.skip(j as int));
            }
            if too_big {
                return Err(SyntaxError::NumberTooLarge);
            }
            toks.push(Tok::Int(val));
            i = j;
            proof {
                assert(toks_view(toks@) =~= toks_view(toks0) + seq![TokV::Int(val as nat)]);
                assert forall|rest: Seq<TokV>|
                    spec_lex(text@.skip(i as int)) == Some(rest) implies spec_lex(text@) == Some(
                    toks_view(toks@) + rest,
                ) by {
                    assert(spec_lex(text@.skip(i0)) == Some(
                        seq![TokV::Int(val as nat)] + rest,
                    ));
                    assert((toks_view(toks0) + seq![TokV::Int(val as nat)]) + rest =~= toks_view(
                        toks0,
                    ) + (seq![TokV::Int(val as nat)] + rest));
                }
            }
        } else if c == 124 {
            if i + 1 < text.len() && text[i + 1] == 124 {
                toks.push(Tok::BarBar);
                i = i + 2;
                proof {
                    assert(text@.skip(i0)[1] == text@[i0 + 1]);
                    assert(text@.skip(i0).skip(2) =~= text@.skip(i0 + 2));
                    assert(toks_view(toks@) =~= toks_view(toks0) + seq![TokV::BarBar]);
                    assert forall|rest: Seq<TokV>|
                        spec_lex(text@.skip(i as int)) == Some(rest) implies spec_lex(text@)
                        == Some(toks_view(toks@) + rest) by {
                        assert((toks_view(toks0) + seq![TokV::BarBar]) + rest =~= toks_view(toks0)
                            + (seq![TokV::BarBar] + rest));
                    }
                }
            } else {
                toks.push(Tok::Bar);
                i = i + 1;
                proof {
                    if i0 + 1 < text@.len() {
                        assert(text@.skip(i0)[1] == text@[i0 + 1]);
                    }
                    assert(text@.skip(i0).skip(1) =~= text@.skip(i0 + 1));
                    assert(toks_view(toks@) =~= toks_view(toks0) + seq![TokV::Bar]);
                    assert forall|rest: Seq<TokV>|
                        spec_lex(text@.skip(i as int)) == Some(rest) implies spec_lex(text@)
                        == Some(toks_view(toks@) + rest) by {
                        assert((toks_view(toks0) + seq![TokV::Bar]) + rest =~= toks_view(toks0) + (
                        seq![TokV::Bar] + rest));
                    }
                }
            }
        } else if c == 38 {
            if i + 1 < text.len() && text[i + 1] == 38 {
                toks.push(Tok::AmpAmp);
                i = i + 2;
                proof {
                    assert(text@.skip(i0)[1] == text@[i0 + 1]);
                    assert(text@.skip(i0).skip(2) =~= text@.skip(i0 + 2));
                    assert(toks_view(toks@) =~= toks_view(toks0) + seq![TokV::AmpAmp]);
                    assert forall|rest: Seq<TokV>|
                        spec_lex(text@.skip(i as int)) == Some(rest) implies spec_lex(text@)
                        == Some(toks_view(toks@) + rest) by {
                        assert((toks_view(toks0) + seq![TokV::AmpAmp]) + rest =~= toks_view(toks0)
                            + (seq![TokV::AmpAmp] + rest));
                    }
                }
            } else {
                proof {
                    if i0 + 1 < text@.len() {
                        assert(text@.skip(i0)[1] == text@[i0 + 1]);
                    }
                }
                return Err(SyntaxError::BadByte);
            }
        } else {
            let t = if c == 60 {
                Tok::Lt
            } else if c == 62 {
                Tok::Gt
            } else if c == 39 {
                Tok::Quote
            } else if c == 91 {
                Tok::LBracket
            } else if c == 93 {
                Tok::RBracket
            } else if c == 123 {
                Tok::LBrace
            } else if c == 125 {
                Tok::RBrace
            } else if c == 44 {
                Tok::Comma
            } else if c == 42 {
                Tok::Star
            } else if c == 43 {
                Tok::Plus
            } else if c == 63 {
                Tok::Question
            } else {
                return Err(SyntaxError::BadByte);
            };
            let ghost tview = tok_view(t);
            toks.push(t);
            i = i + 1;
            proof {
                assert(text@.skip(i0).skip(1) =~= text@.skip(i0 + 1));
                assert(toks_view(toks@) =~= toks_view(toks0) + seq![tview]);
                assert forall|rest: Seq<TokV>|
                    spec_lex(text@.skip(i as int)) == Some(rest) implies spec_lex(text@) == Some(
                    toks_view(toks@) + rest,
                ) by {
                    assert((toks_view(toks0) + seq![tview]) + rest =~= toks_view(toks0) + (
                    seq![tview] + rest));
                }
            }
        }
    }
    proof {
        assert(text@.skip(i as int) =~= Seq::<u8>::empty());
        assert(spec_lex(Seq::<u8>::empty()) == Some(Seq::<TokV>::empty()));
        assert(toks_view(toks@) + Seq::<TokV>::empty() =~= toks_view(toks@));
    }
    Ok(toks)
}

/// A token that can start an atom.
pub open spec fn atom_start(t: TokV) -> bool {
    match t {
        TokV::Ident(_) | TokV::Lt | TokV::Quote | TokV::LBracket => true,
        _ => false,
    }
}

/// Parse one atom: a keyword, a `<value>` placeholder, a `'type'`
/// placeholder, or a bracketed group.
pub open spec fn spec_parse_atom(toks: Seq<TokV>) -> Option<(VdsV, Seq<TokV>)>
    decreases toks.len(), 0int,
{
    if toks.len() == 0 {
        None
    } else {
        match toks[0] {
            TokV::Ident(s) => Some((VdsV::Keyword(s), toks.skip(1))),
            TokV::Lt => if toks.len() >= 3 {
                match (toks[1], toks[2]) {
                    (TokV::Ident(s), TokV::Gt) => Some((VdsV::Value(s), toks.skip(3))),
                    _ => None,
                }
            } else {
                None
            },
            TokV::Quote => if toks.len() >= 3 {
                match (toks[1], toks[2]) {
                    (TokV::Ident(s), TokV::Quote) => Some((VdsV::Type(s), toks.skip(3))),
                    _ => None,
                }
            } else {
                None
            },
            TokV::LBracket => match spec_parse_choice(toks.skip(1)) {
                Some((v, rem)) => if rem.len() >= 1 && rem[0] == TokV::RBracket {
                    Some((v, rem.skip(1)))
                } else {
                    None
                },
                None => None,
            },
            _ => None,
        }
    }
}

/// Parse an atom with an optional multiplier suffix.  A range `{m,n}` with
/// `m > n` is rejected here.
pub open spec fn spec_parse_primary(toks: Seq<TokV>) -> Option<(VdsV, Seq<TokV>)>
    decreases toks.len(), 1int,
{
    match spec_parse_atom(toks) {
        None => None,
        Some((v, rem)) => if rem.len() == 0 {
            Some((v, rem))
        } else {
            match rem[0] {
                TokV::Star => Some(
                    (VdsV::Repetition { inner: Box::new(v), min: 0, max: None }, rem.skip(1)),
                ),
                TokV::Plus => Some(
                    (VdsV::Repetition { inner: Box::new(v), min: 1, max: None }, rem.skip(1)),
                ),
                TokV::Question => Some(
                    (VdsV::Repetition { inner: Box::new(v), min: 0, max: Some(1nat) }, rem.skip(1)),
                ),
                TokV::LBrace => if rem.len() >= 5 {
                    match (rem[1], rem[2], rem[3], rem[4]) {
                        (TokV::Int(m), TokV::Comma, TokV::Int(n), TokV::RBrace) => if m <= n {
                            Some(
                                (
                                    VdsV::Repetition { inner: Box::new(v), min: m, max: Some(n) },
                                    rem.skip(5),
                                ),
                            )
                        } else {
                            None
                        },
                        _ => None,
                    }
                } else {
                    None
                },
                _ => Some((v, rem)),
            }
        },
    }
}

/// Collect further juxtaposed primaries while the next token can start an
/// atom.
pub open spec fn spec_parse_seq_more(toks: Seq<TokV>, acc: Seq<VdsV>) -> Option<
    (Seq<VdsV>, Seq<TokV>),
>
    decreases toks.len(), 2int,
{
    if toks.len() > 0 && atom_start(toks[0]) {
        match spec_parse_primary(toks) {
            None => None,
            Some((v, rem)) => if rem.len() < toks.len() {
                spec_parse_seq_more(rem, acc.push(v))
            } else {
                None
            },
        }
    } else {
        Some((acc, toks))
    }
}

/// Parse a juxtaposition of primaries; a single operand stands for itself.
pub open spec fn spec_parse_seq(toks: Seq<TokV>) -> Option<(VdsV, Seq<TokV>)>
    decreases toks.len(), 3int,
{
    match spec_parse_primary(toks) {
        None => None,
        Some((v, rem)) => if rem.len() < toks.len() {
            match spec_parse_seq_more(rem, seq![v]) {
                None => None,
                Some((list, rem2)) => if list.len() == 1 {
                    Some((list[0], rem2))
                } else {
                    Some((VdsV::Sequence(list), rem2))
                },
            }
        } else {
            None
        },
    }
}

/// Collect further `&&` operands.
pub open spec fn spec_parse_allof_more(toks: Seq<TokV>, acc: Seq<VdsV>) -> Option<
    (Seq<VdsV>, Seq<TokV>),
>
    decreases toks.len(), 4int,
{
    if toks.len() > 0 && toks[0] == TokV::AmpAmp {
        match spec_parse_seq(toks.skip(1)) {
            None => None,
            Some((v, rem)) => if rem.len() < toks.len() {
                spec_parse_allof_more(rem, acc.push(v))
            } else {
                None
            },
        }
    } else {
        Some((acc, toks))
    }
}

/// Parse sequences joined by `&&`; a single operand stands for itself.
pub open spec fn spec_parse_allof(toks: Seq<TokV>) -> Option<(VdsV, Seq<TokV>)>
    decreases toks.len(), 5int,
{
    match spec_parse_seq(toks) {
        None => None,
        Some((v, rem)) => if rem.len() <= toks.len() {
            match spec_parse_allof_more(rem, seq![v]) {
                None => None,
                Some((list, rem2)) => if list.len() == 1 {
                    Some((list[0], rem2))
                } else {
                    Some((VdsV::AllOf(list), rem2))
                },
            }
        } else {
            None
        },
    }
}

/// Collect further `||` operands.
pub open spec fn spec_parse_oneof_more(toks: Seq<TokV>, acc: Seq<VdsV>) -> Option<
    (Seq<VdsV>, Seq<TokV>),
>
    decreases toks.len(), 6int,
{
    if toks.len() > 0 && toks[0] == TokV::BarBar {
        match spec_parse_allof(toks.skip(1)) {
            None => None,
            Some((v, rem)) => if rem.len() < toks.len() {
                spec_parse_oneof_more(rem, acc.push(v))
            } else {
                None
            },
        }
    } else {
        Some((acc, toks))
    }
}

/// Parse `&&` groups joined by `||`; a single operand stands for itself.
pub open spec fn spec_parse_oneof(toks: Seq<TokV>) -> Option<(VdsV, Seq<TokV>)>
    decreases toks.len(), 7int,
{
    match spec_parse_allof(toks) {
        None => None,
        Some((v, rem)) => if rem.len() <= toks.len() {
            match spec_parse_oneof_more(rem, seq![v]) {
                None => None,
                Some((list, rem2)) => if list.len() == 1 {
                    Some((list[0], rem2))
                } else {
                    Some((VdsV::OneOrMoreOf(list), rem2))
                },
            }
        } else {
            None
        },
    }
}

/// Collect further `|` operands.
pub open spec fn spec_parse_choice_more(toks: Seq<TokV>, acc: Seq<VdsV>) -> Option<
    (Seq<VdsV>, Seq<TokV>),
>
    decreases toks.len(), 8int,
{
    if toks.len() > 0 && toks[0] == TokV::Bar {
        match spec_parse_oneof(toks.skip(1)) {
            None => None,
            Some((v, rem)) => if rem.len() < toks.len() {
                spec_parse_choice_more(rem, acc.push(v))
            } else {
                None
            },
        }
    } else {
        Some((acc, toks))
    }
}

/// Parse `||` groups joined by `|`; a single operand stands for itself.
pub open spec fn spec_parse_choice(toks: Seq<TokV>) -> Option<(VdsV, Seq<TokV>)>
    decreases toks.len(), 9int,
{
    match spec_parse_oneof(toks) {
        None => None,
        Some((v, rem)) => if rem.len() <= toks.len() {
            match spec_parse_choice_more(rem, seq![v]) {
                None => None,
                Some((list, rem2)) => if list.len() == 1 {
                    Some((list[0], rem2))
                } else {
                    Some((VdsV::Choice(list), rem2))
                },
            }
        } else {
            None
        },
    }
}

/// Parse a whole token list; trailing tokens fail the parse.
pub open spec fn spec_parse_toks(toks: Seq<TokV>) -> Option<VdsV> {
    match spec_parse_choice(toks) {
        Some((v, rem)) => if rem.len() == 0 {
            Some(v)
        } else {
            None
        },
        None => None,
    }
}

/// The grammar tree of a grammar text, `None` if the text is rejected.
pub open spec fn spec_parse(s: Seq<u8>) -> Option<VdsV> {
    match spec_lex(s) {
        Some(toks) => spec_parse_toks(toks),
        None => None,
    }
}

/// Parse one atom at `i`.
#[verifier::loop_isolation(false)]
#[verifier::rlimit(100)]
#[verifier::spinoff_prover]
fn parse_atom(toks: &Vec<Tok>, i: usize) -> (r: Option<(VDS, usize)>)
    requires
        i <= toks@.len(),
    ensures
        match r {
            Some(vj) => i <= vj.1 <= toks@.len() && spec_parse_atom(
                toks_view(toks@).skip(i as int),
            ) == Some((vds_view(vj.0), toks_view(toks@).skip(vj.1 as int))),
            None => spec_parse_atom(toks_view(toks@).skip(i as int)) == None::<(VdsV, Seq<TokV>)>,
        },
    decreases toks@.len() - i, 0int,
{
    let ghost tv = toks_view(toks@);
    if i >= toks.len() {
        return None;
    }
    proof {
        assert(tv.skip(i as int)[0] == tok_view(toks@[i as int]));
    }
    match &toks[i] {
        Tok::Ident(s) => {
            proof {
                assert(tv.skip(i as int).skip(1) =~= tv.skip(i as int + 1));
            }
            Some((VDS::Keyword(copy_bytes(s)), i + 1))
        },
        Tok::Lt => {
            if toks.len() - i > 2 {
                proof {
                    assert(tv.skip(i as int)[1] == tok_view(toks@[i as int + 1]));
                    assert(tv.skip(i as int)[2] == tok_view(toks@[i as int + 2]));
                    assert(tv.skip(i as int).skip(3) =~= tv.skip(i as int + 3));
                }
                let name = match &toks[i + 1] {
                    Tok::Ident(s) => Some(copy_bytes(s)),
                    _ => None,
                };
                let closed = matches!(&toks[i + 2], Tok::Gt);
                match name {
                    Some(name) => if closed {
                        Some((VDS::Value(name), i + 3))
                    } else {
                        None
                    },
                    None => None,
                }
            } else {
                None
            }
        },
        Tok::Quote => {
            if toks.len() - i > 2 {
                proof {
                    assert(tv.skip(i as int)[1] == tok_view(toks@[i as int + 1]));
                    assert(tv.skip(i as int)[2] == tok_view(toks@[i as int + 2]));
                    assert(tv.skip(i as int).skip(3) =~= tv.skip(i as int + 3));
                }
                let name = match &toks[i + 1] {
                    Tok::Ident(s) => Some(copy_bytes(s)),
                    _ => None,
                };
                let closed = matches!(&toks[i + 2], Tok::Quote);
                match name {
                    Some(name) => if closed {
                        Some((VDS::Type(name), i + 3))
                    } else {
                        None
                    },
                    None => None,
                }
            } else {
                None
            }
        },
        Tok::LBracket => {
            proof {
                assert(tv.skip(i as int).skip(1) =~= tv.skip(i as int + 1));
            }
            match parse_choice(toks, i + 1) {
                Some((v, j)) => {
                    if j < toks.len() {
                        proof {
                            assert(tv.skip(j as int)[0] == tok_view(toks@[j as int]));
                            assert(tv.skip(j as int).skip(1) =~= tv.skip(j as int + 1));
                        }
                        if matches!(&toks[j], Tok::RBracket) {
                            Some((v, j + 1))
                        } else {
                            None
                        }
                    } else {
                        None
                    }
                },
                None => None,
            }
        },
        _ => None,
    }
}

/// Parse an atom with an optional multiplier at `i`.
#[verifier::loop_isolation(false)]
fn parse_primary(toks: &Vec<Tok>, i: usize) -> (r: Option<(VDS, usize)>)
    requires
        i <= toks@.len(),
    ensures
        match r {
            Some(vj) => i <= vj.1 <= toks@.len() && spec_parse_primary(
                toks_view(toks@).skip(i as int),
            ) == Some((vds_view(vj.0), toks_view(toks@).skip(vj.1 as int))),
            None => spec_parse_primary(toks_view(toks@).skip(i as int)) == None::<
                (VdsV, Seq<TokV>),
            >,
        },
    decreases toks@.len() - i, 1int,
{
    let ghost tv = toks_view(toks@);
    match parse_atom(toks, i) {
        None => None,
        Some((v, j)) => {
            if j >= toks.len() {
                return Some((v, j));
            }
            proof {
                assert(tv.skip(j as int)[0] == tok_view(toks@[j as int]));
                assert(tv.skip(j as int).skip(1) =~= tv.skip(j as int + 1));
            }
            match &toks[j] {
                Tok::Star => Some(
                    (VDS::Repetition { inner: Box::new(v), min: 0, max: None }, j + 1),
                ),
                Tok::Plus => Some(
                    (VDS::Repetition { inner: Box::new(v), min: 1, max: None }, j + 1),
                ),
                Tok::Question => Some(
                    (VDS::Repetition { inner: Box::new(v), min: 0, max: Some(1) }, j + 1),
                ),
                Tok::LBrace => {
                    if toks.len() - j > 4 {
                        proof {
                            assert(tv.skip(j as int)[1] == tok_view(toks@[j as int + 1]));
                            assert(tv.skip(j as int)[2] == tok_view(toks@[j as int + 2]));
                            assert(tv.skip(j as int)[3] == tok_view(toks@[j as int + 3]));
                            assert(tv.skip(j as int)[4] == tok_view(toks@[j as int + 4]));
                            assert(tv.skip(j as int).skip(5) =~= tv.skip(j as int + 5));
                        }
                        let m = match &toks[j + 1] {
                            Tok::Int(m) => Some(*m),
                            _ => None,
                        };
                        let comma = matches!(&toks[j + 2], Tok::Comma);
                        let n = match &toks[j + 3] {
                            Tok::Int(n) => Some(*n),
                            _ => None,
                        };
                        let closed = matches!(&toks[j + 4], Tok::RBrace);
                        match (m, n) {
                            (Some(m), Some(n)) => if comma && closed && m <= n {
                                Some(
                                    (
                                        VDS::Repetition {
                                            inner: Box::new(v),
                                            min: m,
                                            max: Some(n),
                                        },
                                        j + 5,
                                    ),
                                )
                            } else {
                                None
                            },
                            _ => None,
                        }
                    } else {
                        None
                    }
                },
                _ => Some((v, j)),
            }
        },
    }
}

/// Parse a juxtaposition of primaries at `i`.
#[verifier::loop_isolation(false)]
#[verifier::rlimit(60)]
fn parse_seq(toks: &Vec<Tok>, i: usize) -> (r: Option<(VDS, usize)>)
    requires
        i <= toks@.len(),
    ensures
        match r {
            Some(vj) => i <= vj.1 <= toks@.len() && spec_parse_seq(
                toks_view(toks@).skip(i as int),
            ) == Some((vds_view(vj.0), toks_view(toks@).skip(vj.1 as int))),
            None => spec_parse_seq(toks_view(toks@).skip(i as int)) == None::<(VdsV, Seq<TokV>)>,
        },
    decreases toks@.len() - i, 3int,
{
    let ghost tv = toks_view(toks@);
    match parse_primary(toks, i) {
        None => None,
        Some((v0, j0)) => {
            if j0 <= i {
                return None;
            }
            let ghost acc0 = seq![vds_view(v0)];
            let mut list: Vec<VDS> = Vec::new();
            list.push(v0);
            let mut pos: usize = j0;
            proof {
                lemma_vds_view_list(list@, 0);
                assert(vds_view_list(list@, 0) =~= acc0);
            }
            loop
                invariant
                    i < pos <= toks@.len(),
                    list@.len() >= 1,
                    spec_parse_seq_more(tv.skip(j0 as int), acc0) == spec_parse_seq_more(
                        tv.skip(pos as int),
                        vds_view_list(list@, 0),
                    ),
                decreases toks@.len() - pos,
            {
                let more = pos < toks.len() && matches!(
                    &toks[pos],
                    Tok::Ident(_) | Tok::Lt | Tok::Quote | Tok::LBracket,
                );
                proof {
                    if pos < toks@.len() {
                        assert(tv.skip(pos as int)[0] == tok_view(toks@[pos as int]));
                    }
                }
                if !more {
                    break;
                }
                let ghost list0 = list@;
                let ghost pos0 = pos as int;
                match parse_primary(toks, pos) {
                    None => {
                        return None;
                    },
                    Some((v2, j2)) => {
                        if j2 <= pos {
                            return None;
                        }
                        list.push(v2);
                        pos = j2;
                        proof {
                            lemma_vds_view_list(list0, 0);
                            lemma_vds_view_list(list@, 0);
                            assert(vds_view_list(list@, 0) =~= vds_view_list(list0, 0).push(
                                vds_view(v2),
                            ));
                        }
                    },
                }
            }
            proof {
                lemma_vds_view_list(list@, 0);
            }
            if list.len() == 1 {
                match list.pop() {
                    Some(v) => Some((v, pos)),
                    None => None,
                }
            } else {
                Some((VDS::Sequence(list), pos))
            }
        },
    }
}

/// Parse sequences joined by `&&` at `i`.
#[verifier::loop_isolation(false)]
#[verifier::rlimit(60)]
fn parse_allof(toks: &Vec<Tok>, i: usize) -> (r: Option<(VDS, usize)>)
    requires
        i <= toks@.len(),
    ensures
        match r {
            Some(vj) => i <= vj.1 <= toks@.len() && spec_parse_allof(
                toks_view(toks@).skip(i as int),
            ) == Some((vds_view(vj.0), toks_view(toks@).skip(vj.1 as int))),
            None => spec_parse_allof(toks_view(toks@).skip(i as int)) == None::<
                (VdsV, Seq<TokV>),
            >,
        },
    decreases toks@.len() - i, 5int,
{
    let ghost tv = toks_view(toks@);
    match parse_seq(toks, i) {
        None => None,
        Some((v0, j0)) => {
            let ghost acc0 = seq![vds_view(v0)];
            let mut list: Vec<VDS> = Vec::new();
            list.push(v0);
            let mut pos: usize = j0;
            proof {
                lemma_vds_view_list(list@, 0);
                assert(vds_view_list(list@, 0) =~= acc0);
            }
            loop
                invariant
                    i <= pos <= toks@.len(),
                    list@.len() >= 1,
                    spec_parse_allof_more(tv.skip(j0 as int), acc0) == spec_parse_allof_more(
                        tv.skip(pos as int),
                        vds_view_list(list@, 0),
                    ),
                decreases toks@.len() - pos,
            {
                proof {
                    if pos < toks@.len() {
                        assert(tv.skip(pos as int)[0] == tok_view(toks@[pos as int]));
                    }
                }
                let more = pos < toks.len() && matches!(&toks[pos], Tok::AmpAmp);
                if !more {
                    break;
                }
                proof {
                    assert(tv.skip(pos as int).skip(1) =~= tv.skip(pos as int + 1));
                }
                let ghost list0 = list@;
                match parse_seq(toks, pos + 1) {
                    None => {
                        return None;
                    },
                    Some((v2, j2)) => {
                        if j2 <= pos {
                            return None;
                        }
                        list.push(v2);
                        pos = j2;
                        proof {
                            lemma_vds_view_list(list0, 0);
                            lemma_vds_view_list(list@, 0);
                            assert(vds_view_list(list@, 0) =~= vds_view_list(list0, 0).push(
                                vds_view(v2),
                            ));
                        }
                    },
                }
            }
            proof {
                lemma_vds_view_list(list@, 0);
            }
            if list.len() == 1 {
                match list.pop() {
                    Some(v) => Some((v, pos)),
                    None => None,
                }
            } else {
                Some((VDS::AllOf(list), pos))
            }
        },
    }
}

/// Parse `&&` groups joined by `||` at `i`.
#[verifier::loop_isolation(false)]
#[verifier::rlimit(60)]
fn parse_oneof(toks: &Vec<Tok>, i: usize) -> (r: Option<(VDS, usize)>)
    requires
        i <= toks@.len(),
    ensures
        match r {
            Some(vj) => i <= vj.1 <= toks@.len() && spec_parse_oneof(
                toks_view(toks@).skip(i as int),
            ) == Some((vds_view(vj.0), toks_view(toks@).skip(vj.1 as int))),
            None => spec_parse_oneof(toks_view(toks@).skip(i as int)) == None::<
                (VdsV, Seq<TokV>),
            >,
        },
    decreases toks@.len() - i, 7int,
{
    let ghost tv = toks_view(toks@);
    match parse_allof(toks, i) {
        None => None,
        Some((v0, j0)) => {
            let ghost acc0 = seq![vds_view(v0)];
            let mut list: Vec<VDS> = Vec::new();
            list.push(v0);
            let mut pos: usize = j0;
            proof {
                lemma_vds_view_list(list@, 0);
                assert(vds_view_list(list@, 0) =~= acc0);
            }
            loop
                invariant
                    i <= pos <= toks@.len(),
                    list@.len() >= 1,
                    spec_parse_oneof_more(tv.skip(j0 as int), acc0) == spec_parse_oneof_more(
                        tv.skip(pos as int),
                        vds_view_list(list@, 0),
                    ),
                decreases toks@.len() - pos,
            {
                proof {
                    if pos < toks@.len() {
                        assert(tv.skip(pos as int)[0] == tok_view(toks@[pos as int]));
                    }
                }
                let more = pos < toks.len() && matches!(&toks[pos], Tok::BarBar);
                if !more {
                    break;
                }
                proof {
                    assert(tv.skip(pos as int).skip(1) =~= tv.skip(pos as int + 1));
                }
                let ghost list0 = list@;
                match parse_allof(toks, pos + 1) {
                    None => {
                        return None;
                    },
                    Some((v2, j2)) => {
                        if j2 <= pos {
                            return None;
                        }
                        list.push(v2);
                        pos = j2;
                        proof {
                            lemma_vds_view_list(list0, 0);
                            lemma_vds_view_list(list@, 0);
                            assert(vds_view_list(list@, 0) =~= vds_view_list(list0, 0).push(
                                vds_view(v2),
                            ));
                        }
                    },
                }
            }
            proof {
                lemma_vds_view_list(list@, 0);
            }
            if list.len() == 1 {
                match list.pop() {
                    Some(v) => Some((v, pos)),
                    None => None,
                }
            } else {
                Some((VDS::OneOrMoreOf(list), pos))
            }
        },
    }
}

/// Parse `||` groups joined by `|` at `i`.
#[verifier::loop_isolation(false)]
#[verifier::rlimit(60)]
fn parse_choice(toks: &Vec<Tok>, i: usize) -> (r: Option<(VDS, usize)>)
    requires
        i <= toks@.len(),
    ensures
        match r {
            Some(vj) => i <= vj.1 <= toks@.len() && spec_parse_choice(
                toks_view(toks@).skip(i as int),
            ) == Some((vds_view(vj.0), toks_view(toks@).skip(vj.1 as int))),
            None => spec_parse_choice(toks_view(toks@).skip(i as int)) == None::<
                (VdsV, Seq<TokV>),
            >,
        },
    decreases toks@.len() - i, 9int,
{
    let ghost tv = toks_view(toks@);
    match parse_oneof(toks, i) {
        None => None,
        Some((v0, j0)) => {
            let ghost acc0 = seq![vds_view(v0)];
            let mut list: Vec<VDS> = Vec::new();
            list.push(v0);
            let mut pos: usize = j0;
            proof {
                lemma_vds_view_list(list@, 0);
                assert(vds_view_list(list@, 0) =~= acc0);
            }
            loop
                invariant
                    i <= pos <= toks@.len(),
                    list@.len() >= 1,
                    spec_parse_choice_more(tv.skip(j0 as int), acc0) == spec_parse_choice_more(
                        tv.skip(pos as int),
                        vds_view_list(list@, 0),
                    ),
                decreases toks@.len() - pos,
            {
                proof {
                    if pos < toks@.len() {
                        assert(tv.skip(pos as int)[0] == tok_view(toks@[pos as int]));
                    }
                }
                let more = pos < toks.len() && matches!(&toks[pos], Tok::Bar);
                if !more {
                    break;
                }
                proof {
                    assert(tv.skip(pos as int).skip(1) =~= tv.skip(pos as int + 1));
                }
                let ghost list0 = list@;
                match parse_oneof(toks, pos + 1) {
                    None => {
                        return None;
                    },
                    Some((v2, j2)) => {
                        if j2 <= pos {
                            return None;
                        }
                        list.push(v2);
                        pos = j2;
                        proof {
                            lemma_vds_view_list(list0, 0);
                            lemma_vds_view_list(list@, 0);
                            assert(vds_view_list(list@, 0) =~= vds_view_list(list0, 0).push(
                                vds_view(v2),
                            ));
                        }
                    },
                }
            }
            proof {
                lemma_vds_view_list(list@, 0);
            }
            if list.len() == 1 {
                match list.pop() {
                    Some(v) => Some((v, pos)),
                    None => None,
                }
            } else {
                Some((VDS::Choice(list), pos))
            }
        },
    }
}

/// Parse a grammar text into a grammar tree.
///
/// The whole input must form one grammar expression: trailing input fails
/// the parse, as does any byte that starts no token, a repetition count
/// that does not fit the machine word, and a range whose lower bound
/// exceeds its upper bound.  Identifiers are ASCII letters and hyphens;
/// a grammar text holding any other letter is rejected.  The result is `Ok` exactly on the texts that
/// the grammar accepts, and the returned tree is a function of the text.
pub fn parse(text: &Vec<u8>) -> (r: Result<VDS, SyntaxError>)
    ensures
        match r {
            Ok(v) => spec_parse(text@) == Some(vds_view(v)),
            Err(_) => spec_parse(text@) == None::<VdsV>,
        },
{
    let toks = match lex(text) {
        Ok(t) => t,
        Err(e) => {
            return Err(e);
        },
    };
    proof {
        assert(toks_view(toks@).skip(0) =~= toks_view(toks@));
    }
    match parse_choice(&toks, 0) {
        Some((v, j)) => {
            if j == toks.len() {
                proof {
                    assert(toks_view(toks@).skip(j as int) =~= Seq::<TokV>::empty());
                }
                Ok(v)
            } else {
                proof {
                    assert(toks_view(toks@).skip(j as int).len() > 0);
                }
                Err(SyntaxError::TrailingInput)
            }
        },
        None => Err(SyntaxError::BadSyntax),
    }
}

/// Every operand in `acc` well-formed keeps every operand of the grown
/// list well-formed, and the list only grows.
proof fn lemma_seq_more_ns(toks: Seq<TokV>, acc: Seq<VdsV>)
    requires
        forall|k: int| 0 <= k < acc.len() ==> no_singletons_v(#[trigger] acc[k]),
    ensures
        match spec_parse_seq_more(toks, acc) {
            Some(r) => r.0.len() >= acc.len() && forall|k: int|
                0 <= k < r.0.len() ==> no_singletons_v(#[trigger] r.0[k]),
            None => true,
        },
    decreases toks.len(), 2int,
{
    if toks.len() > 0 && atom_start(toks[0]) {
        match spec_parse_primary(toks) {
            None => {},
            Some((v, rem)) => {
                if rem.len() < toks.len() {
                    lemma_primary_ns(toks);
                    assert forall|k: int| 0 <= k < acc.push(v).len() implies no_singletons_v(
                        #[trigger] acc.push(v)[k],
                    ) by {
                        if k < acc.len() {
                            assert(acc.push(v)[k] == acc[k]);
                        }
                    }
                    lemma_seq_more_ns(rem, acc.push(v));
                }
            },
        }
    }
}

/// Every operand in `acc` well-formed keeps every operand of the grown
/// list well-formed, and the list only grows.
proof fn lemma_allof_more_ns(toks: Seq<TokV>, acc: Seq<VdsV>)
    requires
        forall|k: int| 0 <= k < acc.len() ==> no_singletons_v(#[trigger] acc[k]),
    ensures
        match spec_parse_allof_more(toks, acc) {
            Some(r) => r.0.len() >= acc.len() && forall|k: int|
                0 <= k < r.0.len() ==> no_singletons_v(#[trigger] r.0[k]),
            None => true,
        },
    decreases toks.len(), 4int,
{
    if toks.len() > 0 && toks[0] == TokV::AmpAmp {
        match spec_parse_seq(toks.skip(1)) {
            None => {},
            Some((v, rem)) => {
                if rem.len() < toks.len() {
                    lemma_seq_ns(toks.skip(1));
                    assert forall|k: int| 0 <= k < acc.push(v).len() implies no_singletons_v(
                        #[trigger] acc.push(v)[k],
                    ) by {
                        if k < acc.len() {
                            assert(acc.push(v)[k] == acc[k]);
                        }
                    }
                    lemma_allof_more_ns(rem, acc.push(v));
                }
            },
        }
    }
}

/// Every operand in `acc` well-formed keeps every operand of the grown
/// list well-formed, and the list only grows.
proof fn lemma_oneof_more_ns(toks: Seq<TokV>, acc: Seq<VdsV>)
    requires
        forall|k: int| 0 <= k < acc.len() ==> no_singletons_v(#[trigger] acc[k]),
    ensures
        match spec_parse_oneof_more(toks, acc) {
            Some(r) => r.0.len() >= acc.len() && forall|k: int|
                0 <= k < r.0.len() ==> no_singletons_v(#[trigger] r.0[k]),
            None => true,
        },
    decreases toks.len(), 6int,
{
    if toks.len() > 0 && toks[0] == TokV::BarBar {
        match spec_parse_allof(toks.skip(1)) {
            None => {},
            Some((v, rem)) => {
                if rem.len() < toks.len() {
                    lemma_allof_ns(toks.skip(1));
                    assert forall|k: int| 0 <= k < acc.push(v).len() implies no_singletons_v(
                        #[trigger] acc.push(v)[k],
                    ) by {
                        if k < acc.len() {
                            assert(acc.push(v)[k] == acc[k]);
                        }
                    }
                    lemma_oneof_more_ns(rem, acc.push(v));
                }
            },
        }
    }
}

/// Every operand in `acc` well-formed keeps every operand of the grown
/// list well-formed, and the list only grows.
proof fn lemma_choice_more_ns(toks: Seq<TokV>, acc: Seq<VdsV>)
    requires
        forall|k: int| 0 <= k < acc.len() ==> no_singletons_v(#[trigger] acc[k]),
    ensures
        match spec_parse_choice_more(toks, acc) {
            Some(r) => r.0.len() >= acc.len() && forall|k: int|
                0 <= k < r.0.len() ==> no_singletons_v(#[trigger] r.0[k]),
            None => true,
        },
    decreases toks.len(), 8int,
{
    if toks.len() > 0 && toks[0] == TokV::Bar {
        match spec_parse_oneof(toks.skip(1)) {
            None => {},
            Some((v, rem)) => {
                if rem.len() < toks.len() {
                    lemma_oneof_ns(toks.skip(1));
                    assert forall|k: int| 0 <= k < acc.push(v).len() implies no_singletons_v(
                        #[trigger] acc.push(v)[k],
                    ) by {
                        if k < acc.len() {
                            assert(acc.push(v)[k] == acc[k]);
                        }
                    }
                    lemma_choice_more_ns(rem, acc.push(v));
                }
            },
        }
    }
}

/// A parsed atom holds no singleton wrapper.
proof fn lemma_atom_ns(toks: Seq<TokV>)
    ensures
        match spec_parse_atom(toks) {
            Some(r) => no_singletons_v(r.0),
            None => true,
        },
    decreases toks.len(), 0int,
{
    if toks.len() > 0 {
        match toks[0] {
            TokV::LBracket => {
                lemma_choice_ns(toks.skip(1));
            },
            _ => {},
        }
    }
}

/// A parsed primary holds no singleton wrapper.
proof fn lemma_primary_ns(toks: Seq<TokV>)
    ensures
        match spec_parse_primary(toks) {
            Some(r) => no_singletons_v(r.0),
            None => true,
        },
    decreases toks.len(), 1int,
{
    lemma_atom_ns(toks);
}

/// A parsed sequence holds no singleton wrapper.
proof fn lemma_seq_ns(toks: Seq<TokV>)
    ensures
        match spec_parse_seq(toks) {
            Some(r) => no_singletons_v(r.0),
            None => true,
        },
    decreases toks.len(), 3int,
{
    lemma_primary_ns(toks);
    match spec_parse_primary(toks) {
        None => {},
        Some((v, rem)) => {
            if rem.len() < toks.len() {
                lemma_seq_more_ns(rem, seq![v]);
            }
        },
    }
}

/// A parsed `&&` group holds no singleton wrapper.
proof fn lemma_allof_ns(toks: Seq<TokV>)
    ensures
        match spec_parse_allof(toks) {
            Some(r) => no_singletons_v(r.0),
            None => true,
        },
    decreases toks.len(), 5int,
{
    lemma_seq_ns(toks);
    match spec_parse_seq(toks) {
        None => {},
        Some((v, rem)) => {
            if rem.len() <= toks.len() {
                lemma_allof_more_ns(rem, seq![v]);
            }
        },
    }
}

/// A parsed `||` group holds no singleton wrapper.
proof fn lemma_oneof_ns(toks: Seq<TokV>)
    ensures
        match spec_parse_oneof(toks) {
            Some(r) => no_singletons_v(r.0),
            None => true,
        },
    decreases toks.len(), 7int,
{
    lemma_allof_ns(toks);
    match spec_parse_allof(toks) {
        None => {},
        Some((v, rem)) => {
            if rem.len() <= toks.len() {
                lemma_oneof_more_ns(rem, seq![v]);
            }
        },
    }
}

/// A parsed choice holds no singleton wrapper.
proof fn lemma_choice_ns(toks: Seq<TokV>)
    ensures
        match spec_parse_choice(toks) {
            Some(r) => no_singletons_v(r.0),
            None => true,
        },
    decreases toks.len(), 9int,
{
    lemma_oneof_ns(toks);
    match spec_parse_oneof(toks) {
        None => {},
        Some((v, rem)) => {
            if rem.len() <= toks.len() {
                lemma_choice_more_ns(rem, seq![v]);
            }
        },
    }
}

/// Singleton collapse: no tree the grammar parser accepts holds a
/// `Sequence`, `Choice`, `AllOf` or `OneOrMoreOf` of fewer than two
/// operands; a grouping of one operand is always that operand itself.
pub proof fn lemma_parse_no_singletons(s: Seq<u8>)
    ensures
        match spec_parse(s) {
            Some(v) => no_singletons_v(v),
            None => true,
        },
{
    match spec_lex(s) {
        Some(toks) => {
            lemma_choice_ns(toks);
        },
        None => {},
    }
}

/// Whether a grammar tree has a textual form: leaf texts are nonempty
/// identifiers, and every repetition is one of `?`, `*`, `+` or an explicit
/// `{m,n}` range whose bounds fit the machine word (`{m,}` with `m` above
/// one has no written form).
pub open spec fn serializable(v: VdsV) -> bool
    decreases v, 0int,
{
    match v {
        VdsV::Keyword(s) => s.len() >= 1 && forall|k: int|
            0 <= k < s.len() ==> is_ident_byte(#[trigger] s[k]),
        VdsV::Value(s) => s.len() >= 1 && forall|k: int|
            0 <= k < s.len() ==> is_ident_byte(#[trigger] s[k]),
        VdsV::Type(s) => s.len() >= 1 && forall|k: int|
            0 <= k < s.len() ==> is_ident_byte(#[trigger] s[k]),
        VdsV::Sequence(cs) => cs.len() >= 1 && serializable_list(cs, 0),
        VdsV::Choice(cs) => cs.len() >= 1 && serializable_list(cs, 0),
        VdsV::AllOf(cs) => cs.len() >= 1 && serializable_list(cs, 0),
        VdsV::OneOrMoreOf(cs) => cs.len() >= 1 && serializable_list(cs, 0),
        VdsV::Repetition { inner, min, max } => {
            &&& serializable(*inner)
            &&& match max {
                None => min == 0 || min == 1,
                Some(m) => min <= m && m <= usize::MAX as nat,
            }
        },
    }
}

/// Whether every tree of a list has a textual form, from index `i` on.
pub open spec fn serializable_list(cs: Seq<VdsV>, i: nat) -> bool
    decreases cs, cs.len() - i,
{
    if i >= cs.len() {
        true
    } else {
        serializable(cs[i as int]) && serializable_list(cs, i + 1)
    }
}

/// The multiplier suffix of a repetition.
pub open spec fn spec_suffix(min: nat, max: Option<nat>) -> Seq<u8> {
    if min == 0 && max == Some(1nat) {
        seq![63u8]
    } else if min == 0 && max is None {
        seq![42u8]
    } else if min == 1 && max is None {
        seq![43u8]
    } else {
        match max {
            Some(m) => seq![123u8] + spec_dec(min) + seq![44u8] + spec_dec(m) + seq![125u8],
            None => Seq::<u8>::empty(),
        }
    }
}

/// The textual form of a grammar tree.
pub open spec fn spec_ser(v: VdsV) -> Seq<u8>
    decreases v, 1int,
{
    match v {
        VdsV::Keyword(s) => s,
        VdsV::Value(s) => seq![60u8] + s + seq![62u8],
        VdsV::Type(s) => seq![39u8] + s + seq![39u8],
        VdsV::Repetition { inner, min, max } => spec_ser_atom(*inner) + spec_suffix(min, max),
        VdsV::Sequence(cs) => spec_ser_list(cs, 0, seq![32u8]),
        VdsV::AllOf(cs) => spec_ser_list(cs, 0, seq![38u8, 38u8]),
        VdsV::OneOrMoreOf(cs) => spec_ser_list(cs, 0, seq![124u8, 124u8]),
        VdsV::Choice(cs) => spec_ser_list(cs, 0, seq![124u8]),
    }
}

/// The textual form of a tree in operand position: leaves stand bare,
/// everything else is bracketed.
pub open spec fn spec_ser_atom(v: VdsV) -> Seq<u8>
    decreases v, 2int,
{
    match v {
        VdsV::Keyword(_) | VdsV::Value(_) | VdsV::Type(_) => spec_ser(v),
        _ => seq![91u8] + spec_ser(v) + seq![93u8],
    }
}

/// The textual forms of the trees of a list, joined by a separator.
pub open spec fn spec_ser_list(cs: Seq<VdsV>, i: nat, sep: Seq<u8>) -> Seq<u8>
    decreases cs, cs.len() - i,
{
    if i >= cs.len() {
        Seq::<u8>::empty()
    } else if i + 1 == cs.len() {
        spec_ser_atom(cs[i as int])
    } else {
        spec_ser_atom(cs[i as int]) + sep + spec_ser_list(cs, i + 1, sep)
    }
}

/// Append the textual form of a tree.
#[verifier::loop_isolation(false)]
#[verifier::rlimit(60)]
fn write_ser(v: &VDS, out: &mut Vec<u8>)
    requires
        serializable(vds_view(*v)),
    ensures
        final(out)@ == old(out)@ + spec_ser(vds_view(*v)),
    decreases *v, 1int,
{
    let ghost out0 = out@;
    match v {
        VDS::Keyword(s) => {
            out.append(&mut copy_bytes(s));
        },
        VDS::Value(s) => {
            out.push(60);
            out.append(&mut copy_bytes(s));
            out.push(62);
            proof {
                assert(out@ =~= out0 + (seq![60u8] + s@ + seq![62u8]));
            }
        },
        VDS::Type(s) => {
            out.push(39);
            out.append(&mut copy_bytes(s));
            out.push(39);
            proof {
                assert(out@ =~= out0 + (seq![39u8] + s@ + seq![39u8]));
            }
        },
        VDS::Repetition { inner, min, max } => {
            write_atom(&**inner, out);
            if *min == 0 && matches!(*max, Some(1usize)) {
                out.push(63);
            } else if *min == 0 && matches!(*max, Option::None) {
                out.push(42);
            } else if *min == 1 && matches!(*max, Option::None) {
                out.push(43);
            } else {
                match *max {
                    Some(m) => {
                        out.push(123);
                        out.append(&mut dec_digits(*min));
                        out.push(44);
                        out.append(&mut dec_digits(m));
                        out.push(125);
                        proof {
                            assert(spec_suffix(*min as nat, Some(m as nat)) == seq![123u8]
                                + spec_dec(*min as nat) + seq![44u8] + spec_dec(m as nat) + seq![
                                125u8,
                            ]);
                        }
                    },
                    None => {
                        // excluded by `serializable`
                        proof {
                            assert(false);
                        }
                    },
                }
            }
            proof {
                let iv = vds_view(**inner);
                let minv = *min as nat;
                let maxv: Option<nat> = match *max {
                    Some(m) => Some(m as nat),
                    None => None,
                };
                assert(vds_view(*v) == VdsV::Repetition {
                    inner: Box::new(iv),
                    min: minv,
                    max: maxv,
                });
                assert(out@ =~= out0 + (spec_ser_atom(iv) + spec_suffix(minv, maxv)));
            }
        },
        VDS::Sequence(cs) => {
            write_list(cs, 32, false, out);
            proof {
                assert(vds_view(*v) == VdsV::Sequence(vds_view_list(cs@, 0)));
            }
        },
        VDS::AllOf(cs) => {
            write_list(cs, 38, true, out);
            proof {
                assert(vds_view(*v) == VdsV::AllOf(vds_view_list(cs@, 0)));
            }
        },
        VDS::OneOrMoreOf(cs) => {
            write_list(cs, 124, true, out);
            proof {
                assert(vds_view(*v) == VdsV::OneOrMoreOf(vds_view_list(cs@, 0)));
            }
        },
        VDS::Choice(cs) => {
            write_list(cs, 124, false, out);
            proof {
                assert(vds_view(*v) == VdsV::Choice(vds_view_list(cs@, 0)));
            }
        },
    }
}

/// Append the textual form of a tree in operand position.
fn write_atom(v: &VDS, out: &mut Vec<u8>)
    requires
        serializable(vds_view(*v)),
    ensures
        final(out)@ == old(out)@ + spec_ser_atom(vds_view(*v)),
    decreases *v, 2int,
{
    let ghost out0 = out@;
    match v {
        VDS::Keyword(_) | VDS::Value(_) | VDS::Type(_) => {
            write_ser(v, out);
        },
        _ => {
            out.push(91);
            write_ser(v, out);
            out.push(93);
            proof {
                assert(out@ =~= out0 + (seq![91u8] + spec_ser(vds_view(*v)) + seq![93u8]));
            }
        },
    }
}

/// Append the textual forms of a list of trees, joined by the separator
/// byte (doubled where the operator is written twice).
#[verifier::loop_isolation(false)]
#[verifier::rlimit(60)]
fn write_list(cs: &Vec<VDS>, sep: u8, doubled: bool, out: &mut Vec<u8>)
    requires
        serializable_list(vds_view_list(cs@, 0), 0),
        vds_view_list(cs@, 0).len() >= 1,
    ensures
        final(out)@ == old(out)@ + spec_ser_list(
            vds_view_list(cs@, 0),
            0,
            if doubled {
                seq![sep, sep]
            } else {
                seq![sep]
            },
        ),
    decreases cs@, 0int,
{
    let ghost csv = vds_view_list(cs@, 0);
    let ghost sepv: Seq<u8> = if doubled {
        seq![sep, sep]
    } else {
        seq![sep]
    };
    let ghost out0 = out@;
    proof {
        lemma_vds_view_list(cs@, 0);
        lemma_serializable_list(csv, 0);
    }
    let mut i: usize = 0;
    while i < cs.len()
        invariant
            i <= cs@.len(),
            out@ + spec_ser_list(csv, i as nat, sepv) == out0 + spec_ser_list(csv, 0, sepv),
        decreases cs@.len() - i,
    {
        let ghost outpre = out@;
        write_atom(&cs[i], out);
        if i + 1 < cs.len() {
            out.push(sep);
            if doubled {
                out.push(sep);
            }
            proof {
                assert(out@ =~= outpre + (spec_ser_atom(csv[i as int]) + sepv));
                assert(spec_ser_list(csv, i as nat, sepv) == spec_ser_atom(csv[i as int]) + sepv
                    + spec_ser_list(csv, i as nat + 1, sepv));
                assert(outpre + (spec_ser_atom(csv[i as int]) + sepv) + spec_ser_list(
                    csv,
                    i as nat + 1,
                    sepv,
                ) =~= outpre + ((spec_ser_atom(csv[i as int]) + sepv) + spec_ser_list(
                    csv,
                    i as nat + 1,
                    sepv,
                )));
                assert((spec_ser_atom(csv[i as int]) + sepv) + spec_ser_list(
                    csv,
                    i as nat + 1,
                    sepv,
                ) =~= spec_ser_atom(csv[i as int]) + sepv + spec_ser_list(csv, i as nat + 1, sepv));
            }
        } else {
            proof {
                assert(spec_ser_list(csv, i as nat, sepv) == spec_ser_atom(csv[i as int]));
                assert(spec_ser_list(csv, i as nat + 1, sepv) =~= Seq::<u8>::empty());
                assert(out@ + Seq::<u8>::empty() =~= out@);
            }
        }
        i = i + 1;
    }
    proof {
        assert(spec_ser_list(csv, cs@.len() as nat, sepv) =~= Seq::<u8>::empty());
        assert(out@ + Seq::<u8>::empty() =~= out@);
    }
}

/// The members of a serializable list are serializable.
proof fn lemma_serializable_list(cs: Seq<VdsV>, i: nat)
    ensures
        serializable_list(cs, i) ==> forall|k: int|
            i <= k < cs.len() ==> serializable(#[trigger] cs[k]),
    decreases cs.len() - i,
{
    if i < cs.len() {
        lemma_serializable_list(cs, i + 1);
    }
}

/// The textual form of a grammar tree: the inverse direction of `parse`.
pub fn to_text(v: &VDS) -> (r: Vec<u8>)
    requires
        serializable(vds_view(*v)),
    ensures
        r@ == spec_ser(vds_view(*v)),
{
    let mut out: Vec<u8> = Vec::new();
    write_ser(v, &mut out);
    proof {
        assert(Seq::<u8>::empty() + spec_ser(vds_view(*v)) =~= spec_ser(vds_view(*v)));
    }
    out
}

/// The multiplier-suffix tokens of a repetition.
pub open spec fn suffix_toks(min: nat, max: Option<nat>) -> Seq<TokV> {
    if min == 0 && max == Some(1nat) {
        seq![TokV::Question]
    } else if min == 0 && max is None {
        seq![TokV::Star]
    } else if min == 1 && max is None {
        seq![TokV::Plus]
    } else {
        match max {
            Some(m) => seq![
                TokV::LBrace,
                TokV::Int(min),
                TokV::Comma,
                TokV::Int(m),
                TokV::RBrace,
            ],
            None => Seq::<TokV>::empty(),
        }
    }
}

/// The token form of a grammar tree, as the lexer would deliver its text.
pub open spec fn ser_toks(v: VdsV) -> Seq<TokV>
    decreases v, 1int,
{
    match v {
        VdsV::Keyword(s) => seq![TokV::Ident(s)],
        VdsV::Value(s) => seq![TokV::Lt, TokV::Ident(s), TokV::Gt],
        VdsV::Type(s) => seq![TokV::Quote, TokV::Ident(s), TokV::Quote],
        VdsV::Repetition { inner, min, max } => atom_toks(*inner) + suffix_toks(min, max),
        VdsV::Sequence(cs) => list_toks(cs, 0, Seq::<TokV>::empty()),
        VdsV::AllOf(cs) => list_toks(cs, 0, seq![TokV::AmpAmp]),
        VdsV::OneOrMoreOf(cs) => list_toks(cs, 0, seq![TokV::BarBar]),
        VdsV::Choice(cs) => list_toks(cs, 0, seq![TokV::Bar]),
    }
}

/// The token form of a tree in operand position: leaves stand bare,
/// everything else is bracketed.
pub open spec fn atom_toks(v: VdsV) -> Seq<TokV>
    decreases v, 2int,
{
    match v {
        VdsV::Keyword(_) | VdsV::Value(_) | VdsV::Type(_) => ser_toks(v),
        _ => seq![TokV::LBracket] + ser_toks(v) + seq![TokV::RBracket],
    }
}

/// The token forms of the trees of a list, joined by a separator.
pub open spec fn list_toks(cs: Seq<VdsV>, i: nat, sep: Seq<TokV>) -> Seq<TokV>
    decreases cs, cs.len() - i,
{
    if i >= cs.len() {
        Seq::<TokV>::empty()
    } else if i + 1 == cs.len() {
        atom_toks(cs[i as int])
    } else {
        atom_toks(cs[i as int]) + sep + list_toks(cs, i + 1, sep)
    }
}

/// The token forms of the trees of a list from index `i` on, each preceded
/// by the separator.
pub open spec fn sep_list_toks(cs: Seq<VdsV>, i: nat, sep: Seq<TokV>) -> Seq<TokV>
    decreases cs, cs.len() - i,
{
    if i >= cs.len() {
        Seq::<TokV>::empty()
    } else {
        sep + atom_toks(cs[i as int]) + sep_list_toks(cs, i + 1, sep)
    }
}

/// A joined list is its first operand followed by the separated rest.
proof fn lemma_list_toks_split(cs: Seq<VdsV>, i: nat, sep: Seq<TokV>)
    requires
        i < cs.len(),
    ensures
        list_toks(cs, i, sep) == atom_toks(cs[i as int]) + sep_list_toks(cs, i + 1, sep),
    decreases cs.len() - i,
{
    if i + 1 == cs.len() {
        assert(sep_list_toks(cs, i + 1, sep) =~= Seq::<TokV>::empty());
        assert(atom_toks(cs[i as int]) + Seq::<TokV>::empty() =~= atom_toks(cs[i as int]));
    } else {
        lemma_list_toks_split(cs, i + 1, sep);
        assert(list_toks(cs, i, sep) == atom_toks(cs[i as int]) + sep + list_toks(cs, i + 1, sep));
        assert(sep_list_toks(cs, i + 1, sep) == sep + atom_toks(cs[(i + 1) as int])
            + sep_list_toks(cs, i + 2, sep));
        assert(atom_toks(cs[i as int]) + sep + (atom_toks(cs[(i + 1) as int]) + sep_list_toks(
            cs,
            i + 2,
            sep,
        )) =~= atom_toks(cs[i as int]) + (sep + atom_toks(cs[(i + 1) as int]) + sep_list_toks(
            cs,
            i + 2,
            sep,
        )));
    }
}

/// An operand's token form is nonempty and starts a new atom.
proof fn lemma_atom_toks_start(v: VdsV)
    ensures
        atom_toks(v).len() >= 1,
        atom_start(atom_toks(v)[0]),
        !(atom_toks(v)[0] is Star),
        !(atom_toks(v)[0] is Plus),
        !(atom_toks(v)[0] is Question),
        !(atom_toks(v)[0] is LBrace),
        !(atom_toks(v)[0] is Bar),
        !(atom_toks(v)[0] is BarBar),
        !(atom_toks(v)[0] is AmpAmp),
        !(atom_toks(v)[0] is RBracket),
{
    match v {
        VdsV::Keyword(_) => {},
        VdsV::Value(_) => {},
        VdsV::Type(_) => {},
        _ => {
            assert(atom_toks(v)[0] == TokV::LBracket);
        },
    }
}

/// Tokens that may follow a complete choice expression.
pub open spec fn choice_follow(r: Seq<TokV>) -> bool {
    r.len() == 0 || r[0] is RBracket
}

/// Tokens that may follow a complete `||` expression.
pub open spec fn oneof_follow(r: Seq<TokV>) -> bool {
    choice_follow(r) || (r.len() > 0 && r[0] is Bar)
}

/// Tokens that may follow a complete `&&` expression.
pub open spec fn allof_follow(r: Seq<TokV>) -> bool {
    oneof_follow(r) || (r.len() > 0 && r[0] is BarBar)
}

/// Tokens that may follow a complete juxtaposition.
pub open spec fn seq_follow(r: Seq<TokV>) -> bool {
    allof_follow(r) || (r.len() > 0 && r[0] is AmpAmp)
}

/// What can follow an expression never starts or extends an operand.
proof fn lemma_seq_follow_flat(r: Seq<TokV>)
    requires
        seq_follow(r),
    ensures
        r.len() > 0 ==> !atom_start(r[0]) && !(r[0] is Star) && !(r[0] is Plus) && !(r[0]
            is Question) && !(r[0] is LBrace),
{
}

/// Parsing the token form of a tree in operand position consumes exactly
/// that form and yields the tree.
#[verifier::rlimit(100)]
#[verifier::spinoff_prover]
proof fn lemma_atom_rt(v: VdsV, rest: Seq<TokV>)
    requires
        serializable(v),
        no_singletons_v(v),
    ensures
        spec_parse_atom(atom_toks(v) + rest) == Some((v, rest)),
    decreases v, 10int,
{
    let toks = atom_toks(v) + rest;
    match v {
        VdsV::Keyword(s) => {
            assert(toks[0] == TokV::Ident(s));
            assert(toks.skip(1) =~= rest);
        },
        VdsV::Value(s) => {
            assert(toks[0] == TokV::Lt);
            assert(toks[1] == TokV::Ident(s));
            assert(toks[2] == TokV::Gt);
            assert(toks.skip(3) =~= rest);
        },
        VdsV::Type(s) => {
            assert(toks[0] == TokV::Quote);
            assert(toks[1] == TokV::Ident(s));
            assert(toks[2] == TokV::Quote);
            assert(toks.skip(3) =~= rest);
        },
        _ => {
            assert(atom_toks(v) == seq![TokV::LBracket] + ser_toks(v) + seq![TokV::RBracket]);
            assert(toks[0] == TokV::LBracket);
            assert(toks.skip(1) =~= ser_toks(v) + (seq![TokV::RBracket] + rest));
            lemma_choice_rt(v, seq![TokV::RBracket] + rest);
            assert((seq![TokV::RBracket] + rest)[0] == TokV::RBracket);
            assert((seq![TokV::RBracket] + rest).skip(1) =~= rest);
            assert((seq![TokV::RBracket] + rest).len() < toks.len());
        },
    }
}

/// Parsing the token form of a tree at the choice level consumes exactly
/// that form and yields the tree.
#[verifier::rlimit(100)]
#[verifier::spinoff_prover]
proof fn lemma_choice_rt(v: VdsV, rest: Seq<TokV>)
    requires
        serializable(v),
        no_singletons_v(v),
        choice_follow(rest),
    ensures
        spec_parse_choice(ser_toks(v) + rest) == Some((v, rest)),
    decreases v, 9int,
{
    match v {
        VdsV::Choice(cs) => {
            lemma_serializable_list(cs, 0);
            lemma_list_toks_split(cs, 0, seq![TokV::Bar]);
            assert(ser_toks(v) + rest =~= atom_toks(cs[0]) + (sep_list_toks(
                cs,
                1,
                seq![TokV::Bar],
            ) + rest));
            let rest1 = sep_list_toks(cs, 1, seq![TokV::Bar]) + rest;
            lemma_sep_list_head(cs, 1, seq![TokV::Bar], rest);
            lemma_oneof_atom_rt(cs[0], rest1);
            lemma_choice_list_rt(cs, 1, seq![cs[0]], rest);
            assert(seq![cs[0]] + cs.skip(1) =~= cs);
            assert((ser_toks(v) + rest).len() >= rest1.len());
        },
        _ => {
            lemma_oneof_rt(v, rest);
            let toks = ser_toks(v) + rest;
            assert(spec_parse_oneof(toks) == Some((v, rest)));
            assert(spec_parse_choice_more(rest, seq![v]) == Some((seq![v], rest)));
            assert(seq![v][0] == v);
        },
    }
}

/// The choice operands from index `i` on, each led by `|`, parse onto the
/// accumulator.
#[verifier::rlimit(100)]
#[verifier::spinoff_prover]
proof fn lemma_choice_list_rt(cs: Seq<VdsV>, i: nat, acc: Seq<VdsV>, rest: Seq<TokV>)
    requires
        forall|k: int| 0 <= k < cs.len() ==> serializable(#[trigger] cs[k]),
        forall|k: int| 0 <= k < cs.len() ==> no_singletons_v(#[trigger] cs[k]),
        i <= cs.len(),
        choice_follow(rest),
    ensures
        spec_parse_choice_more(sep_list_toks(cs, i, seq![TokV::Bar]) + rest, acc) == Some(
            (acc + cs.skip(i as int), rest),
        ),
    decreases cs, 2int, cs.len() - i,
{
    if i >= cs.len() {
        assert(sep_list_toks(cs, i, seq![TokV::Bar]) + rest =~= rest);
        assert(acc + cs.skip(i as int) =~= acc);
    } else {
        let toks = sep_list_toks(cs, i, seq![TokV::Bar]) + rest;
        let rest1 = sep_list_toks(cs, i + 1, seq![TokV::Bar]) + rest;
        assert(toks =~= seq![TokV::Bar] + (atom_toks(cs[i as int]) + rest1));
        assert(toks[0] == TokV::Bar);
        assert(toks.skip(1) =~= atom_toks(cs[i as int]) + rest1);
        lemma_sep_list_head(cs, i + 1, seq![TokV::Bar], rest);
        lemma_oneof_atom_rt(cs[i as int], rest1);
        lemma_atom_toks_start(cs[i as int]);
        assert(rest1.len() < toks.len());
        lemma_choice_list_rt(cs, i + 1, acc.push(cs[i as int]), rest);
        assert(acc.push(cs[i as int]) + cs.skip(i as int + 1) =~= acc + cs.skip(i as int));
    }
}

/// Parsing one operand at the `||` level yields the operand.
proof fn lemma_oneof_atom_rt(u: VdsV, rest: Seq<TokV>)
    requires
        serializable(u),
        no_singletons_v(u),
        oneof_follow(rest),
    ensures
        spec_parse_oneof(atom_toks(u) + rest) == Some((u, rest)),
    decreases u, 13int,
{
    lemma_allof_atom_rt(u, rest);
    assert(spec_parse_oneof_more(rest, seq![u]) == Some((seq![u], rest)));
    assert(seq![u][0] == u);
}

/// Parsing the token form of a tree at the `||` level consumes exactly
/// that form and yields the tree.
#[verifier::rlimit(100)]
#[verifier::spinoff_prover]
proof fn lemma_oneof_rt(v: VdsV, rest: Seq<TokV>)
    requires
        serializable(v),
        no_singletons_v(v),
        !(v is Choice),
        oneof_follow(rest),
    ensures
        spec_parse_oneof(ser_toks(v) + rest) == Some((v, rest)),
    decreases v, 7int,
{
    match v {
        VdsV::OneOrMoreOf(cs) => {
            lemma_serializable_list(cs, 0);
            assert forall|k: int| 0 <= k < cs.len() implies no_singletons_v(#[trigger] cs[k]) by {
                assert(no_singletons_v(cs[k]));
            }
            lemma_list_toks_split(cs, 0, seq![TokV::BarBar]);
            assert(ser_toks(v) + rest =~= atom_toks(cs[0]) + (sep_list_toks(
                cs,
                1,
                seq![TokV::BarBar],
            ) + rest));
            let rest1 = sep_list_toks(cs, 1, seq![TokV::BarBar], ) + rest;
            lemma_sep_list_head(cs, 1, seq![TokV::BarBar], rest);
            lemma_allof_atom_rt(cs[0], rest1);
            lemma_oneof_list_rt(cs, 1, seq![cs[0]], rest);
            assert(seq![cs[0]] + cs.skip(1) =~= cs);
        },
        _ => {
            lemma_allof_rt(v, rest);
            assert(spec_parse_oneof_more(rest, seq![v]) == Some((seq![v], rest)));
            assert(seq![v][0] == v);
        },
    }
}

/// The `||` operands from index `i` on parse onto the accumulator.
#[verifier::rlimit(100)]
#[verifier::spinoff_prover]
proof fn lemma_oneof_list_rt(cs: Seq<VdsV>, i: nat, acc: Seq<VdsV>, rest: Seq<TokV>)
    requires
        forall|k: int| 0 <= k < cs.len() ==> serializable(#[trigger] cs[k]),
        forall|k: int| 0 <= k < cs.len() ==> no_singletons_v(#[trigger] cs[k]),
        i <= cs.len(),
        oneof_follow(rest),
    ensures
        spec_parse_oneof_more(sep_list_toks(cs, i, seq![TokV::BarBar]) + rest, acc) == Some(
            (acc + cs.skip(i as int), rest),
        ),
    decreases cs, 2int, cs.len() - i,
{
    if i >= cs.len() {
        assert(sep_list_toks(cs, i, seq![TokV::BarBar]) + rest =~= rest);
        assert(acc + cs.skip(i as int) =~= acc);
    } else {
        let toks = sep_list_toks(cs, i, seq![TokV::BarBar]) + rest;
        let rest1 = sep_list_toks(cs, i + 1, seq![TokV::BarBar]) + rest;
        assert(toks =~= seq![TokV::BarBar] + (atom_toks(cs[i as int]) + rest1));
        assert(toks[0] == TokV::BarBar);
        assert(toks.skip(1) =~= atom_toks(cs[i as int]) + rest1);
        lemma_sep_list_head(cs, i + 1, seq![TokV::BarBar], rest);
        lemma_allof_atom_rt(cs[i as int], rest1);
        lemma_atom_toks_start(cs[i as int]);
        assert(rest1.len() < toks.len());
        lemma_oneof_list_rt(cs, i + 1, acc.push(cs[i as int]), rest);
        assert(acc.push(cs[i as int]) + cs.skip(i as int + 1) =~= acc + cs.skip(i as int));
    }
}

/// Parsing one operand at the `&&` level yields the operand.
proof fn lemma_allof_atom_rt(u: VdsV, rest: Seq<TokV>)
    requires
        serializable(u),
        no_singletons_v(u),
        allof_follow(rest),
    ensures
        spec_parse_allof(atom_toks(u) + rest) == Some((u, rest)),
    decreases u, 12int,
{
    lemma_seq_atom_rt(u, rest);
    assert(spec_parse_allof_more(rest, seq![u]) == Some((seq![u], rest)));
    assert(seq![u][0] == u);
}

/// Parsing the token form of a tree at the `&&` level consumes exactly
/// that form and yields the tree.
#[verifier::rlimit(100)]
#[verifier::spinoff_prover]
proof fn lemma_allof_rt(v: VdsV, rest: Seq<TokV>)
    requires
        serializable(v),
        no_singletons_v(v),
        !(v is Choice),
        !(v is OneOrMoreOf),
        allof_follow(rest),
    ensures
        spec_parse_allof(ser_toks(v) + rest) == Some((v, rest)),
    decreases v, 5int,
{
    match v {
        VdsV::AllOf(cs) => {
            lemma_serializable_list(cs, 0);
            assert forall|k: int| 0 <= k < cs.len() implies no_singletons_v(#[trigger] cs[k]) by {
                assert(no_singletons_v(cs[k]));
            }
            lemma_list_toks_split(cs, 0, seq![TokV::AmpAmp]);
            assert(ser_toks(v) + rest =~= atom_toks(cs[0]) + (sep_list_toks(
                cs,
                1,
                seq![TokV::AmpAmp],
            ) + rest));
            let rest1 = sep_list_toks(cs, 1, seq![TokV::AmpAmp]) + rest;
            lemma_sep_list_head(cs, 1, seq![TokV::AmpAmp], rest);
            lemma_seq_atom_rt(cs[0], rest1);
            lemma_allof_list_rt(cs, 1, seq![cs[0]], rest);
            assert(seq![cs[0]] + cs.skip(1) =~= cs);
        },
        _ => {
            lemma_seq_rt(v, rest);
            assert(spec_parse_allof_more(rest, seq![v]) == Some((seq![v], rest)));
            assert(seq![v][0] == v);
        },
    }
}

/// The `&&` operands from index `i` on parse onto the accumulator.
#[verifier::rlimit(100)]
#[verifier::spinoff_prover]
proof fn lemma_allof_list_rt(cs: Seq<VdsV>, i: nat, acc: Seq<VdsV>, rest: Seq<TokV>)
    requires
        forall|k: int| 0 <= k < cs.len() ==> serializable(#[trigger] cs[k]),
        forall|k: int| 0 <= k < cs.len() ==> no_singletons_v(#[trigger] cs[k]),
        i <= cs.len(),
        allof_follow(rest),
    ensures
        spec_parse_allof_more(sep_list_toks(cs, i, seq![TokV::AmpAmp]) + rest, acc) == Some(
            (acc + cs.skip(i as int), rest),
        ),
    decreases cs, 2int, cs.len() - i,
{
    if i >= cs.len() {
        assert(sep_list_toks(cs, i, seq![TokV::AmpAmp]) + rest =~= rest);
        assert(acc + cs.skip(i as int) =~= acc);
    } else {
        let toks = sep_list_toks(cs, i, seq![TokV::AmpAmp]) + rest;
        let rest1 = sep_list_toks(cs, i + 1, seq![TokV::AmpAmp]) + rest;
        assert(toks =~= seq![TokV::AmpAmp] + (atom_toks(cs[i as int]) + rest1));
        assert(toks[0] == TokV::AmpAmp);
        assert(toks.skip(1) =~= atom_toks(cs[i as int]) + rest1);
        lemma_sep_list_head(cs, i + 1, seq![TokV::AmpAmp], rest);
        lemma_seq_atom_rt(cs[i as int], rest1);
        lemma_atom_toks_start(cs[i as int]);
        assert(rest1.len() < toks.len());
        lemma_allof_list_rt(cs, i + 1, acc.push(cs[i as int]), rest);
        assert(acc.push(cs[i as int]) + cs.skip(i as int + 1) =~= acc + cs.skip(i as int));
    }
}

/// Parsing one operand at the juxtaposition level yields the operand.
proof fn lemma_seq_atom_rt(u: VdsV, rest: Seq<TokV>)
    requires
        serializable(u),
        no_singletons_v(u),
        seq_follow(rest),
    ensures
        spec_parse_seq(atom_toks(u) + rest) == Some((u, rest)),
    decreases u, 11int,
{
    lemma_atom_rt(u, rest);
    lemma_seq_follow_flat(rest);
    let toks = atom_toks(u) + rest;
    assert(spec_parse_primary(toks) == Some((u, rest)));
    lemma_atom_toks_start(u);
    assert(rest.len() < toks.len());
    assert(spec_parse_seq_more(rest, seq![u]) == Some((seq![u], rest)));
    assert(seq![u][0] == u);
}

/// Parsing the token form of a tree at the juxtaposition level consumes
/// exactly that form and yields the tree.
/// A leaf at the juxtaposition level parses to itself.
proof fn lemma_seq_leaf_rt(v: VdsV, rest: Seq<TokV>)
    requires
        serializable(v),
        no_singletons_v(v),
        v is Keyword || v is Value || v is Type,
        seq_follow(rest),
    ensures
        spec_parse_seq(ser_toks(v) + rest) == Some((v, rest)),
    decreases v, 2int,
{
    lemma_seq_follow_flat(rest);
    let toks = ser_toks(v) + rest;
    match v {
        VdsV::Keyword(s) => {
            assert(toks[0] == TokV::Ident(s));
            assert(toks.skip(1) =~= rest);
        },
        VdsV::Value(s) => {
            assert(toks[0] == TokV::Lt);
            assert(toks[1] == TokV::Ident(s));
            assert(toks[2] == TokV::Gt);
            assert(toks.skip(3) =~= rest);
        },
        VdsV::Type(s) => {
            assert(toks[0] == TokV::Quote);
            assert(toks[1] == TokV::Ident(s));
            assert(toks[2] == TokV::Quote);
            assert(toks.skip(3) =~= rest);
        },
        _ => {},
    }
    assert(spec_parse_atom(toks) == Some((v, rest)));
    assert(rest.len() < toks.len());
    assert(spec_parse_seq_more(rest, seq![v]) == Some((seq![v], rest)));
    assert(seq![v][0] == v);
}

/// A repetition at the juxtaposition level parses to itself.
#[verifier::rlimit(100)]
proof fn lemma_seq_rep_rt(v: VdsV, rest: Seq<TokV>)
    requires
        serializable(v),
        no_singletons_v(v),
        v is Repetition,
        seq_follow(rest),
    ensures
        spec_parse_seq(ser_toks(v) + rest) == Some((v, rest)),
    decreases v, 2int,
{
    lemma_seq_follow_flat(rest);
    match v {
        VdsV::Repetition { inner, min, max } => {
            let suffix = suffix_toks(min, max);
            let toks = ser_toks(v) + rest;
            assert(toks =~= atom_toks(*inner) + (suffix + rest));
            lemma_atom_rt(*inner, suffix + rest);
            assert(spec_parse_atom(toks) == Some((*inner, suffix + rest)));
            if min == 0 && max == Some(1nat) {
                assert((suffix + rest)[0] == TokV::Question);
                assert((suffix + rest).skip(1) =~= rest);
            } else if min == 0 && max is None {
                assert((suffix + rest)[0] == TokV::Star);
                assert((suffix + rest).skip(1) =~= rest);
            } else if min == 1 && max is None {
                assert((suffix + rest)[0] == TokV::Plus);
                assert((suffix + rest).skip(1) =~= rest);
            } else {
                let m = max->0;
                assert((suffix + rest)[0] == TokV::LBrace);
                assert((suffix + rest)[1] == TokV::Int(min));
                assert((suffix + rest)[2] == TokV::Comma);
                assert((suffix + rest)[3] == TokV::Int(m));
                assert((suffix + rest)[4] == TokV::RBrace);
                assert((suffix + rest).skip(5) =~= rest);
            }
            lemma_atom_toks_start(*inner);
            assert(rest.len() < toks.len());
            assert(spec_parse_seq_more(rest, seq![v]) == Some((seq![v], rest)));
            assert(seq![v][0] == v);
        },
        _ => {},
    }
}

/// A juxtaposition node parses to itself.
#[verifier::rlimit(100)]
proof fn lemma_seq_seq_rt(v: VdsV, rest: Seq<TokV>)
    requires
        serializable(v),
        no_singletons_v(v),
        v is Sequence,
        seq_follow(rest),
    ensures
        spec_parse_seq(ser_toks(v) + rest) == Some((v, rest)),
    decreases v, 2int,
{
    lemma_seq_follow_flat(rest);
    match v {
        VdsV::Sequence(cs) => {
            lemma_serializable_list(cs, 0);
            lemma_list_toks_split(cs, 0, Seq::<TokV>::empty());
            let toks = ser_toks(v) + rest;
            let rest1 = sep_list_toks(cs, 1, Seq::<TokV>::empty()) + rest;
            assert(toks =~= atom_toks(cs[0]) + rest1);
            lemma_sep_list_head(cs, 1, Seq::<TokV>::empty(), rest);
            lemma_atom_rt(cs[0], rest1);
            lemma_atom_toks_start(cs[0]);
            assert(spec_parse_primary(toks) == Some((cs[0], rest1)));
            assert(rest1.len() < toks.len());
            lemma_seq_list_rt(cs, 1, seq![cs[0]], rest);
            assert(seq![cs[0]] + cs.skip(1) =~= cs);
        },
        _ => {},
    }
}

/// Parsing the token form of a tree at the juxtaposition level consumes
/// exactly that form and yields the tree.
proof fn lemma_seq_rt(v: VdsV, rest: Seq<TokV>)
    requires
        serializable(v),
        no_singletons_v(v),
        !(v is Choice),
        !(v is OneOrMoreOf),
        !(v is AllOf),
        seq_follow(rest),
    ensures
        spec_parse_seq(ser_toks(v) + rest) == Some((v, rest)),
    decreases v, 3int,
{
    match v {
        VdsV::Keyword(_) | VdsV::Value(_) | VdsV::Type(_) => {
            lemma_seq_leaf_rt(v, rest);
        },
        VdsV::Repetition { .. } => {
            lemma_seq_rep_rt(v, rest);
        },
        VdsV::Sequence(_) => {
            lemma_seq_seq_rt(v, rest);
        },
        _ => {},
    }
}

/// The juxtaposed operands from index `i` on parse onto the accumulator.
#[verifier::rlimit(100)]
#[verifier::spinoff_prover]
proof fn lemma_seq_list_rt(cs: Seq<VdsV>, i: nat, acc: Seq<VdsV>, rest: Seq<TokV>)
    requires
        forall|k: int| 0 <= k < cs.len() ==> serializable(#[trigger] cs[k]),
        forall|k: int| 0 <= k < cs.len() ==> no_singletons_v(#[trigger] cs[k]),
        i <= cs.len(),
        seq_follow(rest),
    ensures
        spec_parse_seq_more(sep_list_toks(cs, i, Seq::<TokV>::empty()) + rest, acc) == Some(
            (acc + cs.skip(i as int), rest),
        ),
    decreases cs, 2int, cs.len() - i,
{
    lemma_seq_follow_flat(rest);
    if i >= cs.len() {
        assert(sep_list_toks(cs, i, Seq::<TokV>::empty()) + rest =~= rest);
        assert(acc + cs.skip(i as int) =~= acc);
    } else {
        let toks = sep_list_toks(cs, i, Seq::<TokV>::empty()) + rest;
        let rest1 = sep_list_toks(cs, i + 1, Seq::<TokV>::empty()) + rest;
        assert(toks =~= atom_toks(cs[i as int]) + rest1);
        lemma_atom_toks_start(cs[i as int]);
        assert(toks[0] == atom_toks(cs[i as int])[0]);
        lemma_sep_list_head(cs, i + 1, Seq::<TokV>::empty(), rest);
        lemma_atom_rt(cs[i as int], rest1);
        assert(spec_parse_primary(toks) == Some((cs[i as int], rest1)));
        assert(rest1.len() < toks.len());
        lemma_seq_list_rt(cs, i + 1, acc.push(cs[i as int]), rest);
        assert(acc.push(cs[i as int]) + cs.skip(i as int + 1) =~= acc + cs.skip(i as int));
    }
}

/// The rest of a separated operand list starts with its separator, or with
/// a new atom, or is the follower itself.
proof fn lemma_sep_list_head(cs: Seq<VdsV>, i: nat, sep: Seq<TokV>, rest: Seq<TokV>)
    requires
        i <= cs.len(),
        seq_follow(rest),
        sep == Seq::<TokV>::empty() || sep == seq![TokV::Bar] || sep == seq![TokV::BarBar] || sep
            == seq![TokV::AmpAmp],
    ensures
        ({
            let t = sep_list_toks(cs, i, sep) + rest;
            &&& (i >= cs.len() ==> t == rest)
            &&& (i < cs.len() && sep == Seq::<TokV>::empty() ==> t.len() > 0 && atom_start(t[0]))
            &&& (i < cs.len() && sep != Seq::<TokV>::empty() ==> t.len() > 0 && t[0] == sep[0])
        }),
{
    if i >= cs.len() {
        assert(sep_list_toks(cs, i, sep) + rest =~= rest);
    } else {
        lemma_atom_toks_start(cs[i as int]);
        let t = sep_list_toks(cs, i, sep) + rest;
        assert(sep_list_toks(cs, i, sep) == sep + atom_toks(cs[i as int]) + sep_list_toks(
            cs,
            i + 1,
            sep,
        ));
        if sep == Seq::<TokV>::empty() {
            assert(t[0] == atom_toks(cs[i as int])[0]);
        } else {
            assert(t[0] == sep[0]);
        }
    }
}

/// Round trip through the token layer: the token form of any well-formed
/// grammar tree parses back to exactly that tree.
pub proof fn lemma_ser_toks_round_trip(v: VdsV)
    requires
        serializable(v),
        no_singletons_v(v),
    ensures
        spec_parse_toks(ser_toks(v)) == Some(v),
{
    assert(ser_toks(v) + Seq::<TokV>::empty() =~= ser_toks(v));
    lemma_choice_rt(v, Seq::<TokV>::empty());
}

/// The decimal encoding evaluates back to its number.
proof fn lemma_digits_val_dec(n: nat)
    ensures
        digits_val(spec_dec(n)) == n,
    decreases n,
{
    if n < 10 {
        assert(spec_dec(n) == seq![(48 + n) as u8]);
        assert(spec_dec(n).drop_last() =~= Seq::<u8>::empty());
        assert(spec_dec(n).last() == (48 + n) as u8);
        assert(digits_val(Seq::<u8>::empty()) == 0);
        assert(((48 + n) as u8) as int == 48 + n);
        assert(digits_val(spec_dec(n)) == (0 * 10 + ((48 + n) as u8 - 48)) as nat);
    } else {
        lemma_digits_val_dec(n / 10);
        assert(spec_dec(n) == spec_dec(n / 10) + seq![(48 + n % 10) as u8]);
        assert(spec_dec(n).drop_last() =~= spec_dec(n / 10));
        assert(spec_dec(n).last() == (48 + n % 10) as u8);
        assert(((48 + n % 10) as u8) as int == 48 + n % 10);
        assert(digits_val(spec_dec(n)) == ((n / 10) * 10 + (n % 10)) as nat);
        assert(n == 10 * (n / 10) + n % 10);
    }
}

/// A text that may follow a complete serialization without merging into
/// its last token.
pub open spec fn lex_safe(rest: Seq<u8>) -> bool {
    rest.len() == 0 || !is_ident_byte(rest[0])
}

/// Lexing from an identifier run: one identifier token.
proof fn lemma_lex_ident(s: Seq<u8>, rest: Seq<u8>)
    requires
        s.len() >= 1,
        forall|k: int| 0 <= k < s.len() ==> is_ident_byte(#[trigger] s[k]),
        lex_safe(rest),
    ensures
        spec_lex(s + rest) == match spec_lex(rest) {
            Some(r) => Some(seq![TokV::Ident(s)] + r),
            None => None::<Seq<TokV>>,
        },
{
    let t = s + rest;
    assert(t[0] == s[0]);
    assert(!is_ws(t[0]));
    assert forall|k: int| 0 <= k < s.len() implies is_ident_byte(#[trigger] t[k]) by {
        assert(t[k] == s[k]);
    }
    if s.len() < t.len() {
        assert(t[s.len() as int] == rest[0]);
    }
    lemma_ident_run(t, s.len() as nat);
    assert(t.take(s.len() as int) =~= s);
    assert(t.skip(s.len() as int) =~= rest);
}

/// Lexing from a decimal run: one integer token.
proof fn lemma_lex_int(n: nat, rest: Seq<u8>)
    requires
        n <= usize::MAX as nat,
        rest.len() == 0 || (!is_digit_byte(rest[0]) && !is_ident_byte(rest[0])),
    ensures
        spec_lex(spec_dec(n) + rest) == match spec_lex(rest) {
            Some(r) => Some(seq![TokV::Int(n)] + r),
            None => None::<Seq<TokV>>,
        },
{
    let s = spec_dec(n);
    let t = s + rest;
    crate::text::lemma_dec_digits(n);
    assert(t[0] == s[0]);
    assert(is_digit_byte(t[0]));
    assert(!is_ws(t[0]) && !is_ident_byte(t[0]));
    assert forall|k: int| 0 <= k < s.len() implies is_digit_byte(#[trigger] t[k]) by {
        assert(t[k] == s[k]);
    }
    if s.len() < t.len() {
        assert(t[s.len() as int] == rest[0]);
    }
    lemma_digit_run(t, s.len() as nat);
    assert(t.take(s.len() as int) =~= s);
    assert(t.skip(s.len() as int) =~= rest);
    lemma_digits_val_dec(n);
}

/// Lexing from a single punctuation byte: one token.
proof fn lemma_lex_punct(c: u8, rest: Seq<u8>)
    requires
        c == 60 || c == 62 || c == 39 || c == 91 || c == 93 || c == 123 || c == 125 || c == 44
            || c == 42 || c == 43 || c == 63,
    ensures
        spec_lex(seq![c] + rest) == match spec_lex(rest) {
            Some(r) => Some(
                seq![
                    if c == 60 {
                        TokV::Lt
                    } else if c == 62 {
                        TokV::Gt
                    } else if c == 39 {
                        TokV::Quote
                    } else if c == 91 {
                        TokV::LBracket
                    } else if c == 93 {
                        TokV::RBracket
                    } else if c == 123 {
                        TokV::LBrace
                    } else if c == 125 {
                        TokV::RBrace
                    } else if c == 44 {
                        TokV::Comma
                    } else if c == 42 {
                        TokV::Star
                    } else if c == 43 {
                        TokV::Plus
                    } else {
                        TokV::Question
                    },
                ] + r,
            ),
            None => None::<Seq<TokV>>,
        },
{
    let t = seq![c] + rest;
    assert(t[0] == c);
    assert(t.skip(1) =~= rest);
}

/// Lexing from a space: the space is skipped.
proof fn lemma_lex_space(rest: Seq<u8>)
    ensures
        spec_lex(seq![32u8] + rest) == spec_lex(rest),
{
    let t = seq![32u8] + rest;
    assert(t[0] == 32);
    assert(is_ws(t[0]));
    assert(t.skip(1) =~= rest);
}

/// Lexing from a single `|`: one alternation token, provided no second
/// bar follows.
proof fn lemma_lex_bar(rest: Seq<u8>)
    requires
        rest.len() == 0 || rest[0] != 124,
    ensures
        spec_lex(seq![124u8] + rest) == match spec_lex(rest) {
            Some(r) => Some(seq![TokV::Bar] + r),
            None => None::<Seq<TokV>>,
        },
{
    let t = seq![124u8] + rest;
    assert(t[0] == 124);
    if t.len() >= 2 {
        assert(t[1] == rest[0]);
    }
    assert(t.skip(1) =~= rest);
}

/// Lexing from `||`: one token.
proof fn lemma_lex_barbar(rest: Seq<u8>)
    ensures
        spec_lex(seq![124u8, 124u8] + rest) == match spec_lex(rest) {
            Some(r) => Some(seq![TokV::BarBar] + r),
            None => None::<Seq<TokV>>,
        },
{
    let t = seq![124u8, 124u8] + rest;
    assert(t[0] == 124);
    assert(t[1] == 124);
    assert(t.skip(2) =~= rest);
}

/// Lexing from `&&`: one token.
proof fn lemma_lex_ampamp(rest: Seq<u8>)
    ensures
        spec_lex(seq![38u8, 38u8] + rest) == match spec_lex(rest) {
            Some(r) => Some(seq![TokV::AmpAmp] + r),
            None => None::<Seq<TokV>>,
        },
{
    let t = seq![38u8, 38u8] + rest;
    assert(t[0] == 38);
    assert(t[1] == 38);
    assert(t.skip(2) =~= rest);
}

/// Lexing the text of a tree delivers its token form, whatever safely
/// follows.
#[verifier::rlimit(100)]
proof fn lemma_lex_ser(v: VdsV, rest: Seq<u8>)
    requires
        serializable(v),
        lex_safe(rest),
    ensures
        spec_lex(spec_ser(v) + rest) == match spec_lex(rest) {
            Some(r) => Some(ser_toks(v) + r),
            None => None::<Seq<TokV>>,
        },
    decreases v, 1int,
{
    match v {
        VdsV::Keyword(s) => {
            lemma_lex_ident(s, rest);
        },
        VdsV::Value(s) => {
            let t1 = seq![62u8] + rest;
            lemma_lex_punct(62, rest);
            lemma_lex_ident(s, t1);
            lemma_lex_punct(60, s + t1);
            assert(spec_ser(v) + rest =~= seq![60u8] + (s + t1));
            match spec_lex(rest) {
                Some(r) => {
                    assert(seq![TokV::Lt] + (seq![TokV::Ident(s)] + (seq![TokV::Gt] + r)) =~= seq![
                        TokV::Lt,
                        TokV::Ident(s),
                        TokV::Gt,
                    ] + r);
                },
                None => {},
            }
        },
        VdsV::Type(s) => {
            let t1 = seq![39u8] + rest;
            lemma_lex_punct(39, rest);
            lemma_lex_ident(s, t1);
            lemma_lex_punct(39, s + t1);
            assert(spec_ser(v) + rest =~= seq![39u8] + (s + t1));
            match spec_lex(rest) {
                Some(r) => {
                    assert(seq![TokV::Quote] + (seq![TokV::Ident(s)] + (seq![TokV::Quote] + r))
                        =~= seq![TokV::Quote, TokV::Ident(s), TokV::Quote] + r);
                },
                None => {},
            }
        },
        VdsV::Repetition { inner, min, max } => {
            let sfx = spec_suffix(min, max);
            let sfx_toks = suffix_toks(min, max);
            if min == 0 && max == Some(1nat) {
                lemma_lex_punct(63, rest);
                assert(sfx + rest =~= seq![63u8] + rest);
            } else if min == 0 && max is None {
                lemma_lex_punct(42, rest);
                assert(sfx + rest =~= seq![42u8] + rest);
            } else if min == 1 && max is None {
                lemma_lex_punct(43, rest);
                assert(sfx + rest =~= seq![43u8] + rest);
            } else {
                let m = max->0;
                let t5 = seq![125u8] + rest;
                let t4 = spec_dec(m) + t5;
                let t3 = seq![44u8] + t4;
                let t2 = spec_dec(min) + t3;
                lemma_lex_punct(125, rest);
                crate::text::lemma_dec_digits(m);
                assert(t5[0] == 125);
                lemma_lex_int(m, t5);
                assert(t4[0] == spec_dec(m)[0]);
                lemma_lex_punct(44, t4);
                assert(t3[0] == 44);
                lemma_lex_int(min, t3);
                lemma_lex_punct(123, t2);
                assert(sfx + rest =~= seq![123u8] + t2);
                match spec_lex(rest) {
                    Some(r) => {
                        assert(seq![TokV::LBrace] + (seq![TokV::Int(min)] + (seq![TokV::Comma] + (
                        seq![TokV::Int(m)] + (seq![TokV::RBrace] + r)))) =~= sfx_toks + r);
                    },
                    None => {},
                }
            }
            assert(lex_safe(sfx + rest));
            lemma_lex_atom(*inner, sfx + rest);
            assert(spec_ser(v) + rest =~= spec_ser_atom(*inner) + (sfx + rest));
            match spec_lex(rest) {
                Some(r) => {
                    assert(atom_toks(*inner) + (sfx_toks + r) =~= (atom_toks(*inner) + sfx_toks)
                        + r);
                },
                None => {},
            }
        },
        VdsV::Sequence(cs) => {
            lemma_serializable_list(cs, 0);
            lemma_lex_list(cs, 0, 0, rest);
        },
        VdsV::AllOf(cs) => {
            lemma_serializable_list(cs, 0);
            lemma_lex_list(cs, 0, 1, rest);
        },
        VdsV::OneOrMoreOf(cs) => {
            lemma_serializable_list(cs, 0);
            lemma_lex_list(cs, 0, 2, rest);
        },
        VdsV::Choice(cs) => {
            lemma_serializable_list(cs, 0);
            lemma_lex_list(cs, 0, 3, rest);
        },
    }
}

/// The separator text of a joined list, by kind.
pub open spec fn sep_text_of(kind: int) -> Seq<u8> {
    if kind == 0 {
        seq![32u8]
    } else if kind == 1 {
        seq![38u8, 38u8]
    } else if kind == 2 {
        seq![124u8, 124u8]
    } else {
        seq![124u8]
    }
}

/// The separator tokens of a joined list, by kind.
pub open spec fn sep_toks_of(kind: int) -> Seq<TokV> {
    if kind == 0 {
        Seq::<TokV>::empty()
    } else if kind == 1 {
        seq![TokV::AmpAmp]
    } else if kind == 2 {
        seq![TokV::BarBar]
    } else {
        seq![TokV::Bar]
    }
}

/// Lexing a joined operand list delivers the joined token forms.
#[verifier::rlimit(100)]
proof fn lemma_lex_list(cs: Seq<VdsV>, i: nat, kind: int, rest: Seq<u8>)
    requires
        forall|k: int| 0 <= k < cs.len() ==> serializable(#[trigger] cs[k]),
        i < cs.len(),
        0 <= kind <= 3,
        lex_safe(rest),
    ensures
        spec_lex(spec_ser_list(cs, i, sep_text_of(kind)) + rest) == match spec_lex(rest) {
            Some(r) => Some(list_toks(cs, i, sep_toks_of(kind)) + r),
            None => None::<Seq<TokV>>,
        },
    decreases cs, 0int, cs.len() - i,
{
    let sept = sep_text_of(kind);
    let sepk = sep_toks_of(kind);
    if i + 1 == cs.len() {
        lemma_lex_atom(cs[i as int], rest);
    } else {
        let tail_text = spec_ser_list(cs, i + 1, sept) + rest;
        lemma_lex_list(cs, i + 1, kind, rest);
        lemma_atom_text_start(cs[(i + 1) as int]);
        assert(spec_ser_list(cs, i + 1, sept)[0] == spec_ser_atom(cs[(i + 1) as int])[0]) by {
            if i + 2 == cs.len() {
            } else {
                assert(spec_ser_list(cs, i + 1, sept) == spec_ser_atom(cs[(i + 1) as int]) + sept
                    + spec_ser_list(cs, i + 2, sept));
            }
        }
        assert(tail_text[0] == spec_ser_list(cs, i + 1, sept)[0]);
        if kind == 0 {
            lemma_lex_space(tail_text);
            assert(sept + tail_text =~= seq![32u8] + tail_text);
        } else if kind == 1 {
            lemma_lex_ampamp(tail_text);
            assert(sept + tail_text =~= seq![38u8, 38u8] + tail_text);
        } else if kind == 2 {
            lemma_lex_barbar(tail_text);
            assert(sept + tail_text =~= seq![124u8, 124u8] + tail_text);
        } else {
            lemma_lex_bar(tail_text);
            assert(sept + tail_text =~= seq![124u8] + tail_text);
        }
        assert(lex_safe(sept + tail_text));
        lemma_lex_atom(cs[i as int], sept + tail_text);
        assert(spec_ser_list(cs, i, sept) + rest =~= spec_ser_atom(cs[i as int]) + (sept
            + tail_text));
        match spec_lex(rest) {
            Some(r) => {
                assert(atom_toks(cs[i as int]) + (sepk + (list_toks(cs, i + 1, sepk) + r))
                    =~= (atom_toks(cs[i as int]) + sepk + list_toks(cs, i + 1, sepk)) + r);
            },
            None => {},
        }
    }
}

/// The text of an operand starts with an identifier byte, `<`, a quote, or
/// an opening bracket.
proof fn lemma_atom_text_start(v: VdsV)
    requires
        serializable(v),
    ensures
        spec_ser_atom(v).len() >= 1,
        is_ident_byte(spec_ser_atom(v)[0]) || spec_ser_atom(v)[0] == 60 || spec_ser_atom(v)[0]
            == 39 || spec_ser_atom(v)[0] == 91,
{
    match v {
        VdsV::Keyword(s) => {
            assert(spec_ser_atom(v)[0] == s[0]);
        },
        VdsV::Value(_) => {
            assert(spec_ser_atom(v)[0] == 60);
        },
        VdsV::Type(_) => {
            assert(spec_ser_atom(v)[0] == 39);
        },
        _ => {
            assert(spec_ser_atom(v)[0] == 91);
        },
    }
}

/// Lexing the operand text of a tree delivers its operand token form.
proof fn lemma_lex_atom(v: VdsV, rest: Seq<u8>)
    requires
        serializable(v),
        lex_safe(rest),
    ensures
        spec_lex(spec_ser_atom(v) + rest) == match spec_lex(rest) {
            Some(r) => Some(atom_toks(v) + r),
            None => None::<Seq<TokV>>,
        },
    decreases v, 2int,
{
    match v {
        VdsV::Keyword(_) | VdsV::Value(_) | VdsV::Type(_) => {
            lemma_lex_ser(v, rest);
        },
        _ => {
            let t1 = seq![93u8] + rest;
            lemma_lex_punct(93, rest);
            assert(lex_safe(t1));
            lemma_lex_ser(v, t1);
            lemma_lex_punct(91, spec_ser(v) + t1);
            assert(spec_ser_atom(v) + rest =~= seq![91u8] + (spec_ser(v) + t1));
            match spec_lex(rest) {
                Some(r) => {
                    assert(seq![TokV::LBracket] + (ser_toks(v) + (seq![TokV::RBracket] + r))
                        =~= (seq![TokV::LBracket] + ser_toks(v) + seq![TokV::RBracket]) + r);
                },
                None => {},
            }
        },
    }
}

/// Round-trip structure: the textual form of any well-formed grammar tree
/// is accepted by the grammar parser and parses back to exactly that tree.
pub proof fn lemma_round_trip(v: VdsV)
    requires
        serializable(v),
        no_singletons_v(v),
    ensures
        spec_parse(spec_ser(v)) == Some(v),
{
    assert(spec_ser(v) + Seq::<u8>::empty() =~= spec_ser(v));
    assert(spec_lex(Seq::<u8>::empty()) == Some(Seq::<TokV>::empty()));
    lemma_lex_ser(v, Seq::<u8>::empty());
    assert(ser_toks(v) + Seq::<TokV>::empty() =~= ser_toks(v));
    lemma_ser_toks_round_trip(v);
}

/// A well-formed token, as the lexer delivers them: identifier tokens hold
/// nonempty identifier text and integer tokens fit the machine word.
pub open spec fn tok_wf(t: TokV) -> bool {
    match t {
        TokV::Ident(s) => s.len() >= 1 && forall|k: int|
            0 <= k < s.len() ==> is_ident_byte(#[trigger] s[k]),
        TokV::Int(n) => n <= usize::MAX as nat,
        _ => true,
    }
}

/// Every token of the list is well-formed.
pub open spec fn toks_wf(toks: Seq<TokV>) -> bool {
    forall|k: int| 0 <= k < toks.len() ==> tok_wf(#[trigger] toks[k])
}

/// The identifier run consists of identifier bytes.
proof fn lemma_ident_run_bytes(s: Seq<u8>)
    ensures
        forall|x: int| 0 <= x < ident_run(s) ==> is_ident_byte(#[trigger] s[x]),
        ident_run(s) <= s.len(),
    decreases s.len(),
{
    if s.len() > 0 && is_ident_byte(s[0]) {
        lemma_ident_run_bytes(s.skip(1));
        assert forall|x: int| 0 <= x < ident_run(s) implies is_ident_byte(#[trigger] s[x]) by {
            if x > 0 {
                assert(s.skip(1)[x - 1] == s[x]);
            }
        }
    }
}

/// A suffix of a well-formed token list is well-formed.
proof fn lemma_toks_wf_skip(toks: Seq<TokV>, k: int)
    requires
        toks_wf(toks),
        0 <= k <= toks.len(),
    ensures
        toks_wf(toks.skip(k)),
{
    assert forall|x: int| 0 <= x < toks.skip(k).len() implies tok_wf(
        #[trigger] toks.skip(k)[x],
    ) by {
        assert(toks.skip(k)[x] == toks[k + x]);
    }
}

/// The lexer only delivers well-formed tokens.
pub proof fn lemma_lex_wf(s: Seq<u8>)
    ensures
        match spec_lex(s) {
            Some(toks) => toks_wf(toks),
            None => true,
        },
    decreases s.len(),
{
    if s.len() == 0 {
    } else if is_ws(s[0]) {
        lemma_lex_wf(s.skip(1));
    } else if is_ident_byte(s[0]) {
        let n = ident_run(s);
        lemma_ident_run_bytes(s);
        lemma_lex_wf(s.skip(n as int));
        match spec_lex(s.skip(n as int)) {
            Some(rest) => {
                let head = TokV::Ident(s.take(n as int));
                assert(tok_wf(head)) by {
                    assert forall|k: int| 0 <= k < n implies is_ident_byte(
                        #[trigger] s.take(n as int)[k],
                    ) by {
                        assert(s.take(n as int)[k] == s[k]);
                    }
                }
                assert forall|k: int| 0 <= k < (seq![head] + rest).len() implies tok_wf(
                    #[trigger] (seq![head] + rest)[k],
                ) by {
                    if k > 0 {
                        assert((seq![head] + rest)[k] == rest[k - 1]);
                    }
                }
            },
            None => {},
        }
    } else if is_digit_byte(s[0]) {
        let n = digit_run(s);
        lemma_digit_run_le(s);
        lemma_lex_wf(s.skip(n as int));
        if digits_val(s.take(n as int)) <= usize::MAX as nat {
            match spec_lex(s.skip(n as int)) {
                Some(rest) => {
                    let head = TokV::Int(digits_val(s.take(n as int)));
                    assert forall|k: int| 0 <= k < (seq![head] + rest).len() implies tok_wf(
                        #[trigger] (seq![head] + rest)[k],
                    ) by {
                        if k > 0 {
                            assert((seq![head] + rest)[k] == rest[k - 1]);
                        }
                    }
                },
                None => {},
            }
        }
    } else if s[0] == 124 || s[0] == 38 {
        if s.len() >= 2 && s[1] == s[0] {
            lemma_lex_wf(s.skip(2));
            match spec_lex(s.skip(2)) {
                Some(rest) => {
                    let head = if s[0] == 124 {
                        TokV::BarBar
                    } else {
                        TokV::AmpAmp
                    };
                    assert forall|k: int| 0 <= k < (seq![head] + rest).len() implies tok_wf(
                        #[trigger] (seq![head] + rest)[k],
                    ) by {
                        if k > 0 {
                            assert((seq![head] + rest)[k] == rest[k - 1]);
                        }
                    }
                },
                None => {},
            }
        } else if s[0] == 124 {
            lemma_lex_wf(s.skip(1));
            match spec_lex(s.skip(1)) {
                Some(rest) => {
                    assert forall|k: int| 0 <= k < (seq![TokV::Bar] + rest).len() implies tok_wf(
                        #[trigger] (seq![TokV::Bar] + rest)[k],
                    ) by {
                        if k > 0 {
                            assert((seq![TokV::Bar] + rest)[k] == rest[k - 1]);
                        }
                    }
                },
                None => {},
            }
        }
    } else {
        lemma_lex_wf(s.skip(1));
        match spec_lex(s) {
            Some(toks) => {
                match spec_lex(s.skip(1)) {
                    Some(rest) => {
                        assert forall|k: int| 0 <= k < toks.len() implies tok_wf(
                            #[trigger] toks[k],
                        ) by {
                            if k > 0 {
                                assert(toks[k] == rest[k - 1]);
                            }
                        }
                    },
                    None => {},
                }
            },
            None => {},
        }
    }
}

/// Pointwise serializability gives list serializability.
proof fn lemma_serializable_list_intro(cs: Seq<VdsV>, i: nat)
    requires
        forall|k: int| 0 <= k < cs.len() ==> serializable(#[trigger] cs[k]),
        i <= cs.len(),
    ensures
        serializable_list(cs, i),
    decreases cs.len() - i,
{
    if i < cs.len() {
        lemma_serializable_list_intro(cs, i + 1);
    }
}

/// A parsed atom is serializable, and the remainder stays well-formed.
proof fn lemma_atom_wf(toks: Seq<TokV>)
    requires
        toks_wf(toks),
    ensures
        match spec_parse_atom(toks) {
            Some(r) => serializable(r.0) && toks_wf(r.1),
            None => true,
        },
    decreases toks.len(), 0int,
{
    if toks.len() > 0 {
        match toks[0] {
            TokV::Ident(_) => {
                lemma_toks_wf_skip(toks, 1);
            },
            TokV::Lt => {
                if toks.len() >= 3 {
                    lemma_toks_wf_skip(toks, 3);
                }
            },
            TokV::Quote => {
                if toks.len() >= 3 {
                    lemma_toks_wf_skip(toks, 3);
                }
            },
            TokV::LBracket => {
                lemma_toks_wf_skip(toks, 1);
                lemma_choice_wf(toks.skip(1));
                match spec_parse_choice(toks.skip(1)) {
                    Some((v, rem)) => {
                        if rem.len() >= 1 && rem[0] == TokV::RBracket {
                            lemma_toks_wf_skip(rem, 1);
                        }
                    },
                    None => {},
                }
            },
            _ => {},
        }
    }
}

/// A parsed primary is serializable, and the remainder stays well-formed.
proof fn lemma_primary_wf(toks: Seq<TokV>)
    requires
        toks_wf(toks),
    ensures
        match spec_parse_primary(toks) {
            Some(r) => serializable(r.0) && toks_wf(r.1),
            None => true,
        },
    decreases toks.len(), 1int,
{
    lemma_atom_wf(toks);
    match spec_parse_atom(toks) {
        Some((v, rem)) => {
            if rem.len() > 0 {
                match rem[0] {
                    TokV::Star | TokV::Plus | TokV::Question => {
                        lemma_toks_wf_skip(rem, 1);
                    },
                    TokV::LBrace => {
                        if rem.len() >= 5 {
                            assert(tok_wf(rem[1]));
                            assert(tok_wf(rem[3]));
                            lemma_toks_wf_skip(rem, 5);
                        }
                    },
                    _ => {},
                }
            }
        },
        None => {},
    }
}

/// The grown operand list of a juxtaposition stays serializable.
proof fn lemma_seq_more_wf(toks: Seq<TokV>, acc: Seq<VdsV>)
    requires
        toks_wf(toks),
        forall|k: int| 0 <= k < acc.len() ==> serializable(#[trigger] acc[k]),
    ensures
        match spec_parse_seq_more(toks, acc) {
            Some(r) => r.0.len() >= acc.len() && toks_wf(r.1) && forall|k: int|
                0 <= k < r.0.len() ==> serializable(#[trigger] r.0[k]),
            None => true,
        },
    decreases toks.len(), 2int,
{
    if toks.len() > 0 && atom_start(toks[0]) {
        match spec_parse_primary(toks) {
            None => {},
            Some((v, rem)) => {
                if rem.len() < toks.len() {
                    lemma_primary_wf(toks);
                    assert forall|k: int| 0 <= k < acc.push(v).len() implies serializable(
                        #[trigger] acc.push(v)[k],
                    ) by {
                        if k < acc.len() {
                            assert(acc.push(v)[k] == acc[k]);
                        }
                    }
                    lemma_seq_more_wf(rem, acc.push(v));
                }
            },
        }
    }
}

/// A parsed juxtaposition is serializable, and the remainder stays
/// well-formed.
proof fn lemma_seq_wf(toks: Seq<TokV>)
    requires
        toks_wf(toks),
    ensures
        match spec_parse_seq(toks) {
            Some(r) => serializable(r.0) && toks_wf(r.1),
            None => true,
        },
    decreases toks.len(), 3int,
{
    lemma_primary_wf(toks);
    match spec_parse_primary(toks) {
        None => {},
        Some((v, rem)) => {
            if rem.len() < toks.len() {
                lemma_seq_more_wf(rem, seq![v]);
                match spec_parse_seq_more(rem, seq![v]) {
                    Some((list, rem2)) => {
                        if list.len() != 1 {
                            lemma_serializable_list_intro(list, 0);
                        }
                    },
                    None => {},
                }
            }
        },
    }
}

/// The grown operand list of an `&&` group stays serializable.
proof fn lemma_allof_more_wf(toks: Seq<TokV>, acc: Seq<VdsV>)
    requires
        toks_wf(toks),
        forall|k: int| 0 <= k < acc.len() ==> serializable(#[trigger] acc[k]),
    ensures
        match spec_parse_allof_more(toks, acc) {
            Some(r) => r.0.len() >= acc.len() && toks_wf(r.1) && forall|k: int|
                0 <= k < r.0.len() ==> serializable(#[trigger] r.0[k]),
            None => true,
        },
    decreases toks.len(), 4int,
{
    if toks.len() > 0 && toks[0] == TokV::AmpAmp {
        lemma_toks_wf_skip(toks, 1);
        match spec_parse_seq(toks.skip(1)) {
            None => {},
            Some((v, rem)) => {
                if rem.len() < toks.len() {
                    lemma_seq_wf(toks.skip(1));
                    assert forall|k: int| 0 <= k < acc.push(v).len() implies serializable(
                        #[trigger] acc.push(v)[k],
                    ) by {
                        if k < acc.len() {
                            assert(acc.push(v)[k] == acc[k]);
                        }
                    }
                    lemma_allof_more_wf(rem, acc.push(v));
                }
            },
        }
    }
}

/// A parsed `&&` group is serializable, and the remainder stays
/// well-formed.
proof fn lemma_allof_wf(toks: Seq<TokV>)
    requires
        toks_wf(toks),
    ensures
        match spec_parse_allof(toks) {
            Some(r) => serializable(r.0) && toks_wf(r.1),
            None => true,
        },
    decreases toks.len(), 5int,
{
    lemma_seq_wf(toks);
    match spec_parse_seq(toks) {
        None => {},
        Some((v, rem)) => {
            if rem.len() <= toks.len() {
                lemma_allof_more_wf(rem, seq![v]);
                match spec_parse_allof_more(rem, seq![v]) {
                    Some((list, rem2)) => {
                        if list.len() != 1 {
                            lemma_serializable_list_intro(list, 0);
                        }
                    },
                    None => {},
                }
            }
        },
    }
}

/// The grown operand list of a `||` group stays serializable.
proof fn lemma_oneof_more_wf(toks: Seq<TokV>, acc: Seq<VdsV>)
    requires
        toks_wf(toks),
        forall|k: int| 0 <= k < acc.len() ==> serializable(#[trigger] acc[k]),
    ensures
        match spec_parse_oneof_more(toks, acc) {
            Some(r) => r.0.len() >= acc.len() && toks_wf(r.1) && forall|k: int|
                0 <= k < r.0.len() ==> serializable(#[trigger] r.0[k]),
            None => true,
        },
    decreases toks.len(), 6int,
{
    if toks.len() > 0 && toks[0] == TokV::BarBar {
        lemma_toks_wf_skip(toks, 1);
        match spec_parse_allof(toks.skip(1)) {
            None => {},
            Some((v, rem)) => {
                if rem.len() < toks.len() {
                    lemma_allof_wf(toks.skip(1));
                    assert forall|k: int| 0 <= k < acc.push(v).len() implies serializable(
                        #[trigger] acc.push(v)[k],
                    ) by {
                        if k < acc.len() {
                            assert(acc.push(v)[k] == acc[k]);
                        }
                    }
                    lemma_oneof_more_wf(rem, acc.push(v));
                }
            },
        }
    }
}

/// A parsed `||` group is serializable, and the remainder stays
/// well-formed.
proof fn lemma_oneof_wf(toks: Seq<TokV>)
    requires
        toks_wf(toks),
    ensures
        match spec_parse_oneof(toks) {
            Some(r) => serializable(r.0) && toks_wf(r.1),
            None => true,
        },
    decreases toks.len(), 7int,
{
    lemma_allof_wf(toks);
    match spec_parse_allof(toks) {
        None => {},
        Some((v, rem)) => {
            if rem.len() <= toks.len() {
                lemma_oneof_more_wf(rem, seq![v]);
                match spec_parse_oneof_more(rem, seq![v]) {
                    Some((list, rem2)) => {
                        if list.len() != 1 {
                            lemma_serializable_list_intro(list, 0);
                        }
                    },
                    None => {},
                }
            }
        },
    }
}

/// The grown operand list of a choice stays serializable.
proof fn lemma_choice_more_wf(toks: Seq<TokV>, acc: Seq<VdsV>)
    requires
        toks_wf(toks),
        forall|k: int| 0 <= k < acc.len() ==> serializable(#[trigger] acc[k]),
    ensures
        match spec_parse_choice_more(toks, acc) {
            Some(r) => r.0.len() >= acc.len() && toks_wf(r.1) && forall|k: int|
                0 <= k < r.0.len() ==> serializable(#[trigger] r.0[k]),
            None => true,
        },
    decreases toks.len(), 8int,
{
    if toks.len() > 0 && toks[0] == TokV::Bar {
        lemma_toks_wf_skip(toks, 1);
        match spec_parse_oneof(toks.skip(1)) {
            None => {},
            Some((v, rem)) => {
                if rem.len() < toks.len() {
                    lemma_oneof_wf(toks.skip(1));
                    assert forall|k: int| 0 <= k < acc.push(v).len() implies serializable(
                        #[trigger] acc.push(v)[k],
                    ) by {
                        if k < acc.len() {
                            assert(acc.push(v)[k] == acc[k]);
                        }
                    }
                    lemma_choice_more_wf(rem, acc.push(v));
                }
            },
        }
    }
}

/// A parsed choice is serializable, and the remainder stays well-formed.
proof fn lemma_choice_wf(toks: Seq<TokV>)
    requires
        toks_wf(toks),
    ensures
        match spec_parse_choice(toks) {
            Some(r) => serializable(r.0) && toks_wf(r.1),
            None => true,
        },
    decreases toks.len(), 9int,
{
    lemma_oneof_wf(toks);
    match spec_parse_oneof(toks) {
        None => {},
        Some((v, rem)) => {
            if rem.len() <= toks.len() {
                lemma_choice_more_wf(rem, seq![v]);
                match spec_parse_choice_more(rem, seq![v]) {
                    Some((list, rem2)) => {
                        if list.len() != 1 {
                            lemma_serializable_list_intro(list, 0);
                        }
                    },
                    None => {},
                }
            }
        },
    }
}

/// Every tree the grammar parser accepts has a textual form.
pub proof fn lemma_parse_serializable(s: Seq<u8>)
    ensures
        match spec_parse(s) {
            Some(v) => serializable(v),
            None => true,
        },
{
    match spec_lex(s) {
        Some(toks) => {
            lemma_lex_wf(s);
            lemma_choice_wf(toks);
        },
        None => {},
    }
}

/// Round-trip structure, over every accepted grammar text: re-serializing
/// an accepted tree and re-parsing yields the same tree.
pub proof fn lemma_accepted_round_trip(g: Seq<u8>)
    ensures
        match spec_parse(g) {
            Some(t) => spec_parse(spec_ser(t)) == Some(t),
            None => true,
        },
{
    match spec_parse(g) {
        Some(t) => {
            lemma_parse_serializable(g);
            lemma_parse_no_singletons(g);
            lemma_round_trip(t);
        },
        None => {},
    }
}

} // verus!
