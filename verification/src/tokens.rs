//! The CSS token stream that generated parsers consume: plain token values
//! and a cursor with save/restore backtracking.
//!
//! Tokenization itself is an external concern; the library receives tokens
//! as values.  Numeric values are carried as their raw decimal text, so the
//! core never interprets them.

use vstd::prelude::*;

verus! {

/// One token of a CSS declaration value.
#[derive(Debug, PartialEq, Eq)]
pub enum CssToken {
    /// An identifier.
    Ident(Vec<u8>),
    /// A number with a unit, e.g. `10px`: the raw number text and the unit.
    Dimension { value: Vec<u8>, unit: Vec<u8> },
    /// A percentage: the raw number text before the `%`.
    Percentage(Vec<u8>),
    /// A bare number: its raw text.
    Number(Vec<u8>),
    /// A `#` hash: the bytes after the `#`.
    Hash(Vec<u8>),
    /// A function opening, e.g. `rgb(`: the function name.
    FunctionStart(Vec<u8>),
    /// The `)` that closes a function.
    CloseParen,
    /// A `,` between function arguments.
    Comma,
    /// A `url(...)` value: the URL text.
    Url(Vec<u8>),
    /// Any other single byte.
    Delim(u8),
}

/// A cursor over a token stream.  Every failed parse attempt restores the
/// position it started from; the token list itself never changes.
#[derive(Debug)]
pub struct TokenCursor {
    tokens: Vec<CssToken>,
    pos: usize,
}

impl TokenCursor {
    /// The tokens behind the cursor.
    pub closed spec fn toks(self) -> Seq<CssToken> {
        self.tokens@
    }

    /// The current position.
    pub closed spec fn at(self) -> nat {
        self.pos as nat
    }

    /// The position never passes the end of the tokens.
    pub open spec fn wf(self) -> bool {
        self.at() <= self.toks().len()
    }

    /// A cursor at the start of a token list.
    pub fn new(tokens: Vec<CssToken>) -> (c: TokenCursor)
        ensures
            c.wf(),
            c.toks() == tokens@,
            c.at() == 0,
    {
        TokenCursor { tokens, pos: 0 }
    }

    /// Whether all tokens have been consumed.
    pub fn at_end(&self) -> (r: bool)
        requires
            self.wf(),
        ensures
            r == (self.at() == self.toks().len()),
    {
        self.pos >= self.tokens.len()
    }

    /// The current position, for a later `restore`.
    pub fn save(&self) -> (p: usize)
        ensures
            p as nat == self.at(),
    {
        self.pos
    }

    /// Return to a previously saved position.
    pub fn restore(&mut self, p: usize)
        requires
            old(self).wf(),
            p as nat <= old(self).toks().len(),
        ensures
            final(self).wf(),
            final(self).toks() == old(self).toks(),
            final(self).at() == p as nat,
    {
        self.pos = p;
    }

    /// The token at the cursor, if any; does not advance.
    pub fn peek(&self) -> (r: Option<&CssToken>)
        requires
            self.wf(),
        ensures
            match r {
                Some(t) => self.at() < self.toks().len() && *t == self.toks()[self.at() as int],
                None => self.at() == self.toks().len(),
            },
    {
        if self.pos < self.tokens.len() {
            Some(&self.tokens[self.pos])
        } else {
            None
        }
    }

    /// The token `k` places past the cursor, if any; does not advance.
    pub fn peek_at(&self, k: usize) -> (r: Option<&CssToken>)
        requires
            self.wf(),
        ensures
            match r {
                Some(t) => self.at() + k < self.toks().len() && *t == self.toks()[self.at() + k],
                None => self.at() + k >= self.toks().len(),
            },
    {
        if k < self.tokens.len() - self.pos {
            Some(&self.tokens[self.pos + k])
        } else {
            None
        }
    }

    /// Step over the next `k` tokens.
    pub fn advance_by(&mut self, k: usize)
        requires
            old(self).wf(),
            old(self).at() + k <= old(self).toks().len(),
        ensures
            final(self).wf(),
            final(self).toks() == old(self).toks(),
            final(self).at() == old(self).at() + k,
    {
        let n = self.tokens.len();
        proof {
            assert(self.pos + k <= n);
        }
        self.pos = self.pos + k;
    }

    /// Step over the token at the cursor.
    pub fn advance(&mut self)
        requires
            old(self).wf(),
            old(self).at() < old(self).toks().len(),
        ensures
            final(self).wf(),
            final(self).toks() == old(self).toks(),
            final(self).at() == old(self).at() + 1,
    {
        let n = self.tokens.len();
        proof {
            assert(self.pos < n);
        }
        self.pos = self.pos + 1;
    }
}

} // verus!
