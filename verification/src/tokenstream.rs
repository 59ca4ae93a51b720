//! A stream over one line's tokens, held in reverse so the next token is
//! popped from the back.
use vstd::prelude::*;
use crate::lexer::Token;
use crate::lexer::token_wf;

verus! {

/// The tokens of one line, last-to-first.
pub struct TokenStream {
    pub tokens: Vec<Token>,
}

impl TokenStream {
    /// A stream over the given tokens.
    pub fn new(line: Vec<Token>) -> (r: TokenStream)
        ensures
            r.tokens@ == line@,
    {
        TokenStream { tokens: line }
    }

    /// The next token, without consuming it.
    pub fn peek(&self) -> (r: Option<&Token>)
        ensures
            match r {
                Some(t) => self.tokens@.len() > 0 && *t == self.tokens@.last(),
                None => self.tokens@.len() == 0,
            },
    {
        self.tokens.last()
    }

    /// The next token, consumed from the stream.
    pub fn next(&mut self) -> (r: Option<Token>)
        ensures
            match r {
                Some(t) => old(self).tokens@.len() > 0 && t == old(self).tokens@.last()
                    && final(self).tokens@ == old(self).tokens@.drop_last(),
                None => old(self).tokens@.len() == 0 && final(self).tokens@ == old(self).tokens@,
            },
    {
        self.tokens.pop()
    }

    /// Every token of the stream is well-formed.
    pub open spec fn wf(&self) -> bool {
        forall|i: int| 0 <= i < self.tokens@.len() ==> token_wf(#[trigger] self.tokens@[i])
    }
}

} // verus!
