//! The lexer: splits one line of text into identifier, literal, operator
//! and syntax tokens.
use vstd::prelude::*;
use crate::number::is_digit_char;
use vstd::std_specs::vec::spec_vec_len;

verus! {

/// The kind of a literal token.
#[derive(Debug, Clone, Copy, Eq, PartialEq, Structural)]
pub enum LiteralType {
    Number,
    String,
}

/// The kind of a token.
#[derive(Debug, Clone, Copy, Eq, PartialEq, Structural)]
pub enum TokenType {
    Identifier,
    Literal(LiteralType),
    SyntaxToken,
    Operator,
}

/// One token: its kind and its text.
#[derive(Debug)]
pub struct Token {
    pub token_type: TokenType,
    pub content: String,
}

/// The scanning mode the lexer is in after classifying a token's first
/// character.
#[derive(PartialEq, Eq, Structural, Copy, Clone)]
pub enum LexerMode {
    Identifier,
    Literal,
    Number,
    Operator,
}

/// A character no token may start with.
#[derive(Debug)]
pub struct InvalidCharacterError {
    pub character: char,
}

/// Whether the character may appear in an operator glyph.
pub open spec fn is_operator_char(c: char) -> bool {
    c == '+' || c == '-' || c == '*' || c == '/' || c == '=' || c == '@' || c == '&' || c == '%'
        || c == '^' || c == '.' || c == '#' || c == '|'
}

/// Whether the character is a syntax token of its own.
pub open spec fn is_syntax_char(c: char) -> bool {
    c == '{' || c == '}' || c == '[' || c == ']' || c == '(' || c == ')' || c == ';' || c == ':'
        || c == '$'
}

fn operator_char(c: char) -> (r: bool)
    ensures
        r == is_operator_char(c),
{
    c == '+' || c == '-' || c == '*' || c == '/' || c == '=' || c == '@' || c == '&' || c == '%'
        || c == '^' || c == '.' || c == '#' || c == '|'
}

fn syntax_char(c: char) -> (r: bool)
    ensures
        r == is_syntax_char(c),
{
    c == '{' || c == '}' || c == '[' || c == ']' || c == '(' || c == ')' || c == ';' || c == ':'
        || c == '$'
}

fn digit_char(c: char) -> (r: bool)
    ensures
        r == is_digit_char(c),
{
    c == '0' || c == '1' || c == '2' || c == '3' || c == '4' || c == '5' || c == '6' || c == '7'
        || c == '8' || c == '9'
}

/// Whether the character is a unicode letter. Relies on
/// `char::is_alphabetic`, whose result depends on the character alone.
pub uninterp spec fn is_alphabetic_char(c: char) -> bool;

/// Relies on `char::is_alphabetic`: whether the character is a letter.
#[verifier::external_body]
fn alphabetic_char(c: char) -> (r: bool)
    ensures
        r == is_alphabetic_char(c),
{
    c.is_alphabetic()
}

/// Whether the character has the White_Space property: the twenty-five
/// fixed code points that property names.
pub open spec fn is_whitespace_char(c: char) -> bool {
    c == '\u{0009}' || c == '\u{000A}' || c == '\u{000B}' || c == '\u{000C}' || c == '\u{000D}'
        || c == ' ' || c == '\u{0085}' || c == '\u{00A0}' || c == '\u{1680}' || c == '\u{2000}'
        || c == '\u{2001}' || c == '\u{2002}' || c == '\u{2003}' || c == '\u{2004}' || c
        == '\u{2005}' || c == '\u{2006}' || c == '\u{2007}' || c == '\u{2008}' || c == '\u{2009}'
        || c == '\u{200A}' || c == '\u{2028}' || c == '\u{2029}' || c == '\u{202F}' || c
        == '\u{205F}' || c == '\u{3000}'
}

/// Relies on `char::is_whitespace`: true exactly for the characters with
/// the White_Space property, as `is_whitespace_char` enumerates them.
#[verifier::external_body]
fn whitespace_char(c: char) -> (r: bool)
    ensures
        r == is_whitespace_char(c),
{
    c.is_whitespace()
}

/// A well-formed token: a number literal holds nothing but decimal digits,
/// and is never empty.
pub open spec fn token_wf(t: Token) -> bool {
    t.token_type == TokenType::Literal(LiteralType::Number)
        ==> crate::number::all_digits(t.content@) && t.content@.len() > 0
}

/// Whether a character may continue a token scanned in the given mode.
pub open spec fn mode_char(m: LexerMode, c: char) -> bool {
    match m {
        LexerMode::Identifier => is_alphabetic_char(c) || c == '_',
        LexerMode::Number => is_digit_char(c),
        LexerMode::Literal => c != '"',
        LexerMode::Operator => is_operator_char(c),
    }
}

/// Whether some token may start at this character.
pub open spec fn starts_token(c: char) -> bool {
    is_alphabetic_char(c) || c == '_' || is_digit_char(c) || c == '"' || is_operator_char(c)
        || is_syntax_char(c)
}

/// The position of the first non-whitespace character at or after `i`.
pub open spec fn skip_ws(s: Seq<char>, i: int) -> int
    decreases s.len() - i,
{
    if 0 <= i < s.len() && is_whitespace_char(s[i]) {
        skip_ws(s, i + 1)
    } else {
        i
    }
}

/// The end of the maximal run of mode characters beginning at `i`.
pub open spec fn run_end(s: Seq<char>, m: LexerMode, i: int) -> int
    decreases s.len() - i,
{
    if 0 <= i < s.len() && mode_char(m, s[i]) {
        run_end(s, m, i + 1)
    } else {
        i
    }
}

/// Skipping whitespace never moves the position backwards or past the end.
pub proof fn lemma_skip_ws_bounds(s: Seq<char>, i: int)
    requires
        0 <= i <= s.len(),
    ensures
        i <= skip_ws(s, i) <= s.len(),
    decreases s.len() - i,
{
    if i < s.len() && is_whitespace_char(s[i]) {
        lemma_skip_ws_bounds(s, i + 1);
    }
}

/// A run never ends before its start nor past the end.
pub proof fn lemma_run_end_bounds(s: Seq<char>, m: LexerMode, i: int)
    requires
        0 <= i <= s.len(),
    ensures
        i <= run_end(s, m, i) <= s.len(),
    decreases s.len() - i,
{
    if i < s.len() && mode_char(m, s[i]) {
        lemma_run_end_bounds(s, m, i + 1);
    }
}

/// The kind, content and end position of the token beginning at position
/// `j`: the character there classifies it, its content is the maximal run
/// of its class (for a string literal, the text between the quotes), and
/// the end position is just past the consumed characters.
pub open spec fn token_at(s: Seq<char>, j: int) -> (TokenType, Seq<char>, int) {
    if is_alphabetic_char(s[j]) || s[j] == '_' {
        let e = run_end(s, LexerMode::Identifier, j);
        (TokenType::Identifier, s.subrange(j, e), e)
    } else if is_digit_char(s[j]) {
        let e = run_end(s, LexerMode::Number, j);
        (TokenType::Literal(LiteralType::Number), s.subrange(j, e), e)
    } else if s[j] == '"' {
        let e = run_end(s, LexerMode::Literal, j + 1);
        (
            TokenType::Literal(LiteralType::String),
            s.subrange(j + 1, e),
            if e < s.len() {
                e + 1
            } else {
                e
            },
        )
    } else if is_operator_char(s[j]) {
        let e = run_end(s, LexerMode::Operator, j);
        (TokenType::Operator, s.subrange(j, e), e)
    } else {
        (TokenType::SyntaxToken, seq![s[j]], j + 1)
    }
}

/// What one scanned token is: kind, content and final cursor position as
/// `token_at` gives them for the first significant character.
pub open spec fn scanned_token(s: Seq<char>, j: int, t: Token, p1: int) -> bool {
    (if is_alphabetic_char(s[j]) || s[j] == '_' || is_digit_char(s[j]) || s[j] == '"'
        || is_operator_char(s[j]) {
        true
    } else {
        is_syntax_char(s[j])
    }) && t.token_type == token_at(s, j).0 && t.content@ == token_at(s, j).1 && p1 == token_at(
        s,
        j,
    ).2
}

/// A token beginning at `j` ends past `j` and no later than the line's end.
pub proof fn lemma_token_at_bounds(s: Seq<char>, j: int)
    requires
        0 <= j < s.len(),
    ensures
        j < token_at(s, j).2 <= s.len(),
{
    lemma_run_end_bounds(s, LexerMode::Identifier, j);
    lemma_run_end_bounds(s, LexerMode::Number, j);
    lemma_run_end_bounds(s, LexerMode::Operator, j);
    lemma_run_end_bounds(s, LexerMode::Literal, j + 1);
    if is_alphabetic_char(s[j]) || s[j] == '_' {
        assert(mode_char(LexerMode::Identifier, s[j]));
        assert(run_end(s, LexerMode::Identifier, j) == run_end(s, LexerMode::Identifier, j + 1));
        lemma_run_end_bounds(s, LexerMode::Identifier, j + 1);
    } else if is_digit_char(s[j]) {
        assert(run_end(s, LexerMode::Number, j) == run_end(s, LexerMode::Number, j + 1));
        lemma_run_end_bounds(s, LexerMode::Number, j + 1);
    } else if s[j] == '"' {
    } else if is_operator_char(s[j]) {
        assert(run_end(s, LexerMode::Operator, j) == run_end(s, LexerMode::Operator, j + 1));
        lemma_run_end_bounds(s, LexerMode::Operator, j + 1);
    } else {
    }
}

/// The kinds and contents of all tokens of a line from position `i` on:
/// nothing when a character no token starts with is reached first.
pub open spec fn lex_tokens(s: Seq<char>, i: int) -> Option<Seq<(TokenType, Seq<char>)>>
    decreases s.len() - i,
{
    let j0 = skip_ws(s, i);
    let j = if j0 < i {
        i
    } else {
        j0
    };
    if j >= s.len() {
        Some(Seq::empty())
    } else if !starts_token(s[j]) {
        None
    } else {
        let tok = token_at(s, j);
        let e1 = if tok.2 > j {
            tok.2
        } else {
            j + 1
        };
        let e = if e1 > s.len() {
            s.len() as int
        } else {
            e1
        };
        match lex_tokens(s, e) {
            None => None,
            Some(rest) => Some(seq![(tok.0, tok.1)] + rest),
        }
    }
}

/// The kinds and contents of a vector of tokens.
pub open spec fn token_models(ts: Seq<Token>) -> Seq<(TokenType, Seq<char>)> {
    Seq::new(ts.len(), |k: int| ((ts[k].token_type, ts[k].content@)))
}

/// One line of input under the lexer's cursor.
pub struct Line {
    pub chars: Vec<char>,
    pub pos: usize,
}

impl Line {
    /// How many characters are left to scan.
    pub open spec fn remaining(&self) -> int {
        self.chars@.len() - self.pos
    }

    /// The cursor never passes the end of the line.
    pub open spec fn inv(&self) -> bool {
        self.pos <= self.chars@.len()
    }

    /// A cursor at the start of the given line.
    pub fn new(input: &str) -> (r: Line)
        ensures
            r.inv(),
            r.chars@ == input@,
            r.pos == 0,
    {
        let n = input.unicode_len();
        let mut chars: Vec<char> = Vec::new();
        let mut i: usize = 0;
        while i < n
            invariant
                i <= n,
                n == input@.len(),
                chars@ == input@.take(i as int),
            decreases n - i,
        {
            chars.push(input.get_char(i));
            proof {
                assert(input@.take(i + 1) =~= input@.take(i as int).push(input@[i as int]));
            }
            i = i + 1;
        }
        proof {
            assert(input@.take(n as int) =~= input@);
        }
        Line { chars, pos: 0 }
    }

    fn first(&self) -> (r: Option<char>)
        requires
            self.inv(),
        ensures
            match r {
                Some(c) => self.pos < self.chars@.len() && c == self.chars@[self.pos as int],
                None => self.pos == self.chars@.len(),
            },
    {
        if self.pos < self.chars.len() {
            Some(self.chars[self.pos])
        } else {
            None
        }
    }

    fn consume(&mut self)
        requires
            old(self).inv(),
            old(self).pos < old(self).chars@.len(),
        ensures
            final(self).inv(),
            final(self).chars@ == old(self).chars@,
            final(self).pos == old(self).pos + 1,
    {
        proof {
            broadcast use vstd::std_specs::vec::axiom_spec_len;

            assert(spec_vec_len(&self.chars) == self.chars@.len());
        }
        self.pos = self.pos + 1;
    }

    fn discard_whitespaces(&mut self)
        requires
            old(self).inv(),
        ensures
            final(self).inv(),
            final(self).chars@ == old(self).chars@,
            final(self).pos >= old(self).pos,
            final(self).pos == skip_ws(old(self).chars@, old(self).pos as int),
    {
        loop
            invariant
                self.inv(),
                self.chars@ == old(self).chars@,
                self.pos >= old(self).pos,
                skip_ws(self.chars@, self.pos as int) == skip_ws(
                    old(self).chars@,
                    old(self).pos as int,
                ),
            decreases self.remaining(),
        {
            match self.first() {
                Some(c) => {
                    if whitespace_char(c) {
                        self.consume();
                    } else {
                        return ;
                    }
                },
                None => {
                    return ;
                },
            }
        }
    }

    /// Scan the next token, skipping leading whitespace: the first
    /// significant character classifies the token and its content is the
    /// maximal run of that class. Yields nothing exactly when only
    /// whitespace remains, and reports the offending character exactly when
    /// no token starts with the first significant one.
    #[verifier::loop_isolation(false)]
    pub fn advance_token(&mut self) -> (r: Result<Option<Token>, InvalidCharacterError>)
        requires
            old(self).inv(),
        ensures
            final(self).inv(),
            final(self).chars@ == old(self).chars@,
            final(self).pos >= old(self).pos,
            ({
                let s = old(self).chars@;
                let j = skip_ws(s, old(self).pos as int);
                match r {
                    Ok(Some(t)) => j < s.len() && starts_token(s[j]) && scanned_token(
                        s,
                        j,
                        t,
                        final(self).pos as int,
                    ) && token_wf(t) && final(self).pos > old(self).pos,
                    Ok(None) => j == s.len() && final(self).pos == j,
                    Err(ic) => j < s.len() && !starts_token(s[j]) && ic.character == s[j]
                        && final(self).pos == j,
                }
            }),
    {
        self.discard_whitespaces();
        let c0 = match self.first() {
            Some(c) => c,
            None => {
                return Ok(None);
            },
        };
        let ghost start: int = self.pos as int;
        proof {
            lemma_skip_ws_bounds(old(self).chars@, old(self).pos as int);
            assert(self.chars@.subrange(start, start) =~= Seq::<char>::empty());
            assert(self.chars@.subrange(start + 1, start + 1) =~= Seq::<char>::empty());
        }
        let mut content: Vec<char> = Vec::new();
        let mode = if alphabetic_char(c0) || c0 == '_' {
            LexerMode::Identifier
        } else if digit_char(c0) {
            LexerMode::Number
        } else if c0 == '"' {
            self.consume();
            LexerMode::Literal
        } else if operator_char(c0) {
            LexerMode::Operator
        } else if syntax_char(c0) {
            self.consume();
            content.push(c0);
            proof {
                assert(content@ =~= seq![c0]);
            }
            return Ok(
                Some(
                    Token {
                        token_type: TokenType::SyntaxToken,
                        content: crate::text::string_from_chars(&content),
                    },
                ),
            );
        } else {
            return Err(InvalidCharacterError { character: c0 });
        };
        if mode == LexerMode::Identifier {
            // identifier: letters and underscores
            loop
                invariant
                    self.inv(),
                    self.chars@ == old(self).chars@,
                    self.pos >= start,
                    content@.len() == 0 ==> self.pos == start,
                    content@ == self.chars@.subrange(start, self.pos as int),
                    run_end(self.chars@, LexerMode::Identifier, start) == run_end(
                        self.chars@,
                        LexerMode::Identifier,
                        self.pos as int,
                    ),
                decreases self.remaining(),
            {
                match self.first() {
                    Some(c) => {
                        if alphabetic_char(c) || c == '_' {
                            content.push(c);
                            proof {
                                assert(self.chars@.subrange(start, self.pos + 1)
                                    =~= self.chars@.subrange(start, self.pos as int).push(
                                    self.chars@[self.pos as int],
                                ));
                            }
                            self.consume();
                        } else {
                            break ;
                        }
                    },
                    None => {
                        break ;
                    },
                }
            }
            proof {
                assert(run_end(self.chars@, LexerMode::Identifier, self.pos as int)
                    == self.pos as int);
            }
            Ok(
                Some(
                    Token {
                        token_type: TokenType::Identifier,
                        content: crate::text::string_from_chars(&content),
                    },
                ),
            )
        } else if mode == LexerMode::Number {
            // number literal: decimal digits
            loop
                invariant
                    self.inv(),
                    self.chars@ == old(self).chars@,
                    crate::number::all_digits(content@),
                    self.pos >= start,
                    content@.len() == 0 ==> self.pos == start,
                    content@ == self.chars@.subrange(start, self.pos as int),
                    run_end(self.chars@, LexerMode::Number, start) == run_end(
                        self.chars@,
                        LexerMode::Number,
                        self.pos as int,
                    ),
                decreases self.remaining(),
            {
                match self.first() {
                    Some(c) => {
                        if digit_char(c) {
                            content.push(c);
                            proof {
                                assert(self.chars@.subrange(start, self.pos + 1)
                                    =~= self.chars@.subrange(start, self.pos as int).push(
                                    self.chars@[self.pos as int],
                                ));
                            }
                            self.consume();
                        } else {
                            break ;
                        }
                    },
                    None => {
                        break ;
                    },
                }
            }
            proof {
                assert(run_end(self.chars@, LexerMode::Number, self.pos as int) == self.pos as int);
            }
            Ok(
                Some(
                    Token {
                        token_type: TokenType::Literal(LiteralType::Number),
                        content: crate::text::string_from_chars(&content),
                    },
                ),
            )
        } else if mode == LexerMode::Literal {
            // string literal: everything up to the closing quote
            loop
                invariant
                    self.inv(),
                    self.chars@ == old(self).chars@,
                    self.pos > start,
                    content@ == self.chars@.subrange(start + 1, self.pos as int),
                    run_end(self.chars@, LexerMode::Literal, start + 1) == run_end(
                        self.chars@,
                        LexerMode::Literal,
                        self.pos as int,
                    ),
                decreases self.remaining(),
            {
                match self.first() {
                    Some(c) => {
                        if c == '"' {
                            break ;
                        } else {
                            content.push(c);
                            proof {
                                assert(self.chars@.subrange(start + 1, self.pos + 1)
                                    =~= self.chars@.subrange(start + 1, self.pos as int).push(
                                    self.chars@[self.pos as int],
                                ));
                            }
                            self.consume();
                        }
                    },
                    None => {
                        break ;
                    },
                }
            }
            proof {
                assert(run_end(self.chars@, LexerMode::Literal, self.pos as int)
                    == self.pos as int);
            }
            // step past the closing quote, if the line did not end first
            if self.pos < self.chars.len() {
                self.consume();
            }
            Ok(
                Some(
                    Token {
                        token_type: TokenType::Literal(LiteralType::String),
                        content: crate::text::string_from_chars(&content),
                    },
                ),
            )
        } else {
            // operator glyph: a run of operator characters
            loop
                invariant
                    self.inv(),
                    self.chars@ == old(self).chars@,
                    self.pos >= start,
                    content@.len() == 0 ==> self.pos == start,
                    content@ == self.chars@.subrange(start, self.pos as int),
                    run_end(self.chars@, LexerMode::Operator, start) == run_end(
                        self.chars@,
                        LexerMode::Operator,
                        self.pos as int,
                    ),
                decreases self.remaining(),
            {
                match self.first() {
                    Some(c) => {
                        if operator_char(c) {
                            content.push(c);
                            proof {
                                assert(self.chars@.subrange(start, self.pos + 1)
                                    =~= self.chars@.subrange(start, self.pos as int).push(
                                    self.chars@[self.pos as int],
                                ));
                            }
                            self.consume();
                        } else {
                            break ;
                        }
                    },
                    None => {
                        break ;
                    },
                }
            }
            proof {
                assert(run_end(self.chars@, LexerMode::Operator, self.pos as int)
                    == self.pos as int);
            }
            Ok(
                Some(
                    Token {
                        token_type: TokenType::Operator,
                        content: crate::text::string_from_chars(&content),
                    },
                ),
            )
        }
    }
}

/// A cursor over the lines of a source text, handing out one line's tokens
/// at a time.
pub struct SourceCursor {
    pub lines: Vec<String>,
    pub pos: usize,
}

impl SourceCursor {
    /// A cursor at the first of the given lines.
    pub fn new(input: Vec<String>) -> (r: SourceCursor)
        ensures
            r.lines@ == input@,
            r.pos == 0,
    {
        SourceCursor { lines: input, pos: 0 }
    }

    /// The tokens of the next line, in reverse order so a stream can pop
    /// them from the back; nothing when the lines are exhausted; the
    /// offending character when the line holds one no token starts with.
    #[verifier::loop_isolation(false)]
    pub fn tokenize_line(&mut self) -> (r: Option<
        Result<Vec<Token>, InvalidCharacterError>,
    >)
        ensures
            final(self).lines@ == old(self).lines@,
            r is Some <==> old(self).pos < old(self).lines@.len(),
            r is Some ==> final(self).pos == old(self).pos + 1,
            r is None ==> *final(self) == *old(self),
            ({
                let line = if old(self).pos < old(self).lines@.len() {
                    old(self).lines@[old(self).pos as int]@
                } else {
                    Seq::empty()
                };
                match r {
                    Some(Ok(ts)) => lex_tokens(line, 0) is Some && ({
                        let m = lex_tokens(line, 0)->0;
                        &&& ts@.len() == m.len()
                        &&& forall|k: int|
                            0 <= k < ts@.len() ==> (#[trigger] ts@[k]).token_type == m[m.len() - 1
                                - k].0 && ts@[k].content@ == m[m.len() - 1 - k].1
                        &&& forall|k: int| 0 <= k < ts@.len() ==> token_wf(#[trigger] ts@[k])
                    }),
                    Some(Err(_)) => lex_tokens(line, 0) is None,
                    None => true,
                }
            }),
    {
        if self.pos >= self.lines.len() {
            return None;
        }
        let mut line = Line::new(&self.lines[self.pos]);
        let ghost lc = line.chars@;
        self.pos = self.pos + 1;
        let mut tokens: Vec<Token> = Vec::new();
        proof {
            lemma_skip_ws_bounds(lc, 0);
            assert(token_models(tokens@) =~= Seq::<(TokenType, Seq<char>)>::empty());
            if lex_tokens(lc, 0) is Some {
                assert(token_models(tokens@) + lex_tokens(lc, 0)->0 =~= lex_tokens(lc, 0)->0);
            }
        }
        loop
            invariant
                line.inv(),
                line.chars@ == lc,
                forall|i: int| 0 <= i < tokens@.len() ==> token_wf(#[trigger] tokens@[i]),
                lex_tokens(lc, line.pos as int) is Some ==> lex_tokens(lc, 0) is Some && lex_tokens(
                    lc,
                    0,
                )->0 == token_models(tokens@) + lex_tokens(lc, line.pos as int)->0,
                lex_tokens(lc, line.pos as int) is None ==> lex_tokens(lc, 0) is None,
            decreases line.remaining(),
        {
            let ghost p0 = line.pos as int;
            match line.advance_token() {
                Ok(Some(t)) => {
                    proof {
                        let j = skip_ws(lc, p0);
                        lemma_skip_ws_bounds(lc, p0);
                        lemma_token_at_bounds(lc, j);
                        assert(lex_tokens(lc, p0) == (match lex_tokens(lc, line.pos as int) {
                            None => None::<Seq<(TokenType, Seq<char>)>>,
                            Some(rest) => Some(
                                seq![(t.token_type, t.content@)] + rest,
                            ),
                        }));
                        assert(token_models(tokens@.push(t)) =~= token_models(tokens@) + seq![
                            (t.token_type, t.content@),
                        ]);
                        if lex_tokens(lc, line.pos as int) is Some {
                            assert(token_models(tokens@.push(t)) + lex_tokens(
                                lc,
                                line.pos as int,
                            )->0 =~= token_models(tokens@) + lex_tokens(lc, p0)->0);
                        }
                    }
                    tokens.push(t);
                },
                Ok(None) => {
                    proof {
                        assert(lex_tokens(lc, p0) == Some(Seq::<(TokenType, Seq<char>)>::empty()));
                        assert(token_models(tokens@) + Seq::<(TokenType, Seq<char>)>::empty()
                            =~= token_models(tokens@));
                    }
                    break ;
                },
                Err(e) => {
                    proof {
                        let j = skip_ws(lc, p0);
                        lemma_skip_ws_bounds(lc, p0);
                        assert(lex_tokens(lc, p0) is None);
                    }
                    return Some(Err(e));
                },
            }
        }
        // reverse, so that the first token of the line sits at the back
        let ghost collected = tokens@;
        let mut rev: Vec<Token> = Vec::new();
        while tokens.len() > 0
            invariant
                tokens@ == collected.take(tokens@.len() as int),
                rev@.len() + tokens@.len() == collected.len(),
                forall|i: int| 0 <= i < collected.len() ==> token_wf(#[trigger] collected[i]),
                forall|i: int| 0 <= i < rev@.len() ==> #[trigger] rev@[i] == collected[collected.len()
                    - 1 - i],
            decreases tokens.len(),
        {
            proof {
                assert(tokens@.last() == collected[tokens@.len() - 1]);
                assert(tokens@.drop_last() =~= collected.take(tokens@.len() - 1));
            }
            let t = tokens.pop().unwrap();
            rev.push(t);
        }
        proof {
            let m = token_models(collected);
            assert forall|k: int| 0 <= k < rev@.len() implies (#[trigger] rev@[k]).token_type == m[
            m.len() - 1 - k].0 && rev@[k].content@ == m[m.len() - 1 - k].1 by {
                assert(rev@[k] == collected[collected.len() - 1 - k]);
            }
            assert forall|k: int| 0 <= k < rev@.len() implies token_wf(#[trigger] rev@[k]) by {
                assert(rev@[k] == collected[collected.len() - 1 - k]);
            }
        }
        Some(Ok(rev))
    }
}

} // verus!
