//! The parser: recursive descent over one line's token stream, building the
//! expression tree the runtime evaluates.
use vstd::prelude::*;
use crate::lexer::InvalidCharacterError;
use crate::lexer::LiteralType;
use crate::lexer::SourceCursor;
use crate::lexer::Token;
use crate::lexer::TokenType;
use crate::lexer::token_wf;
use crate::operation::Modifier;
use crate::tokenstream::TokenStream;

verus! {

/// An operator glyph with its parsed modifiers.
#[derive(Debug)]
pub struct Operator {
    pub name: String,
    pub modifiers: Modifier,
}

/// A variable or function name.
#[derive(Debug)]
pub struct Identifier {
    pub name: String,
}

/// A number literal, already read into an arbitrary-precision integer.
#[derive(Debug)]
pub struct Number {
    pub value: crate::number::Number,
}

/// A lambda: a body addressing its arguments positionally.
#[derive(Debug)]
pub struct Lambda {
    pub body: Box<Expr>,
}

/// A positional reference to an enclosing lambda's argument.
#[derive(Debug)]
pub struct Arg {
    pub index: usize,
}

/// The closed set of expression-tree nodes.
#[derive(Debug)]
pub enum Expr {
    Binary(Operator, Box<Expr>, Box<Expr>),
    Unary(Operator, Box<Expr>),
    Function(Identifier),
    Variable(Identifier),
    Number(Number),
    Array(Vec<Expr>),
    Lambda(Lambda),
    Call(Box<Expr>, Box<Expr>),
    Argument(Arg),
}

/// Every number literal inside the expression is well-formed.
pub open spec fn expr_wf(e: Expr) -> bool
    decreases e, 0int,
{
    match e {
        Expr::Binary(_, l, r) => expr_wf(*l) && expr_wf(*r),
        Expr::Unary(_, x) => expr_wf(*x),
        Expr::Function(_) => true,
        Expr::Variable(_) => true,
        Expr::Number(n) => n.value.wf(),
        Expr::Array(es) => exprs_wf(es@),
        Expr::Lambda(l) => expr_wf(*l.body),
        Expr::Call(f, a) => expr_wf(*f) && expr_wf(*a),
        Expr::Argument(_) => true,
    }
}

/// Every number literal inside each expression is well-formed.
pub open spec fn exprs_wf(s: Seq<Expr>) -> bool
    decreases s, 1int,
{
    if s.len() == 0 {
        true
    } else {
        expr_wf(s[0]) && exprs_wf(s.drop_first())
    }
}

/// Well-formedness of a sequence of expressions is well-formedness of each.
pub proof fn lemma_exprs_wf(s: Seq<Expr>)
    ensures
        exprs_wf(s) <==> (forall|i: int| 0 <= i < s.len() ==> expr_wf(#[trigger] s[i])),
    decreases s.len(),
{
    if s.len() > 0 {
        lemma_exprs_wf(s.drop_first());
        if expr_wf(s[0]) && exprs_wf(s.drop_first()) {
            assert forall|i: int| 0 <= i < s.len() implies expr_wf(#[trigger] s[i]) by {
                if i > 0 {
                    assert(expr_wf(s.drop_first()[i - 1]));
                }
            }
        }
        if forall|i: int| 0 <= i < s.len() ==> expr_wf(#[trigger] s[i]) {
            assert forall|i: int|
                0 <= i < s.drop_first().len() implies expr_wf(#[trigger] s.drop_first()[i]) by {
                assert(expr_wf(s[i + 1]));
            }
        }
    }
}

/// Why the parser rejected a line.
#[derive(Debug)]
pub enum ParserError {
    InvalidTokenType(InvalidTokenTypeError),
    MissingToken(MissingTokenError),
    UnexpectedEndOfLine(UnexpectedEndOfLineError),
    InvalidCharacter(InvalidCharacterError),
}

/// A token of the wrong kind stood where one of the expected kinds was
/// required.
#[derive(Debug)]
pub struct InvalidTokenTypeError {
    pub expected: Vec<TokenType>,
    pub found: TokenType,
}

impl InvalidTokenTypeError {
    /// An error recording the expected kinds and the kind found.
    pub fn new(expected: Vec<TokenType>, found: TokenType) -> (r: Self)
        ensures
            r.expected@ == expected@,
            r.found == found,
    {
        Self { expected, found }
    }
}

/// A required token was absent.
#[derive(Debug)]
pub struct MissingTokenError {
    pub expected: Vec<TokenType>,
}

impl MissingTokenError {
    /// An error recording the expected kinds.
    pub fn new(expected: Vec<TokenType>) -> (r: Self)
        ensures
            r.expected@ == expected@,
    {
        Self { expected }
    }
}

/// The line ended where a term was required.
#[derive(Debug)]
pub struct UnexpectedEndOfLineError;


/// Mathematical model of an expression tree: names as character sequences,
/// literals as integers.
pub enum ExprS {
    Binary(Seq<char>, Modifier, Box<ExprS>, Box<ExprS>),
    Unary(Seq<char>, Modifier, Box<ExprS>),
    Function(Seq<char>),
    Variable(Seq<char>),
    Number(int),
    Array(Seq<ExprS>),
    Lambda(Box<ExprS>),
    Call(Box<ExprS>, Box<ExprS>),
    Argument(int),
}

/// The model of an expression.
pub open spec fn expr_model(e: Expr) -> ExprS
    decreases e, 0int,
{
    match e {
        Expr::Binary(op, l, r) => ExprS::Binary(
            op.name@,
            op.modifiers,
            Box::new(expr_model(*l)),
            Box::new(expr_model(*r)),
        ),
        Expr::Unary(op, x) => ExprS::Unary(op.name@, op.modifiers, Box::new(expr_model(*x))),
        Expr::Function(id) => ExprS::Function(id.name@),
        Expr::Variable(id) => ExprS::Variable(id.name@),
        Expr::Number(n) => ExprS::Number(n.value.ival()),
        Expr::Array(es) => ExprS::Array(exprs_model(es@)),
        Expr::Lambda(l) => ExprS::Lambda(Box::new(expr_model(*l.body))),
        Expr::Call(f, a) => ExprS::Call(Box::new(expr_model(*f)), Box::new(expr_model(*a))),
        Expr::Argument(a) => ExprS::Argument(a.index as int),
    }
}

/// The models of a sequence of expressions.
pub open spec fn exprs_model(s: Seq<Expr>) -> Seq<ExprS>
    decreases s, 1int,
{
    Seq::new(
        s.len(),
        |i: int|
            if 0 <= i < s.len() {
                expr_model(s[i])
            } else {
                ExprS::Number(0)
            },
    )
}

/// Whether the next token of the stream (its last element) has this kind.
pub open spec fn peek_ty(ts: Seq<Token>, tt: TokenType) -> bool {
    ts.len() > 0 && ts.last().token_type == tt
}

/// Whether the next token has this kind and this content.
pub open spec fn peek_tc(ts: Seq<Token>, tt: TokenType, c: Seq<char>) -> bool {
    ts.len() > 0 && ts.last().token_type == tt && ts.last().content@ == c
}

/// The result of parsing: a model tree and the unconsumed tokens, or a
/// failure.
pub enum ParseOut {
    Done(ExprS, Seq<Token>),
    Fail,
}

/// The result of parsing a bracketed list of terms.
pub enum ParseListOut {
    Done(Seq<ExprS>, Seq<Token>),
    Fail,
}

/// A stream bounded by another: itself when already strictly shorter. Every
/// parsing step consumes, so this changes nothing on reachable arguments;
/// it makes the recursion of the grammar functions visibly well-founded.
pub open spec fn shrink(rem: Seq<Token>, bound: Seq<Token>) -> Seq<Token> {
    if rem.len() < bound.len() {
        rem
    } else {
        bound.drop_last()
    }
}

/// The modifier set a suffix denotes: `*` the table flag, `|` the flip flag.
pub open spec fn modifier_of(mc: Seq<char>) -> Modifier {
    Modifier { table: mc.contains('*'), flip: mc.contains('|') }
}

/// The operator glyph, its modifiers and the rest of the stream: the glyph
/// token, then optionally a `:` and one modifier token.
pub open spec fn p_operator(ts: Seq<Token>) -> (Seq<char>, Modifier, Seq<Token>) {
    if ts.len() == 0 {
        (Seq::empty(), Modifier { flip: false, table: false }, ts)
    } else {
        let name = ts.last().content@;
        let ts1 = ts.drop_last();
        if peek_tc(ts1, TokenType::SyntaxToken, ":"@) {
            let ts2 = ts1.drop_last();
            if ts2.len() > 0 {
                (name, modifier_of(ts2.last().content@), ts2.drop_last())
            } else {
                (name, Modifier { flip: false, table: false }, ts2)
            }
        } else {
            (name, Modifier { flip: false, table: false }, ts1)
        }
    }
}

/// Parse an expression: a term, then, when an operator follows, that
/// operator and the whole remaining expression as the right operand — so
/// chains of binary operators group to the right, with no precedence.
pub open spec fn p_expr(ts: Seq<Token>) -> ParseOut
    decreases ts.len(), 2int,
{
    if ts.len() == 0 {
        ParseOut::Fail
    } else {
        match p_term(ts) {
            ParseOut::Fail => ParseOut::Fail,
            ParseOut::Done(lhs, rem0) => {
                if peek_ty(rem0, TokenType::Operator) {
                    let opr = p_operator(rem0);
                    match p_expr(shrink(opr.2, ts)) {
                        ParseOut::Fail => ParseOut::Fail,
                        ParseOut::Done(rhs, rem2) => ParseOut::Done(
                            ExprS::Binary(opr.0, opr.1, Box::new(lhs), Box::new(rhs)),
                            rem2,
                        ),
                    }
                } else {
                    ParseOut::Done(lhs, rem0)
                }
            },
        }
    }
}

/// Parse one term of an expression.
pub open spec fn p_term(ts: Seq<Token>) -> ParseOut
    decreases ts.len(), 1int,
{
    if ts.len() == 0 {
        ParseOut::Fail
    } else {
        let t = ts.last();
        let ts1 = ts.drop_last();
        if t.token_type == TokenType::Identifier {
            if peek_tc(ts1, TokenType::SyntaxToken, ":"@) {
                match p_expr(ts1.drop_last()) {
                    ParseOut::Fail => ParseOut::Fail,
                    ParseOut::Done(arg, rem) => ParseOut::Done(
                        ExprS::Call(
                            Box::new(ExprS::Function(t.content@)),
                            Box::new(arg),
                        ),
                        rem,
                    ),
                }
            } else {
                ParseOut::Done(ExprS::Variable(t.content@), ts1)
            }
        } else if t.token_type == TokenType::Literal(LiteralType::Number) {
            ParseOut::Done(ExprS::Number(crate::number::digits_val(t.content@)), ts1)
        } else if peek_tc(ts, TokenType::SyntaxToken, "("@) {
            match p_expr(ts1) {
                ParseOut::Fail => ParseOut::Fail,
                ParseOut::Done(e, rem) => {
                    let rem2 = if peek_tc(rem, TokenType::SyntaxToken, ")"@) {
                        rem.drop_last()
                    } else {
                        rem
                    };
                    ParseOut::Done(e, rem2)
                },
            }
        } else if peek_tc(ts, TokenType::SyntaxToken, "["@) {
            match p_items(ts1) {
                ParseListOut::Fail => ParseOut::Fail,
                ParseListOut::Done(es, rem) => ParseOut::Done(ExprS::Array(es), rem),
            }
        } else if t.token_type == TokenType::Operator {
            let opr = p_operator(ts);
            match p_expr(shrink(opr.2, ts)) {
                ParseOut::Fail => ParseOut::Fail,
                ParseOut::Done(x, rem) => ParseOut::Done(
                    ExprS::Unary(opr.0, opr.1, Box::new(x)),
                    rem,
                ),
            }
        } else if peek_tc(ts, TokenType::SyntaxToken, "$"@) {
            if peek_ty(ts1, TokenType::Identifier) {
                let ident = ts1.last().content@;
                let ts2 = ts1.drop_last();
                if peek_tc(ts2, TokenType::SyntaxToken, ":"@) {
                    match p_expr(shrink(ts2.drop_last(), ts)) {
                        ParseOut::Fail => ParseOut::Fail,
                        ParseOut::Done(arg, rem) => ParseOut::Done(
                            ExprS::Call(Box::new(ExprS::Function(ident)), Box::new(arg)),
                            rem,
                        ),
                    }
                } else {
                    ParseOut::Done(ExprS::Function(ident), ts2)
                }
            } else if peek_tc(ts1, TokenType::SyntaxToken, ":"@) {
                match p_term(shrink(ts1.drop_last(), ts)) {
                    ParseOut::Fail => ParseOut::Fail,
                    ParseOut::Done(body, rem) => {
                        if peek_tc(rem, TokenType::SyntaxToken, ":"@) {
                            match p_expr(shrink(rem.drop_last(), ts)) {
                                ParseOut::Fail => ParseOut::Fail,
                                ParseOut::Done(arg, rem2) => ParseOut::Done(
                                    ExprS::Call(
                                        Box::new(ExprS::Lambda(Box::new(body))),
                                        Box::new(arg),
                                    ),
                                    rem2,
                                ),
                            }
                        } else {
                            ParseOut::Done(ExprS::Lambda(Box::new(body)), rem)
                        }
                    },
                }
            } else if peek_ty(ts1, TokenType::Literal(LiteralType::Number)) {
                let v = crate::number::digits_val(ts1.last().content@);
                if v <= usize::MAX {
                    ParseOut::Done(ExprS::Argument(v), ts1.drop_last())
                } else {
                    ParseOut::Fail
                }
            } else {
                ParseOut::Fail
            }
        } else {
            ParseOut::Fail
        }
    }
}

/// Parse the terms of a bracketed list, up to and including the closing
/// bracket.
pub open spec fn p_items(ts: Seq<Token>) -> ParseListOut
    decreases ts.len(), 2int,
{
    if ts.len() == 0 {
        ParseListOut::Fail
    } else if peek_tc(ts, TokenType::SyntaxToken, "]"@) {
        ParseListOut::Done(Seq::empty(), ts.drop_last())
    } else {
        match p_term(ts) {
            ParseOut::Fail => ParseListOut::Fail,
            ParseOut::Done(e, rem) => match p_items(shrink(rem, ts)) {
                ParseListOut::Fail => ParseListOut::Fail,
                ParseListOut::Done(rest, rem2) => ParseListOut::Done(seq![e] + rest, rem2),
            },
        }
    }
}

/// Whether two strings hold the same characters.
pub fn str_equal(a: &str, b: &str) -> (r: bool)
    ensures
        r == (a@ == b@),
{
    let na = a.unicode_len();
    let nb = b.unicode_len();
    if na != nb {
        proof {
            assert(a@ != b@);
        }
        return false;
    }
    let mut i: usize = 0;
    while i < na
        invariant
            i <= na,
            na == a@.len(),
            na == b@.len(),
            forall|j: int| 0 <= j < i ==> a@[j] == b@[j],
        decreases na - i,
    {
        if a.get_char(i) != b.get_char(i) {
            proof {
                assert(a@[i as int] != b@[i as int]);
            }
            return false;
        }
        i = i + 1;
    }
    proof {
        assert(a@ =~= b@);
    }
    true
}

/// The machine word a string of decimal digits denotes, when it fits;
/// nothing when the value is too large for a machine word.
#[verifier::loop_isolation(false)]
fn digits_to_usize(s: &str) -> (r: Option<usize>)
    requires
        crate::number::all_digits(s@),
    ensures
        r is Some ==> r->0 == crate::number::digits_val(s@),
        r is None ==> crate::number::digits_val(s@) > usize::MAX,
{
    let n = s.unicode_len();
    let mut acc: usize = 0;
    let mut i: usize = 0;
    while i < n
        invariant
            i <= n,
            n == s@.len(),
            acc == crate::number::digits_val(s@.take(i as int)),
        decreases n - i,
    {
        let c = s.get_char(i);
        proof {
            assert(crate::number::is_digit_char(s@[i as int]));
        }
        let d: usize = if c == '0' {
            0
        } else if c == '1' {
            1
        } else if c == '2' {
            2
        } else if c == '3' {
            3
        } else if c == '4' {
            4
        } else if c == '5' {
            5
        } else if c == '6' {
            6
        } else if c == '7' {
            7
        } else if c == '8' {
            8
        } else {
            9
        };
        proof {
            assert(s@.take(i + 1).drop_last() =~= s@.take(i as int));
            assert(s@.take(i + 1).last() == s@[i as int]);
        }
        let scaled = match acc.checked_mul(10) {
            Some(v) => v,
            None => {
                proof {
                    crate::number::lemma_digits_prefix_le(s@, i + 1);
                }
                return None;
            },
        };
        let bumped = match scaled.checked_add(d) {
            Some(v) => v,
            None => {
                proof {
                    crate::number::lemma_digits_prefix_le(s@, i + 1);
                }
                return None;
            },
        };
        acc = bumped;
        i = i + 1;
    }
    proof {
        assert(s@.take(n as int) =~= s@);
    }
    Some(acc)
}

/// The modifier set a suffix string denotes: `*` sets the table flag, `|`
/// the flip flag, and every other character is ignored.
pub fn parse_modifier(m: &str) -> (r: Modifier)
    ensures
        r.table == m@.contains('*'),
        r.flip == m@.contains('|'),
{
    let n = m.unicode_len();
    let mut table: bool = false;
    let mut flip: bool = false;
    let mut i: usize = 0;
    while i < n
        invariant
            i <= n,
            n == m@.len(),
            table == m@.take(i as int).contains('*'),
            flip == m@.take(i as int).contains('|'),
        decreases n - i,
    {
        let c = m.get_char(i);
        proof {
            assert(m@.take(i + 1) =~= m@.take(i as int).push(m@[i as int]));
            if m@.take(i as int).contains('*') {
                let w = choose|k: int| 0 <= k < i && #[trigger] m@.take(i as int)[k] == '*';
                assert(m@.take(i + 1)[w] == '*');
            }
            if m@.take(i as int).contains('|') {
                let w = choose|k: int| 0 <= k < i && #[trigger] m@.take(i as int)[k] == '|';
                assert(m@.take(i + 1)[w] == '|');
            }
            if c == '*' {
                assert(m@.take(i + 1)[i as int] == '*');
            }
            if c == '|' {
                assert(m@.take(i + 1)[i as int] == '|');
            }
            if !(m@.take(i as int).contains('*')) && c != '*' && m@.take(i + 1).contains('*') {
                let w = choose|k: int| 0 <= k < i + 1 && #[trigger] m@.take(i + 1)[k] == '*';
                assert(m@.take(i as int)[w] == '*');
            }
            if !(m@.take(i as int).contains('|')) && c != '|' && m@.take(i + 1).contains('|') {
                let w = choose|k: int| 0 <= k < i + 1 && #[trigger] m@.take(i + 1)[k] == '|';
                assert(m@.take(i as int)[w] == '|');
            }
        }
        if c == '*' {
            table = true;
        } else if c == '|' {
            flip = true;
        }
        i = i + 1;
    }
    proof {
        assert(m@.take(n as int) =~= m@);
    }
    Modifier { table, flip }
}

/// The parser over a source of lines.
pub struct Parser {
    pub source: SourceCursor,
}

/// One line's tokens under the parser.
pub struct Line {
    pub token_stream: TokenStream,
}

impl Parser {
    /// A parser over the given source.
    pub fn new(source: SourceCursor) -> (r: Self)
        ensures
            r.source == source,
    {
        Self { source }
    }

    /// Parse the next line into an expression tree: nothing exactly when
    /// the input is exhausted; otherwise the tree built by the grammar from
    /// exactly that line's tokens, or the reason the line was rejected.
    pub fn parse_expr(&mut self) -> (r: Option<Result<Expr, ParserError>>)
        ensures
            r is Some <==> old(self).source.pos < old(self).source.lines@.len(),
            ({
                let line = if old(self).source.pos < old(self).source.lines@.len() {
                    old(self).source.lines@[old(self).source.pos as int]@
                } else {
                    Seq::empty()
                };
                match r {
                    Some(Ok(e)) => expr_wf(e) && crate::lexer::lex_tokens(line, 0) is Some
                        && (exists|ts: Seq<Token>|
                        #[trigger] crate::lexer::token_models(ts) == crate::lexer::lex_tokens(
                            line,
                            0,
                        )->0.reverse() && p_expr(ts) is Done && p_expr(ts)->Done_0 == expr_model(
                            e,
                        )),
                    Some(Err(_)) => crate::lexer::lex_tokens(line, 0) is None || (exists|
                        ts: Seq<Token>,
                    |
                        #[trigger] crate::lexer::token_models(ts) == crate::lexer::lex_tokens(
                            line,
                            0,
                        )->0.reverse() && p_expr(ts) is Fail),
                    None => true,
                }
            }),
    {
        let ghost line_chars = if self.source.pos < self.source.lines@.len() {
            self.source.lines@[self.source.pos as int]@
        } else {
            Seq::empty()
        };
        let tokens = match self.source.tokenize_line() {
            None => {
                return None;
            },
            Some(Ok(ts)) => ts,
            Some(Err(e)) => {
                return Some(Err(ParserError::InvalidCharacter(e)));
            },
        };
        let ghost tsv = tokens@;
        proof {
            let m = crate::lexer::lex_tokens(line_chars, 0)->0;
            assert(crate::lexer::token_models(tsv) =~= m.reverse());
        }
        let token_stream = TokenStream::new(tokens);
        let mut line = Line::new(token_stream);
        let out = line.parse_expr();
        proof {
            assert(crate::lexer::token_models(tsv) == crate::lexer::lex_tokens(
                line_chars,
                0,
            )->0.reverse());
        }
        Some(out)
    }
}

impl Line {
    /// A line over the given token stream.
    pub fn new(token_stream: TokenStream) -> (r: Self)
        ensures
            r.token_stream.tokens@ == token_stream.tokens@,
    {
        Self { token_stream }
    }

    /// The number of tokens left.
    pub open spec fn len(&self) -> int {
        self.token_stream.tokens@.len() as int
    }

    fn consume_with_content(&mut self, tt: TokenType, content: &str) -> (r: bool)
        ensures
            old(self).token_stream.wf() ==> final(self).token_stream.wf(),
            r == peek_tc(old(self).token_stream.tokens@, tt, content@),
            r ==> final(self).token_stream.tokens@ == old(self).token_stream.tokens@.drop_last(),
            !r ==> *final(self) == *old(self),
    {
        let matching = match self.token_stream.peek() {
            Some(t) => t.token_type == tt && str_equal(&t.content, content),
            None => false,
        };
        if matching {
            self.token_stream.next();
        }
        matching
    }

    fn expect(&self, tt: TokenType) -> (r: bool)
        ensures
            r == peek_ty(self.token_stream.tokens@, tt),
    {
        match self.token_stream.peek() {
            Some(t) => t.token_type == tt,
            None => false,
        }
    }

    fn expect_with_content(&self, tt: TokenType, content: &str) -> (r: bool)
        ensures
            r == peek_tc(self.token_stream.tokens@, tt, content@),
    {
        match self.token_stream.peek() {
            Some(t) => t.token_type == tt && str_equal(&t.content, content),
            None => false,
        }
    }

    /// Parse a whole expression: a term, then, when an operator follows,
    /// that operator and the whole remaining expression as the right
    /// operand — chains of binary operators group to the right.
    pub fn parse_expr(&mut self) -> (r: Result<Expr, ParserError>)
        requires
            old(self).token_stream.wf(),
        ensures
            final(self).token_stream.wf(),
            final(self).len() <= old(self).len(),
            match r {
                Ok(e) => expr_wf(e) && final(self).len() < old(self).len() && p_expr(
                    old(self).token_stream.tokens@,
                ) == ParseOut::Done(expr_model(e), final(self).token_stream.tokens@),
                Err(_) => p_expr(old(self).token_stream.tokens@) is Fail,
            },
        decreases old(self).len(), 1int,
    {
        let ghost ts0 = self.token_stream.tokens@;
        let lhs = self.parse_term()?;
        if self.expect(TokenType::Operator) {
            let ghost rem0 = self.token_stream.tokens@;
            let op = self.parse_operator();
            proof {
                assert(shrink(p_operator(rem0).2, ts0) == p_operator(rem0).2);
            }
            let rhs = match self.parse_expr() {
                Ok(rhs) => rhs,
                Err(e) => {
                    return Err(e);
                },
            };
            let result = Expr::Binary(op, Box::new(lhs), Box::new(rhs));
            proof {
                reveal_with_fuel(expr_model, 2);
            }
            return Ok(result);
        }
        Ok(lhs)
    }

    /// Parse one term of an expression.
    #[verifier::loop_isolation(false)]
    fn parse_term(&mut self) -> (r: Result<Expr, ParserError>)
        requires
            old(self).token_stream.wf(),
        ensures
            final(self).token_stream.wf(),
            final(self).len() <= old(self).len(),
            match r {
                Ok(e) => expr_wf(e) && final(self).len() < old(self).len() && p_term(
                    old(self).token_stream.tokens@,
                ) == ParseOut::Done(expr_model(e), final(self).token_stream.tokens@),
                Err(_) => p_term(old(self).token_stream.tokens@) is Fail,
            },
        decreases old(self).len(), 0int,
    {
        let ghost ts0 = self.token_stream.tokens@;
        proof {
            reveal_with_fuel(expr_model, 3);
        }
        if self.expect(TokenType::Identifier) {
            let t = match self.token_stream.next() {
                Some(t) => t,
                None => {
                    return Err(ParserError::UnexpectedEndOfLine(UnexpectedEndOfLineError));
                },
            };
            let ident = Identifier { name: t.content };
            if self.consume_with_content(TokenType::SyntaxToken, ":") {
                let argument = self.parse_expr()?;
                let callee = Expr::Function(ident);
                proof {
                    assert(expr_wf(callee));
                }
                Ok(Expr::Call(Box::new(callee), Box::new(argument)))
            } else {
                Ok(Expr::Variable(ident))
            }
        } else if self.expect(TokenType::Literal(LiteralType::Number)) {
            self.parse_number_literal()
        } else if self.consume_with_content(TokenType::SyntaxToken, "(") {
            let expr = self.parse_expr();
            self.consume_with_content(TokenType::SyntaxToken, ")");
            expr
        } else if self.consume_with_content(TokenType::SyntaxToken, "[") {
            let ghost ts_start = self.token_stream.tokens@;
            let mut array: Vec<Expr> = Vec::new();
            proof {
                assert(exprs_model(array@) =~= Seq::<ExprS>::empty());
                if p_items(ts_start) is Done {
                    assert(exprs_model(array@) + p_items(ts_start)->Done_0 =~= p_items(
                        ts_start,
                    )->Done_0);
                }
            }
            while !self.expect_with_content(TokenType::SyntaxToken, "]")
                invariant
                    self.token_stream.wf(),
                    self.len() < old(self).len(),
                    forall|j: int| 0 <= j < array@.len() ==> expr_wf(#[trigger] array@[j]),
                    p_items(self.token_stream.tokens@) is Done ==> p_items(ts_start) is Done
                        && p_items(ts_start)->Done_0 == exprs_model(array@) + p_items(
                        self.token_stream.tokens@,
                    )->Done_0 && p_items(ts_start)->Done_1 == p_items(
                        self.token_stream.tokens@,
                    )->Done_1,
                    p_items(self.token_stream.tokens@) is Fail ==> p_items(ts_start) is Fail,
                decreases self.len(),
            {
                let ghost cur = self.token_stream.tokens@;
                let e = match self.parse_term() {
                    Ok(e) => e,
                    Err(err) => {
                        proof {
                            assert(p_items(cur) is Fail);
                        }
                        return Err(err);
                    },
                };
                proof {
                    assert(cur.len() > 0);
                    assert(shrink(self.token_stream.tokens@, cur) == self.token_stream.tokens@);
                    assert(exprs_model(array@.push(e)) =~= exprs_model(array@).push(expr_model(e)));
                    if p_items(self.token_stream.tokens@) is Done {
                        assert(exprs_model(array@.push(e)) + p_items(
                            self.token_stream.tokens@,
                        )->Done_0 =~= exprs_model(array@) + (seq![expr_model(e)] + p_items(
                            self.token_stream.tokens@,
                        )->Done_0));
                    }
                }
                array.push(e);
            }
            let ghost cur = self.token_stream.tokens@;
            self.consume_with_content(TokenType::SyntaxToken, "]");
            proof {
                lemma_exprs_wf(array@);
                assert(p_items(cur) == ParseListOut::Done(Seq::<ExprS>::empty(), cur.drop_last()));
                assert(exprs_model(array@) + Seq::<ExprS>::empty() =~= exprs_model(array@));
            }
            Ok(Expr::Array(array))
        } else if self.expect(TokenType::Operator) {
            let op = self.parse_operator();
            proof {
                assert(shrink(p_operator(ts0).2, ts0) == p_operator(ts0).2);
            }
            let expr = self.parse_expr()?;
            Ok(Expr::Unary(op, Box::new(expr)))
        } else if self.consume_with_content(TokenType::SyntaxToken, "$") {
            if self.expect(TokenType::Identifier) {
                let ident = match self.parse_identifier() {
                    Ok(i) => i,
                    Err(e) => {
                        return Err(ParserError::InvalidTokenType(e));
                    },
                };
                if self.consume_with_content(TokenType::SyntaxToken, ":") {
                    proof {
                        assert(shrink(self.token_stream.tokens@, ts0)
                            == self.token_stream.tokens@);
                    }
                    let argument = self.parse_expr()?;
                    let callee = Expr::Function(ident);
                    proof {
                        assert(expr_wf(callee));
                    }
                    Ok(Expr::Call(Box::new(callee), Box::new(argument)))
                } else {
                    Ok(Expr::Function(ident))
                }
            } else if self.consume_with_content(TokenType::SyntaxToken, ":") {
                proof {
                    assert(shrink(self.token_stream.tokens@, ts0) == self.token_stream.tokens@);
                }
                let function = self.parse_term()?;
                if self.consume_with_content(TokenType::SyntaxToken, ":") {
                    proof {
                        assert(shrink(self.token_stream.tokens@, ts0)
                            == self.token_stream.tokens@);
                    }
                    let expr = self.parse_expr()?;
                    let callee = Expr::Lambda(Lambda { body: Box::new(function) });
                    proof {
                        assert(expr_wf(callee));
                    }
                    Ok(Expr::Call(Box::new(callee), Box::new(expr)))
                } else {
                    Ok(Expr::Lambda(Lambda { body: Box::new(function) }))
                }
            } else if self.expect(TokenType::Literal(LiteralType::Number)) {
                let t = match self.token_stream.next() {
                    Some(t) => t,
                    None => {
                        return Err(ParserError::UnexpectedEndOfLine(UnexpectedEndOfLineError));
                    },
                };
                let index = match digits_to_usize(&t.content) {
                    Some(n) => n,
                    None => {
                        let mut expected: Vec<TokenType> = Vec::new();
                        expected.push(TokenType::Literal(LiteralType::Number));
                        return Err(
                            ParserError::InvalidTokenType(
                                InvalidTokenTypeError::new(expected, t.token_type),
                            ),
                        );
                    },
                };
                Ok(Expr::Argument(Arg { index }))
            } else {
                let found = match self.token_stream.next() {
                    Some(t) => t.token_type,
                    None => {
                        return Err(ParserError::UnexpectedEndOfLine(UnexpectedEndOfLineError));
                    },
                };
                let mut expected: Vec<TokenType> = Vec::new();
                expected.push(TokenType::SyntaxToken);
                Err(ParserError::InvalidTokenType(InvalidTokenTypeError::new(expected, found)))
            }
        } else {
            Err(ParserError::UnexpectedEndOfLine(UnexpectedEndOfLineError))
        }
    }

    /// Parse a number literal token into a number node holding the
    /// literal's decimal value.
    fn parse_number_literal(&mut self) -> (r: Result<Expr, ParserError>)
        requires
            old(self).token_stream.wf(),
            old(self).token_stream.tokens@.len() > 0,
            old(self).token_stream.tokens@.last().token_type == TokenType::Literal(
                LiteralType::Number,
            ),
        ensures
            final(self).token_stream.wf(),
            final(self).len() == old(self).len() - 1,
            final(self).token_stream.tokens@ == old(self).token_stream.tokens@.drop_last(),
            r is Ok,
            match r {
                Ok(e) => expr_wf(e) && expr_model(e) == ExprS::Number(
                    crate::number::digits_val(old(self).token_stream.tokens@.last().content@),
                ),
                Err(_) => true,
            },
    {
        let t = match self.token_stream.next() {
            Some(t) => t,
            None => {
                return Err(ParserError::UnexpectedEndOfLine(UnexpectedEndOfLineError));
            },
        };
        proof {
            assert(token_wf(old(self).token_stream.tokens@.last()));
        }
        let value = crate::number::Number::from_decimal(&t.content);
        Ok(Expr::Number(Number { value }))
    }

    fn parse_identifier(&mut self) -> (r: Result<Identifier, InvalidTokenTypeError>)
        requires
            old(self).token_stream.wf(),
        ensures
            final(self).token_stream.wf(),
            final(self).len() <= old(self).len(),
            r is Ok ==> final(self).len() < old(self).len(),
            peek_ty(old(self).token_stream.tokens@, TokenType::Identifier) ==> r is Ok && r->Ok_0.name@
                == old(self).token_stream.tokens@.last().content@ && final(self).token_stream.tokens@
                == old(self).token_stream.tokens@.drop_last(),
    {
        if self.expect(TokenType::Identifier) {
            match self.token_stream.next() {
                Some(t) => Ok(Identifier { name: t.content }),
                None => {
                    let mut expected: Vec<TokenType> = Vec::new();
                    expected.push(TokenType::Identifier);
                    Err(InvalidTokenTypeError::new(expected, TokenType::Identifier))
                },
            }
        } else {
            let found = match self.token_stream.next() {
                Some(t) => t.token_type,
                None => TokenType::Identifier,
            };
            let mut expected: Vec<TokenType> = Vec::new();
            expected.push(TokenType::Identifier);
            Err(InvalidTokenTypeError::new(expected, found))
        }
    }

    /// Parse an operator token and its optional modifier suffix.
    fn parse_operator(&mut self) -> (r: Operator)
        requires
            old(self).token_stream.wf(),
            old(self).token_stream.tokens@.len() > 0,
            old(self).token_stream.tokens@.last().token_type == TokenType::Operator,
        ensures
            final(self).token_stream.wf(),
            final(self).len() < old(self).len(),
            r.name@ == p_operator(old(self).token_stream.tokens@).0,
            r.modifiers == p_operator(old(self).token_stream.tokens@).1,
            final(self).token_stream.tokens@ == p_operator(old(self).token_stream.tokens@).2,
    {
        let t = match self.token_stream.next() {
            Some(t) => t,
            None => {
                return Operator { name: String::new(), modifiers: Modifier::default() };
            },
        };
        let mut modifiers = Modifier::default();
        if self.consume_with_content(TokenType::SyntaxToken, ":") {
            match self.token_stream.next() {
                Some(m) => {
                    modifiers = parse_modifier(m.content.as_str());
                },
                None => {},
            }
        }
        Operator { name: t.content, modifiers }
    }
}

} // verus!
