use vstd::prelude::*;
use crate::lexer::{Token, Lexeme, lexemes, describe_lexeme};
use vstd::string::StringExecFns;

verus! {

/// An additive operator; also the optional sign in front of a factor.
#[derive(Clone, Copy, Debug, PartialEq, Eq, Structural)]
pub enum TermOperator {
    Plus,
    Minus,
}

/// A multiplicative operator.
#[derive(Clone, Copy, Debug, PartialEq, Eq, Structural)]
pub enum FactorOperator {
    Mul,
    Div,
}

/// A first term, then terms joined to it by additive operators, left to right.
#[derive(Debug)]
pub struct Expression {
    pub term: Term,
    pub following: Vec<(TermOperator, Term)>,
}

/// A first factor, then factors joined to it by multiplicative operators, left to right.
#[derive(Debug)]
pub struct Term {
    pub factor: Factor,
    pub following: Vec<(FactorOperator, Factor)>,
}

/// An atom with an optional sign in front of it.
#[derive(Debug)]
pub struct Factor {
    pub prefix: Option<TermOperator>,
    pub variant: FactorVariant,
}

/// A numeric literal, kept as its text, or a parenthesised expression.
#[derive(Debug)]
pub enum FactorVariant {
    Number(String),
    Expression(Box<Expression>),
}

/// What the innermost level of the grammar yields.
#[derive(Debug)]
pub enum Atom {
    Number(String),
    Expression(Expression),
}

/// The mathematical content of an `Expression`.
pub struct ExprModel {
    pub term: TermModel,
    pub following: Seq<(TermOperator, TermModel)>,
}

/// The mathematical content of a `Term`.
pub struct TermModel {
    pub factor: FactorModel,
    pub following: Seq<(FactorOperator, FactorModel)>,
}

/// The mathematical content of a `Factor`.
pub struct FactorModel {
    pub prefix: Option<TermOperator>,
    pub variant: VariantModel,
}

/// The mathematical content of a `FactorVariant`.
pub enum VariantModel {
    Number(Seq<char>),
    Group(Box<ExprModel>),
}

pub open spec fn expr_model(e: Expression) -> ExprModel
    decreases e,
{
    ExprModel { term: term_model(e.term), following: term_pairs_model(e.following@) }
}

pub open spec fn term_pairs_model(s: Seq<(TermOperator, Term)>) -> Seq<(TermOperator, TermModel)>
    decreases s,
{
    if s.len() == 0 {
        seq![]
    } else {
        term_pairs_model(s.subrange(0, s.len() - 1)).push(
            (s[s.len() - 1].0, term_model(s[s.len() - 1].1)),
        )
    }
}

pub open spec fn term_model(t: Term) -> TermModel
    decreases t,
{
    TermModel { factor: factor_model(t.factor), following: factor_pairs_model(t.following@) }
}

pub open spec fn factor_pairs_model(s: Seq<(FactorOperator, Factor)>) -> Seq<
    (FactorOperator, FactorModel),
>
    decreases s,
{
    if s.len() == 0 {
        seq![]
    } else {
        factor_pairs_model(s.subrange(0, s.len() - 1)).push(
            (s[s.len() - 1].0, factor_model(s[s.len() - 1].1)),
        )
    }
}

pub open spec fn factor_model(f: Factor) -> FactorModel
    decreases f,
{
    FactorModel {
        prefix: f.prefix,
        variant: match f.variant {
            FactorVariant::Number(s) => VariantModel::Number(s@),
            FactorVariant::Expression(e) => VariantModel::Group(Box::new(expr_model(*e))),
        },
    }
}

impl View for Expression {
    type V = ExprModel;

    open spec fn view(&self) -> ExprModel {
        expr_model(*self)
    }
}

impl View for Term {
    type V = TermModel;

    open spec fn view(&self) -> TermModel {
        term_model(*self)
    }
}

impl View for Factor {
    type V = FactorModel;

    open spec fn view(&self) -> FactorModel {
        factor_model(*self)
    }
}

/// What the parser wanted where it stopped.
#[derive(Clone, Copy, Debug, PartialEq, Eq, Structural)]
pub enum Expected {
    /// The end of the input, after a complete expression.
    EndOfInput,
    /// A `)` closing a group.
    ClosingParen,
    /// A number or a `(`, where an atom begins.
    NumberOrGroup,
}

/// A syntax error: what was expected, and the token found in its place.
#[derive(Debug)]
pub struct ParseError {
    pub expected: Expected,
    pub found: Token,
    pub position: usize,
}

/// The token at position `i`; past the end the input counts as ended.
pub open spec fn tok(ts: Seq<Lexeme>, i: int) -> Lexeme {
    if 0 <= i < ts.len() {
        ts[i]
    } else {
        Lexeme::End
    }
}

pub open spec fn additive_op(l: Lexeme) -> Option<TermOperator> {
    match l {
        Lexeme::Plus => Some(TermOperator::Plus),
        Lexeme::Minus => Some(TermOperator::Minus),
        _ => None,
    }
}

pub open spec fn multiplicative_op(l: Lexeme) -> Option<FactorOperator> {
    match l {
        Lexeme::Mul => Some(FactorOperator::Mul),
        Lexeme::Div => Some(FactorOperator::Div),
        _ => None,
    }
}

/// `expression := term ((+|-) term)*`, read from position `i`: the tree and
/// the position after it, or what was expected and where.
pub open spec fn parse_expression(ts: Seq<Lexeme>, i: int) -> Result<(ExprModel, int), (Expected, int)>
    decreases ts.len() - i, 5int,
{
    match parse_term(ts, i) {
        Ok((t, j)) => {
            if i < j <= ts.len() {
                parse_expression_tail(ts, j, ExprModel { term: t, following: seq![] })
            } else {
                Ok((ExprModel { term: t, following: seq![] }, j))
            }
        },
        Err(e) => Err(e),
    }
}

/// The rest of an expression from position `j`, with `acc` read so far.
pub open spec fn parse_expression_tail(ts: Seq<Lexeme>, j: int, acc: ExprModel) -> Result<
    (ExprModel, int),
    (Expected, int),
>
    decreases ts.len() - j, 6int,
{
    match additive_op(tok(ts, j)) {
        None => Ok((acc, j)),
        Some(op) => match parse_term(ts, j + 1) {
            Ok((t, k)) => {
                let next = ExprModel { term: acc.term, following: acc.following.push((op, t)) };
                if j < k <= ts.len() {
                    parse_expression_tail(ts, k, next)
                } else {
                    Ok((next, k))
                }
            },
            Err(e) => Err(e),
        },
    }
}

/// `term := factor ((*|/) factor)*`, read from position `i`.
pub open spec fn parse_term(ts: Seq<Lexeme>, i: int) -> Result<(TermModel, int), (Expected, int)>
    decreases ts.len() - i, 3int,
{
    match parse_factor(ts, i) {
        Ok((f, j)) => {
            if i < j <= ts.len() {
                parse_term_tail(ts, j, TermModel { factor: f, following: seq![] })
            } else {
                Ok((TermModel { factor: f, following: seq![] }, j))
            }
        },
        Err(e) => Err(e),
    }
}

/// The rest of a term from position `j`, with `acc` read so far.
pub open spec fn parse_term_tail(ts: Seq<Lexeme>, j: int, acc: TermModel) -> Result<
    (TermModel, int),
    (Expected, int),
>
    decreases ts.len() - j, 4int,
{
    match multiplicative_op(tok(ts, j)) {
        None => Ok((acc, j)),
        Some(op) => match parse_factor(ts, j + 1) {
            Ok((f, k)) => {
                let next = TermModel { factor: acc.factor, following: acc.following.push((op, f)) };
                if j < k <= ts.len() {
                    parse_term_tail(ts, k, next)
                } else {
                    Ok((next, k))
                }
            },
            Err(e) => Err(e),
        },
    }
}

/// `factor := (+|-)? atom`, read from position `i`.
pub open spec fn parse_factor(ts: Seq<Lexeme>, i: int) -> Result<(FactorModel, int), (Expected, int)>
    decreases ts.len() - i, 2int,
{
    let prefix = additive_op(tok(ts, i));
    let start = if prefix is Some { i + 1 } else { i };
    match parse_atom(ts, start) {
        Ok((v, j)) => Ok((FactorModel { prefix, variant: v }, j)),
        Err(e) => Err(e),
    }
}

/// `atom := number | '(' expression ')'`, read from position `i`.
pub open spec fn parse_atom(ts: Seq<Lexeme>, i: int) -> Result<(VariantModel, int), (Expected, int)>
    decreases ts.len() - i, 1int,
{
    match tok(ts, i) {
        Lexeme::LParen => match parse_expression(ts, i + 1) {
            Ok((e, j)) => {
                if tok(ts, j) is RParen {
                    Ok((VariantModel::Group(Box::new(e)), j + 1))
                } else {
                    Err((Expected::ClosingParen, j))
                }
            },
            Err(e) => Err(e),
        },
        Lexeme::Number(s) => Ok((VariantModel::Number(s), i + 1)),
        _ => Err((Expected::NumberOrGroup, i)),
    }
}

/// A whole expression from position `i`, which must then be followed by the
/// end of the input.
pub open spec fn parse_from(ts: Seq<Lexeme>, i: int) -> Result<ExprModel, (Expected, int)> {
    match parse_expression(ts, i) {
        Ok((e, j)) => {
            if tok(ts, j) is End {
                Ok(e)
            } else {
                Err((Expected::EndOfInput, j))
            }
        },
        Err(e) => Err(e),
    }
}

/// The tree of a whole token sequence, or its first syntax error.
pub open spec fn parse_spec(ts: Seq<Lexeme>) -> Result<ExprModel, (Expected, int)> {
    parse_from(ts, 0)
}

/// The message that names what was expected and the token found.
pub open spec fn message_of(expected: Expected, found: Lexeme) -> Seq<char> {
    match expected {
        Expected::EndOfInput => "expected EOF: found "@ + describe_lexeme(found),
        Expected::ClosingParen => "Expected `)`, found "@ + describe_lexeme(found),
        Expected::NumberOrGroup => "Expected number, found "@ + describe_lexeme(found),
    }
}

impl ParseError {
    /// A human-readable description of the error.
    pub fn message(&self) -> (r: String)
        ensures
            r@ == message_of(self.expected, self.found@),
    {
        let head = match self.expected {
            Expected::EndOfInput => <String as StringExecFns>::from_str("expected EOF: found "),
            Expected::ClosingParen => <String as StringExecFns>::from_str("Expected `)`, found "),
            Expected::NumberOrGroup => <String as StringExecFns>::from_str("Expected number, found "),
        };
        let found = self.found.describe();
        head.concat(found.as_str())
    }
    /// What was expected, and the position of the token found instead.
    pub open spec fn failure(&self) -> (Expected, int) {
        (self.expected, self.position as int)
    }

    /// The error names the token that stands at its position in `ts`.
    pub open spec fn names_token_of(&self, ts: Seq<Lexeme>) -> bool {
        self.found@ == tok(ts, self.position as int)
    }
}

pub open spec fn atom_model(a: Atom) -> VariantModel {
    match a {
        Atom::Number(s) => VariantModel::Number(s@),
        Atom::Expression(e) => VariantModel::Group(Box::new(e@)),
    }
}

/// An owned token with the same content.
fn copy_token(t: &Token) -> (r: Token)
    ensures
        r@ == t@,
{
    match t {
        Token::Number(s) => Token::Number(s.clone()),
        Token::Plus => Token::Plus,
        Token::Minus => Token::Minus,
        Token::Mul => Token::Mul,
        Token::Div => Token::Div,
        Token::LParen => Token::LParen,
        Token::RParen => Token::RParen,
        Token::Dot => Token::Dot,
        Token::EOF => Token::EOF,
    }
}

/// Builds expression trees from tokens by recursive descent, with one token
/// of lookahead.
pub struct Parser<'a> {
    tokens: &'a Vec<Token>,
    index: usize,
}

impl<'a> Parser<'a> {
    /// The lexemes of the tokens being parsed.
    pub closed spec fn input(&self) -> Seq<Lexeme> {
        lexemes(self.tokens@)
    }

    /// The position of the current token.
    pub closed spec fn cursor(&self) -> int {
        self.index as int
    }

    pub closed spec fn wf(&self) -> bool {
        self.index <= self.tokens@.len()
    }

    pub fn new(tokens: &'a Vec<Token>) -> (r: Parser<'a>)
        ensures
            r.wf(),
            r.input() == lexemes(tokens@),
            r.cursor() == 0,
    {
        Parser { tokens, index: 0 }
    }

    /// The token at `pos`, or `EOF` past the end.
    fn token_at(&self, pos: usize) -> (r: Token)
        ensures
            r@ == tok(self.input(), pos as int),
    {
        if pos < self.tokens.len() {
            copy_token(&self.tokens[pos])
        } else {
            Token::EOF
        }
    }

    fn additive_at(&self, pos: usize) -> (r: Option<TermOperator>)
        ensures
            r == additive_op(tok(self.input(), pos as int)),
            r is Some ==> pos < self.tokens@.len() <= usize::MAX,
    {
        if pos < self.tokens.len() {
            match &self.tokens[pos] {
                Token::Plus => Some(TermOperator::Plus),
                Token::Minus => Some(TermOperator::Minus),
                _ => None,
            }
        } else {
            None
        }
    }

    fn multiplicative_at(&self, pos: usize) -> (r: Option<FactorOperator>)
        ensures
            r == multiplicative_op(tok(self.input(), pos as int)),
            r is Some ==> pos < self.tokens@.len() <= usize::MAX,
    {
        if pos < self.tokens.len() {
            match &self.tokens[pos] {
                Token::Mul => Some(FactorOperator::Mul),
                Token::Div => Some(FactorOperator::Div),
                _ => None,
            }
        } else {
            None
        }
    }

    /// Parses a whole expression from the cursor on; it must be followed by
    /// the end of the input. The cursor is left after the expression.
    pub fn parse(&mut self) -> (r: Result<Expression, ParseError>)
        requires
            old(self).wf(),
        ensures
            final(self).wf(),
            final(self).input() == old(self).input(),
            match r {
                Ok(e) => parse_from(old(self).input(), old(self).cursor()) == Ok::<
                    ExprModel,
                    (Expected, int),
                >(e@),
                Err(err) => parse_from(old(self).input(), old(self).cursor()) == Err::<
                    ExprModel,
                    (Expected, int),
                >(err.failure()) && err.names_token_of(old(self).input()),
            },
    {
        let (expr, end) = match self.expression(self.index) {
            Ok(p) => p,
            Err(e) => return Err(e),
        };
        self.index = end;
        if end < self.tokens.len() && !matches!(self.tokens[end], Token::EOF) {
            return Err(
                ParseError { expected: Expected::EndOfInput, found: self.token_at(end), position: end },
            );
        }
        Ok(expr)
    }

    fn expression(&self, pos: usize) -> (r: Result<(Expression, usize), ParseError>)
        requires
            pos <= self.tokens@.len(),
        ensures
            match r {
                Ok((e, j)) => parse_expression(self.input(), pos as int) == Ok::<
                    (ExprModel, int),
                    (Expected, int),
                >((e@, j as int)) && pos < j <= self.tokens@.len(),
                Err(err) => parse_expression(self.input(), pos as int) == Err::<
                    (ExprModel, int),
                    (Expected, int),
                >(err.failure()) && err.names_token_of(self.input()),
            },
        decreases self.tokens@.len() - pos, 5int,
    {
        let ghost ts = self.input();
        let (term, mut j) = match self.term(pos) {
            Ok(p) => p,
            Err(e) => return Err(e),
        };
        let mut following: Vec<(TermOperator, Term)> = Vec::new();
        assert(term_pairs_model(following@) =~= seq![]);
        while self.additive_at(j).is_some()
            invariant
                ts == self.input(),
                pos < j <= self.tokens@.len(),
                parse_expression(ts, pos as int) == parse_expression_tail(
                    ts,
                    j as int,
                    ExprModel { term: term@, following: term_pairs_model(following@) },
                ),
            decreases self.tokens@.len() - j,
        {
            let op = match self.additive_at(j) {
                Some(o) => o,
                None => TermOperator::Plus,
            };
            let (t, k) = match self.term(j + 1) {
                Ok(p) => p,
                Err(e) => return Err(e),
            };
            let ghost prev = following@;
            following.push((op, t));
            proof {
                assert(following@.subrange(0, following@.len() - 1) =~= prev);
            }
            j = k;
        }
        Ok((Expression { term, following }, j))
    }

    fn term(&self, pos: usize) -> (r: Result<(Term, usize), ParseError>)
        requires
            pos <= self.tokens@.len(),
        ensures
            match r {
                Ok((t, j)) => parse_term(self.input(), pos as int) == Ok::<
                    (TermModel, int),
                    (Expected, int),
                >((t@, j as int)) && pos < j <= self.tokens@.len(),
                Err(err) => parse_term(self.input(), pos as int) == Err::<
                    (TermModel, int),
                    (Expected, int),
                >(err.failure()) && err.names_token_of(self.input()),
            },
        decreases self.tokens@.len() - pos, 3int,
    {
        let ghost ts = self.input();
        let (factor, mut j) = match self.factor(pos) {
            Ok(p) => p,
            Err(e) => return Err(e),
        };
        let mut following: Vec<(FactorOperator, Factor)> = Vec::new();
        assert(factor_pairs_model(following@) =~= seq![]);
        while self.multiplicative_at(j).is_some()
            invariant
                ts == self.input(),
                pos < j <= self.tokens@.len(),
                parse_term(ts, pos as int) == parse_term_tail(
                    ts,
                    j as int,
                    TermModel { factor: factor@, following: factor_pairs_model(following@) },
                ),
            decreases self.tokens@.len() - j,
        {
            let op = match self.multiplicative_at(j) {
                Some(o) => o,
                None => FactorOperator::Mul,
            };
            let (f, k) = match self.factor(j + 1) {
                Ok(p) => p,
                Err(e) => return Err(e),
            };
            let ghost prev = following@;
            following.push((op, f));
            proof {
                assert(following@.subrange(0, following@.len() - 1) =~= prev);
            }
            j = k;
        }
        Ok((Term { factor, following }, j))
    }

    fn factor(&self, pos: usize) -> (r: Result<(Factor, usize), ParseError>)
        requires
            pos <= self.tokens@.len(),
        ensures
            match r {
                Ok((f, j)) => parse_factor(self.input(), pos as int) == Ok::<
                    (FactorModel, int),
                    (Expected, int),
                >((f@, j as int)) && pos < j <= self.tokens@.len(),
                Err(err) => parse_factor(self.input(), pos as int) == Err::<
                    (FactorModel, int),
                    (Expected, int),
                >(err.failure()) && err.names_token_of(self.input()),
            },
        decreases self.tokens@.len() - pos, 2int,
    {
        let prefix = self.additive_at(pos);
        let start: usize = if prefix.is_some() {
            pos + 1
        } else {
            pos
        };
        match self.atom(start) {
            Ok((a, j)) => {
                let variant = match a {
                    Atom::Number(s) => FactorVariant::Number(s),
                    Atom::Expression(e) => FactorVariant::Expression(Box::new(e)),
                };
                Ok((Factor { prefix, variant }, j))
            },
            Err(e) => Err(e),
        }
    }

    fn atom(&self, pos: usize) -> (r: Result<(Atom, usize), ParseError>)
        requires
            pos <= self.tokens@.len(),
        ensures
            match r {
                Ok((a, j)) => parse_atom(self.input(), pos as int) == Ok::<
                    (VariantModel, int),
                    (Expected, int),
                >((atom_model(a), j as int)) && pos < j <= self.tokens@.len(),
                Err(err) => parse_atom(self.input(), pos as int) == Err::<
                    (VariantModel, int),
                    (Expected, int),
                >(err.failure()) && err.names_token_of(self.input()),
            },
        decreases self.tokens@.len() - pos, 1int,
    {
        if pos < self.tokens.len() {
            match &self.tokens[pos] {
                Token::LParen => {
                    let (e, j) = match self.expression(pos + 1) {
                        Ok(p) => p,
                        Err(err) => return Err(err),
                    };
                    if j < self.tokens.len() && matches!(self.tokens[j], Token::RParen) {
                        Ok((Atom::Expression(e), j + 1))
                    } else {
                        Err(
                            ParseError {
                                expected: Expected::ClosingParen,
                                found: self.token_at(j),
                                position: j,
                            },
                        )
                    }
                },
                Token::Number(s) => Ok((Atom::Number(s.clone()), pos + 1)),
                _ => Err(
                    ParseError {
                        expected: Expected::NumberOrGroup,
                        found: self.token_at(pos),
                        position: pos,
                    },
                ),
            }
        } else {
            Err(ParseError { expected: Expected::NumberOrGroup, found: Token::EOF, position: pos })
        }
    }
}

} // verus!
