use vstd::prelude::*;
use crate::lexer::{
    Lexeme, Lexer, ScanError, digits_end, is_blank, number_end, single_char_lexeme, is_digit, is_foreign, lemma_digits_end,
    lemma_foreign_character_fails, lemma_trailing_dot, prepend, scan_from, scan_spec,
};
use crate::parser::{
    Expected, ExprModel, Expression, FactorModel, ParseError, Parser, TermModel, TermOperator,
    VariantModel, additive_op, multiplicative_op, parse_atom, parse_expression, parse_expression_tail, parse_factor,
    parse_spec, parse_term, parse_term_tail, tok,
};

use crate::unparse::{lemma_unbalanced_parens_fail, no_end, paren_balance};

verus! {

/// Why a program text has no expression tree.
#[derive(Debug)]
pub enum ProgramError {
    /// A character that starts no token: the run cannot go on.
    Lexical(ScanError),
    /// The tokens do not form one expression.
    Syntax(ParseError),
}

/// Why a program text has no expression tree, as a value.
pub enum Rejection {
    Lexical(ScanError),
    Syntax((Expected, int)),
}

/// The tree of a program text: it is scanned whole, then parsed whole.
pub open spec fn analyze(s: Seq<char>) -> Result<ExprModel, Rejection> {
    match scan_spec(s) {
        Err(e) => Err(Rejection::Lexical(e)),
        Ok(ts) => match parse_spec(ts) {
            Ok(e) => Ok(e),
            Err(f) => Err(Rejection::Syntax(f)),
        },
    }
}

/// Scans the whole program text, then parses the tokens into one expression.
pub fn parse_program(code: &str) -> (r: Result<Expression, ProgramError>)
    ensures
        match r {
            Ok(e) => analyze(code@) == Ok::<ExprModel, Rejection>(e@),
            Err(ProgramError::Lexical(e)) => analyze(code@) == Err::<ExprModel, Rejection>(
                Rejection::Lexical(e),
            ),
            Err(ProgramError::Syntax(e)) => analyze(code@) == Err::<ExprModel, Rejection>(
                Rejection::Syntax(e.failure()),
            ) && scan_spec(code@) is Ok && e.names_token_of(scan_spec(code@)->Ok_0),
        },
{
    let mut lexer = Lexer::new(code);
    let tokens = match lexer.scan() {
        Ok(t) => t,
        Err(e) => return Err(ProgramError::Lexical(e)),
    };
    let mut parser = Parser::new(&tokens);
    match parser.parse() {
        Ok(e) => Ok(e),
        Err(e) => Err(ProgramError::Syntax(e)),
    }
}

/// The same text always gives the same tree, or the same error: nothing
/// carries over from one run to the next.
pub proof fn lemma_runs_agree(a: Seq<char>, b: Seq<char>)
    requires
        a == b,
    ensures
        analyze(a) == analyze(b),
{
}

/// A character that no token contains sends the text down the lexical error
/// path, never the syntax error path.
pub proof fn lemma_foreign_character_is_lexical(s: Seq<char>, k: int)
    requires
        0 <= k < s.len(),
        is_foreign(s[k]),
    ensures
        analyze(s) is Err,
        analyze(s)->Err_0 is Lexical,
{
    lemma_foreign_character_fails(s, 0, k);
}

/// Scanned tokens end with the end of input, and hold it nowhere else.
proof fn lemma_scan_ends_once(s: Seq<char>, i: int)
    requires
        scan_from(s, i) is Ok,
    ensures
        ({
            let ts = scan_from(s, i)->Ok_0;
            ts.len() > 0 && ts.last() is End && no_end(ts.drop_last())
        }),
    decreases s.len() - i,
{
    if 0 <= i < s.len() {
        if is_blank(s[i]) {
            lemma_scan_ends_once(s, i + 1);
        } else {
            let next = if single_char_lexeme(s[i]) is Some {
                i + 1
            } else {
                lemma_digits_end(s, i);
                lemma_digits_end(s, i + 1);
                let j = digits_end(s, i);
                if j + 1 < s.len() && s[j] == '.' && is_digit(s[j + 1]) {
                    lemma_digits_end(s, j + 1);
                }
                number_end(s, i)
            };
            lemma_scan_ends_once(s, next);
            let rest = scan_from(s, next)->Ok_0;
            let ts = scan_from(s, i)->Ok_0;
            assert(ts == seq![ts[0]] + rest);
            assert(!(ts[0] is End));
            assert(ts.drop_last() =~= seq![ts[0]] + rest.drop_last());
        }
    } else {
        assert(seq![Lexeme::End].drop_last() =~= Seq::<Lexeme>::empty());
    }
}

/// A text that scans, but whose tokens hold more `(` than `)` or more `)`
/// than `(`, is refused with a syntax error: it never yields a tree.
pub proof fn lemma_unbalanced_text_fails(s: Seq<char>)
    requires
        scan_spec(s) is Ok,
        paren_balance(scan_spec(s)->Ok_0) != 0,
    ensures
        analyze(s) is Err,
        analyze(s)->Err_0 is Syntax,
{
    lemma_scan_ends_once(s, 0);
    lemma_unbalanced_parens_fail(scan_spec(s)->Ok_0);
}

/// The tree of a lone literal: one term of one factor, with no sign.
pub open spec fn literal_term(n: Seq<char>) -> TermModel {
    TermModel {
        factor: FactorModel { prefix: None, variant: VariantModel::Number(n) },
        following: seq![],
    }
}

pub open spec fn literal_tree(n: Seq<char>) -> ExprModel {
    ExprModel { term: literal_term(n), following: seq![] }
}

/// A text made of digits alone is read as that one literal, unsigned and
/// unchanged.
pub proof fn lemma_integer_literal(n: Seq<char>)
    requires
        n.len() > 0,
        forall|k: int| 0 <= k < n.len() ==> is_digit(#[trigger] n[k]),
    ensures
        analyze(n) == Ok::<ExprModel, Rejection>(literal_tree(n)),
{
    lemma_digits_end(n, 0);
    assert(digits_end(n, 0) == n.len());
    assert(n.subrange(0, n.len() as int) =~= n);
    assert(scan_from(n, n.len() as int) == Ok::<Seq<Lexeme>, ScanError>(seq![Lexeme::End]));
    let ts = seq![Lexeme::Number(n), Lexeme::End];
    assert(seq![Lexeme::Number(n)] + seq![Lexeme::End] =~= ts);
    assert(scan_spec(n) == Ok::<Seq<Lexeme>, ScanError>(ts));
    lemma_literal_term(ts, 0);
    assert(parse_expression_tail(ts, 1, literal_tree(n)) == Ok::<
        (ExprModel, int),
        (Expected, int),
    >((literal_tree(n), 1)));
    assert(parse_expression(ts, 0) == Ok::<(ExprModel, int), (Expected, int)>(
        (literal_tree(n), 1),
    ));
}

/// A literal followed by anything but `*` or `/` is a term on its own.
proof fn lemma_literal_term(ts: Seq<Lexeme>, i: int)
    requires
        0 <= i < ts.len(),
        ts[i] is Number,
        multiplicative_op(tok(ts, i + 1)) is None,
    ensures
        parse_term(ts, i) == Ok::<(TermModel, int), (Expected, int)>(
            (literal_term(ts[i]->Number_0), i + 1),
        ),
{
    let n = ts[i]->Number_0;
    assert(parse_atom(ts, i) == Ok::<(VariantModel, int), (Expected, int)>(
        (VariantModel::Number(n), i + 1),
    ));
    assert(parse_factor(ts, i) == Ok::<(FactorModel, int), (Expected, int)>(
        (literal_term(n).factor, i + 1),
    ));
    assert(parse_term_tail(ts, i + 1, literal_term(n)) == Ok::<
        (TermModel, int),
        (Expected, int),
    >((literal_term(n), i + 1)));
}

/// Digits followed by a bare dot are read as the literal, and the dot then
/// stands where the end of the input was expected: a syntax error that names
/// the dot, not a lexical one.
pub proof fn lemma_trailing_dot_is_syntax(n: Seq<char>)
    requires
        n.len() > 0,
        forall|k: int| 0 <= k < n.len() ==> is_digit(#[trigger] n[k]),
    ensures
        analyze(n.push('.')) == Err::<ExprModel, Rejection>(
            Rejection::Syntax((Expected::EndOfInput, 1)),
        ),
        scan_spec(n.push('.'))->Ok_0[1] == Lexeme::Dot,
{
    let s = n.push('.');
    assert(forall|k: int| 0 <= k < n.len() ==> s[k] == n[k]);
    assert(s[n.len() as int] == '.');
    lemma_digits_end(s, 0);
    let d = digits_end(s, 0);
    if d < n.len() {
        assert(s[d] == n[d]);
    }
    assert(d == n.len());
    assert(s.subrange(0, n.len() as int) =~= n);
    lemma_trailing_dot(s, 0);
    assert(scan_from(s, n.len() + 1int) == Ok::<Seq<Lexeme>, ScanError>(seq![Lexeme::End]));
    let ts = seq![Lexeme::Number(n), Lexeme::Dot, Lexeme::End];
    assert(seq![Lexeme::Number(n)] + (seq![Lexeme::Dot] + seq![Lexeme::End]) =~= ts);
    assert(scan_spec(s) == Ok::<Seq<Lexeme>, ScanError>(ts));
    lemma_literal_term(ts, 0);
    assert(parse_expression_tail(ts, 1, literal_tree(n)) == Ok::<
        (ExprModel, int),
        (Expected, int),
    >((literal_tree(n), 1)));
    assert(parse_expression(ts, 0) == Ok::<(ExprModel, int), (Expected, int)>(
        (literal_tree(n), 1),
    ));
}

/// A factor takes at most one sign: a second sign right after the first
/// stands where a number or a `(` was expected, and is rejected there.
pub proof fn lemma_one_sign_per_factor(ts: Seq<Lexeme>, i: int)
    requires
        0 <= i,
        additive_op(tok(ts, i)) is Some,
        additive_op(tok(ts, i + 1)) is Some,
    ensures
        parse_factor(ts, i) == Err::<(FactorModel, int), (Expected, int)>(
            (Expected::NumberOrGroup, i + 1),
        ),
{
}

/// The tokens of `l0 + l1 + ... + ln`, ended by `End`.
pub open spec fn sum_tokens(lits: Seq<Seq<char>>) -> Seq<Lexeme> {
    Seq::new(
        (2 * lits.len()) as nat,
        |i: int|
            if i % 2 == 0 {
                Lexeme::Number(lits[i / 2])
            } else if i == 2 * lits.len() - 1 {
                Lexeme::End
            } else {
                Lexeme::Plus
            },
    )
}

/// The first `m` literals joined by `+`, left to right.
pub open spec fn sum_prefix(lits: Seq<Seq<char>>, m: int) -> ExprModel {
    ExprModel {
        term: literal_term(lits[0]),
        following: Seq::new(
            (m - 1) as nat,
            |i: int| (TermOperator::Plus, literal_term(lits[i + 1])),
        ),
    }
}

/// The tree of `l0 + l1 + ... + ln`: the first literal, then each later one
/// added in order.
pub open spec fn sum_tree(lits: Seq<Seq<char>>) -> ExprModel {
    sum_prefix(lits, lits.len() as int)
}

proof fn lemma_sum_tail(lits: Seq<Seq<char>>, m: int)
    requires
        1 <= m <= lits.len(),
    ensures
        parse_expression_tail(sum_tokens(lits), 2 * m - 1, sum_prefix(lits, m)) == Ok::<
            (ExprModel, int),
            (Expected, int),
        >((sum_tree(lits), 2 * lits.len() - 1)),
    decreases lits.len() - m,
{
    let ts = sum_tokens(lits);
    let n = lits.len() as int;
    if m < n {
        assert(tok(ts, 2 * m - 1) == Lexeme::Plus);
        assert(ts[2 * m] == Lexeme::Number(lits[m]));
        assert(tok(ts, 2 * m + 1) is Plus || tok(ts, 2 * m + 1) is End);
        lemma_literal_term(ts, 2 * m);
        let acc = sum_prefix(lits, m);
        let next = ExprModel {
            term: acc.term,
            following: acc.following.push((TermOperator::Plus, literal_term(lits[m]))),
        };
        assert(next.following =~= sum_prefix(lits, m + 1).following);
        lemma_sum_tail(lits, m + 1);
    } else {
        assert(tok(ts, 2 * m - 1) == Lexeme::End);
    }
}

/// A sum of literals parses to exactly those literals, in order, joined by
/// `+` from left to right: evaluating the tree adds them one by one.
pub proof fn lemma_sum_of_literals(lits: Seq<Seq<char>>)
    requires
        lits.len() > 0,
    ensures
        parse_spec(sum_tokens(lits)) == Ok::<ExprModel, (Expected, int)>(sum_tree(lits)),
{
    let ts = sum_tokens(lits);
    let n = lits.len() as int;
    assert(ts[0] == Lexeme::Number(lits[0]));
    assert(tok(ts, 1) is Plus || tok(ts, 1) is End);
    lemma_literal_term(ts, 0);
    assert(sum_prefix(lits, 1) == ExprModel { term: literal_term(lits[0]), following: seq![] }) by {
        assert(sum_prefix(lits, 1).following =~= Seq::<(TermOperator, TermModel)>::empty());
    }
    lemma_sum_tail(lits, 1);
    assert(tok(ts, 2 * n - 1) == Lexeme::End);
}

} // verus!
