use vstd::prelude::*;
use crate::lexer::Lexeme;
use crate::parser::{
    Expected, ExprModel, FactorModel, FactorOperator, TermModel, TermOperator, VariantModel,
    additive_op, multiplicative_op, parse_atom, parse_expression, parse_expression_tail,
    parse_factor, parse_spec, parse_term, parse_term_tail, tok,
};

verus! {

pub open spec fn additive_lexeme(op: TermOperator) -> Lexeme {
    match op {
        TermOperator::Plus => Lexeme::Plus,
        TermOperator::Minus => Lexeme::Minus,
    }
}

pub open spec fn multiplicative_lexeme(op: FactorOperator) -> Lexeme {
    match op {
        FactorOperator::Mul => Lexeme::Mul,
        FactorOperator::Div => Lexeme::Div,
    }
}

/// The tokens that an expression tree is written with.
pub open spec fn expr_tokens(e: ExprModel) -> Seq<Lexeme>
    decreases e,
{
    term_tokens(e.term) + term_pairs_tokens(e.following)
}

pub open spec fn term_pairs_tokens(s: Seq<(TermOperator, TermModel)>) -> Seq<Lexeme>
    decreases s,
{
    if s.len() == 0 {
        seq![]
    } else {
        term_pairs_tokens(s.subrange(0, s.len() - 1)) + seq![additive_lexeme(s[s.len() - 1].0)]
            + term_tokens(s[s.len() - 1].1)
    }
}

pub open spec fn term_tokens(t: TermModel) -> Seq<Lexeme>
    decreases t,
{
    factor_tokens(t.factor) + factor_pairs_tokens(t.following)
}

pub open spec fn factor_pairs_tokens(s: Seq<(FactorOperator, FactorModel)>) -> Seq<Lexeme>
    decreases s,
{
    if s.len() == 0 {
        seq![]
    } else {
        factor_pairs_tokens(s.subrange(0, s.len() - 1)) + seq![
            multiplicative_lexeme(s[s.len() - 1].0),
        ] + factor_tokens(s[s.len() - 1].1)
    }
}

pub open spec fn factor_tokens(f: FactorModel) -> Seq<Lexeme>
    decreases f,
{
    let sign = match f.prefix {
        Some(op) => seq![additive_lexeme(op)],
        None => seq![],
    };
    sign + variant_tokens(f.variant)
}

pub open spec fn variant_tokens(v: VariantModel) -> Seq<Lexeme>
    decreases v,
{
    match v {
        VariantModel::Number(n) => seq![Lexeme::Number(n)],
        VariantModel::Group(e) => seq![Lexeme::LParen] + expr_tokens(*e) + seq![Lexeme::RParen],
    }
}

proof fn lemma_expression_sound(ts: Seq<Lexeme>, i: int)
    requires
        0 <= i,
        parse_expression(ts, i) is Ok,
    ensures
        ({
            let (e, j) = parse_expression(ts, i)->Ok_0;
            i < j <= ts.len() && ts.subrange(i, j) == expr_tokens(e)
        }),
    decreases ts.len() - i, 5int,
{
    lemma_term_sound(ts, i);
    let (t, j) = parse_term(ts, i)->Ok_0;
    let acc = ExprModel { term: t, following: seq![] };
    assert(term_pairs_tokens(acc.following) =~= seq![]);
    lemma_expression_tail_sound(ts, j, acc);
    let (e, k) = parse_expression_tail(ts, j, acc)->Ok_0;
    assert(ts.subrange(i, k) =~= ts.subrange(i, j) + ts.subrange(j, k));
    assert(expr_tokens(acc) + ts.subrange(j, k) =~= term_tokens(t) + term_pairs_tokens(
        e.following,
    ));
}

proof fn lemma_expression_tail_sound(ts: Seq<Lexeme>, j: int, acc: ExprModel)
    requires
        0 <= j <= ts.len(),
        parse_expression_tail(ts, j, acc) is Ok,
    ensures
        ({
            let (e, k) = parse_expression_tail(ts, j, acc)->Ok_0;
            j <= k <= ts.len() && e.term == acc.term && expr_tokens(e) == expr_tokens(acc)
                + ts.subrange(j, k)
        }),
    decreases ts.len() - j, 6int,
{
    match additive_op(tok(ts, j)) {
        None => {
            assert(ts.subrange(j, j) =~= seq![]);
            assert(expr_tokens(acc) + ts.subrange(j, j) =~= expr_tokens(acc));
        },
        Some(op) => {
            assert(j < ts.len() && ts[j] == additive_lexeme(op));
            lemma_term_sound(ts, j + 1);
            let (t, k) = parse_term(ts, j + 1)->Ok_0;
            let next = ExprModel { term: acc.term, following: acc.following.push((op, t)) };
            assert(next.following.subrange(0, next.following.len() - 1) =~= acc.following);
            assert(expr_tokens(next) =~= expr_tokens(acc) + ts.subrange(j, k)) by {
                assert(ts.subrange(j, k) =~= seq![additive_lexeme(op)] + ts.subrange(j + 1, k));
            }
            lemma_expression_tail_sound(ts, k, next);
            let (e, m) = parse_expression_tail(ts, k, next)->Ok_0;
            assert(ts.subrange(j, m) =~= ts.subrange(j, k) + ts.subrange(k, m));
            assert(expr_tokens(acc) + ts.subrange(j, m) =~= (expr_tokens(acc) + ts.subrange(j, k))
                + ts.subrange(k, m));
        },
    }
}

proof fn lemma_term_sound(ts: Seq<Lexeme>, i: int)
    requires
        0 <= i,
        parse_term(ts, i) is Ok,
    ensures
        ({
            let (t, j) = parse_term(ts, i)->Ok_0;
            i < j <= ts.len() && ts.subrange(i, j) == term_tokens(t)
        }),
    decreases ts.len() - i, 3int,
{
    lemma_factor_sound(ts, i);
    let (f, j) = parse_factor(ts, i)->Ok_0;
    let acc = TermModel { factor: f, following: seq![] };
    assert(factor_pairs_tokens(acc.following) =~= seq![]);
    lemma_term_tail_sound(ts, j, acc);
    let (t, k) = parse_term_tail(ts, j, acc)->Ok_0;
    assert(ts.subrange(i, k) =~= ts.subrange(i, j) + ts.subrange(j, k));
    assert(term_tokens(acc) + ts.subrange(j, k) =~= factor_tokens(f) + factor_pairs_tokens(
        t.following,
    ));
}

proof fn lemma_term_tail_sound(ts: Seq<Lexeme>, j: int, acc: TermModel)
    requires
        0 <= j <= ts.len(),
        parse_term_tail(ts, j, acc) is Ok,
    ensures
        ({
            let (t, k) = parse_term_tail(ts, j, acc)->Ok_0;
            j <= k <= ts.len() && t.factor == acc.factor && term_tokens(t) == term_tokens(acc)
                + ts.subrange(j, k)
        }),
    decreases ts.len() - j, 4int,
{
    match multiplicative_op(tok(ts, j)) {
        None => {
            assert(ts.subrange(j, j) =~= seq![]);
            assert(term_tokens(acc) + ts.subrange(j, j) =~= term_tokens(acc));
        },
        Some(op) => {
            assert(j < ts.len() && ts[j] == multiplicative_lexeme(op));
            lemma_factor_sound(ts, j + 1);
            let (f, k) = parse_factor(ts, j + 1)->Ok_0;
            let next = TermModel { factor: acc.factor, following: acc.following.push((op, f)) };
            assert(next.following.subrange(0, next.following.len() - 1) =~= acc.following);
            assert(term_tokens(next) =~= term_tokens(acc) + ts.subrange(j, k)) by {
                assert(ts.subrange(j, k) =~= seq![multiplicative_lexeme(op)] + ts.subrange(
                    j + 1,
                    k,
                ));
            }
            lemma_term_tail_sound(ts, k, next);
            let (t, m) = parse_term_tail(ts, k, next)->Ok_0;
            assert(ts.subrange(j, m) =~= ts.subrange(j, k) + ts.subrange(k, m));
            assert(term_tokens(acc) + ts.subrange(j, m) =~= (term_tokens(acc) + ts.subrange(j, k))
                + ts.subrange(k, m));
        },
    }
}

proof fn lemma_factor_sound(ts: Seq<Lexeme>, i: int)
    requires
        0 <= i,
        parse_factor(ts, i) is Ok,
    ensures
        ({
            let (f, j) = parse_factor(ts, i)->Ok_0;
            i < j <= ts.len() && ts.subrange(i, j) == factor_tokens(f)
        }),
    decreases ts.len() - i, 2int,
{
    let prefix = additive_op(tok(ts, i));
    if prefix is Some {
        assert(i < ts.len() && ts[i] == additive_lexeme(prefix->0));
        lemma_atom_sound(ts, i + 1);
        let (v, j) = parse_atom(ts, i + 1)->Ok_0;
        assert(ts.subrange(i, j) =~= seq![ts[i]] + ts.subrange(i + 1, j));
    } else {
        lemma_atom_sound(ts, i);
        let (v, j) = parse_atom(ts, i)->Ok_0;
        assert(seq![] + variant_tokens(v) =~= variant_tokens(v));
    }
}

proof fn lemma_atom_sound(ts: Seq<Lexeme>, i: int)
    requires
        0 <= i,
        parse_atom(ts, i) is Ok,
    ensures
        ({
            let (v, j) = parse_atom(ts, i)->Ok_0;
            i < j <= ts.len() && ts.subrange(i, j) == variant_tokens(v)
        }),
    decreases ts.len() - i, 1int,
{
    match tok(ts, i) {
        Lexeme::LParen => {
            lemma_expression_sound(ts, i + 1);
            let (e, j) = parse_expression(ts, i + 1)->Ok_0;
            assert(ts.subrange(i, j + 1) =~= seq![Lexeme::LParen] + ts.subrange(i + 1, j) + seq![
                Lexeme::RParen,
            ]);
        },
        _ => {
            assert(ts.subrange(i, i + 1) =~= seq![ts[i]]);
        },
    }
}

/// A tree that the parser accepts is written with exactly the tokens it was
/// read from, up to the end of the input: nothing is dropped, added or moved.
pub proof fn lemma_parse_reads_back(ts: Seq<Lexeme>)
    requires
        parse_spec(ts) is Ok,
    ensures
        ({
            let e = parse_spec(ts)->Ok_0;
            let n = expr_tokens(e).len() as int;
            n <= ts.len() && ts.subrange(0, n) == expr_tokens(e) && tok(ts, n) is End
        }),
{
    lemma_expression_sound(ts, 0);
}

/// The number of `(` in `ts` minus the number of `)`.
pub open spec fn paren_balance(ts: Seq<Lexeme>) -> int
    decreases ts.len(),
{
    if ts.len() == 0 {
        0
    } else {
        paren_balance(ts.drop_last()) + match ts.last() {
            Lexeme::LParen => 1int,
            Lexeme::RParen => -1int,
            _ => 0int,
        }
    }
}

/// `ts` holds no end-of-input token.
pub open spec fn no_end(ts: Seq<Lexeme>) -> bool {
    forall|k: int| 0 <= k < ts.len() ==> !(#[trigger] ts[k] is End)
}

proof fn lemma_concat(a: Seq<Lexeme>, b: Seq<Lexeme>)
    ensures
        paren_balance(a + b) == paren_balance(a) + paren_balance(b),
        no_end(a) && no_end(b) ==> no_end(a + b),
    decreases b.len(),
{
    if b.len() > 0 {
        assert((a + b).drop_last() =~= a + b.drop_last());
        lemma_concat(a, b.drop_last());
    } else {
        assert(a + b =~= a);
    }
    if no_end(a) && no_end(b) {
        assert forall|k: int| 0 <= k < (a + b).len() implies !(#[trigger] (a + b)[k] is End) by {
            if k >= a.len() {
                assert((a + b)[k] == b[k - a.len()]);
            }
        }
    }
}

proof fn lemma_single(l: Lexeme)
    ensures
        paren_balance(seq![l]) == (match l {
            Lexeme::LParen => 1int,
            Lexeme::RParen => -1int,
            _ => 0int,
        }),
{
    assert(seq![l].drop_last() =~= Seq::<Lexeme>::empty());
    assert(paren_balance(Seq::<Lexeme>::empty()) == 0);
    assert(seq![l].last() == l);
}

/// The tokens of any tree hold as many `(` as `)`, and no end of input.
proof fn lemma_expr_tokens_balanced(e: ExprModel)
    ensures
        paren_balance(expr_tokens(e)) == 0,
        no_end(expr_tokens(e)),
    decreases e,
{
    lemma_term_tokens_balanced(e.term);
    lemma_term_pairs_balanced(e.following);
    lemma_concat(term_tokens(e.term), term_pairs_tokens(e.following));
}

proof fn lemma_term_pairs_balanced(s: Seq<(TermOperator, TermModel)>)
    ensures
        paren_balance(term_pairs_tokens(s)) == 0,
        no_end(term_pairs_tokens(s)),
    decreases s,
{
    if s.len() == 0 {
        assert(no_end(Seq::<Lexeme>::empty()));
    } else {
        let front = s.subrange(0, s.len() - 1);
        let (op, t) = s[s.len() - 1];
        lemma_term_pairs_balanced(front);
        lemma_term_tokens_balanced(t);
        lemma_single(additive_lexeme(op));
        assert(no_end(seq![additive_lexeme(op)]));
        lemma_concat(term_pairs_tokens(front), seq![additive_lexeme(op)]);
        lemma_concat(term_pairs_tokens(front) + seq![additive_lexeme(op)], term_tokens(t));
    }
}

proof fn lemma_term_tokens_balanced(t: TermModel)
    ensures
        paren_balance(term_tokens(t)) == 0,
        no_end(term_tokens(t)),
    decreases t,
{
    lemma_factor_tokens_balanced(t.factor);
    lemma_factor_pairs_balanced(t.following);
    lemma_concat(factor_tokens(t.factor), factor_pairs_tokens(t.following));
}

proof fn lemma_factor_pairs_balanced(s: Seq<(FactorOperator, FactorModel)>)
    ensures
        paren_balance(factor_pairs_tokens(s)) == 0,
        no_end(factor_pairs_tokens(s)),
    decreases s,
{
    if s.len() == 0 {
        assert(no_end(Seq::<Lexeme>::empty()));
    } else {
        let front = s.subrange(0, s.len() - 1);
        let (op, f) = s[s.len() - 1];
        lemma_factor_pairs_balanced(front);
        lemma_factor_tokens_balanced(f);
        lemma_single(multiplicative_lexeme(op));
        assert(no_end(seq![multiplicative_lexeme(op)]));
        lemma_concat(factor_pairs_tokens(front), seq![multiplicative_lexeme(op)]);
        lemma_concat(factor_pairs_tokens(front) + seq![multiplicative_lexeme(op)], factor_tokens(f));
    }
}

proof fn lemma_factor_tokens_balanced(f: FactorModel)
    ensures
        paren_balance(factor_tokens(f)) == 0,
        no_end(factor_tokens(f)),
    decreases f,
{
    let sign = match f.prefix {
        Some(op) => seq![additive_lexeme(op)],
        None => Seq::<Lexeme>::empty(),
    };
    match f.prefix {
        Some(op) => {
            lemma_single(additive_lexeme(op));
        },
        None => {
            assert(paren_balance(sign) == 0);
        },
    }
    assert(no_end(sign));
    lemma_variant_tokens_balanced(f.variant);
    lemma_concat(sign, variant_tokens(f.variant));
}

proof fn lemma_variant_tokens_balanced(v: VariantModel)
    ensures
        paren_balance(variant_tokens(v)) == 0,
        no_end(variant_tokens(v)),
    decreases v,
{
    match v {
        VariantModel::Number(n) => {
            lemma_single(Lexeme::Number(n));
            assert(no_end(seq![Lexeme::Number(n)]));
        },
        VariantModel::Group(e) => {
            lemma_expr_tokens_balanced(*e);
            lemma_single(Lexeme::LParen);
            lemma_single(Lexeme::RParen);
            assert(no_end(seq![Lexeme::LParen]));
            assert(no_end(seq![Lexeme::RParen]));
            lemma_concat(seq![Lexeme::LParen], expr_tokens(*e));
            lemma_concat(seq![Lexeme::LParen] + expr_tokens(*e), seq![Lexeme::RParen]);
        },
    }
}

/// Tokens that end with the end of input, and hold it nowhere else, are
/// refused when they hold more `(` than `)` or more `)` than `(`: an
/// unclosed group or an extra `)` is always a syntax error.
pub proof fn lemma_unbalanced_parens_fail(ts: Seq<Lexeme>)
    requires
        ts.len() > 0,
        ts.last() is End,
        no_end(ts.drop_last()),
        paren_balance(ts) != 0,
    ensures
        parse_spec(ts) is Err,
{
    if parse_spec(ts) is Ok {
        lemma_parse_reads_back(ts);
        let e = parse_spec(ts)->Ok_0;
        let n = expr_tokens(e).len() as int;
        lemma_expr_tokens_balanced(e);
        if n == ts.len() {
            assert(ts.subrange(0, n) =~= ts);
            assert(expr_tokens(e)[n - 1] is End);
        } else {
            assert(ts[n] is End);
            if n < ts.len() - 1 {
                assert(ts.drop_last()[n] is End);
            }
            assert(ts =~= ts.subrange(0, n) + seq![Lexeme::End]);
            lemma_concat(ts.subrange(0, n), seq![Lexeme::End]);
            lemma_single(Lexeme::End);
        }
    }
}

} // verus!
