use arith_expr::lexer::{Lexer, ScanError, Token};
use arith_expr::parser::{
    Expected, Expression, Factor, FactorOperator, FactorVariant, Parser, Term, TermOperator,
};
use arith_expr::pipeline::{parse_program, ProgramError};

fn eval_expression(e: &Expression) -> f64 {
    let mut acc = eval_term(&e.term);
    for (op, t) in &e.following {
        let v = eval_term(t);
        match op {
            TermOperator::Plus => acc += v,
            TermOperator::Minus => acc -= v,
        }
    }
    acc
}

fn eval_term(t: &Term) -> f64 {
    let mut acc = eval_factor(&t.factor);
    for (op, f) in &t.following {
        let v = eval_factor(f);
        match op {
            FactorOperator::Mul => acc *= v,
            FactorOperator::Div => acc /= v,
        }
    }
    acc
}

fn eval_factor(f: &Factor) -> f64 {
    let v = match &f.variant {
        FactorVariant::Number(s) => s.parse::<f64>().unwrap(),
        FactorVariant::Expression(e) => eval_expression(e),
    };
    match f.prefix {
        Some(TermOperator::Minus) => -v,
        _ => v,
    }
}

fn value(code: &str) -> f64 {
    match parse_program(code) {
        Ok(e) => eval_expression(&e),
        Err(e) => panic!("{code} was refused: {e:?}"),
    }
}

fn syntax_error(code: &str) -> (Expected, Token, usize) {
    match parse_program(code) {
        Err(ProgramError::Syntax(e)) => (e.expected, e.found, e.position),
        other => panic!("{code} gave no syntax error: {other:?}"),
    }
}

fn lexical_error(code: &str) -> ScanError {
    match parse_program(code) {
        Err(ProgramError::Lexical(e)) => e,
        other => panic!("{code} gave no lexical error: {other:?}"),
    }
}

fn number(s: &str) -> Token {
    Token::Number(s.to_string())
}

fn literal(e: &Expression) -> Option<String> {
    if !e.following.is_empty() || !e.term.following.is_empty() || e.term.factor.prefix.is_some() {
        return None;
    }
    match &e.term.factor.variant {
        FactorVariant::Number(s) => Some(s.clone()),
        FactorVariant::Expression(_) => None,
    }
}

#[test]
fn integer_literal_reads_as_itself() {
    let e = parse_program("42").unwrap();
    assert_eq!(literal(&e), Some("42".to_string()));
    assert_eq!(value("42"), 42.0);
    assert_eq!(value("0"), 0.0);
    assert_eq!(value("007"), 7.0);
}

#[test]
fn multiplication_binds_tighter_than_addition() {
    assert_eq!(value("2 + 3 * 4"), 14.0);
    assert_eq!(value("(2 + 3) * 4"), 20.0);
    let e = parse_program("2 + 3 * 4").unwrap();
    assert_eq!(e.following.len(), 1);
    assert_eq!(e.following[0].1.following.len(), 1);
    assert_eq!(e.following[0].1.following[0].0, FactorOperator::Mul);
}

#[test]
fn operators_associate_to_the_left() {
    assert_eq!(value("8 - 3 - 2"), 3.0);
    assert_eq!(value("8 / 2 / 2"), 2.0);
    let e = parse_program("8 - 3 - 2").unwrap();
    assert_eq!(e.following.len(), 2);
    assert_eq!(e.following[0].0, TermOperator::Minus);
    assert_eq!(e.following[1].0, TermOperator::Minus);
}

#[test]
fn unary_signs() {
    assert_eq!(value("-5 + 3"), -2.0);
    assert_eq!(value("-(2 + 3)"), -5.0);
    assert_eq!(value("+4"), 4.0);
    let e = parse_program("-5").unwrap();
    assert_eq!(e.term.factor.prefix, Some(TermOperator::Minus));
}

#[test]
fn repeated_sign_is_a_syntax_error() {
    assert_eq!(syntax_error("--5"), (Expected::NumberOrGroup, Token::Minus, 1));
    assert_eq!(syntax_error("+-5"), (Expected::NumberOrGroup, Token::Minus, 1));
    assert_eq!(syntax_error("-+5"), (Expected::NumberOrGroup, Token::Plus, 1));
    assert_eq!(syntax_error("2 * ++5"), (Expected::NumberOrGroup, Token::Plus, 3));
}

#[test]
fn whitespace_does_not_matter() {
    assert_eq!(value("1+1"), value(" 1 + 1 "));
    assert_eq!(value("\t1\r+ 1"), 2.0);
    let a = Lexer::new("1+1").scan().unwrap();
    let b = Lexer::new(" 1 + 1 ").scan().unwrap();
    assert_eq!(a, b);
}

#[test]
fn decimal_literals() {
    assert_eq!(value("3.14 * 2"), 6.28);
    let tokens = Lexer::new("3.14 * 2").scan().unwrap();
    assert_eq!(tokens, vec![number("3.14"), Token::Mul, number("2"), Token::EOF]);
}

#[test]
fn trailing_dot_is_not_part_of_a_literal() {
    assert_eq!(syntax_error("3."), (Expected::EndOfInput, Token::Dot, 1));
    assert_eq!(syntax_error("3.+1"), (Expected::EndOfInput, Token::Dot, 1));
    assert_eq!(syntax_error("1 + .5"), (Expected::NumberOrGroup, Token::Dot, 2));
    let tokens = Lexer::new("3.").scan().unwrap();
    assert_eq!(tokens, vec![number("3"), Token::Dot, Token::EOF]);
    let err = match parse_program("3.") {
        Err(ProgramError::Syntax(e)) => e,
        _ => panic!("expected a syntax error"),
    };
    assert_eq!(err.message(), "expected EOF: found Dot");
}

#[test]
fn unbalanced_parentheses_are_syntax_errors() {
    assert_eq!(syntax_error("(1 + 2"), (Expected::ClosingParen, Token::EOF, 4));
    assert_eq!(syntax_error("1 + 2)"), (Expected::EndOfInput, Token::RParen, 3));
    assert_eq!(syntax_error("()"), (Expected::NumberOrGroup, Token::RParen, 1));
    assert_eq!(syntax_error("((1)"), (Expected::ClosingParen, Token::EOF, 4));
    assert_eq!(syntax_error("(1))"), (Expected::EndOfInput, Token::RParen, 3));
}

#[test]
fn unknown_character_is_a_lexical_error() {
    assert_eq!(lexical_error("1 + a"), ScanError { character: 'a', position: 4 });
    assert_eq!(lexical_error("1 + 2 # 3 ("), ScanError { character: '#', position: 6 });
}

#[test]
fn runs_agree() {
    for code in ["2 * (3 + 4)", "1 +", "1 $ 2", "(("] {
        let a = format!("{:?}", parse_program(code));
        let b = format!("{:?}", parse_program(code));
        assert_eq!(a, b);
    }
}

#[test]
fn sum_of_literals_keeps_each_literal() {
    let e = parse_program("1 + 2 + 3.5 + 10").unwrap();
    let mut lits = vec![literal_of_term(&e.term)];
    for (op, t) in &e.following {
        assert_eq!(*op, TermOperator::Plus);
        lits.push(literal_of_term(t));
    }
    assert_eq!(lits, vec!["1", "2", "3.5", "10"]);
    let direct: f64 = lits.iter().map(|s| s.parse::<f64>().unwrap()).sum();
    assert_eq!(value("1 + 2 + 3.5 + 10"), direct);
}

fn literal_of_term(t: &Term) -> String {
    assert!(t.following.is_empty());
    assert!(t.factor.prefix.is_none());
    match &t.factor.variant {
        FactorVariant::Number(s) => s.clone(),
        FactorVariant::Expression(_) => panic!("not a literal"),
    }
}

#[test]
fn scan_reads_every_token_kind() {
    let tokens = Lexer::new("12.5+(3)-4*6/2").scan().unwrap();
    assert_eq!(
        tokens,
        vec![
            number("12.5"),
            Token::Plus,
            Token::LParen,
            number("3"),
            Token::RParen,
            Token::Minus,
            number("4"),
            Token::Mul,
            number("6"),
            Token::Div,
            number("2"),
            Token::EOF,
        ]
    );
    assert_eq!(Lexer::new("  ").scan().unwrap(), vec![Token::EOF]);
    assert_eq!(Lexer::new("").scan().unwrap(), vec![Token::EOF]);
}

#[test]
fn two_numbers_in_a_row_need_an_operator() {
    assert_eq!(syntax_error("1 2"), (Expected::EndOfInput, number("2"), 1));
}

#[test]
fn empty_input_is_a_syntax_error() {
    assert_eq!(syntax_error(""), (Expected::NumberOrGroup, Token::EOF, 0));
}

#[test]
fn division_by_zero_is_not_an_error() {
    assert!(value("1 / 0").is_infinite());
    assert!(value("0 / 0").is_nan());
}

#[test]
fn parser_works_on_given_tokens() {
    let tokens = vec![Token::LParen, number("7"), Token::RParen, Token::EOF];
    let mut parser = Parser::new(&tokens);
    let e = parser.parse().unwrap();
    assert_eq!(eval_expression(&e), 7.0);
    let missing_end = vec![number("7"), Token::Plus];
    let err = Parser::new(&missing_end).parse().unwrap_err();
    assert_eq!((err.expected, err.found, err.position), (Expected::NumberOrGroup, Token::EOF, 2));
}

#[test]
fn messages_name_the_token() {
    let err = match parse_program("(1 + 2") {
        Err(ProgramError::Syntax(e)) => e,
        _ => panic!("expected a syntax error"),
    };
    assert_eq!(err.message(), "Expected `)`, found EOF");
    let err = match parse_program("1 + 2)") {
        Err(ProgramError::Syntax(e)) => e,
        _ => panic!("expected a syntax error"),
    };
    assert_eq!(err.message(), "expected EOF: found RParen");
    let err = match parse_program("* 2") {
        Err(ProgramError::Syntax(e)) => e,
        _ => panic!("expected a syntax error"),
    };
    assert_eq!(err.message(), "Expected number, found Mul");
    let err = match parse_program("--5") {
        Err(ProgramError::Syntax(e)) => e,
        _ => panic!("expected a syntax error"),
    };
    assert_eq!(err.message(), "Expected number, found Minus");
    assert_eq!(number("3.14").describe(), "Number(\"3.14\")");
}
