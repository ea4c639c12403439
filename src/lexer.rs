use vstd::prelude::*;
use vstd::string::{StrSliceExecFns, StringExecFns};

verus! {

/// One lexical unit of an arithmetic expression.
#[derive(Debug, Clone, PartialEq)]
pub enum Token {
    /// The verbatim text of a numeric literal: `digit+ ('.' digit+)?`.
    Number(String),
    Plus,
    Minus,
    Mul,
    Div,
    LParen,
    RParen,
    /// A `.` that is not part of a numeric literal, as in `3.` or `3.+1`. The
    /// grammar has no place for it, so the parser always rejects it as an
    /// unexpected token; the scanner only hands it on so that the error is a
    /// syntax error naming the dot rather than a fatal lexical one.
    Dot,
    EOF,
}

/// The mathematical content of a `Token`.
pub enum Lexeme {
    Number(Seq<char>),
    Plus,
    Minus,
    Mul,
    Div,
    LParen,
    RParen,
    Dot,
    End,
}

impl View for Token {
    type V = Lexeme;

    open spec fn view(&self) -> Lexeme {
        match self {
            Token::Number(s) => Lexeme::Number(s@),
            Token::Plus => Lexeme::Plus,
            Token::Minus => Lexeme::Minus,
            Token::Mul => Lexeme::Mul,
            Token::Div => Lexeme::Div,
            Token::LParen => Lexeme::LParen,
            Token::RParen => Lexeme::RParen,
            Token::Dot => Lexeme::Dot,
            Token::EOF => Lexeme::End,
        }
    }
}

/// How a token is written in messages.
pub open spec fn describe_lexeme(l: Lexeme) -> Seq<char> {
    match l {
        Lexeme::Number(s) => "Number(\""@ + s + "\")"@,
        Lexeme::Plus => "Plus"@,
        Lexeme::Minus => "Minus"@,
        Lexeme::Mul => "Mul"@,
        Lexeme::Div => "Div"@,
        Lexeme::LParen => "LParen"@,
        Lexeme::RParen => "RParen"@,
        Lexeme::Dot => "Dot"@,
        Lexeme::End => "EOF"@,
    }
}

impl Token {
    /// How the token is written in messages: its variant, and a literal's text
    /// in quotes.
    pub fn describe(&self) -> (r: String)
        ensures
            r@ == describe_lexeme(self@),
    {
        match self {
            Token::Number(s) => <String as StringExecFns>::from_str("Number(\"").concat(
                s.as_str(),
            ).concat("\")"),
            Token::Plus => <String as StringExecFns>::from_str("Plus"),
            Token::Minus => <String as StringExecFns>::from_str("Minus"),
            Token::Mul => <String as StringExecFns>::from_str("Mul"),
            Token::Div => <String as StringExecFns>::from_str("Div"),
            Token::LParen => <String as StringExecFns>::from_str("LParen"),
            Token::RParen => <String as StringExecFns>::from_str("RParen"),
            Token::Dot => <String as StringExecFns>::from_str("Dot"),
            Token::EOF => <String as StringExecFns>::from_str("EOF"),
        }
    }
}

/// The lexemes of a sequence of tokens, in order.
pub open spec fn lexemes(v: Seq<Token>) -> Seq<Lexeme> {
    v.map_values(|t: Token| t@)
}

/// An input character that starts no token, with its 0-based position.
#[derive(Debug, Clone, Copy, PartialEq, Eq, Structural)]
pub struct ScanError {
    pub character: char,
    pub position: usize,
}

pub open spec fn is_digit(c: char) -> bool {
    '0' <= c && c <= '9'
}

/// Whitespace that separates tokens: space, tab and carriage return.
pub open spec fn is_blank(c: char) -> bool {
    c == ' ' || c == '\t' || c == '\r'
}

/// The token of a one-character operator or parenthesis, or of a dot that
/// does not continue a numeric literal.
pub open spec fn single_char_lexeme(c: char) -> Option<Lexeme> {
    if c == '+' {
        Some(Lexeme::Plus)
    } else if c == '-' {
        Some(Lexeme::Minus)
    } else if c == '*' {
        Some(Lexeme::Mul)
    } else if c == '/' {
        Some(Lexeme::Div)
    } else if c == '(' {
        Some(Lexeme::LParen)
    } else if c == ')' {
        Some(Lexeme::RParen)
    } else if c == '.' {
        Some(Lexeme::Dot)
    } else {
        None
    }
}

/// The end of the run of digits that starts at `i`.
pub open spec fn digits_end(s: Seq<char>, i: int) -> int
    decreases s.len() - i,
{
    if 0 <= i < s.len() && is_digit(s[i]) {
        digits_end(s, i + 1)
    } else {
        i
    }
}

/// The end of the numeric literal that starts at `i`: its digits, then a dot
/// and more digits only when a digit follows the dot.
pub open spec fn number_end(s: Seq<char>, i: int) -> int {
    let j = digits_end(s, i);
    if j + 1 < s.len() && s[j] == '.' && is_digit(s[j + 1]) {
        digits_end(s, j + 1)
    } else {
        j
    }
}

pub open spec fn prepend(t: Lexeme, r: Result<Seq<Lexeme>, ScanError>) -> Result<
    Seq<Lexeme>,
    ScanError,
> {
    match r {
        Ok(ts) => Ok(seq![t] + ts),
        Err(e) => Err(e),
    }
}

/// The tokens of `s` from position `i` on, ended by `End`, or the first
/// character that starts no token.
pub open spec fn scan_from(s: Seq<char>, i: int) -> Result<Seq<Lexeme>, ScanError>
    decreases s.len() - i,
    via scan_from_decreases
{
    if i < 0 || i >= s.len() {
        Ok(seq![Lexeme::End])
    } else if is_blank(s[i]) {
        scan_from(s, i + 1)
    } else if single_char_lexeme(s[i]) is Some {
        prepend(single_char_lexeme(s[i])->0, scan_from(s, i + 1))
    } else if is_digit(s[i]) {
        let e = number_end(s, i);
        prepend(Lexeme::Number(s.subrange(i, e)), scan_from(s, e))
    } else {
        Err(ScanError { character: s[i], position: i as usize })
    }
}

pub proof fn lemma_digits_end(s: Seq<char>, i: int)
    requires
        0 <= i <= s.len(),
    ensures
        i <= digits_end(s, i) <= s.len(),
        forall|k: int| i <= k < digits_end(s, i) ==> is_digit(#[trigger] s[k]),
        digits_end(s, i) < s.len() ==> !is_digit(s[digits_end(s, i)]),
    decreases s.len() - i,
{
    if i < s.len() && is_digit(s[i]) {
        lemma_digits_end(s, i + 1);
    }
}

#[via_fn]
proof fn scan_from_decreases(s: Seq<char>, i: int) {
    if 0 <= i < s.len() && !is_blank(s[i]) && single_char_lexeme(s[i]) is None && is_digit(
        s[i],
    ) {
        lemma_digits_end(s, i);
        let j = digits_end(s, i);
        if j + 1 < s.len() && s[j] == '.' && is_digit(s[j + 1]) {
            lemma_digits_end(s, j + 1);
        }
    }
}

proof fn lemma_prepend_assoc(a: Seq<Lexeme>, t: Lexeme, r: Result<Seq<Lexeme>, ScanError>)
    ensures
        (match prepend(t, r) {
            Ok(ts) => Ok(a + ts),
            Err(e) => Err::<Seq<Lexeme>, ScanError>(e),
        }) == (match r {
            Ok(ts) => Ok((a + seq![t]) + ts),
            Err(e) => Err::<Seq<Lexeme>, ScanError>(e),
        }),
{
    if let Ok(ts) = r {
        assert(a + (seq![t] + ts) =~= (a + seq![t]) + ts);
    }
}

/// A character that no token contains: not blank, not a digit, not a dot,
/// not an operator or a parenthesis.
pub open spec fn is_foreign(c: char) -> bool {
    !is_blank(c) && !is_digit(c) && single_char_lexeme(c) is None
}

proof fn lemma_number_chars(s: Seq<char>, i: int)
    requires
        0 <= i < s.len(),
        is_digit(s[i]),
    ensures
        i < number_end(s, i) <= s.len(),
        forall|k: int| i <= k < number_end(s, i) ==> is_digit(#[trigger] s[k]) || s[k] == '.',
{
    lemma_digits_end(s, i);
    lemma_digits_end(s, i + 1);
    let j = digits_end(s, i);
    if j + 1 < s.len() && s[j] == '.' && is_digit(s[j + 1]) {
        lemma_digits_end(s, j + 1);
    }
}

/// A character that no token contains makes scanning fail: the input is
/// refused before any parsing, wherever the character stands.
pub proof fn lemma_foreign_character_fails(s: Seq<char>, i: int, k: int)
    requires
        0 <= i <= k < s.len(),
        is_foreign(s[k]),
    ensures
        scan_from(s, i) is Err,
    decreases s.len() - i,
{
    if i < k {
        if is_blank(s[i]) || single_char_lexeme(s[i]) is Some {
            lemma_foreign_character_fails(s, i + 1, k);
        } else if is_digit(s[i]) {
            lemma_number_chars(s, i);
            let e = number_end(s, i);
            if k < e {
                assert(is_digit(s[k]) || s[k] == '.');
            }
            lemma_foreign_character_fails(s, e, k);
        }
    }
}

/// `t` is a run of `j` digits, then either nothing or a dot and more digits.
pub open spec fn decimal_split(t: Seq<char>, j: int) -> bool {
    &&& 0 < j <= t.len()
    &&& forall|k: int| 0 <= k < j ==> is_digit(#[trigger] t[k])
    &&& j == t.len() || (t[j] == '.' && j + 1 < t.len() && forall|k: int|
        j < k < t.len() ==> is_digit(#[trigger] t[k]))
}

/// `t` is `digit+ ('.' digit+)?`.
pub open spec fn is_decimal_literal(t: Seq<char>) -> bool {
    exists|j: int| decimal_split(t, j)
}

/// Every numeric token in `ts` holds a well-formed decimal literal.
pub open spec fn literals_well_formed(ts: Seq<Lexeme>) -> bool {
    forall|k: int| 0 <= k < ts.len() && (#[trigger] ts[k]) is Number ==> is_decimal_literal(
        ts[k]->Number_0,
    )
}

proof fn lemma_number_is_decimal(s: Seq<char>, i: int)
    requires
        0 <= i < s.len(),
        is_digit(s[i]),
    ensures
        is_decimal_literal(s.subrange(i, number_end(s, i))),
{
    lemma_digits_end(s, i);
    lemma_digits_end(s, i + 1);
    lemma_number_chars(s, i);
    let j = digits_end(s, i);
    let e = number_end(s, i);
    let t = s.subrange(i, e);
    assert(forall|k: int| 0 <= k < t.len() ==> t[k] == s[k + i]);
    if j + 1 < s.len() && s[j] == '.' && is_digit(s[j + 1]) {
        lemma_digits_end(s, j + 1);
        lemma_digits_end(s, j + 2);
        assert(forall|k: int| j - i < k < t.len() ==> is_digit(#[trigger] t[k])) by {
            assert(forall|k: int| j + 1 <= k < e ==> is_digit(#[trigger] s[k]));
        }
    }
    assert(decimal_split(t, j - i));
}

/// The scanner only hands on numeric tokens of the form
/// `digit+ ('.' digit+)?`, so each one reads as a decimal number.
pub proof fn lemma_scanned_literals_well_formed(s: Seq<char>, i: int)
    requires
        scan_from(s, i) is Ok,
    ensures
        literals_well_formed(scan_from(s, i)->Ok_0),
    decreases s.len() - i,
{
    if 0 <= i < s.len() {
        if is_blank(s[i]) {
            lemma_scanned_literals_well_formed(s, i + 1);
        } else if single_char_lexeme(s[i]) is Some {
            lemma_scanned_literals_well_formed(s, i + 1);
            let rest = scan_from(s, i + 1)->Ok_0;
            assert(forall|k: int| 0 < k < rest.len() + 1 ==> (seq![single_char_lexeme(s[i])->0] + rest)[k] == rest[k - 1]);
        } else if is_digit(s[i]) {
            lemma_number_chars(s, i);
            lemma_number_is_decimal(s, i);
            let e = number_end(s, i);
            lemma_scanned_literals_well_formed(s, e);
            let rest = scan_from(s, e)->Ok_0;
            assert(forall|k: int| 0 < k < rest.len() + 1 ==> (seq![Lexeme::Number(s.subrange(i, e))] + rest)[k] == rest[k - 1]);
        }
    }
}

/// A dot with no digit after it ends the literal in front of it: the literal
/// keeps its digits and the dot becomes a token of its own.
pub proof fn lemma_trailing_dot(s: Seq<char>, i: int)
    requires
        0 <= i < s.len(),
        is_digit(s[i]),
        digits_end(s, i) < s.len(),
        s[digits_end(s, i)] == '.',
        !(digits_end(s, i) + 1 < s.len() && is_digit(s[digits_end(s, i) + 1])),
    ensures
        scan_from(s, i) == prepend(
            Lexeme::Number(s.subrange(i, digits_end(s, i))),
            prepend(Lexeme::Dot, scan_from(s, digits_end(s, i) + 1)),
        ),
{
    lemma_digits_end(s, i);
    lemma_digits_end(s, i + 1);
    let j = digits_end(s, i);
    assert(number_end(s, i) == j);
    assert(scan_from(s, j) == prepend(Lexeme::Dot, scan_from(s, j + 1)));
}

/// The result of scanning the whole of `s`.
pub open spec fn scan_spec(s: Seq<char>) -> Result<Seq<Lexeme>, ScanError> {
    scan_from(s, 0)
}

/// Turns program text into tokens, one character of lookahead at a time.
pub struct Lexer {
    chars: Vec<char>,
    text: String,
    index: usize,
}

impl Lexer {
    /// The characters of the program.
    pub closed spec fn source(&self) -> Seq<char> {
        self.chars@
    }

    /// The position of the current character.
    pub closed spec fn cursor(&self) -> int {
        self.index as int
    }

    pub closed spec fn wf(&self) -> bool {
        &&& self.text@ == self.chars@
        &&& self.index <= self.chars@.len()
        &&& self.chars@.len() <= usize::MAX
    }

    pub fn new(program: &str) -> (r: Lexer)
        ensures
            r.wf(),
            r.source() == program@,
            r.cursor() == 0,
    {
        let n: usize = program.unicode_len();
        let mut chars: Vec<char> = Vec::new();
        let mut i: usize = 0;
        while i < n
            invariant
                n == program@.len(),
                i <= n,
                chars@ == program@.subrange(0, i as int),
            decreases n - i,
        {
            chars.push(program.get_char(i));
            i = i + 1;
        }
        assert(chars@ =~= program@);
        Lexer { chars, text: program.to_owned(), index: 0 }
    }

    /// Moves to the next character of the program.
    fn advance(&mut self)
        requires
            old(self).wf(),
            old(self).index < old(self).chars@.len(),
        ensures
            final(self).wf(),
            final(self).chars == old(self).chars,
            final(self).text == old(self).text,
            final(self).index == old(self).index + 1,
    {
        self.index = self.index + 1;
    }

    /// The character after the current one, if any.
    fn lookahead(&self) -> (r: Option<char>)
        requires
            self.wf(),
        ensures
            r == (if self.index + 1 < self.chars@.len() {
                Some(self.chars@[self.index + 1])
            } else {
                None::<char>
            }),
    {
        if self.index < self.chars.len() && self.index + 1 < self.chars.len() {
            Some(self.chars[self.index + 1])
        } else {
            None
        }
    }

    fn make_single_char(&mut self, input: char) -> (r: Token)
        requires
            old(self).wf(),
            old(self).index < old(self).chars@.len(),
            old(self).chars@[old(self).index as int] == input,
            single_char_lexeme(input) is Some,
        ensures
            final(self).wf(),
            final(self).chars == old(self).chars,
            final(self).text == old(self).text,
            final(self).index == old(self).index + 1,
            Some(r@) == single_char_lexeme(input),
    {
        self.advance();
        match input {
            '+' => Token::Plus,
            '-' => Token::Minus,
            '*' => Token::Mul,
            '/' => Token::Div,
            '(' => Token::LParen,
            ')' => Token::RParen,
            _ => Token::Dot,
        }
    }

    fn skip_digits(&mut self)
        requires
            old(self).wf(),
        ensures
            final(self).wf(),
            final(self).chars == old(self).chars,
            final(self).text == old(self).text,
            final(self).index == digits_end(old(self).chars@, old(self).index as int),
    {
        proof {
            lemma_digits_end(self.chars@, self.index as int);
        }
        while self.index < self.chars.len() && '0' <= self.chars[self.index]
            && self.chars[self.index] <= '9'
            invariant
                self.wf(),
                self.chars == old(self).chars,
                self.text == old(self).text,
                old(self).index <= self.index,
                digits_end(self.chars@, self.index as int) == digits_end(
                    old(self).chars@,
                    old(self).index as int,
                ),
            decreases self.chars@.len() - self.index,
        {
            self.advance();
        }
    }

    fn make_number(&mut self) -> (r: Token)
        requires
            old(self).wf(),
            old(self).index < old(self).chars@.len(),
            is_digit(old(self).chars@[old(self).index as int]),
        ensures
            final(self).wf(),
            final(self).chars == old(self).chars,
            final(self).text == old(self).text,
            final(self).index == number_end(old(self).chars@, old(self).index as int),
            final(self).index > old(self).index,
            r@ == Lexeme::Number(
                old(self).chars@.subrange(old(self).index as int, final(self).index as int),
            ),
    {
        let start: usize = self.index;
        self.skip_digits();
        proof {
            lemma_digits_end(self.chars@, start as int);
            lemma_digits_end(self.chars@, start as int + 1);
        }
        if let Some(next) = self.lookahead() {
            if self.index < self.chars.len() && self.chars[self.index] == '.' && '0' <= next
                && next <= '9' {
                self.advance();
                let ghost j = self.index as int;
                self.skip_digits();
                proof {
                    lemma_digits_end(self.chars@, j);
                }
            }
        }
        let literal = self.text.as_str().substring_char(start, self.index);
        Token::Number(literal.to_owned())
    }

    /// Scans the rest of the program: the tokens from the cursor on, ended by
    /// `EOF`, or the first character that starts no token.
    pub fn scan(&mut self) -> (r: Result<Vec<Token>, ScanError>)
        requires
            old(self).wf(),
        ensures
            final(self).wf(),
            final(self).source() == old(self).source(),
            match r {
                Ok(v) => scan_from(old(self).source(), old(self).cursor()) == Ok::<
                    Seq<Lexeme>,
                    ScanError,
                >(lexemes(v@)),
                Err(e) => scan_from(old(self).source(), old(self).cursor()) == Err::<
                    Seq<Lexeme>,
                    ScanError,
                >(e),
            },
    {
        let ghost s = self.chars@;
        let ghost start = self.index as int;
        let mut tokens: Vec<Token> = Vec::new();
        while self.index < self.chars.len()
            invariant
                self.wf(),
                self.chars@ == s,
                s == old(self).chars@,
                start == old(self).index,
                scan_from(s, start) == (match scan_from(s, self.index as int) {
                    Ok(ts) => Ok(lexemes(tokens@) + ts),
                    Err(e) => Err::<Seq<Lexeme>, ScanError>(e),
                }),
            decreases s.len() - self.index,
        {
            let c = self.chars[self.index];
            let ghost i = self.index as int;
            let ghost prev = tokens@;
            if c == ' ' || c == '\t' || c == '\r' {
                self.advance();
            } else if c == '+' || c == '-' || c == '*' || c == '/' || c == '(' || c == ')'
                || c == '.' {
                let t = self.make_single_char(c);
                tokens.push(t);
                proof {
                    assert(lexemes(tokens@) =~= lexemes(prev) + seq![t@]);
                    lemma_prepend_assoc(lexemes(prev), t@, scan_from(s, i + 1));
                }
            } else if '0' <= c && c <= '9' {
                let t = self.make_number();
                tokens.push(t);
                proof {
                    assert(lexemes(tokens@) =~= lexemes(prev) + seq![t@]);
                    lemma_prepend_assoc(lexemes(prev), t@, scan_from(s, self.index as int));
                }
            } else {
                return Err(ScanError { character: c, position: self.index });
            }
        }
        let ghost prev = tokens@;
        tokens.push(Token::EOF);
        assert(lexemes(tokens@) =~= lexemes(prev) + seq![Lexeme::End]);
        Ok(tokens)
    }
}

} // verus!
