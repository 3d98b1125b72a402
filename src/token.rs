use vstd::prelude::*;

use crate::number::{is_digit, lemma_number_len_bound, number_len, number_text, Number};
use crate::operator::{operator_of_char, Operator};
use crate::text::{chars_of, push_range};
use crate::trigonometric::TrigonometricFunction;

verus! {

/// A failure to parse an expression.
#[derive(Debug, Clone, PartialEq, Eq, Structural)]
pub struct ParseError {
    pub kind: ErrorKind,
}

/// The kinds of parse failure.
#[derive(Debug, Clone, PartialEq, Eq, Structural)]
pub enum ErrorKind {
    /// Nothing to parse: no operand, or an operand side left empty.
    Empty,
    /// The parentheses do not balance.
    InvalidOpenCloseParantheses,
    /// A numeric literal could not be read.
    InvalidNumberParsed,
    /// Tokens that form no expression, such as two operands with nothing between them.
    InvalidExpression,
}

/// The two parenthesis tokens.
#[derive(Debug, Clone, Copy, PartialEq, Eq, Structural)]
pub enum Parenthesis {
    Open,
    Close,
}

/// One lexical unit of an expression.
#[derive(Debug, Clone)]
pub enum Token {
    Number(Number),
    Variable(String),
    Trigonometric(TrigonometricFunction),
    Operator(Operator),
    Parenthesis(Parenthesis),
}

/// The mathematical value of a token: numbers and names by their text.
pub enum TokenView {
    Number(Seq<char>),
    Variable(Seq<char>),
    Trigonometric(TrigonometricFunction),
    Operator(Operator),
    Parenthesis(Parenthesis),
}

impl View for Token {
    type V = TokenView;

    open spec fn view(&self) -> TokenView {
        match self {
            Token::Number(n) => TokenView::Number(n@),
            Token::Variable(v) => TokenView::Variable(v@),
            Token::Trigonometric(f) => TokenView::Trigonometric(*f),
            Token::Operator(op) => TokenView::Operator(*op),
            Token::Parenthesis(p) => TokenView::Parenthesis(*p),
        }
    }
}

/// The views of a sequence of tokens.
pub open spec fn token_views(ts: Seq<Token>) -> Seq<TokenView> {
    ts.map_values(|t: Token| t@)
}

impl Token {
    /// A copy of the token.
    pub fn duplicate(&self) -> (r: Token)
        ensures
            r@ == self@,
    {
        match self {
            Token::Number(n) => Token::Number(n.duplicate()),
            Token::Variable(v) => Token::Variable(v.clone()),
            Token::Trigonometric(f) => Token::Trigonometric(*f),
            Token::Operator(op) => Token::Operator(*op),
            Token::Parenthesis(p) => Token::Parenthesis(*p),
        }
    }
}

// ---------------------------------------------------------------------------------------------
// Lexical grammar
// ---------------------------------------------------------------------------------------------

/// Characters that may continue an identifier: ASCII letters, digits and `_`.
pub open spec fn is_word_char(c: char) -> bool {
    is_digit(c) || ('a' <= c && c <= 'z') || ('A' <= c && c <= 'Z') || c == '_'
}

/// Single-character tokens: the operators and the parentheses.
pub open spec fn is_symbol(c: char) -> bool {
    operator_of_char(c) is Some || c == '(' || c == ')'
}

/// Length of the run of identifier characters that starts at `i`.
pub open spec fn word_len(s: Seq<char>, i: int) -> nat
    decreases s.len() - i,
{
    if 0 <= i < s.len() && is_word_char(s[i]) {
        1 + word_len(s, i + 1)
    } else {
        0
    }
}

/// Whether the keyword of `f` stands in `s` from position `i`.
pub open spec fn keyword_stands_at(s: Seq<char>, i: int, f: TrigonometricFunction) -> bool {
    i + f.spec_name().len() <= s.len() && s.subrange(i, i + f.spec_name().len()) == f.spec_name()
}

/// The trigonometric keyword at `i`, trying `cosec` before `cos` so that the longer keyword wins.
pub open spec fn keyword_at(s: Seq<char>, i: int) -> Option<TrigonometricFunction> {
    if keyword_stands_at(s, i, TrigonometricFunction::Sin) {
        Some(TrigonometricFunction::Sin)
    } else if keyword_stands_at(s, i, TrigonometricFunction::Cosec) {
        Some(TrigonometricFunction::Cosec)
    } else if keyword_stands_at(s, i, TrigonometricFunction::Cos) {
        Some(TrigonometricFunction::Cos)
    } else if keyword_stands_at(s, i, TrigonometricFunction::Tan) {
        Some(TrigonometricFunction::Tan)
    } else if keyword_stands_at(s, i, TrigonometricFunction::Sec) {
        Some(TrigonometricFunction::Sec)
    } else if keyword_stands_at(s, i, TrigonometricFunction::Cot) {
        Some(TrigonometricFunction::Cot)
    } else {
        None
    }
}

/// Number of characters that the lexer consumes at position `i`: a numeric literal, a keyword,
/// an identifier, one symbol, or one character that makes no token.
pub open spec fn token_len(s: Seq<char>, i: int) -> nat {
    if is_digit(s[i]) {
        number_len(s, i)
    } else if keyword_at(s, i) is Some {
        keyword_at(s, i)->0.spec_name().len()
    } else if is_word_char(s[i]) {
        word_len(s, i)
    } else {
        1
    }
}

/// The token that the lexer reads at position `i`, in this order of preference: numeric
/// literal, trigonometric keyword, identifier, operator, parenthesis. Any other character is
/// skipped and makes no token.
pub open spec fn token_at(s: Seq<char>, i: int) -> Option<TokenView> {
    if is_digit(s[i]) {
        Some(TokenView::Number(number_text(s, i)))
    } else if keyword_at(s, i) is Some {
        Some(TokenView::Trigonometric(keyword_at(s, i)->0))
    } else if is_word_char(s[i]) {
        Some(TokenView::Variable(s.subrange(i, i + word_len(s, i))))
    } else if operator_of_char(s[i]) is Some {
        Some(TokenView::Operator(operator_of_char(s[i])->0))
    } else if s[i] == '(' {
        Some(TokenView::Parenthesis(Parenthesis::Open))
    } else if s[i] == ')' {
        Some(TokenView::Parenthesis(Parenthesis::Close))
    } else {
        None
    }
}

/// An identifier run never runs past the end of the text.
pub proof fn lemma_word_len_bound(s: Seq<char>, i: int)
    requires
        0 <= i <= s.len(),
    ensures
        i + word_len(s, i) <= s.len(),
        i < s.len() && is_word_char(s[i]) ==> word_len(s, i) >= 1,
    decreases s.len() - i,
{
    if i < s.len() {
        lemma_word_len_bound(s, i + 1);
    }
}

/// Every step of the lexer consumes at least one character and stays within the text.
pub proof fn lemma_token_len_bound(s: Seq<char>, i: int)
    requires
        0 <= i < s.len(),
    ensures
        1 <= token_len(s, i),
        i + token_len(s, i) <= s.len(),
{
    if is_digit(s[i]) {
        lemma_number_len_bound(s, i);
    } else if keyword_at(s, i) is Some {
        let f = keyword_at(s, i)->0;
        assert(f.spec_name().len() >= 3);
    } else if is_word_char(s[i]) {
        lemma_word_len_bound(s, i);
    }
}

/// The tokens of `s` from position `i` on.
pub open spec fn lex_from(s: Seq<char>, i: int) -> Seq<TokenView>
    decreases s.len() - i,
{
    if 0 <= i < s.len() {
        proof {
            lemma_token_len_bound(s, i);
        }
        let rest = lex_from(s, i + token_len(s, i));
        match token_at(s, i) {
            Some(t) => seq![t] + rest,
            None => rest,
        }
    } else {
        Seq::<TokenView>::empty()
    }
}

/// The tokens of `s`.
pub open spec fn lex(s: Seq<char>) -> Seq<TokenView> {
    lex_from(s, 0)
}

/// Index of the end of the identifier run that starts at `i`.
fn word_end(chars: &Vec<char>, i: usize) -> (r: usize)
    requires
        i <= chars@.len(),
    ensures
        r == i + word_len(chars@, i as int),
        r <= chars@.len(),
{
    let mut j: usize = i;
    while j < chars.len() && is_word(chars[j])
        invariant
            i <= j <= chars@.len(),
            word_len(chars@, i as int) == (j - i) + word_len(chars@, j as int),
        decreases chars@.len() - j,
    {
        j = j + 1;
    }
    j
}

/// Whether `c` may continue an identifier.
fn is_word(c: char) -> (r: bool)
    ensures
        r == is_word_char(c),
{
    ('0' <= c && c <= '9') || ('a' <= c && c <= 'z') || ('A' <= c && c <= 'Z') || c == '_'
}

/// The trigonometric keyword at position `i`, if any (see `keyword_at`).
fn keyword_at_exec(chars: &Vec<char>, i: usize) -> (r: Option<TrigonometricFunction>)
    ensures
        r == keyword_at(chars@, i as int),
{
    if TrigonometricFunction::Sin.matches_at(chars, i) {
        Some(TrigonometricFunction::Sin)
    } else if TrigonometricFunction::Cosec.matches_at(chars, i) {
        Some(TrigonometricFunction::Cosec)
    } else if TrigonometricFunction::Cos.matches_at(chars, i) {
        Some(TrigonometricFunction::Cos)
    } else if TrigonometricFunction::Tan.matches_at(chars, i) {
        Some(TrigonometricFunction::Tan)
    } else if TrigonometricFunction::Sec.matches_at(chars, i) {
        Some(TrigonometricFunction::Sec)
    } else if TrigonometricFunction::Cot.matches_at(chars, i) {
        Some(TrigonometricFunction::Cot)
    } else {
        None
    }
}

/// Splits `expression` into tokens, left to right (see `token_at` for the grammar).
/// Characters that belong to no token are skipped. Every run of digits is a valid literal,
/// so this never fails.
pub fn tokenize(expression: &str) -> (r: Result<Vec<Token>, ParseError>)
    ensures
        r matches Ok(ts) && token_views(ts@) == lex(expression@),
{
    let chars = chars_of(expression);
    let ghost s = chars@;
    let n = chars.len();
    let mut tokens: Vec<Token> = Vec::new();
    let mut i: usize = 0;
    while i < n
        invariant
            s == chars@,
            n == s.len(),
            0 <= i <= n,
            token_views(tokens@) + lex_from(s, i as int) == lex(s),
        decreases n - i,
    {
        let ghost before = tokens@;
        let c = chars[i];
        let next: usize;
        if '0' <= c && c <= '9' {
            let (num, end) = Number::scan(&chars, i);
            tokens.push(Token::Number(num));
            next = end;
        } else {
            match keyword_at_exec(&chars, i) {
                Some(f) => {
                    tokens.push(Token::Trigonometric(f));
                    next = i + f.name_len();
                },
                None => {
                    if is_word(c) {
                        let end = word_end(&chars, i);
                        let mut name = String::new();
                        push_range(&mut name, &chars, i, end);
                        tokens.push(Token::Variable(name));
                        next = end;
                    } else {
                        match Operator::from_char(c) {
                            Some(op) => {
                                tokens.push(Token::Operator(op));
                            },
                            None => {
                                if c == '(' {
                                    tokens.push(Token::Parenthesis(Parenthesis::Open));
                                } else if c == ')' {
                                    tokens.push(Token::Parenthesis(Parenthesis::Close));
                                }
                            },
                        }
                        next = i + 1;
                    }
                },
            }
        }
        assert(next == i + token_len(s, i as int));
        proof {
            lemma_token_len_bound(s, i as int);
        }
        proof {
            let ghost t = token_at(s, i as int);
            if t is Some {
                assert(tokens@ == before.push(tokens@.last()));
                assert(token_views(tokens@) =~= token_views(before).push(t->0));
            } else {
                assert(tokens@ == before);
            }
        }
        i = next;
    }
    proof {
        assert(token_views(tokens@) + Seq::<TokenView>::empty() =~= token_views(tokens@));
    }
    Ok(tokens)
}

// ---------------------------------------------------------------------------------------------
// Parenthesis balance
// ---------------------------------------------------------------------------------------------

/// Whether `t` is `(`.
pub open spec fn is_open(t: TokenView) -> bool {
    t == TokenView::Parenthesis(Parenthesis::Open)
}

/// Whether `t` is `)`.
pub open spec fn is_close(t: TokenView) -> bool {
    t == TokenView::Parenthesis(Parenthesis::Close)
}

/// Whether the last parenthesis among `ts` is `(`. The balance check tracks one open/closed
/// flag: `(` sets it, `)` clears it, so what it finally tells is exactly this.
pub open spec fn ends_open(ts: Seq<TokenView>) -> bool
    decreases ts.len(),
{
    if ts.len() == 0 {
        false
    } else if is_open(ts.last()) {
        true
    } else if is_close(ts.last()) {
        false
    } else {
        ends_open(ts.drop_last())
    }
}

/// Whether some token of `ts` is not a parenthesis.
pub open spec fn has_operand(ts: Seq<TokenView>) -> bool {
    exists|i: int| 0 <= i < ts.len() && !(ts[i] is Parenthesis)
}

/// Outcome of the balance check on `ts`.
pub open spec fn validate_spec(ts: Seq<TokenView>) -> Result<(), ErrorKind> {
    if ends_open(ts) {
        Err(ErrorKind::InvalidOpenCloseParantheses)
    } else if !has_operand(ts) {
        Err(ErrorKind::Empty)
    } else {
        Ok(())
    }
}

/// The balance check on `tokens[lo..hi]`.
pub(crate) fn validate_range(tokens: &[Token], lo: usize, hi: usize) -> (r: Result<(), ErrorKind>)
    requires
        lo <= hi <= tokens@.len(),
    ensures
        r == validate_spec(token_views(tokens@).subrange(lo as int, hi as int)),
{
    let ghost vs = token_views(tokens@);
    let mut paranthesis_count: usize = 0;
    let mut open_close = false;
    let mut all_other_count: usize = 0;
    let mut k: usize = lo;
    while k < hi
        invariant
            vs == token_views(tokens@),
            lo <= k <= hi <= tokens@.len(),
            open_close == ends_open(vs.subrange(lo as int, k as int)),
            paranthesis_count == (if open_close { 1usize } else { 0usize }),
            all_other_count <= k - lo,
            (all_other_count > 0) == has_operand(vs.subrange(lo as int, k as int)),
        decreases hi - k,
    {
        let ghost prev = vs.subrange(lo as int, k as int);
        let ghost next = vs.subrange(lo as int, k + 1);
        assert(next.drop_last() =~= prev);
        assert(next.last() == tokens@[k as int]@);
        match &tokens[k] {
            Token::Parenthesis(p) => {
                if *p == Parenthesis::Open && !open_close {
                    paranthesis_count = paranthesis_count + 1;
                    open_close = true;
                }
                if *p == Parenthesis::Close && open_close {
                    paranthesis_count = paranthesis_count - 1;
                    open_close = false;
                }
                assert(has_operand(next) ==> has_operand(prev)) by {
                    if has_operand(next) {
                        let i = choose|i: int| 0 <= i < next.len() && !(next[i] is Parenthesis);
                        assert(prev[i] == next[i]);
                    }
                }
            },
            _ => {
                all_other_count = all_other_count + 1;
                assert(!(next[k - lo] is Parenthesis));
            },
        }
        assert(has_operand(prev) ==> has_operand(next)) by {
            if has_operand(prev) {
                let i = choose|i: int| 0 <= i < prev.len() && !(prev[i] is Parenthesis);
                assert(prev[i] == next[i]);
            }
        }
        k = k + 1;
    }
    if paranthesis_count != 0 {
        return Err(ErrorKind::InvalidOpenCloseParantheses);
    }
    if all_other_count == 0 {
        return Err(ErrorKind::Empty);
    }
    Ok(())
}

/// Checks that the parentheses of `tokens` balance, by the single-flag rule of `ends_open`,
/// and that some token is not a parenthesis.
pub fn validate(tokens: &[Token]) -> (r: Result<(), ParseError>)
    ensures
        r is Ok <==> validate_spec(token_views(tokens@)) is Ok,
        r matches Err(e) ==> validate_spec(token_views(tokens@)) == Err::<(), ErrorKind>(e.kind),
{
    proof {
        assert(token_views(tokens@).subrange(0, tokens@.len() as int) =~= token_views(tokens@));
    }
    match validate_range(tokens, 0, tokens.len()) {
        Ok(()) => Ok(()),
        Err(kind) => Err(ParseError { kind }),
    }
}

/// `ts` with every enclosing pair of parentheses removed whose interior passes the balance
/// check on its own.
pub open spec fn trim_spec(ts: Seq<TokenView>) -> Seq<TokenView>
    decreases ts.len(),
{
    if ts.len() >= 2 && is_open(ts[0]) && is_close(ts.last()) && validate_spec(
        ts.subrange(1, ts.len() - 1),
    ) is Ok {
        trim_spec(ts.subrange(1, ts.len() - 1))
    } else {
        ts
    }
}

/// Trimming keeps a middle part of the tokens.
pub proof fn lemma_trim_middle(ts: Seq<TokenView>)
    ensures
        exists|k: int|
            0 <= k && 2 * k <= ts.len() && trim_spec(ts) == #[trigger] ts.subrange(k, ts.len() - k),
    decreases ts.len(),
{
    if ts.len() >= 2 && is_open(ts[0]) && is_close(ts.last()) && validate_spec(
        ts.subrange(1, ts.len() - 1),
    ) is Ok {
        let inner = ts.subrange(1, ts.len() - 1);
        lemma_trim_middle(inner);
        let k = choose|k: int|
            0 <= k && 2 * k <= inner.len() && trim_spec(inner) == #[trigger] inner.subrange(
                k,
                inner.len() - k,
            );
        assert(inner.subrange(k, inner.len() - k) =~= ts.subrange(k + 1, ts.len() - (k + 1)));
    } else {
        assert(ts.subrange(0, ts.len() as int) =~= ts);
    }
}

/// Bounds of `trim_spec` applied to `tokens[lo..hi]`.
pub(crate) fn trim_range(tokens: &[Token], lo: usize, hi: usize) -> (r: (usize, usize))
    requires
        lo <= hi <= tokens@.len(),
    ensures
        lo <= r.0 <= r.1 <= hi,
        token_views(tokens@).subrange(r.0 as int, r.1 as int) == trim_spec(
            token_views(tokens@).subrange(lo as int, hi as int),
        ),
{
    let ghost vs = token_views(tokens@);
    let mut a = lo;
    let mut b = hi;
    loop
        invariant
            vs == token_views(tokens@),
            lo <= a <= b <= hi <= tokens@.len(),
            trim_spec(vs.subrange(a as int, b as int)) == trim_spec(
                vs.subrange(lo as int, hi as int),
            ),
        ensures
            lo <= a <= b <= hi,
            vs.subrange(a as int, b as int) == trim_spec(vs.subrange(lo as int, hi as int)),
        decreases b - a,
    {
        let ghost cur = vs.subrange(a as int, b as int);
        if b - a >= 2 {
            let first_open = match &tokens[a] {
                Token::Parenthesis(Parenthesis::Open) => true,
                _ => false,
            };
            let last_close = match &tokens[b - 1] {
                Token::Parenthesis(Parenthesis::Close) => true,
                _ => false,
            };
            assert(first_open == is_open(cur[0]));
            assert(last_close == is_close(cur.last()));
            if first_open && last_close {
                let inner = validate_range(tokens, a + 1, b - 1);
                assert(cur.subrange(1, cur.len() - 1) =~= vs.subrange(a + 1, b - 1));
                if inner.is_ok() {
                    a = a + 1;
                    b = b - 1;
                    continue;
                }
            }
        }
        break;
    }
    (a, b)
}

/// `tokens` with every enclosing pair of parentheses removed whose interior passes the
/// balance check on its own (see `trim_spec`).
pub fn trim_parantheses(tokens: &[Token]) -> (r: Vec<Token>)
    ensures
        token_views(r@) == trim_spec(token_views(tokens@)),
{
    let (a, b) = trim_range(tokens, 0, tokens.len());
    proof {
        assert(token_views(tokens@).subrange(0, tokens@.len() as int) =~= token_views(tokens@));
    }
    let mut r: Vec<Token> = Vec::new();
    let mut k = a;
    while k < b
        invariant
            a <= k <= b <= tokens@.len(),
            token_views(r@) =~= token_views(tokens@).subrange(a as int, k as int),
        decreases b - k,
    {
        let ghost before = r@;
        r.push(tokens[k].duplicate());
        assert(token_views(r@) =~= token_views(before).push(tokens@[k as int]@));
        k = k + 1;
    }
    r
}

} // verus!
