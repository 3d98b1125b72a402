use vstd::prelude::*;

use crate::number::{
    canonical_decimal, digits_len, has_fraction, is_digit, lemma_digits_len_bound, number_len,
    number_text, strip_leading_zeros, strip_trailing_zeros,
};
use crate::operator::operator_of_char;
use crate::token::{
    is_symbol, is_word_char, keyword_at, keyword_stands_at, lemma_token_len_bound,
    lemma_word_len_bound, lex, lex_from, token_at, token_len, word_len, TokenView,
};
use crate::trigonometric::TrigonometricFunction;

verus! {

// ---------------------------------------------------------------------------------------------
// The lexer looks only forward
// ---------------------------------------------------------------------------------------------

/// `s1` from `i1` on is `s2` from `i2` on.
pub open spec fn same_suffix(s1: Seq<char>, i1: int, s2: Seq<char>, i2: int) -> bool {
    &&& 0 <= i1 <= s1.len()
    &&& 0 <= i2 <= s2.len()
    &&& s1.subrange(i1, s1.len() as int) == s2.subrange(i2, s2.len() as int)
}

/// Equal suffixes agree character by character.
pub proof fn lemma_suffix_at(s1: Seq<char>, i1: int, s2: Seq<char>, i2: int, t: int)
    requires
        same_suffix(s1, i1, s2, i2),
        0 <= t < s1.len() - i1,
    ensures
        s1[i1 + t] == s2[i2 + t],
        s1.len() - i1 == s2.len() - i2,
{
    let x = s1.subrange(i1, s1.len() as int);
    let y = s2.subrange(i2, s2.len() as int);
    assert(x.len() == y.len());
    assert(x[t] == y[t]);
}

/// Equal suffixes stay equal further on.
pub proof fn lemma_suffix_advance(s1: Seq<char>, i1: int, s2: Seq<char>, i2: int, k: int)
    requires
        same_suffix(s1, i1, s2, i2),
        0 <= k <= s1.len() - i1,
    ensures
        same_suffix(s1, i1 + k, s2, i2 + k),
        s1.len() - i1 == s2.len() - i2,
{
    let x = s1.subrange(i1, s1.len() as int);
    let y = s2.subrange(i2, s2.len() as int);
    assert(x.len() == y.len());
    assert(s1.subrange(i1 + k, s1.len() as int) =~= x.subrange(k, x.len() as int));
    assert(s2.subrange(i2 + k, s2.len() as int) =~= x.subrange(k, x.len() as int));
}

/// Runs of digits and of identifier characters depend only on the suffix.
pub proof fn lemma_suffix_runs(s1: Seq<char>, i1: int, s2: Seq<char>, i2: int)
    requires
        same_suffix(s1, i1, s2, i2),
    ensures
        digits_len(s1, i1) == digits_len(s2, i2),
        word_len(s1, i1) == word_len(s2, i2),
    decreases s1.len() - i1,
{
    lemma_suffix_advance(s1, i1, s2, i2, 0);
    if i1 < s1.len() {
        lemma_suffix_at(s1, i1, s2, i2, 0);
        lemma_suffix_advance(s1, i1, s2, i2, 1);
        lemma_suffix_runs(s1, i1 + 1, s2, i2 + 1);
    }
}

/// Slices of equal suffixes are equal.
pub proof fn lemma_suffix_subrange(s1: Seq<char>, i1: int, s2: Seq<char>, i2: int, a: int, b: int)
    requires
        same_suffix(s1, i1, s2, i2),
        0 <= a <= b <= s1.len() - i1,
    ensures
        s1.subrange(i1 + a, i1 + b) == s2.subrange(i2 + a, i2 + b),
{
    let x = s1.subrange(i1, s1.len() as int);
    assert(s1.subrange(i1 + a, i1 + b) =~= x.subrange(a, b));
    assert(s2.subrange(i2 + a, i2 + b) =~= x.subrange(a, b));
}

/// The token at a position depends only on the suffix from there.
pub proof fn lemma_suffix_token(s1: Seq<char>, i1: int, s2: Seq<char>, i2: int)
    requires
        same_suffix(s1, i1, s2, i2),
        i1 < s1.len(),
    ensures
        token_len(s1, i1) == token_len(s2, i2),
        token_at(s1, i1) == token_at(s2, i2),
{
    lemma_suffix_at(s1, i1, s2, i2, 0);
    lemma_suffix_runs(s1, i1, s2, i2);
    let d = digits_len(s1, i1) as int;
    lemma_digits_len_bound(s1, i1);
    if d + 1 < s1.len() - i1 {
        lemma_suffix_at(s1, i1, s2, i2, d);
        lemma_suffix_at(s1, i1, s2, i2, d + 1);
    }
    assert(has_fraction(s1, i1) == has_fraction(s2, i2));
    if has_fraction(s1, i1) {
        lemma_suffix_advance(s1, i1, s2, i2, d + 1);
        lemma_suffix_runs(s1, i1 + d + 1, s2, i2 + d + 1);
    }
    assert(number_len(s1, i1) == number_len(s2, i2));
    if is_digit(s1[i1]) {
        crate::number::lemma_number_len_bound(s1, i1);
        let n = number_len(s1, i1) as int;
        lemma_suffix_subrange(s1, i1, s2, i2, 0, d);
        if has_fraction(s1, i1) {
            lemma_suffix_subrange(s1, i1, s2, i2, d + 1, n);
        }
    }
    assert forall|f: TrigonometricFunction|
        keyword_stands_at(s1, i1, f) == keyword_stands_at(s2, i2, f) by {
        let l = f.spec_name().len() as int;
        if l <= s1.len() - i1 {
            lemma_suffix_subrange(s1, i1, s2, i2, 0, l);
        }
    }
    assert(keyword_at(s1, i1) == keyword_at(s2, i2));
    if is_word_char(s1[i1]) {
        lemma_word_len_bound(s1, i1);
        lemma_suffix_subrange(s1, i1, s2, i2, 0, word_len(s1, i1) as int);
    }
}

/// The tokens from a position depend only on the text from that position on.
pub proof fn lemma_suffix_lex(s1: Seq<char>, i1: int, s2: Seq<char>, i2: int)
    requires
        same_suffix(s1, i1, s2, i2),
    ensures
        lex_from(s1, i1) == lex_from(s2, i2),
    decreases s1.len() - i1,
{
    lemma_suffix_advance(s1, i1, s2, i2, 0);
    if i1 < s1.len() {
        lemma_suffix_token(s1, i1, s2, i2);
        lemma_token_len_bound(s1, i1);
        let k = token_len(s1, i1) as int;
        lemma_suffix_advance(s1, i1, s2, i2, k);
        lemma_suffix_lex(s1, i1 + k, s2, i2 + k);
    }
}

// ---------------------------------------------------------------------------------------------
// A symbol ends every token before it
// ---------------------------------------------------------------------------------------------

/// `b` is empty or starts with an operator or a parenthesis.
pub open spec fn starts_with_symbol(b: Seq<char>) -> bool {
    b.len() == 0 || is_symbol(b[0])
}

/// Keywords are made of letters.
pub proof fn lemma_keyword_letters(f: TrigonometricFunction, k: int)
    requires
        0 <= k < f.spec_name().len(),
    ensures
        !is_symbol(f.spec_name()[k]),
        f.spec_name()[k] != '.',
        !is_digit(f.spec_name()[k]),
{
}

/// A symbol ends any run of digits or identifier characters.
pub proof fn lemma_symbol_stops_runs(a: Seq<char>, b: Seq<char>, i: int)
    requires
        starts_with_symbol(b),
        0 <= i <= a.len(),
    ensures
        digits_len(a + b, i) == digits_len(a, i),
        word_len(a + b, i) == word_len(a, i),
    decreases a.len() - i,
{
    if i < a.len() {
        assert((a + b)[i] == a[i]);
        lemma_symbol_stops_runs(a, b, i + 1);
    } else if b.len() > 0 {
        assert((a + b)[i] == b[0]);
    }
}

/// The token at a position of `a` is the same in `a + b` when `b` starts with a symbol.
pub proof fn lemma_symbol_stops_token(a: Seq<char>, b: Seq<char>, i: int)
    requires
        starts_with_symbol(b),
        0 <= i < a.len(),
    ensures
        token_len(a + b, i) == token_len(a, i),
        token_at(a + b, i) == token_at(a, i),
{
    let s = a + b;
    assert(s[i] == a[i]);
    lemma_symbol_stops_runs(a, b, i);
    lemma_digits_len_bound(a, i);
    let d = digits_len(a, i) as int;
    if i + d + 1 < a.len() {
        assert(s[i + d] == a[i + d]);
        assert(s[i + d + 1] == a[i + d + 1]);
    } else if i + d + 1 == a.len() {
        assert(s[i + d] == a[i + d]);
        if b.len() > 0 {
            assert(s[i + d + 1] == b[0]);
        }
    } else if b.len() > 0 {
        assert(s[i + d] == b[0]);
    }
    assert(has_fraction(s, i) == has_fraction(a, i));
    if has_fraction(a, i) {
        lemma_symbol_stops_runs(a, b, i + d + 1);
    }
    if is_digit(a[i]) {
        crate::number::lemma_number_len_bound(a, i);
        let n = number_len(a, i) as int;
        assert(s.subrange(i, i + d) =~= a.subrange(i, i + d));
        if has_fraction(a, i) {
            assert(s.subrange(i + d + 1, i + n) =~= a.subrange(i + d + 1, i + n));
        }
    }
    assert forall|f: TrigonometricFunction|
        keyword_stands_at(s, i, f) == keyword_stands_at(a, i, f) by {
        let l = f.spec_name().len() as int;
        if i + l <= a.len() {
            assert(s.subrange(i, i + l) =~= a.subrange(i, i + l));
        } else if i + l <= s.len() {
            let k = a.len() - i;
            lemma_keyword_letters(f, k);
            assert(s.subrange(i, i + l)[k] == b[0]);
        }
    }
    if is_word_char(a[i]) {
        lemma_word_len_bound(a, i);
        assert(s.subrange(i, i + word_len(a, i)) =~= a.subrange(i, i + word_len(a, i)));
    }
}

/// Tokens of `a + b` from a position of `a`, when `b` starts with a symbol.
pub proof fn lemma_lex_from_append(a: Seq<char>, b: Seq<char>, i: int)
    requires
        starts_with_symbol(b),
        0 <= i <= a.len(),
    ensures
        lex_from(a + b, i) == lex_from(a, i) + lex(b),
    decreases a.len() - i,
{
    if i < a.len() {
        lemma_symbol_stops_token(a, b, i);
        lemma_token_len_bound(a, i);
        lemma_lex_from_append(a, b, i + token_len(a, i));
        match token_at(a, i) {
            Some(t) => {
                assert(seq![t] + (lex_from(a, i + token_len(a, i)) + lex(b)) =~= (seq![t]
                    + lex_from(a, i + token_len(a, i))) + lex(b));
            },
            None => {},
        }
    } else {
        assert((a + b).subrange(a.len() as int, (a + b).len() as int) =~= b.subrange(
            0,
            b.len() as int,
        ));
        lemma_suffix_lex(a + b, a.len() as int, b, 0);
        assert(lex_from(a, i) =~= Seq::<TokenView>::empty());
        assert(Seq::<TokenView>::empty() + lex(b) =~= lex(b));
    }
}

/// Text that a symbol follows is read apart from what follows.
pub proof fn lemma_lex_append(a: Seq<char>, b: Seq<char>)
    requires
        starts_with_symbol(b),
    ensures
        lex(a + b) == lex(a) + lex(b),
{
    lemma_lex_from_append(a, b, 0);
}

/// A symbol is one token, read apart from what follows.
pub proof fn lemma_lex_symbol_prefix(c: char, b: Seq<char>)
    requires
        is_symbol(c),
    ensures
        lex(seq![c] + b) == lex(seq![c]) + lex(b),
        lex(seq![c]) == seq![
            if c == '(' {
                TokenView::Parenthesis(crate::token::Parenthesis::Open)
            } else if c == ')' {
                TokenView::Parenthesis(crate::token::Parenthesis::Close)
            } else {
                TokenView::Operator(operator_of_char(c)->0)
            },
        ],
{
    let s = seq![c] + b;
    assert(s[0] == c);
    assert(!is_digit(c));
    assert(keyword_at(s, 0) is None) by {
        assert forall|f: TrigonometricFunction| !keyword_stands_at(s, 0, f) by {
            if keyword_stands_at(s, 0, f) {
                lemma_keyword_letters(f, 0);
                assert(s.subrange(0, f.spec_name().len() as int)[0] == c);
            }
        }
    }
    assert(keyword_at(seq![c], 0) is None) by {
        assert forall|f: TrigonometricFunction| !keyword_stands_at(seq![c], 0, f) by {
            lemma_keyword_letters(f, 0);
        }
    }
    assert(token_len(s, 0) == 1);
    assert(s.subrange(1, s.len() as int) =~= b.subrange(0, b.len() as int));
    lemma_suffix_lex(s, 1, b, 0);
    assert(lex_from(seq![c], 1) =~= Seq::<TokenView>::empty());
}

/// Keywords are matched longest first: where `cosec` stands, the lexer reads `cosec`, never
/// `cos` followed by `ec`.
pub proof fn lemma_cosec_longest_match(s: Seq<char>, i: int)
    requires
        0 <= i < s.len(),
        keyword_stands_at(s, i, TrigonometricFunction::Cosec),
    ensures
        keyword_at(s, i) == Some(TrigonometricFunction::Cosec),
        token_at(s, i) == Some(TokenView::Trigonometric(TrigonometricFunction::Cosec)),
        token_len(s, i) == 5,
{
    let w = s.subrange(i, i + 5);
    assert(w[0] == s[i]);
    assert(s[i] == 'c');
    if keyword_stands_at(s, i, TrigonometricFunction::Sin) {
        assert(s.subrange(i, i + 3)[0] == s[i]);
    }
}

// ---------------------------------------------------------------------------------------------
// Canonical numbers read back as themselves
// ---------------------------------------------------------------------------------------------

/// Whether every character of `d` is a digit.
pub open spec fn all_digits(d: Seq<char>) -> bool {
    forall|k: int| 0 <= k < d.len() ==> is_digit(#[trigger] d[k])
}

/// Text that reads as exactly one numeric literal whose canonical text is the text itself.
pub open spec fn canonical_number(t: Seq<char>) -> bool {
    &&& t.len() > 0
    &&& is_digit(t[0])
    &&& number_len(t, 0) == t.len()
    &&& number_text(t, 0) == t
}

/// Stripping leading zeros keeps digits and leaves no leading zero.
pub proof fn lemma_strip_leading(d: Seq<char>)
    requires
        all_digits(d),
    ensures
        all_digits(strip_leading_zeros(d)),
        strip_leading_zeros(d).len() == 0 || strip_leading_zeros(d)[0] != '0',
    decreases d.len(),
{
    if d.len() > 0 && d[0] == '0' {
        assert forall|k: int| 0 <= k < d.drop_first().len() implies is_digit(
            #[trigger] d.drop_first()[k],
        ) by {
            assert(d.drop_first()[k] == d[k + 1]);
        }
        lemma_strip_leading(d.drop_first());
    }
}

/// Stripping trailing zeros keeps digits and leaves no trailing zero.
pub proof fn lemma_strip_trailing(d: Seq<char>)
    requires
        all_digits(d),
    ensures
        all_digits(strip_trailing_zeros(d)),
        strip_trailing_zeros(d).len() == 0 || strip_trailing_zeros(d).last() != '0',
    decreases d.len(),
{
    if d.len() > 0 && d.last() == '0' {
        assert forall|k: int| 0 <= k < d.drop_last().len() implies is_digit(
            #[trigger] d.drop_last()[k],
        ) by {
            assert(d.drop_last()[k] == d[k]);
        }
        lemma_strip_trailing(d.drop_last());
    }
}

/// A run of digits from `i` to `k` that nothing extends has length `k - i`.
pub proof fn lemma_digit_run(s: Seq<char>, i: int, k: int)
    requires
        0 <= i <= k <= s.len(),
        forall|j: int| i <= j < k ==> is_digit(#[trigger] s[j]),
        k == s.len() || !is_digit(s[k]),
    ensures
        digits_len(s, i) == k - i,
    decreases k - i,
{
    if i < k {
        lemma_digit_run(s, i + 1, k);
    }
}

/// Every character of a digit run is a digit.
pub proof fn lemma_run_digits(s: Seq<char>, i: int)
    requires
        0 <= i <= s.len(),
    ensures
        all_digits(s.subrange(i, i + digits_len(s, i))),
    decreases s.len() - i,
{
    lemma_digits_len_bound(s, i);
    if i < s.len() && is_digit(s[i]) {
        lemma_run_digits(s, i + 1);
        let a = s.subrange(i + 1, i + 1 + digits_len(s, i + 1));
        let b = s.subrange(i, i + digits_len(s, i));
        assert forall|k: int| 0 <= k < b.len() implies is_digit(#[trigger] b[k]) by {
            if k > 0 {
                assert(b[k] == a[k - 1]);
            }
        }
    }
}

/// The canonical text of any digits is a canonical number.
pub proof fn lemma_canonical_decimal(d: Seq<char>, f: Seq<char>)
    requires
        all_digits(d),
        all_digits(f),
    ensures
        canonical_number(canonical_decimal(d, f)),
{
    let ip = strip_leading_zeros(d);
    let fp = strip_trailing_zeros(f);
    lemma_strip_leading(d);
    lemma_strip_trailing(f);
    let i = if ip.len() == 0 {
        seq!['0']
    } else {
        ip
    };
    let tail = if fp.len() == 0 {
        Seq::<char>::empty()
    } else {
        seq!['.'] + fp
    };
    let t = canonical_decimal(d, f);
    assert(t == i + tail);
    let n = i.len() as int;
    assert(all_digits(i));
    assert forall|j: int| 0 <= j < n implies is_digit(#[trigger] t[j]) by {
        assert(t[j] == i[j]);
    }
    if fp.len() > 0 {
        assert(t[n] == '.');
    }
    lemma_digit_run(t, 0, n);
    assert(t.subrange(0, n) =~= i);
    if fp.len() > 0 {
        assert(t[n + 1] == fp[0]);
        assert forall|j: int| n + 1 <= j < t.len() implies is_digit(#[trigger] t[j]) by {
            assert(t[j] == fp[j - n - 1]);
        }
        lemma_digit_run(t, n + 1, t.len() as int);
        assert(t.subrange(n + 1, t.len() as int) =~= fp);
    }
    assert(strip_leading_zeros(i) == ip) by {
        if ip.len() == 0 {
            assert(seq!['0'].drop_first() =~= Seq::<char>::empty());
            assert(strip_leading_zeros(Seq::<char>::empty()) == Seq::<char>::empty());
            assert(strip_leading_zeros(seq!['0']) == strip_leading_zeros(Seq::<char>::empty()));
        }
    }
    assert(strip_trailing_zeros(fp) == fp);
}

/// Every numeric literal that the lexer reads has canonical text.
pub proof fn lemma_number_text_canonical(s: Seq<char>, i: int)
    requires
        0 <= i < s.len(),
        is_digit(s[i]),
    ensures
        canonical_number(number_text(s, i)),
{
    lemma_run_digits(s, i);
    let d = digits_len(s, i) as int;
    lemma_digits_len_bound(s, i);
    if has_fraction(s, i) {
        lemma_run_digits(s, i + d + 1);
        lemma_canonical_decimal(
            s.subrange(i, i + d),
            s.subrange(i + d + 1, i + number_len(s, i)),
        );
    } else {
        assert forall|k: int| 0 <= k < 0 implies is_digit(
            #[trigger] Seq::<char>::empty()[k],
        ) by {}
        lemma_canonical_decimal(s.subrange(i, i + d), Seq::<char>::empty());
    }
}

// ---------------------------------------------------------------------------------------------
// Reading the text of a leaf
// ---------------------------------------------------------------------------------------------

/// A character that starts an identifier: an ASCII letter or `_`.
pub open spec fn starts_identifier(c: char) -> bool {
    is_word_char(c) && !is_digit(c)
}

/// Canonical number text reads as one number token.
pub proof fn lemma_lex_number(t: Seq<char>)
    requires
        canonical_number(t),
    ensures
        lex(t) == seq![TokenView::Number(t)],
{
    assert(lex_from(t, t.len() as int) =~= Seq::<TokenView>::empty());
    assert(seq![TokenView::Number(t)] + Seq::<TokenView>::empty() =~= seq![TokenView::Number(t)]);
}

/// A letter or `_` reads as one identifier token.
pub proof fn lemma_lex_variable(c: char)
    requires
        starts_identifier(c),
    ensures
        lex(seq![c]) == seq![TokenView::Variable(seq![c])],
{
    let s = seq![c];
    assert(keyword_at(s, 0) is None) by {
        assert forall|f: TrigonometricFunction| !keyword_stands_at(s, 0, f) by {}
    }
    assert(word_len(s, 1) == 0);
    assert(word_len(s, 0) == 1);
    assert(s.subrange(0, 1) =~= s);
    assert(lex_from(s, 1) =~= Seq::<TokenView>::empty());
    assert(seq![TokenView::Variable(s)] + Seq::<TokenView>::empty() =~= seq![
        TokenView::Variable(s),
    ]);
}

/// A keyword reads as its function.
pub proof fn lemma_lex_keyword(f: TrigonometricFunction)
    ensures
        lex(f.spec_name()) == seq![TokenView::Trigonometric(f)],
{
    let s = f.spec_name();
    assert(s.subrange(0, s.len() as int) =~= s);
    let sin = TrigonometricFunction::Sin.spec_name();
    let cosec = TrigonometricFunction::Cosec.spec_name();
    let cos = TrigonometricFunction::Cos.spec_name();
    let tan = TrigonometricFunction::Tan.spec_name();
    let sec = TrigonometricFunction::Sec.spec_name();
    if s.len() >= 3 {
        assert(s.subrange(0, 3)[0] == s[0]);
        assert(s.subrange(0, 3)[1] == s[1]);
        assert(s.subrange(0, 3)[2] == s[2]);
    }
    assert(sin[0] == 's' && sin[1] == 'i');
    assert(cos[0] == 'c' && cos[1] == 'o' && cos[2] == 's');
    assert(tan[0] == 't');
    assert(sec[0] == 's' && sec[1] == 'e');
    match f {
        TrigonometricFunction::Sin => {},
        TrigonometricFunction::Cosec => {
            assert(s[1] == 'o');
        },
        TrigonometricFunction::Cos => {
            assert(s[0] == 'c');
        },
        TrigonometricFunction::Tan => {
            assert(s[0] == 't');
        },
        TrigonometricFunction::Sec => {
            assert(s[1] == 'e');
        },
        TrigonometricFunction::Cot => {
            assert(s[0] == 'c' && s[2] == 't');
        },
    }
    assert(keyword_at(s, 0) == Some(f));
    assert(lex_from(s, s.len() as int) =~= Seq::<TokenView>::empty());
    assert(seq![TokenView::Trigonometric(f)] + Seq::<TokenView>::empty() =~= seq![
        TokenView::Trigonometric(f),
    ]);
}

} // verus!
