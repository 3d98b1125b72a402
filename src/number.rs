use vstd::prelude::*;

use crate::text::{chars_of, push_range};

verus! {

/// Whether `c` is an ASCII decimal digit.
pub open spec fn is_digit(c: char) -> bool {
    '0' <= c && c <= '9'
}

/// `d` without its leading zeros.
pub open spec fn strip_leading_zeros(d: Seq<char>) -> Seq<char>
    decreases d.len(),
{
    if d.len() > 0 && d[0] == '0' {
        strip_leading_zeros(d.drop_first())
    } else {
        d
    }
}

/// `d` without its trailing zeros.
pub open spec fn strip_trailing_zeros(d: Seq<char>) -> Seq<char>
    decreases d.len(),
{
    if d.len() > 0 && d.last() == '0' {
        strip_trailing_zeros(d.drop_last())
    } else {
        d
    }
}

/// The canonical text of the decimal with integer digits `int_digits` and fraction digits
/// `frac_digits`: no leading zero in the integer part (a lone `0` where it is zero), no
/// trailing zero in the fraction, and no decimal point where the fraction is zero.
pub open spec fn canonical_decimal(int_digits: Seq<char>, frac_digits: Seq<char>) -> Seq<char> {
    let i = strip_leading_zeros(int_digits);
    let f = strip_trailing_zeros(frac_digits);
    (if i.len() == 0 {
        seq!['0']
    } else {
        i
    }) + (if f.len() == 0 {
        Seq::<char>::empty()
    } else {
        seq!['.'] + f
    })
}

/// Number of digits in the run that starts at position `i` of `s`.
pub open spec fn digits_len(s: Seq<char>, i: int) -> nat
    decreases s.len() - i,
{
    if 0 <= i < s.len() && is_digit(s[i]) {
        1 + digits_len(s, i + 1)
    } else {
        0
    }
}

/// A digit run never runs past the end of the text.
pub proof fn lemma_digits_len_bound(s: Seq<char>, i: int)
    requires
        0 <= i <= s.len(),
    ensures
        i + digits_len(s, i) <= s.len(),
        i < s.len() && is_digit(s[i]) ==> digits_len(s, i) >= 1,
    decreases s.len() - i,
{
    if i < s.len() {
        lemma_digits_len_bound(s, i + 1);
    }
}

/// A numeric literal never runs past the end of the text, and holds at least one digit.
pub proof fn lemma_number_len_bound(s: Seq<char>, i: int)
    requires
        0 <= i < s.len(),
        is_digit(s[i]),
    ensures
        1 <= number_len(s, i),
        i + number_len(s, i) <= s.len(),
{
    lemma_digits_len_bound(s, i);
    let d = digits_len(s, i);
    if has_fraction(s, i) {
        lemma_digits_len_bound(s, i + d + 1);
    }
}

/// Whether the digit run at `i` is followed by a decimal point and a further digit.
pub open spec fn has_fraction(s: Seq<char>, i: int) -> bool {
    let d = i + digits_len(s, i);
    d + 1 < s.len() && s[d] == '.' && is_digit(s[d + 1])
}

/// Length of the numeric literal at `i`: digits, then optionally a point and digits.
pub open spec fn number_len(s: Seq<char>, i: int) -> nat {
    let d = digits_len(s, i);
    if has_fraction(s, i) {
        d + 1 + digits_len(s, i + d + 1)
    } else {
        d
    }
}

/// Canonical text of the numeric literal at `i`.
pub open spec fn number_text(s: Seq<char>, i: int) -> Seq<char> {
    let d = digits_len(s, i);
    canonical_decimal(
        s.subrange(i, i + d),
        if has_fraction(s, i) {
            s.subrange(i + d + 1, i + number_len(s, i))
        } else {
            Seq::<char>::empty()
        },
    )
}

/// A decimal number, held exactly as its canonical text (see `canonical_decimal`).
#[derive(Debug, Clone)]
pub struct Number {
    text: String,
}

impl View for Number {
    type V = Seq<char>;

    closed spec fn view(&self) -> Seq<char> {
        self.text@
    }
}

/// Index of the end of the digit run that starts at `i`.
fn digits_end(chars: &Vec<char>, i: usize) -> (r: usize)
    requires
        i <= chars@.len(),
    ensures
        r == i + digits_len(chars@, i as int),
        r <= chars@.len(),
{
    let mut j: usize = i;
    while j < chars.len() && '0' <= chars[j] && chars[j] <= '9'
        invariant
            i <= j <= chars@.len(),
            digits_len(chars@, i as int) == (j - i) + digits_len(chars@, j as int),
        decreases chars@.len() - j,
    {
        j = j + 1;
    }
    j
}

impl Number {
    /// Reads the numeric literal that starts at position `i` of `chars`; returns the number and
    /// the position just after the literal.
    pub fn scan(chars: &Vec<char>, i: usize) -> (r: (Number, usize))
        requires
            i < chars@.len(),
            is_digit(chars@[i as int]),
        ensures
            r.0@ == number_text(chars@, i as int),
            r.1 == i + number_len(chars@, i as int),
    {
        let ghost s = chars@;
        let d_end = digits_end(chars, i);
        let mut f_start = d_end;
        let mut f_end = d_end;
        let has_frac = d_end < chars.len() - 1 && chars[d_end] == '.' && '0' <= chars[d_end + 1]
            && chars[d_end + 1] <= '9';
        assert(has_frac == has_fraction(s, i as int));
        if has_frac {
            f_start = d_end + 1;
            f_end = digits_end(chars, f_start);
        }
        let ghost frac = if has_fraction(s, i as int) {
            s.subrange(f_start as int, f_end as int)
        } else {
            Seq::<char>::empty()
        };
        assert(s.subrange(f_start as int, f_end as int) =~= frac);
        // skip leading zeros of the integer part
        let mut a: usize = i;
        while a < d_end && chars[a] == '0'
            invariant
                s == chars@,
                i <= a <= d_end <= chars@.len(),
                strip_leading_zeros(s.subrange(i as int, d_end as int)) == strip_leading_zeros(
                    s.subrange(a as int, d_end as int),
                ),
            decreases d_end - a,
        {
            assert(s.subrange(a as int, d_end as int).drop_first() =~= s.subrange(
                a + 1,
                d_end as int,
            ));
            a = a + 1;
        }
        // drop trailing zeros of the fraction
        let mut b: usize = f_end;
        while b > f_start && chars[b - 1] == '0'
            invariant
                s == chars@,
                f_start <= b <= f_end <= chars@.len(),
                strip_trailing_zeros(s.subrange(f_start as int, f_end as int))
                    == strip_trailing_zeros(s.subrange(f_start as int, b as int)),
            decreases b,
        {
            assert(s.subrange(f_start as int, b as int).drop_last() =~= s.subrange(
                f_start as int,
                b - 1,
            ));
            b = b - 1;
        }
        let ghost ip = strip_leading_zeros(s.subrange(i as int, d_end as int));
        let ghost fp = strip_trailing_zeros(frac);
        assert(ip =~= s.subrange(a as int, d_end as int));
        assert(fp =~= s.subrange(f_start as int, b as int));
        let mut text = String::new();
        if a == d_end {
            text.push('0');
        } else {
            push_range(&mut text, chars, a, d_end);
        }
        if b > f_start {
            text.push('.');
            push_range(&mut text, chars, f_start, b);
        }
        assert(text@ =~= canonical_decimal(s.subrange(i as int, d_end as int), frac));
        (Number { text }, f_end)
    }

    /// The number written by `s`: ASCII digits, optionally followed by a point and more
    /// digits. `None` for any other text.
    pub fn from_literal(s: &str) -> (r: Option<Number>)
        ensures
            r is Some <==> (s@.len() > 0 && is_digit(s@[0]) && number_len(s@, 0) == s@.len()),
            r matches Some(n) ==> n@ == number_text(s@, 0),
    {
        let chars = chars_of(s);
        if chars.len() == 0 || !('0' <= chars[0] && chars[0] <= '9') {
            return None;
        }
        let (n, end) = Number::scan(&chars, 0);
        if end == chars.len() {
            Some(n)
        } else {
            None
        }
    }

    /// The canonical text of the number.
    pub fn to_text(&self) -> (r: String)
        ensures
            r@ == self@,
    {
        self.text.clone()
    }

    /// Appends the canonical text of the number to `out`.
    pub fn write_to(&self, out: &mut String)
        ensures
            final(out)@ == old(out)@ + self@,
    {
        out.append(self.text.as_str());
    }

    /// A copy of the number.
    pub fn duplicate(&self) -> (r: Number)
        ensures
            r@ == self@,
    {
        Number { text: self.text.clone() }
    }
}

} // verus!
