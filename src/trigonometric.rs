use vstd::prelude::*;

verus! {

/// The trigonometric functions of the expression language.
/// `Sec`, `Cosec` and `Cot` are the reciprocals of `Cos`, `Sin` and `Tan`.
#[derive(Debug, Clone, Copy, PartialEq, Eq, Structural)]
pub enum TrigonometricFunction {
    Sin,
    Cos,
    Tan,
    Sec,
    Cosec,
    Cot,
}

/// The function whose keyword is exactly `s`.
pub open spec fn trigonometric_of_text(s: Seq<char>) -> Option<TrigonometricFunction> {
    if s == TrigonometricFunction::Sin.spec_name() {
        Some(TrigonometricFunction::Sin)
    } else if s == TrigonometricFunction::Cos.spec_name() {
        Some(TrigonometricFunction::Cos)
    } else if s == TrigonometricFunction::Tan.spec_name() {
        Some(TrigonometricFunction::Tan)
    } else if s == TrigonometricFunction::Sec.spec_name() {
        Some(TrigonometricFunction::Sec)
    } else if s == TrigonometricFunction::Cosec.spec_name() {
        Some(TrigonometricFunction::Cosec)
    } else if s == TrigonometricFunction::Cot.spec_name() {
        Some(TrigonometricFunction::Cot)
    } else {
        None
    }
}

impl TrigonometricFunction {
    /// The keyword that names the function.
    pub open spec fn spec_name(self) -> Seq<char> {
        match self {
            TrigonometricFunction::Sin => seq!['s', 'i', 'n'],
            TrigonometricFunction::Cos => seq!['c', 'o', 's'],
            TrigonometricFunction::Tan => seq!['t', 'a', 'n'],
            TrigonometricFunction::Sec => seq!['s', 'e', 'c'],
            TrigonometricFunction::Cosec => seq!['c', 'o', 's', 'e', 'c'],
            TrigonometricFunction::Cot => seq!['c', 'o', 't'],
        }
    }

    /// The function named by the keyword `token_str`, if it is one.
    pub fn from(token_str: &str) -> (r: Option<TrigonometricFunction>)
        ensures
            r == trigonometric_of_text(token_str@),
    {
        let chars = crate::text::chars_of(token_str);
        let n = chars.len();
        let candidates = [
            TrigonometricFunction::Sin,
            TrigonometricFunction::Cos,
            TrigonometricFunction::Tan,
            TrigonometricFunction::Sec,
            TrigonometricFunction::Cosec,
            TrigonometricFunction::Cot,
        ];
        let mut k: usize = 0;
        while k < 6
            invariant
                0 <= k <= 6,
                chars@ == token_str@,
                n == chars@.len(),
                candidates@ == seq![
                    TrigonometricFunction::Sin,
                    TrigonometricFunction::Cos,
                    TrigonometricFunction::Tan,
                    TrigonometricFunction::Sec,
                    TrigonometricFunction::Cosec,
                    TrigonometricFunction::Cot,
                ],
                forall|j: int| 0 <= j < k ==> chars@ != (#[trigger] candidates@[j]).spec_name(),
            decreases 6 - k,
        {
            let f = candidates[k];
            if f.name_len() == n {
                assert(chars@.subrange(0, n as int) =~= chars@);
                if f.matches_at(&chars, 0) {
                    return Some(f);
                }
            }
            k = k + 1;
        }
        None
    }

    /// Whether the keyword of this function stands in `chars` from position `at`.
    pub fn matches_at(&self, chars: &Vec<char>, at: usize) -> (r: bool)
        ensures
            r == (at + self.spec_name().len() <= chars@.len() && chars@.subrange(
                at as int,
                at + self.spec_name().len(),
            ) == self.spec_name()),
    {
        let name = self.name_chars();
        let len = name.len();
        if at > chars.len() || len > chars.len() - at {
            return false;
        }
        let mut i: usize = 0;
        while i < len
            invariant
                0 <= i <= len,
                name@ == self.spec_name(),
                len == name@.len(),
                at + len <= chars.len(),
                forall|j: int| 0 <= j < i ==> chars@[at + j] == name@[j],
            decreases len - i,
        {
            assert(at + i < chars@.len());
            if chars[at + i] != name[i] {
                assert(chars@.subrange(at as int, at + len)[i as int] != name@[i as int]);
                return false;
            }
            i = i + 1;
        }
        assert(chars@.subrange(at as int, at + len) =~= name@);
        true
    }

    /// Length of the keyword.
    pub fn name_len(&self) -> (r: usize)
        ensures
            r == self.spec_name().len(),
    {
        match self {
            TrigonometricFunction::Cosec => 5,
            _ => 3,
        }
    }

    fn name_chars(&self) -> (r: Vec<char>)
        ensures
            r@ == self.spec_name(),
    {
        let r = match self {
            TrigonometricFunction::Sin => vec!['s', 'i', 'n'],
            TrigonometricFunction::Cos => vec!['c', 'o', 's'],
            TrigonometricFunction::Tan => vec!['t', 'a', 'n'],
            TrigonometricFunction::Sec => vec!['s', 'e', 'c'],
            TrigonometricFunction::Cosec => vec!['c', 'o', 's', 'e', 'c'],
            TrigonometricFunction::Cot => vec!['c', 'o', 't'],
        };
        assert(r@ =~= self.spec_name());
        r
    }

    /// The keyword that names the function.
    pub fn name(&self) -> (r: &'static str)
        ensures
            r@ == self.spec_name(),
    {
        match self {
            TrigonometricFunction::Sin => {
                proof {
                    reveal_strlit("sin");
                }
                "sin"
            },
            TrigonometricFunction::Cos => {
                proof {
                    reveal_strlit("cos");
                }
                "cos"
            },
            TrigonometricFunction::Tan => {
                proof {
                    reveal_strlit("tan");
                }
                "tan"
            },
            TrigonometricFunction::Sec => {
                proof {
                    reveal_strlit("sec");
                }
                "sec"
            },
            TrigonometricFunction::Cosec => {
                proof {
                    reveal_strlit("cosec");
                }
                "cosec"
            },
            TrigonometricFunction::Cot => {
                proof {
                    reveal_strlit("cot");
                }
                "cot"
            },
        }
    }
}

} // verus!
