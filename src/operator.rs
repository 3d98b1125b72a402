use vstd::prelude::*;

verus! {

/// The binary operators of the expression language.
#[derive(Debug, Clone, Copy, PartialEq, Eq, Structural)]
pub enum Operator {
    Substract,
    Add,
    Divide,
    Multiply,
    Modulus,
    Power,
}

/// The operator written by the character `c`, if any.
pub open spec fn operator_of_char(c: char) -> Option<Operator> {
    if c == '+' {
        Some(Operator::Add)
    } else if c == '-' {
        Some(Operator::Substract)
    } else if c == '*' {
        Some(Operator::Multiply)
    } else if c == '/' {
        Some(Operator::Divide)
    } else if c == '%' {
        Some(Operator::Modulus)
    } else if c == '^' {
        Some(Operator::Power)
    } else {
        None
    }
}

/// The operator written by the text `s`: exactly one operator character.
pub open spec fn operator_of_text(s: Seq<char>) -> Option<Operator> {
    if s.len() == 1 {
        operator_of_char(s[0])
    } else {
        None
    }
}

impl Operator {
    /// Precedence rank: the operator with the lower rank is split first and so binds loosest.
    /// The ranks follow this fixed table, not the order of the variants.
    pub open spec fn spec_rank(self) -> u8 {
        match self {
            Operator::Substract => 0,
            Operator::Add => 1,
            Operator::Divide => 2,
            Operator::Multiply => 3,
            Operator::Modulus => 4,
            Operator::Power => 5,
        }
    }

    /// The character that writes this operator.
    pub open spec fn spec_symbol(self) -> char {
        match self {
            Operator::Add => '+',
            Operator::Substract => '-',
            Operator::Multiply => '*',
            Operator::Divide => '/',
            Operator::Modulus => '%',
            Operator::Power => '^',
        }
    }

    /// The operator written by `op`, or `None` when `op` is not exactly one operator character.
    pub fn from(op: &str) -> (r: Option<Operator>)
        ensures
            r == operator_of_text(op@),
    {
        if op.unicode_len() != 1 {
            return None;
        }
        Self::from_char(op.get_char(0))
    }

    /// The operator written by the character `c`, if any.
    pub fn from_char(c: char) -> (r: Option<Operator>)
        ensures
            r == operator_of_char(c),
    {
        match c {
            '+' => Some(Operator::Add),
            '-' => Some(Operator::Substract),
            '*' => Some(Operator::Multiply),
            '/' => Some(Operator::Divide),
            '%' => Some(Operator::Modulus),
            '^' => Some(Operator::Power),
            _ => None,
        }
    }

    /// The character that writes this operator.
    pub fn value_in_operator(&self) -> (r: char)
        ensures
            r == self.spec_symbol(),
    {
        match self {
            Operator::Add => '+',
            Operator::Substract => '-',
            Operator::Multiply => '*',
            Operator::Divide => '/',
            Operator::Modulus => '%',
            Operator::Power => '^',
        }
    }

    /// Precedence rank (see `spec_rank`).
    pub fn rank(&self) -> (r: u8)
        ensures
            r == self.spec_rank(),
    {
        match self {
            Operator::Substract => 0,
            Operator::Add => 1,
            Operator::Divide => 2,
            Operator::Multiply => 3,
            Operator::Modulus => 4,
            Operator::Power => 5,
        }
    }
}

/// Every operator character writes back to the operator it reads as, and back.
pub proof fn lemma_symbol_round_trip(op: Operator)
    ensures
        operator_of_char(op.spec_symbol()) == Some(op),
{
}

impl vstd::std_specs::cmp::PartialOrdSpecImpl for Operator {
    open spec fn obeys_partial_cmp_spec() -> bool {
        true
    }

    open spec fn partial_cmp_spec(&self, other: &Operator) -> Option<core::cmp::Ordering> {
        if self.spec_rank() < other.spec_rank() {
            Some(core::cmp::Ordering::Less)
        } else if self.spec_rank() == other.spec_rank() {
            Some(core::cmp::Ordering::Equal)
        } else {
            Some(core::cmp::Ordering::Greater)
        }
    }
}

/// Operators are ordered by precedence rank.
impl PartialOrd for Operator {
    fn partial_cmp(&self, other: &Operator) -> (r: Option<core::cmp::Ordering>) {
        let a = self.rank();
        let b = other.rank();
        if a < b {
            Some(core::cmp::Ordering::Less)
        } else if a == b {
            Some(core::cmp::Ordering::Equal)
        } else {
            Some(core::cmp::Ordering::Greater)
        }
    }
}

} // verus!
