//! The operator symbols of the expression language and their precedence.

use std::cmp::Ordering;
use vstd::prelude::*;
use vstd::std_specs::cmp::{PartialEqSpec, PartialEqSpecImpl, PartialOrdSpec, PartialOrdSpecImpl};
use vstd::std_specs::convert::{FromSpecImpl, TryFromSpecImpl};

verus! {

/// One of the nine symbols that the tokenizer treats as an operator.
///
/// Comparing two operators with `==`, `<` and the like compares their
/// precedence ranks, not their identity: `Add == Sub` holds. In contracts,
/// `==` on operators is identity as usual.
#[derive(Copy, Clone, Debug)]
pub enum Operator {
    Add,
    CloseParen,
    Div,
    OpenParen,
    Pow,
    Mult,
    Sub,
    Mod,
    Exp,
}

/// A character that is not an operator symbol was converted to an operator.
#[derive(Debug, Clone, PartialEq)]
pub struct OperatorConversionError;

impl OperatorConversionError {
    /// The message shown for this error.
    pub fn to_string(&self) -> (message: String)
        ensures
            message@ == "Invalid character for operator"@,
    {
        String::from_str("Invalid character for operator")
    }
}

/// The operator that a character stands for, if it stands for one.
pub open spec fn operator_of(c: char) -> Option<Operator> {
    if c == '+' {
        Some(Operator::Add)
    } else if c == ')' {
        Some(Operator::CloseParen)
    } else if c == '/' {
        Some(Operator::Div)
    } else if c == 'E' {
        Some(Operator::Exp)
    } else if c == '%' {
        Some(Operator::Mod)
    } else if c == '*' {
        Some(Operator::Mult)
    } else if c == '(' {
        Some(Operator::OpenParen)
    } else if c == '^' {
        Some(Operator::Pow)
    } else if c == '-' {
        Some(Operator::Sub)
    } else {
        None
    }
}

impl Operator {
    /// The precedence rank: 1 for `+ -`, 2 for `* / % E`, 3 for `^`, and 0
    /// for the two parentheses, which are not ranked against the others.
    pub open spec fn rank(self) -> nat {
        match self {
            Operator::Add | Operator::Sub => 1,
            Operator::Div | Operator::Mod | Operator::Mult | Operator::Exp => 2,
            Operator::Pow => 3,
            Operator::OpenParen | Operator::CloseParen => 0,
        }
    }

    /// Whether this is one of the seven binary operators, that is, not a
    /// parenthesis.
    pub open spec fn is_binary(self) -> bool {
        !(self is OpenParen) && !(self is CloseParen)
    }

    /// The character that is written for this operator.
    pub open spec fn symbol(self) -> char {
        match self {
            Operator::Add => '+',
            Operator::CloseParen => ')',
            Operator::Div => '/',
            Operator::Exp => 'E',
            Operator::Mod => '%',
            Operator::Mult => '*',
            Operator::OpenParen => '(',
            Operator::Pow => '^',
            Operator::Sub => '-',
        }
    }

    /// The precedence rank of this operator.
    pub fn precidence(&self) -> (rank: u8)
        ensures
            rank == self.rank(),
    {
        match self {
            Operator::Add => 1,
            Operator::Div => 2,
            Operator::Mod => 2,
            Operator::Mult => 2,
            Operator::Exp => 2,
            Operator::Pow => 3,
            Operator::Sub => 1,
            _ => 0,
        }
    }
}

impl TryFrom<char> for Operator {
    type Error = OperatorConversionError;

    /// Looks the character up among the operator symbols.
    fn try_from(value: char) -> (res: Result<Self, Self::Error>) {
        match value {
            '+' => Ok(Operator::Add),
            ')' => Ok(Operator::CloseParen),
            '/' => Ok(Operator::Div),
            'E' => Ok(Operator::Exp),
            '%' => Ok(Operator::Mod),
            '*' => Ok(Operator::Mult),
            '(' => Ok(Operator::OpenParen),
            '^' => Ok(Operator::Pow),
            '-' => Ok(Operator::Sub),
            _ => Err(OperatorConversionError),
        }
    }
}

impl TryFromSpecImpl<char> for Operator {
    open spec fn obeys_try_from_spec() -> bool {
        true
    }

    open spec fn try_from_spec(v: char) -> Result<Self, Self::Error> {
        match operator_of(v) {
            Some(op) => Ok(op),
            None => Err(OperatorConversionError),
        }
    }
}

impl From<Operator> for char {
    /// The character that is written for the operator.
    fn from(value: Operator) -> (res: Self) {
        match value {
            Operator::Add => '+',
            Operator::CloseParen => ')',
            Operator::Div => '/',
            Operator::Exp => 'E',
            Operator::Mod => '%',
            Operator::Mult => '*',
            Operator::OpenParen => '(',
            Operator::Pow => '^',
            Operator::Sub => '-',
        }
    }
}

impl FromSpecImpl<Operator> for char {
    open spec fn obeys_from_spec() -> bool {
        true
    }

    open spec fn from_spec(v: Operator) -> Self {
        v.symbol()
    }
}

impl PartialEq for Operator {
    /// Whether the two operators have the same precedence rank.
    fn eq(&self, other: &Self) -> (r: bool) {
        self.precidence() == other.precidence()
    }
}

impl PartialEqSpecImpl for Operator {
    open spec fn obeys_eq_spec() -> bool {
        true
    }

    open spec fn eq_spec(&self, other: &Self) -> bool {
        self.rank() == other.rank()
    }
}

impl Eq for Operator {

}

impl PartialOrd for Operator {
    /// Orders the two operators by precedence rank.
    fn partial_cmp(&self, other: &Self) -> (r: Option<Ordering>) {
        let mine: u8 = self.precidence();
        let theirs: u8 = other.precidence();
        if mine < theirs {
            Some(Ordering::Less)
        } else if mine == theirs {
            Some(Ordering::Equal)
        } else {
            Some(Ordering::Greater)
        }
    }

    fn lt(&self, other: &Self) -> (r: bool) {
        self.precidence() < other.precidence()
    }

    fn le(&self, other: &Self) -> (r: bool) {
        self.precidence() <= other.precidence()
    }

    fn gt(&self, other: &Self) -> (r: bool) {
        self.precidence() > other.precidence()
    }

    fn ge(&self, other: &Self) -> (r: bool) {
        self.precidence() >= other.precidence()
    }
}

impl PartialOrdSpecImpl for Operator {
    open spec fn obeys_partial_cmp_spec() -> bool {
        true
    }

    open spec fn partial_cmp_spec(&self, other: &Self) -> Option<Ordering> {
        if self.rank() < other.rank() {
            Some(Ordering::Less)
        } else if self.rank() == other.rank() {
            Some(Ordering::Equal)
        } else {
            Some(Ordering::Greater)
        }
    }
}

/// A character is an operator symbol exactly when it is the symbol of the
/// operator it stands for, and every operator is found again from its symbol.
pub proof fn lemma_symbol_round_trip(c: char, op: Operator)
    ensures
        operator_of(op.symbol()) == Some(op),
        operator_of(c) == Some(op) <==> c == op.symbol(),
{
}

/// The precedence tiers: `^` binds tighter than `* / % E`, which bind tighter
/// than `+ -`; within a tier all operators have one rank. Two operators
/// compare equal exactly when their ranks are equal, and less exactly when
/// the rank is less.
pub proof fn lemma_precedence_tiers(a: Operator, b: Operator)
    ensures
        Operator::Pow.rank() > Operator::Mult.rank(),
        Operator::Mult.rank() == Operator::Div.rank(),
        Operator::Div.rank() == Operator::Mod.rank(),
        Operator::Mod.rank() == Operator::Exp.rank(),
        Operator::Exp.rank() > Operator::Add.rank(),
        Operator::Add.rank() == Operator::Sub.rank(),
        a.is_binary() ==> 1 <= a.rank() <= 3,
        PartialEqSpec::eq_spec(&a, &b) <==> a.rank() == b.rank(),
        PartialOrdSpec::partial_cmp_spec(&a, &b) == Some(Ordering::Less) <==> a.rank() < b.rank(),
        PartialOrdSpec::partial_cmp_spec(&a, &b) == Some(Ordering::Equal) <==> a.rank() == b.rank(),
        PartialOrdSpec::partial_cmp_spec(&a, &b) == Some(Ordering::Greater) <==> a.rank() > b.rank(),
{
}

} // verus!
