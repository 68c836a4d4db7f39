//! The arithmetic operators that coercion distinguishes.

use vstd::prelude::*;

verus! {

/// An arithmetic operator.
#[derive(Clone, Copy, Debug, PartialEq, Eq, Structural)]
pub enum DataValueArithmeticOperator {
    Plus,
    Minus,
    Mul,
    Div,
    IntDiv,
    Modulo,
}

impl DataValueArithmeticOperator {
    /// The word by which messages call the operation.
    pub open spec fn spec_word(self) -> Seq<char> {
        match self {
            DataValueArithmeticOperator::Plus => "plus"@,
            DataValueArithmeticOperator::Minus => "minus"@,
            DataValueArithmeticOperator::Mul => "multiply"@,
            DataValueArithmeticOperator::Div => "divide"@,
            DataValueArithmeticOperator::IntDiv => "div"@,
            DataValueArithmeticOperator::Modulo => "modulo"@,
        }
    }

    /// The name of the operator's variant.
    pub open spec fn spec_variant_name(self) -> Seq<char> {
        match self {
            DataValueArithmeticOperator::Plus => "Plus"@,
            DataValueArithmeticOperator::Minus => "Minus"@,
            DataValueArithmeticOperator::Mul => "Mul"@,
            DataValueArithmeticOperator::Div => "Div"@,
            DataValueArithmeticOperator::IntDiv => "IntDiv"@,
            DataValueArithmeticOperator::Modulo => "Modulo"@,
        }
    }

    /// The word by which messages call the operation.
    pub fn word(&self) -> (s: &'static str)
        ensures
            s@ == self.spec_word(),
    {
        match self {
            DataValueArithmeticOperator::Plus => "plus",
            DataValueArithmeticOperator::Minus => "minus",
            DataValueArithmeticOperator::Mul => "multiply",
            DataValueArithmeticOperator::Div => "divide",
            DataValueArithmeticOperator::IntDiv => "div",
            DataValueArithmeticOperator::Modulo => "modulo",
        }
    }

    /// The name of the operator's variant.
    pub fn variant_name(&self) -> (s: &'static str)
        ensures
            s@ == self.spec_variant_name(),
    {
        match self {
            DataValueArithmeticOperator::Plus => "Plus",
            DataValueArithmeticOperator::Minus => "Minus",
            DataValueArithmeticOperator::Mul => "Mul",
            DataValueArithmeticOperator::Div => "Div",
            DataValueArithmeticOperator::IntDiv => "IntDiv",
            DataValueArithmeticOperator::Modulo => "Modulo",
        }
    }
}

} // verus!
