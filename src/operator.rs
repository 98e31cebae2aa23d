use vstd::prelude::*;

verus! {

/// An arithmetic operator that can stand between two parameter values.
#[derive(Debug, Clone, Copy, PartialEq, Eq, Structural)]
pub enum Operator {
    Add,
    Sub,
    Mul,
    Div,
    Exponent,
}

impl Operator {
    /// The character that writes this operator in the notation.
    pub fn symbol(&self) -> (r: char)
        ensures
            r == op_char(*self),
    {
        match self {
            Operator::Add => '+',
            Operator::Sub => '-',
            Operator::Mul => '*',
            Operator::Div => '/',
            Operator::Exponent => '^',
        }
    }
}

/// The character of each operator in the notation.
pub open spec fn op_char(op: Operator) -> char {
    match op {
        Operator::Add => '+',
        Operator::Sub => '-',
        Operator::Mul => '*',
        Operator::Div => '/',
        Operator::Exponent => '^',
    }
}

} // verus!
