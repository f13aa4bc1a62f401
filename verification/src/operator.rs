//! The binary operators and their binding strength.

use core::cmp::Ordering;
use vstd::prelude::*;
use vstd::std_specs::cmp::PartialOrdSpec;

verus! {

/// A binary operator. `Assign` has a precedence but no sign in the source
/// yet.
#[derive(Clone, Copy, Debug, PartialEq, Eq, Structural)]
pub enum Operator {
    Assign,
    Less,
    Add,
    Sub,
    Mul,
    Div,
}

impl Operator {
    /// Binding strength: a larger number binds tighter.
    pub open spec fn spec_precedence(&self) -> i8 {
        match self {
            Operator::Assign => 10,
            Operator::Less => 20,
            Operator::Add => 30,
            Operator::Sub => 30,
            Operator::Mul => 40,
            Operator::Div => 40,
        }
    }

    /// The operator's binding strength.
    #[verifier::when_used_as_spec(spec_precedence)]
    pub fn precedence(&self) -> (p: i8)
        ensures
            p == self.spec_precedence(),
            10 <= p <= 40,
    {
        match self {
            Operator::Assign => 10,
            Operator::Less => 20,
            Operator::Add => 30,
            Operator::Sub => 30,
            Operator::Mul => 40,
            Operator::Div => 40,
        }
    }

    /// Whether the operator may stand between two operands of an
    /// expression. `Assign` is set aside for later use and may not.
    pub open spec fn spec_is_binary_op(&self) -> bool {
        *self != Operator::Assign
    }

    /// Whether the operator may stand between two operands.
    #[verifier::when_used_as_spec(spec_is_binary_op)]
    pub fn is_binary_op(&self) -> (b: bool)
        ensures
            b == self.spec_is_binary_op(),
    {
        match self {
            Operator::Assign => false,
            _ => true,
        }
    }
}

/// Operators are ordered by binding strength alone: two operators of equal
/// precedence tie, whether or not they are the same operator.
impl PartialOrd for Operator {
    fn partial_cmp(&self, other: &Self) -> (r: Option<Ordering>) {
        let mine: i8 = self.precedence();
        let theirs: i8 = other.precedence();
        if mine < theirs {
            Some(Ordering::Less)
        } else if mine > theirs {
            Some(Ordering::Greater)
        } else {
            Some(Ordering::Equal)
        }
    }
}

impl vstd::std_specs::cmp::PartialOrdSpecImpl for Operator {
    open spec fn obeys_partial_cmp_spec() -> bool {
        true
    }

    open spec fn partial_cmp_spec(&self, other: &Self) -> Option<Ordering> {
        if self.precedence() < other.precedence() {
            Some(Ordering::Less)
        } else if self.precedence() > other.precedence() {
            Some(Ordering::Greater)
        } else {
            Some(Ordering::Equal)
        }
    }
}

/// The order on operators is total: any two compare, the comparison is
/// antisymmetric up to a tie, and it is transitive.
pub proof fn lemma_operator_order_total(a: Operator, b: Operator, c: Operator)
    ensures
        a.partial_cmp_spec(&b) is Some,
        a.partial_cmp_spec(&b) == Some(Ordering::Less) <==> b.partial_cmp_spec(&a) == Some(
            Ordering::Greater,
        ),
        a.partial_cmp_spec(&b) == Some(Ordering::Equal) <==> a.precedence() == b.precedence(),
        a.partial_cmp_spec(&b) == Some(Ordering::Less) && b.partial_cmp_spec(&c) == Some(
            Ordering::Less,
        ) ==> a.partial_cmp_spec(&c) == Some(Ordering::Less),
{
}

} // verus!
