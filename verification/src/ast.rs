//! The expression tree of a filter, and its mathematical value.

use crate::text::strings_view;
use vstd::prelude::*;

verus! {

/// A field path: the segments that address a nested value, outermost first.
#[derive(Debug, PartialEq)]
pub struct EPath(pub Vec<String>);

/// A filter expression.
#[derive(Debug, PartialEq)]
pub enum Exp {
    /// The text at the path is the literal.
    Equals(EPath, String),
    /// The text at the path is not the literal, or there is none.
    NotEquals(EPath, String),
    /// The path resolves to a value.
    Exists(EPath),
    /// The expression does not hold.
    Not(Box<Exp>),
    /// Each of the expressions holds.
    And(Vec<Exp>),
    /// At least one of the expressions holds.
    Or(Vec<Exp>),
    /// The literal occurs in the text at the path.
    Contains(EPath, String),
}

/// The mathematical value of an `Exp`: paths as sequences of segments,
/// literals as sequences of characters.
pub enum Formula {
    Equals(Seq<Seq<char>>, Seq<char>),
    NotEquals(Seq<Seq<char>>, Seq<char>),
    Exists(Seq<Seq<char>>),
    Not(Box<Formula>),
    And(Seq<Formula>),
    Or(Seq<Formula>),
    Contains(Seq<Seq<char>>, Seq<char>),
}

impl View for EPath {
    type V = Seq<Seq<char>>;

    open spec fn view(&self) -> Seq<Seq<char>> {
        strings_view(self.0@)
    }
}

/// The formula that an expression stands for.
pub open spec fn formula_of(exp: Exp) -> Formula
    decreases exp,
{
    match exp {
        Exp::Equals(path, literal) => Formula::Equals(path@, literal@),
        Exp::NotEquals(path, literal) => Formula::NotEquals(path@, literal@),
        Exp::Exists(path) => Formula::Exists(path@),
        Exp::Not(inner) => Formula::Not(Box::new(formula_of(*inner))),
        Exp::And(operands) => Formula::And(
            Seq::new(
                operands@.len(),
                |i: int|
                    if 0 <= i < operands@.len() {
                        formula_of(operands@[i])
                    } else {
                        Formula::And(Seq::empty())
                    },
            ),
        ),
        Exp::Or(operands) => Formula::Or(
            Seq::new(
                operands@.len(),
                |i: int|
                    if 0 <= i < operands@.len() {
                        formula_of(operands@[i])
                    } else {
                        Formula::And(Seq::empty())
                    },
            ),
        ),
        Exp::Contains(path, literal) => Formula::Contains(path@, literal@),
    }
}

impl View for Exp {
    type V = Formula;

    open spec fn view(&self) -> Formula {
        formula_of(*self)
    }
}

/// The formulas of a list of expressions.
pub open spec fn formulas_of(operands: Seq<Exp>) -> Seq<Formula> {
    Seq::new(operands.len(), |i: int| operands[i]@)
}

/// The view of a conjunction is the conjunction of the views of its operands.
pub proof fn lemma_and_view(operands: Vec<Exp>)
    ensures
        Exp::And(operands)@ == Formula::And(formulas_of(operands@)),
{
    assert(Exp::And(operands)@->And_0 =~= formulas_of(operands@));
}

/// The view of a disjunction is the disjunction of the views of its operands.
pub proof fn lemma_or_view(operands: Vec<Exp>)
    ensures
        Exp::Or(operands)@ == Formula::Or(formulas_of(operands@)),
{
    assert(Exp::Or(operands)@->Or_0 =~= formulas_of(operands@));
}

} // verus!
