//! Evaluation of a filter expression against a record.

use crate::ast::{formulas_of, lemma_and_view, lemma_or_view, EPath, Exp, Formula};
use crate::record::{coerce_to_text, descend, descend_to, string_value, Json, Record};
use crate::text::{contains_text, is_infix, same_text};
use vstd::prelude::*;

verus! {

/// The text found at `path` in `record`: the value that the path resolves
/// to, as the text that it is compared as. `None` where the path does not
/// resolve, or resolves to null, an array or an object.
pub open spec fn text_at(path: Seq<Seq<char>>, record: Json) -> Option<Seq<char>> {
    match descend(path, record) {
        Some(value) => coerce_to_text(value),
        None => None,
    }
}

/// Whether a formula holds of a record.
///
/// A comparison is about the text found at its path: an equality holds
/// where that text is the literal, an inequality where it is not or there
/// is none, a substring test where the literal occurs in it. An existence
/// test holds where the path resolves, be it to null.
pub open spec fn holds(formula: Formula, record: Json) -> bool
    decreases formula, 0int,
{
    match formula {
        Formula::Equals(path, literal) => text_at(path, record) == Some(literal),
        Formula::NotEquals(path, literal) => !(text_at(path, record) == Some(literal)),
        Formula::Exists(path) => descend(path, record) is Some,
        Formula::Not(inner) => !holds(*inner, record),
        Formula::And(operands) => each_holds(operands, record),
        Formula::Or(operands) => some_holds(operands, record),
        Formula::Contains(path, literal) => match text_at(path, record) {
            Some(text) => is_infix(literal, text),
            None => false,
        },
    }
}

/// Whether each formula of a sequence holds of a record.
pub open spec fn each_holds(operands: Seq<Formula>, record: Json) -> bool
    decreases operands, 1int,
{
    forall|i: int| 0 <= i < operands.len() ==> holds(#[trigger] operands[i], record)
}

/// Whether at least one formula of a sequence holds of a record.
pub open spec fn some_holds(operands: Seq<Formula>, record: Json) -> bool
    decreases operands, 1int,
{
    exists|i: int| 0 <= i < operands.len() && holds(#[trigger] operands[i], record)
}

/// Whether the value at `path` is a scalar whose text is exactly `value`.
pub fn eval_equals(path: &EPath, value: &str, target: &Record) -> (result: bool)
    ensures
        result == holds(Formula::Equals(path@, value@), target@),
{
    match descend_to(path, target) {
        Some(found) => match string_value(found) {
            Some(text) => same_text(text, value),
            None => false,
        },
        None => false,
    }
}

/// The negation of `eval_equals`: true also where the path does not resolve
/// or the value at it has no text.
pub fn eval_not_equals(path: &EPath, value: &str, target: &Record) -> (result: bool)
    ensures
        result == holds(Formula::NotEquals(path@, value@), target@),
        result == !holds(Formula::Equals(path@, value@), target@),
{
    !eval_equals(path, value, target)
}

/// Whether `path` resolves to a value in `target`, be it null.
pub fn eval_exists(path: &EPath, target: &Record) -> (result: bool)
    ensures
        result == holds(Formula::Exists(path@), target@),
        result == descend(path@, target@).is_some(),
{
    descend_to(path, target).is_some()
}

/// Whether the value at `path` is a scalar whose text contains `val`.
pub fn eval_contains(path: &EPath, val: &String, target: &Record) -> (result: bool)
    ensures
        result == holds(Formula::Contains(path@, val@), target@),
{
    match descend_to(path, target) {
        Some(found) => match string_value(found) {
            Some(text) => contains_text(text, val.as_str()),
            None => false,
        },
        None => false,
    }
}

/// Whether `exp` does not hold of `target`.
pub fn eval_not(exp: &Exp, target: &Record) -> (result: bool)
    ensures
        result == !holds(exp@, target@),
    decreases exp, 1int,
{
    !eval(exp, target)
}

/// Whether every one of `conditions` holds of `target`. Evaluation goes left
/// to right and stops at the first condition that fails.
pub fn eval_and(conditions: &Vec<Exp>, target: &Record) -> (result: bool)
    ensures
        result == each_holds(formulas_of(conditions@), target@),
    decreases conditions, 1int,
{
    let ghost operands = formulas_of(conditions@);
    let mut i: usize = 0;
    while i < conditions.len()
        invariant
            i <= conditions.len(),
            operands == formulas_of(conditions@),
            forall|k: int| 0 <= k < i ==> holds(#[trigger] operands[k], target@),
        decreases conditions.len() - i,
    {
        if !eval(&conditions[i], target) {
            assert(!holds(operands[i as int], target@));
            return false;
        }
        i += 1;
    }
    true
}

/// Whether at least one of `conditions` holds of `target`. Evaluation goes
/// left to right and stops at the first condition that holds.
pub fn eval_or(conditions: &Vec<Exp>, target: &Record) -> (result: bool)
    ensures
        result == some_holds(formulas_of(conditions@), target@),
    decreases conditions, 1int,
{
    let ghost operands = formulas_of(conditions@);
    let mut i: usize = 0;
    while i < conditions.len()
        invariant
            i <= conditions.len(),
            operands == formulas_of(conditions@),
            forall|k: int| 0 <= k < i ==> !holds(#[trigger] operands[k], target@),
        decreases conditions.len() - i,
    {
        if eval(&conditions[i], target) {
            assert(holds(operands[i as int], target@));
            return true;
        }
        i += 1;
    }
    false
}

/// Evaluates a filter expression against a record. Evaluation is total: a
/// path that does not resolve and a value that has no text make a comparison
/// false, never an error.
pub fn eval(exp: &Exp, target: &Record) -> (result: bool)
    ensures
        result == holds(exp@, target@),
    decreases exp, 0int,
{
    match exp {
        Exp::Contains(path, val) => eval_contains(path, val, target),
        Exp::Or(conditions) => {
            proof {
                lemma_or_view(*conditions);
            }
            eval_or(conditions, target)
        },
        Exp::And(conditions) => {
            proof {
                lemma_and_view(*conditions);
            }
            eval_and(conditions, target)
        },
        Exp::Not(inner) => eval_not(inner, target),
        Exp::Exists(path) => eval_exists(path, target),
        Exp::Equals(path, value) => eval_equals(path, value.as_str(), target),
        Exp::NotEquals(path, value) => eval_not_equals(path, value.as_str(), target),
    }
}

/// Whether a record passes a filter.
pub fn filter(exp: &Exp, target: &Record) -> (accepted: bool)
    ensures
        accepted == holds(exp@, target@),
{
    eval(exp, target)
}

/// A conjunction holds exactly when each of its operands holds.
pub proof fn lemma_and_holds(operands: Seq<Formula>, record: Json)
    ensures
        holds(Formula::And(operands), record) <==> forall|i: int|
            0 <= i < operands.len() ==> holds(#[trigger] operands[i], record),
{
    reveal_with_fuel(holds, 2);
}

/// A disjunction holds exactly when one of its operands holds.
pub proof fn lemma_or_holds(operands: Seq<Formula>, record: Json)
    ensures
        holds(Formula::Or(operands), record) <==> exists|i: int|
            0 <= i < operands.len() && holds(#[trigger] operands[i], record),
{
    reveal_with_fuel(holds, 2);
}

/// An existence test holds exactly when the path resolves to a value, null
/// included, and fails exactly when it resolves to none.
pub proof fn lemma_exists_iff_resolves(path: Seq<Seq<char>>, record: Json)
    ensures
        holds(Formula::Exists(path), record) <==> descend(path, record) is Some,
        !holds(Formula::Exists(path), record) <==> descend(path, record) is None,
{
}

/// An inequality is the negation of the equality on the same path, literal
/// and record, also where the path does not resolve.
pub proof fn lemma_not_equals_negates_equals(
    path: Seq<Seq<char>>,
    literal: Seq<char>,
    record: Json,
)
    ensures
        holds(Formula::NotEquals(path, literal), record) == !holds(
            Formula::Equals(path, literal),
            record,
        ),
{
}

/// A conjunction or a disjunction of a single operand holds exactly when
/// that operand holds.
pub proof fn lemma_single_operand(operand: Formula, record: Json)
    ensures
        holds(Formula::And(seq![operand]), record) == holds(operand, record),
        holds(Formula::Or(seq![operand]), record) == holds(operand, record),
{
    let one = seq![operand];
    assert(one[0] == operand);
    lemma_and_holds(one, record);
    lemma_or_holds(one, record);
}

/// Negating twice changes nothing.
pub proof fn lemma_double_negation(formula: Formula, record: Json)
    ensures
        holds(Formula::Not(Box::new(Formula::Not(Box::new(formula)))), record) == holds(
            formula,
            record,
        ),
{
    reveal_with_fuel(holds, 3);
}

} // verus!
