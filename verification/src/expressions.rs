//! The raw expression tree a caller submits: numbers, named variables, and
//! the four binary operators of the wire format. The engine itself accepts
//! only Add and Mul; decoration rejects the rest.

use vstd::prelude::*;

verus! {

/// A binary operator of the wire format.
#[derive(Debug)]
pub enum BinaryOp {
    /// Addition.
    Add,
    /// Subtraction; not implementable in the engine.
    Sub,
    /// Multiplication.
    Mul,
    /// Division; not implementable in the engine.
    Div,
}

/// A raw expression over 64-bit numbers and named variables.
#[derive(Debug)]
pub enum Expression {
    /// A literal number.
    Number {
        /// Its value.
        number: u64,
    },
    /// An application of a binary operator.
    BinOp {
        /// The left operand.
        left: Box<Expression>,
        /// The right operand.
        right: Box<Expression>,
        /// The operator.
        op: BinaryOp,
    },
    /// A named variable.
    Variable {
        /// Its name.
        name: String,
    },
}

/// The number of nodes of an expression.
pub open spec fn expr_size(e: Expression) -> nat
    decreases e,
{
    match e {
        Expression::Number { .. } => 1,
        Expression::BinOp { left, right, .. } => 1 + expr_size(*left) + expr_size(*right),
        Expression::Variable { .. } => 1,
    }
}

/// Whether an expression holds a variable.
pub open spec fn expr_has_var(e: Expression) -> bool
    decreases e,
{
    match e {
        Expression::Number { .. } => false,
        Expression::BinOp { left, right, .. } => expr_has_var(*left) || expr_has_var(*right),
        Expression::Variable { .. } => true,
    }
}

/// The value of an expression in the prime field, under an assignment of
/// variable names to values: numbers embed as themselves, Add and Mul act
/// modulo p. The unsupported operators carry no meaning and yield zero.
pub open spec fn eval_raw(e: Expression, env: Map<Seq<char>, nat>) -> nat
    decreases e,
{
    match e {
        Expression::Number { number } => number as nat,
        Expression::BinOp { left, right, op } => match op {
            BinaryOp::Add => crate::field::addp(eval_raw(*left, env), eval_raw(*right, env)),
            BinaryOp::Mul => crate::field::mulp(eval_raw(*left, env), eval_raw(*right, env)),
            _ => 0,
        },
        Expression::Variable { name } => if env.contains_key(name@) {
            env[name@]
        } else {
            0
        },
    }
}

/// Whether the engine supports an expression: only Add and Mul occur, and
/// every variable name is in the ownership map.
pub open spec fn expr_supported(e: Expression, vars: Map<Seq<char>, u64>) -> bool
    decreases e,
{
    match e {
        Expression::Number { .. } => true,
        Expression::BinOp { left, right, op } => (op is Add || op is Mul) && expr_supported(
            *left,
            vars,
        ) && expr_supported(*right, vars),
        Expression::Variable { name } => vars.contains_key(name@),
    }
}

} // verus!
