//! A precedence-climbing expression-parsing engine.
//!
//! A grammar author describes an expression language declaratively: a table
//! of prefix operators, a table of postfix operators, and a table of binary
//! operators, each tagged with a precedence level and (for binary operators)
//! an associativity, together with an atomic-operand lexer and a reducer that
//! folds matched operator applications into a result value.  The engine
//! composes these into a parser that handles precedence, associativity,
//! nested parenthesization and error reporting.

mod arith;
mod engine;
pub mod laws;
mod ops;

pub use arith::{
    arith_atom, arith_grammar, arith_reduce, digits_val, is_dig, parse_arith, run_len, spec_arith,
    trunc_div, ArithError, ArithSem,
};
pub use engine::{
    precedence, res_ok, spec_climb, spec_expr, spec_primary, wf_grammar, GrammarModel, Semantics,
};
pub use ops::{
    binary_op, unary_op, Assoc, BinaryOp, Cause, FailKind, OpSpec, Operation, ParseFail,
    SyntaxErr, UnaryOp,
};
