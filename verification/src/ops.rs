//! Operator descriptors, the operator-application data model, and the
//! error model shared by the whole engine.

use vstd::prelude::*;

verus! {

/// Grouping direction for binary operators of equal precedence.
///
/// After the engine consumes a binary operator at level `l`, the bound used
/// to parse its right operand is `l - 1` for `Left` (same-level operators are
/// excluded, so the outer loop consumes them left-to-right) and `l` for
/// `Right` (same-level operators recurse, grouping right-to-left).
#[derive(Clone, Copy, Debug, PartialEq, Eq, Structural)]
pub enum Assoc {
    Left,
    Right,
}

/// A completed operator application, handed to the caller-supplied reducer.
///
/// The type parameters are the prefix-operator token, the postfix-operator
/// token, the binary-operator token, and the operand value produced by the
/// reducer.  A value of this type is transient: the engine constructs it,
/// folds it at once, and discards it.
pub enum Operation<P1, P2, P3, O> {
    Prefix(P1, O),
    Postfix(O, P2),
    Binary(O, P3, O),
}

/// The mathematical counterpart of [`Operation`] as the engine applies it:
/// operator tokens are byte sequences, operands are reducer values.
pub enum OpSpec<V> {
    Prefix(Seq<u8>, V),
    Postfix(V, Seq<u8>),
    Binary(V, Seq<u8>, V),
}

/// Descriptor for a prefix or postfix operator: its precedence level and the
/// token that introduces it.  Smaller levels bind more tightly.
#[derive(Clone, Debug, PartialEq, Eq)]
pub struct UnaryOp {
    pub level: u32,
    pub token: Vec<u8>,
}

/// Descriptor for a binary operator: precedence level, associativity, and
/// the token that introduces it.  Smaller levels bind more tightly.
#[derive(Clone, Debug, PartialEq, Eq)]
pub struct BinaryOp {
    pub level: u32,
    pub assoc: Assoc,
    pub token: Vec<u8>,
}

/// Mathematical view of a [`UnaryOp`] descriptor.
pub struct UnaryModel {
    pub level: u32,
    pub token: Seq<u8>,
}

/// Mathematical view of a [`BinaryOp`] descriptor.
pub struct BinaryModel {
    pub level: u32,
    pub assoc: Assoc,
    pub token: Seq<u8>,
}

pub open spec fn un_model(u: UnaryOp) -> UnaryModel {
    UnaryModel { level: u.level, token: u.token@ }
}

pub open spec fn bin_model(b: BinaryOp) -> BinaryModel {
    BinaryModel { level: b.level, assoc: b.assoc, token: b.token@ }
}

pub open spec fn uns_model(t: Seq<UnaryOp>) -> Seq<UnaryModel> {
    t.map_values(|u: UnaryOp| un_model(u))
}

pub open spec fn bins_model(t: Seq<BinaryOp>) -> Seq<BinaryModel> {
    t.map_values(|b: BinaryOp| bin_model(b))
}

/// The mathematical view of a completed operator application as the engine
/// hands it to the reducer.
pub open spec fn op_model<V>(op: Operation<Vec<u8>, Vec<u8>, Vec<u8>, V>) -> OpSpec<V> {
    match op {
        Operation::Prefix(t, o) => OpSpec::Prefix(t@, o),
        Operation::Postfix(o, t) => OpSpec::Postfix(o, t@),
        Operation::Binary(l, t, r) => OpSpec::Binary(l, t@, r),
    }
}

/// Builds a prefix (or postfix) operator descriptor from a precedence level
/// and the token that the operator is written with.
pub fn unary_op(level: u32, token: Vec<u8>) -> (r: UnaryOp)
    ensures
        r.level == level,
        r.token == token,
{
    UnaryOp { level, token }
}

/// Builds a binary operator descriptor from a precedence level, an
/// associativity, and the token that the operator is written with.
pub fn binary_op(level: u32, assoc: Assoc, token: Vec<u8>) -> (r: BinaryOp)
    ensures
        r.level == level,
        r.assoc == assoc,
        r.token == token,
{
    BinaryOp { level, assoc, token }
}

/// What a failed match was looking for.
#[derive(Clone, Copy, Debug, PartialEq, Eq, Structural)]
pub enum FailKind {
    /// No alternative (prefix operator, parenthesized sub-expression, or
    /// atomic literal) matched where an expression was required.
    Expression,
    /// A closing delimiter was required and not found.
    CloseDelim,
    /// The atomic-literal lexer failed.
    Literal,
}

/// The innermost collaborator failure wrapped by a [`SyntaxErr`].
#[derive(Clone, Copy, Debug, PartialEq, Eq, Structural)]
pub struct Cause {
    pub offset: usize,
    pub kind: FailKind,
}

/// A syntactic failure: a byte offset into the input, what was expected
/// there, and optionally the deepest collaborator failure it wraps.
#[derive(Clone, Copy, Debug, PartialEq, Eq)]
pub struct SyntaxErr {
    pub offset: usize,
    pub kind: FailKind,
    pub cause: Option<Cause>,
}

/// A failure of the produced parser: either a syntactic failure with a
/// position-tagged diagnostic, or the reducer's own semantic error,
/// propagated verbatim.
#[derive(Clone, Copy, Debug, PartialEq, Eq)]
pub enum ParseFail<E2> {
    Syntax(SyntaxErr),
    Semantic(E2),
}

impl SyntaxErr {
    /// The deepest offset this diagnostic reports: the wrapped cause's
    /// offset if one is present, else its own.
    pub fn deepest_offset(&self) -> (r: usize)
        ensures
            r == self.spec_deepest_offset(),
    {
        match self.cause {
            Some(c) => c.offset,
            None => self.offset,
        }
    }

    pub open spec fn spec_deepest_offset(&self) -> usize {
        match self.cause {
            Some(c) => c.offset,
            None => self.offset,
        }
    }
}

} // verus!
