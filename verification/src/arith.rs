//! The reference arithmetic grammar: decimal integer literals, prefix
//! negation, and left-associative `*`, `/`, `+`, `-`, with `*` and `/`
//! binding more tightly.
//!
//! The reducer rejects invalid operator/operand combinations, division by
//! zero, and results that do not fit in `i64`, as semantic failures; the
//! engine's verified functions never panic.

use vstd::prelude::*;

use crate::engine::{
    gmodel, precedence, res_ok, spec_expr, wf_grammar, GrammarModel, Semantics,
};
use crate::ops::{
    binary_op, op_model, unary_op, Assoc, BinaryModel, BinaryOp, OpSpec, Operation, ParseFail,
    UnaryModel, UnaryOp,
};

verus! {

/// A semantic failure of the arithmetic reducer.
#[derive(Clone, Copy, Debug, PartialEq, Eq, Structural)]
pub enum ArithError {
    /// An operator/operand combination outside the grammar.
    InvalidCombination,
    /// The right operand of `/` was zero.
    DivideByZero,
    /// The mathematical result does not fit in `i64`.
    Overflow,
}

pub open spec fn is_dig(b: u8) -> bool {
    48 <= b <= 57
}

/// Length of the maximal run of decimal digits starting at `pos`.
pub open spec fn run_len(s: Seq<u8>, pos: int) -> int
    decreases s.len() - pos,
{
    if pos < 0 || pos >= s.len() {
        0
    } else if is_dig(s[pos]) {
        1 + run_len(s, pos + 1)
    } else {
        0
    }
}

/// The value of a string of decimal digits, most significant first.
pub open spec fn digits_val(s: Seq<u8>) -> int
    decreases s.len(),
{
    if s.len() == 0 {
        0
    } else {
        digits_val(s.drop_last()) * 10 + (s.last() - 48)
    }
}

pub proof fn lemma_run_len_bounds(s: Seq<u8>, pos: int)
    requires
        0 <= pos <= s.len(),
    ensures
        0 <= run_len(s, pos) <= s.len() - pos,
    decreases s.len() - pos,
{
    if pos < s.len() && is_dig(s[pos]) {
        lemma_run_len_bounds(s, pos + 1);
    }
}

pub proof fn lemma_run_len_digits(s: Seq<u8>, pos: int)
    requires
        0 <= pos <= s.len(),
    ensures
        forall|k: int| pos <= k < pos + run_len(s, pos) ==> is_dig(s[k]),
    decreases s.len() - pos,
{
    if pos < s.len() && is_dig(s[pos]) {
        lemma_run_len_digits(s, pos + 1);
    }
}

pub proof fn lemma_digits_val_nonneg(s: Seq<u8>)
    requires
        forall|k: int| 0 <= k < s.len() ==> is_dig(s[k]),
    ensures
        digits_val(s) >= 0,
    decreases s.len(),
{
    if s.len() > 0 {
        assert(forall|k: int| 0 <= k < s.drop_last().len() ==> s.drop_last()[k] == s[k]);
        lemma_digits_val_nonneg(s.drop_last());
    }
}

/// Reading more digits never makes the value smaller.
pub proof fn lemma_digits_val_mono(s: Seq<u8>, pos: int, a: int, b: int)
    requires
        0 <= pos <= a <= b <= s.len(),
        forall|k: int| pos <= k < b ==> is_dig(s[k]),
    ensures
        digits_val(s.subrange(pos, a)) <= digits_val(s.subrange(pos, b)),
    decreases b - a,
{
    if a < b {
        let t = s.subrange(pos, b);
        let t1 = s.subrange(pos, b - 1);
        assert(t.drop_last() =~= t1);
        assert(t.last() == s[b - 1]);
        assert(forall|j: int| 0 <= j < t1.len() ==> t1[j] == s[pos + j]);
        lemma_digits_val_nonneg(t1);
        assert(digits_val(t) == digits_val(t1) * 10 + (s[b - 1] - 48));
        assert(digits_val(t1) <= digits_val(t));
        lemma_digits_val_mono(s, pos, a, b - 1);
    }
}

/// What the atomic lexer recognizes: the maximal digit run at `pos`, valued
/// as a decimal number, provided it is non-empty and its value fits `i64`.
pub open spec fn arith_atom(s: Seq<u8>, pos: int) -> Option<(int, i64)> {
    let n = run_len(s, pos);
    if n == 0 {
        None
    } else {
        let v = digits_val(s.subrange(pos, pos + n));
        if v <= i64::MAX as int {
            Some((n, v as i64))
        } else {
            None
        }
    }
}

pub open spec fn spec_neg(a: i64) -> Result<i64, ArithError> {
    if a == i64::MIN {
        Err(ArithError::Overflow)
    } else {
        Ok((-a) as i64)
    }
}

pub open spec fn spec_add(a: i64, b: i64) -> Result<i64, ArithError> {
    let v = a + b;
    if i64::MIN <= v <= i64::MAX {
        Ok(v as i64)
    } else {
        Err(ArithError::Overflow)
    }
}

pub open spec fn spec_sub(a: i64, b: i64) -> Result<i64, ArithError> {
    let v = a - b;
    if i64::MIN <= v <= i64::MAX {
        Ok(v as i64)
    } else {
        Err(ArithError::Overflow)
    }
}

pub open spec fn spec_mul(a: i64, b: i64) -> Result<i64, ArithError> {
    let v = a * b;
    if i64::MIN <= v <= i64::MAX {
        Ok(v as i64)
    } else {
        Err(ArithError::Overflow)
    }
}

pub open spec fn abs_int(a: int) -> int {
    if a < 0 {
        -a
    } else {
        a
    }
}

/// Division truncating toward zero, as the `/` operator of the host
/// machine computes it.
pub open spec fn trunc_div(a: int, b: int) -> int {
    if b == 0 {
        0
    } else {
        let q = abs_int(a) / abs_int(b);
        if (a < 0) == (b < 0) {
            q
        } else {
            -q
        }
    }
}

pub open spec fn spec_div(a: i64, b: i64) -> Result<i64, ArithError> {
    if b == 0 {
        Err(ArithError::DivideByZero)
    } else {
        let q = trunc_div(a as int, b as int);
        if i64::MIN <= q <= i64::MAX {
            Ok(q as i64)
        } else {
            Err(ArithError::Overflow)
        }
    }
}

/// What the arithmetic reducer returns for each operator application.
pub open spec fn arith_reduce(op: OpSpec<i64>) -> Result<i64, ArithError> {
    match op {
        OpSpec::Prefix(t, o) => if t == seq![45u8] {
            spec_neg(o)
        } else {
            Err(ArithError::InvalidCombination)
        },
        OpSpec::Postfix(_, _) => Err(ArithError::InvalidCombination),
        OpSpec::Binary(l, t, r) => if t == seq![42u8] {
            spec_mul(l, r)
        } else if t == seq![47u8] {
            spec_div(l, r)
        } else if t == seq![43u8] {
            spec_add(l, r)
        } else if t == seq![45u8] {
            spec_sub(l, r)
        } else {
            Err(ArithError::InvalidCombination)
        },
    }
}

/// The atomic lexer and reducer of the reference arithmetic grammar.
pub struct ArithSem;

/// Whether `t` is the one-byte token `b`.
fn is_tok1(t: &Vec<u8>, b: u8) -> (r: bool)
    ensures
        r == (t@ == seq![b]),
{
    if t.len() == 1 {
        let r = t[0] == b;
        proof {
            if r {
                assert(t@ =~= seq![b]);
            } else if t@ == seq![b] {
                assert(t@[0] == seq![b][0]);
            }
        }
        r
    } else {
        proof {
            if t@ == seq![b] {
                assert(t@.len() == seq![b].len());
            }
        }
        false
    }
}

fn add_i64(a: i64, b: i64) -> (r: Result<i64, ArithError>)
    ensures
        r == spec_add(a, b),
{
    let v = (a as i128) + (b as i128);
    if v < i64::MIN as i128 || v > i64::MAX as i128 {
        Err(ArithError::Overflow)
    } else {
        Ok(v as i64)
    }
}

fn sub_i64(a: i64, b: i64) -> (r: Result<i64, ArithError>)
    ensures
        r == spec_sub(a, b),
{
    let v = (a as i128) - (b as i128);
    if v < i64::MIN as i128 || v > i64::MAX as i128 {
        Err(ArithError::Overflow)
    } else {
        Ok(v as i64)
    }
}

fn mul_i64(a: i64, b: i64) -> (r: Result<i64, ArithError>)
    ensures
        r == spec_mul(a, b),
{
    proof {
        assert((a as int) * (b as int) <= 0x4000_0000_0000_0000_0000_0000_0000_0000int
            && (a as int) * (b as int) >= -0x4000_0000_0000_0000_0000_0000_0000_0000int)
            by (nonlinear_arith)
            requires
                -0x8000_0000_0000_0000int <= a as int <= 0x7FFF_FFFF_FFFF_FFFFint,
                -0x8000_0000_0000_0000int <= b as int <= 0x7FFF_FFFF_FFFF_FFFFint,
        ;
    }
    let v = (a as i128) * (b as i128);
    if v < i64::MIN as i128 || v > i64::MAX as i128 {
        Err(ArithError::Overflow)
    } else {
        Ok(v as i64)
    }
}

fn div_i64(a: i64, b: i64) -> (r: Result<i64, ArithError>)
    ensures
        r == spec_div(a, b),
{
    if b == 0 {
        Err(ArithError::DivideByZero)
    } else if b == 1 {
        proof {
            vstd::arithmetic::div_mod::lemma_div_basics(abs_int(a as int));
        }
        Ok(a)
    } else if b == -1 {
        if a == i64::MIN {
            Err(ArithError::Overflow)
        } else {
            proof {
                vstd::arithmetic::div_mod::lemma_div_basics(abs_int(a as int));
            }
            Ok(-a)
        }
    } else {
        let am: u64 = if a >= 0 {
            a as u64
        } else {
            (-(a as i128)) as u64
        };
        let bm: u64 = if b >= 0 {
            b as u64
        } else {
            (-(b as i128)) as u64
        };
        let qm: u64 = am / bm;
        proof {
            assert(am as int == abs_int(a as int));
            assert(bm as int == abs_int(b as int));
            assert(bm >= 2);
            let ai = am as int;
            let bi = bm as int;
            let qi = qm as int;
            assert(qi == ai / bi);
            vstd::arithmetic::div_mod::lemma_fundamental_div_mod(ai, bi);
            vstd::arithmetic::div_mod::lemma_mod_bound(ai, bi);
            assert(ai == bi * qi + ai % bi);
            assert(bi * qi <= ai);
            assert(qi * 2 <= bi * qi) by (nonlinear_arith)
                requires
                    qi >= 0,
                    bi >= 2,
            ;
            assert(qi <= 0x4000_0000_0000_0000int);
        }
        if (a < 0) != (b < 0) {
            Ok((-(qm as i128)) as i64)
        } else {
            Ok(qm as i64)
        }
    }
}

impl Semantics for ArithSem {
    type V = i64;

    type E = ArithError;

    open spec fn wf(&self) -> bool {
        true
    }

    open spec fn atom_spec(&self, s: Seq<u8>, pos: int) -> Option<(int, i64)> {
        arith_atom(s, pos)
    }

    open spec fn reduce_spec(&self, op: OpSpec<i64>) -> Result<i64, ArithError> {
        arith_reduce(op)
    }

    proof fn atom_wf(&self, s: Seq<u8>, pos: int) {
        lemma_run_len_bounds(s, pos);
    }

    fn atom(&self, s: &[u8], pos: usize) -> (r: Option<(usize, i64)>) {
        let slen = s.len();
        if pos >= slen || s[pos] < 48 || s[pos] > 57 {
            return None;
        }
        let mut i: usize = pos;
        let mut acc: u64 = 0;
        while i < slen && s[i] >= 48 && s[i] <= 57
            invariant
                pos <= i <= slen,
                slen == s@.len(),
                forall|k: int| pos <= k < i ==> is_dig(s@[k]),
                run_len(s@, pos as int) == i - pos + run_len(s@, i as int),
                acc as int == digits_val(s@.subrange(pos as int, i as int)),
                acc <= i64::MAX as u64,
            decreases slen - i,
        {
            let d: u8 = s[i] - 48;
            if acc > 922337203685477580u64 || (acc == 922337203685477580u64 && d > 7) {
                proof {
                    let ghost n = run_len(s@, pos as int);
                    lemma_run_len_bounds(s@, i as int + 1);
                    lemma_run_len_digits(s@, pos as int);
                    assert(run_len(s@, i as int) == 1 + run_len(s@, i as int + 1));
                    assert(run_len(s@, i as int) >= 1);
                    assert(i + 1 - pos <= n);
                    let t = s@.subrange(pos as int, i + 1);
                    assert(t.drop_last() =~= s@.subrange(pos as int, i as int));
                    assert(t.last() == s@[i as int]);
                    assert(digits_val(t) == (acc as int) * 10 + (d as int));
                    assert(digits_val(t) > i64::MAX as int);
                    lemma_digits_val_mono(s@, pos as int, i + 1, pos + n);
                    assert(digits_val(s@.subrange(pos as int, pos + n)) > i64::MAX as int);
                }
                return None;
            }
            proof {
                let t = s@.subrange(pos as int, i + 1);
                assert(t.drop_last() =~= s@.subrange(pos as int, i as int));
                assert(t.last() == s@[i as int]);
                assert(digits_val(t) == (acc as int) * 10 + (d as int));
            }
            acc = acc * 10 + (d as u64);
            i += 1;
        }
        proof {
            assert(run_len(s@, i as int) == 0);
            assert(run_len(s@, pos as int) == i - pos);
            assert(run_len(s@, pos as int) >= 1);
        }
        Some((i - pos, acc as i64))
    }

    fn reduce(&self, op: Operation<Vec<u8>, Vec<u8>, Vec<u8>, i64>) -> (r: Result<
        i64,
        ArithError,
    >) {
        match op {
            Operation::Prefix(t, o) => {
                if is_tok1(&t, 45) {
                    if o == i64::MIN {
                        Err(ArithError::Overflow)
                    } else {
                        Ok(-o)
                    }
                } else {
                    Err(ArithError::InvalidCombination)
                }
            },
            Operation::Postfix(_, _) => Err(ArithError::InvalidCombination),
            Operation::Binary(l, t, rr) => {
                if is_tok1(&t, 42) {
                    mul_i64(l, rr)
                } else if is_tok1(&t, 47) {
                    div_i64(l, rr)
                } else if is_tok1(&t, 43) {
                    add_i64(l, rr)
                } else if is_tok1(&t, 45) {
                    sub_i64(l, rr)
                } else {
                    Err(ArithError::InvalidCombination)
                }
            },
        }
    }
}

/// The reference grammar: prefix `-` at level 1; binary `*` and `/` at
/// level 2 and `+` and `-` at level 3, all left-associative; no postfix
/// operators.
pub open spec fn arith_grammar() -> GrammarModel {
    GrammarModel {
        prefix: seq![UnaryModel { level: 1, token: seq![45u8] }],
        postfix: Seq::<UnaryModel>::empty(),
        binary: seq![
            BinaryModel { level: 2, assoc: Assoc::Left, token: seq![42u8] },
            BinaryModel { level: 2, assoc: Assoc::Left, token: seq![47u8] },
            BinaryModel { level: 3, assoc: Assoc::Left, token: seq![43u8] },
            BinaryModel { level: 3, assoc: Assoc::Left, token: seq![45u8] },
        ],
    }
}

/// The mathematical parse of an arithmetic expression.
pub open spec fn spec_arith(s: Seq<u8>) -> Result<(int, i64), ParseFail<ArithError>> {
    spec_expr(ArithSem, arith_grammar(), s, 0, i64::MAX as int)
}

fn vec1(b: u8) -> (r: Vec<u8>)
    ensures
        r@ == seq![b],
{
    let mut v: Vec<u8> = Vec::new();
    v.push(b);
    proof {
        assert(v@ =~= seq![b]);
    }
    v
}

/// Parses one arithmetic expression from the start of `input`, returning
/// the evaluated value and the number of bytes consumed, or the
/// position-tagged failure; the result is exactly `spec_arith(input@)`.
pub fn parse_arith(input: &[u8]) -> (r: Result<(usize, i64), ParseFail<ArithError>>)
    ensures
        res_ok(r, spec_arith(input@)),
{
    let prefix = build_arith_prefix();
    let postfix: Vec<UnaryOp> = Vec::new();
    let binary = build_arith_binary();
    proof {
        let g = gmodel(prefix@, postfix@, binary@);
        let a = arith_grammar();
        assert(g.prefix =~= a.prefix);
        assert(g.postfix =~= a.postfix);
        assert(g.binary =~= a.binary);
        assert(g == a);
        assert(wf_grammar(a));
    }
    precedence(&prefix, &postfix, &binary, &ArithSem, input)
}

/// The prefix-operator table of the reference grammar.
fn build_arith_prefix() -> (r: Vec<UnaryOp>)
    ensures
        crate::engine::uns_model(r@) == arith_grammar().prefix,
{
    let mut v: Vec<UnaryOp> = Vec::new();
    v.push(unary_op(1, vec1(45)));
    proof {
        assert(crate::engine::uns_model(v@) =~= arith_grammar().prefix);
    }
    v
}

/// The binary-operator table of the reference grammar.
fn build_arith_binary() -> (r: Vec<BinaryOp>)
    ensures
        crate::engine::bins_model(r@) == arith_grammar().binary,
{
    let mut v: Vec<BinaryOp> = Vec::new();
    v.push(binary_op(2, Assoc::Left, vec1(42)));
    v.push(binary_op(2, Assoc::Left, vec1(47)));
    v.push(binary_op(3, Assoc::Left, vec1(43)));
    v.push(binary_op(3, Assoc::Left, vec1(45)));
    proof {
        assert(crate::engine::bins_model(v@) =~= arith_grammar().binary);
    }
    v
}

} // verus!
