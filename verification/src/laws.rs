//! Laws of the engine on the reference arithmetic grammar: precedence,
//! associativity, parenthesization, prefix binding, and failure positions,
//! each proved of the mathematical parse that `parse_arith` is proved to
//! compute.

use vstd::prelude::*;

use crate::arith::{
    arith_atom, arith_grammar, arith_reduce, digits_val, is_dig, lemma_digits_val_nonneg,
    lemma_run_len_bounds, run_len, spec_arith, ArithError, ArithSem,
};
use crate::engine::{
    byte_at, find_bin, find_bin_from, find_un, find_un_from, lemma_expr_consumes,
    lemma_primary_consumes, spec_climb, spec_expr, spec_primary, tok_at, wf_grammar,
};
use crate::ops::{Assoc, BinaryModel, Cause, FailKind, OpSpec, ParseFail, SyntaxErr, UnaryModel};

verus! {

/// A one-byte token occurs at `pos` exactly when that byte does.
proof fn lemma_tok1(s: Seq<u8>, pos: int, b: u8)
    ensures
        tok_at(s, pos, seq![b]) == byte_at(s, pos, b),
{
    if byte_at(s, pos, b) {
        assert(s.subrange(pos, pos + 1) =~= seq![b]);
        assert(tok_at(s, pos, seq![b]));
    }
    if tok_at(s, pos, seq![b]) {
        assert(s.subrange(pos, pos + seq![b].len() as int)[0] == s[pos]);
        assert(byte_at(s, pos, b));
    }
}

/// The distinct one-byte operator tokens are distinct sequences.
proof fn lemma_tokens_distinct()
    ensures
        seq![45u8] != seq![42u8],
        seq![45u8] != seq![47u8],
        seq![45u8] != seq![43u8],
        seq![42u8] != seq![47u8],
        seq![42u8] != seq![43u8],
        seq![47u8] != seq![43u8],
{
    assert(seq![45u8][0] == 45u8);
    assert(seq![42u8][0] == 42u8);
    assert(seq![47u8][0] == 47u8);
    assert(seq![43u8][0] == 43u8);
}

/// What the prefix table of the reference grammar matches at `pos`.
proof fn lemma_find_prefix(s: Seq<u8>, pos: int)
    ensures
        find_un(arith_grammar().prefix, s, pos) == (if byte_at(s, pos, 45u8) {
            Some(UnaryModel { level: 1, token: seq![45u8] })
        } else {
            None::<UnaryModel>
        }),
{
    let t = arith_grammar().prefix;
    lemma_tok1(s, pos, 45u8);
    assert(t.len() == 1);
    assert(t[0] == UnaryModel { level: 1, token: seq![45u8] });
    reveal_with_fuel(find_un_from, 3);
}

/// The postfix table of the reference grammar never matches.
proof fn lemma_find_postfix(s: Seq<u8>, pos: int)
    ensures
        find_un(arith_grammar().postfix, s, pos) is None,
{
    reveal_with_fuel(find_un_from, 2);
}

/// What the binary table of the reference grammar matches at `pos`.
proof fn lemma_find_binary(s: Seq<u8>, pos: int)
    ensures
        find_bin(arith_grammar().binary, s, pos) == (if byte_at(s, pos, 42u8) {
            Some(BinaryModel { level: 2, assoc: Assoc::Left, token: seq![42u8] })
        } else if byte_at(s, pos, 47u8) {
            Some(BinaryModel { level: 2, assoc: Assoc::Left, token: seq![47u8] })
        } else if byte_at(s, pos, 43u8) {
            Some(BinaryModel { level: 3, assoc: Assoc::Left, token: seq![43u8] })
        } else if byte_at(s, pos, 45u8) {
            Some(BinaryModel { level: 3, assoc: Assoc::Left, token: seq![45u8] })
        } else {
            None::<BinaryModel>
        }),
{
    let t = arith_grammar().binary;
    lemma_tok1(s, pos, 42u8);
    lemma_tok1(s, pos, 47u8);
    lemma_tok1(s, pos, 43u8);
    lemma_tok1(s, pos, 45u8);
    assert(t.len() == 4);
    assert(t[0] == BinaryModel { level: 2, assoc: Assoc::Left, token: seq![42u8] });
    assert(t[1] == BinaryModel { level: 2, assoc: Assoc::Left, token: seq![47u8] });
    assert(t[2] == BinaryModel { level: 3, assoc: Assoc::Left, token: seq![43u8] });
    assert(t[3] == BinaryModel { level: 3, assoc: Assoc::Left, token: seq![45u8] });
    reveal_with_fuel(find_bin_from, 6);
}

/// A digit run of length one is an atom of value `digit - 48`.
proof fn lemma_atom_single(s: Seq<u8>, pos: int)
    requires
        0 <= pos < s.len(),
        is_dig(s[pos]),
        pos + 1 == s.len() || !is_dig(s[pos + 1]),
    ensures
        arith_atom(s, pos) == Some((1int, (s[pos] - 48) as i64)),
{
    reveal_with_fuel(run_len, 3);
    assert(run_len(s, pos) == 1);
    let t = s.subrange(pos, pos + 1);
    assert(t =~= seq![s[pos]]);
    reveal_with_fuel(digits_val, 3);
    assert(t.drop_last() =~= Seq::<u8>::empty());
    assert(digits_val(t) == s[pos] - 48);
}

/// Primary resolution at a single digit yields that digit's value.
proof fn lemma_primary_digit(s: Seq<u8>, pos: int)
    requires
        0 <= pos < s.len(),
        is_dig(s[pos]),
        pos + 1 == s.len() || !is_dig(s[pos + 1]),
    ensures
        spec_primary(ArithSem, arith_grammar(), s, pos) == Ok::<(int, i64), ParseFail<ArithError>>(
            (pos + 1, (s[pos] - 48) as i64),
        ),
{
    lemma_find_prefix(s, pos);
    assert(!byte_at(s, pos, 45u8));
    assert(!byte_at(s, pos, 40u8));
    lemma_atom_single(s, pos);
}

/// The climbing loop stops where no operator byte occurs.
proof fn lemma_climb_stop(s: Seq<u8>, pos: int, lhs: i64, bound: int)
    requires
        !byte_at(s, pos, 42u8),
        !byte_at(s, pos, 47u8),
        !byte_at(s, pos, 43u8),
        !byte_at(s, pos, 45u8),
    ensures
        spec_climb(ArithSem, arith_grammar(), s, pos, lhs, bound) == Ok::<
            (int, i64),
            ParseFail<ArithError>,
        >((pos, lhs)),
{
    lemma_find_postfix(s, pos);
    lemma_find_binary(s, pos);
}

/// The climbing loop leaves a `+` or `-` for the enclosing level when the
/// bound excludes level 3.
proof fn lemma_climb_deferred(s: Seq<u8>, pos: int, lhs: i64, bound: int)
    requires
        byte_at(s, pos, 43u8) || byte_at(s, pos, 45u8),
        bound < 3,
    ensures
        spec_climb(ArithSem, arith_grammar(), s, pos, lhs, bound) == Ok::<
            (int, i64),
            ParseFail<ArithError>,
        >((pos, lhs)),
{
    lemma_find_postfix(s, pos);
    lemma_find_binary(s, pos);
}

/// An input that is one whole non-negative integer literal parses to that
/// integer's value, consuming the entire input.
pub proof fn lemma_literal_identity(s: Seq<u8>)
    requires
        s.len() >= 1,
        forall|k: int| 0 <= k < s.len() ==> is_dig(s[k]),
        digits_val(s) <= i64::MAX as int,
    ensures
        spec_arith(s) == Ok::<(int, i64), ParseFail<ArithError>>(
            (s.len() as int, digits_val(s) as i64),
        ),
{
    lemma_run_len_full(s, 0);
    assert(s.subrange(0, s.len() as int) =~= s);
    lemma_digits_val_nonneg(s);
    lemma_find_prefix(s, 0);
    assert(!byte_at(s, 0, 45u8));
    assert(!byte_at(s, 0, 40u8));
    assert(arith_atom(s, 0) == Some((s.len() as int, digits_val(s) as i64)));
    assert(spec_primary(ArithSem, arith_grammar(), s, 0) == Ok::<(int, i64), ParseFail<ArithError>>(
        (s.len() as int, digits_val(s) as i64),
    ));
    lemma_climb_stop(s, s.len() as int, digits_val(s) as i64, i64::MAX as int);
}

/// A run of digits is read to its end.
proof fn lemma_run_len_full(s: Seq<u8>, pos: int)
    requires
        0 <= pos <= s.len(),
        forall|k: int| pos <= k < s.len() ==> is_dig(s[k]),
    ensures
        run_len(s, pos) == s.len() - pos,
    decreases s.len() - pos,
{
    if pos < s.len() {
        lemma_run_len_full(s, pos + 1);
    }
}

/// Precedence: in `a OP1 b OP2 c` with OP1 looser than OP2, the tighter
/// OP2 application is folded first, so the result is that of
/// `a OP1 (b OP2 c)`, never that of `(a OP1 b) OP2 c` folded as written;
/// a semantic failure of the inner fold aborts the whole parse.
pub proof fn lemma_precedence(a: u8, op1: u8, b: u8, op2: u8, c: u8)
    requires
        is_dig(a),
        is_dig(b),
        is_dig(c),
        op1 == 43 || op1 == 45,
        op2 == 42 || op2 == 47,
    ensures
        ({
            let va = (a - 48) as i64;
            let vb = (b - 48) as i64;
            let vc = (c - 48) as i64;
            let s = seq![a, op1, b, op2, c];
            match arith_reduce(OpSpec::Binary(vb, seq![op2], vc)) {
                Ok(m) => arith_reduce(OpSpec::Binary(va, seq![op1], m)) matches Ok(o)
                    && spec_arith(s) == Ok::<(int, i64), ParseFail<ArithError>>((5int, o)),
                Err(e) => spec_arith(s) == Err::<(int, i64), ParseFail<ArithError>>(
                    ParseFail::Semantic(e),
                ),
            }
        }),
{
    let s = seq![a, op1, b, op2, c];
    let g = arith_grammar();
    assert(s.len() == 5);
    assert(s[0] == a && s[1] == op1 && s[2] == b && s[3] == op2 && s[4] == c);
    lemma_tokens_distinct();
    let va = (a - 48) as i64;
    let vb = (b - 48) as i64;
    let vc = (c - 48) as i64;
    // innermost operand `c`
    lemma_primary_digit(s, 4);
    lemma_climb_stop(s, 5, vc, 1);
    assert(spec_expr(ArithSem, g, s, 4, 1) == Ok::<(int, i64), ParseFail<ArithError>>((5int, vc)));
    // `b OP2 c` under the bound of OP1
    lemma_primary_digit(s, 2);
    lemma_find_postfix(s, 3);
    lemma_find_binary(s, 3);
    // the inner result is small, so the outer fold cannot overflow
    assert(0 <= (vb as int) * (vc as int) <= 81) by (nonlinear_arith)
        requires
            0 <= vb as int <= 9,
            0 <= vc as int <= 9,
    ;
    if vc != 0 {
        vstd::arithmetic::div_mod::lemma_div_basics_4(vb as int, vc as int);
        vstd::arithmetic::div_mod::lemma_div_basics_5(vb as int, vc as int);
    }
    match arith_reduce(OpSpec::Binary(vb, seq![op2], vc)) {
        Ok(m) => {
            assert(0 <= m <= 81);
            lemma_climb_stop(s, 5, m, 2);
            assert(spec_climb(ArithSem, g, s, 3, vb, 2) == Ok::<(int, i64), ParseFail<ArithError>>(
                (5int, m),
            ));
            assert(spec_expr(ArithSem, g, s, 2, 2) == Ok::<(int, i64), ParseFail<ArithError>>(
                (5int, m),
            ));
            // `a OP1 (b OP2 c)` at the top
            lemma_primary_digit(s, 0);
            lemma_find_postfix(s, 1);
            lemma_find_binary(s, 1);
            match arith_reduce(OpSpec::Binary(va, seq![op1], m)) {
                Ok(o) => {
                    lemma_climb_stop(s, 5, o, i64::MAX as int);
                    assert(spec_climb(ArithSem, g, s, 1, va, i64::MAX as int) == Ok::<
                        (int, i64),
                        ParseFail<ArithError>,
                    >((5int, o)));
                },
                Err(_) => {
                    assert(false);
                },
            }
        },
        Err(e) => {
            // the semantic failure aborts the climb and the whole parse
            lemma_primary_digit(s, 0);
            lemma_find_postfix(s, 1);
            lemma_find_binary(s, 1);
            assert(spec_climb(ArithSem, g, s, 3, vb, 2) == Err::<(int, i64), ParseFail<ArithError>>(
                ParseFail::Semantic(e),
            ));
            assert(spec_arith(s) == Err::<(int, i64), ParseFail<ArithError>>(
                ParseFail::Semantic(e),
            ));
        },
    }
}

/// Left-associativity: same-level operators group left-to-right; the
/// result of `a OP1 b OP2 c` with OP1 and OP2 at one level is that of
/// `(a OP1 b) OP2 c` — for `a - b - c`, that of `(a - b) - c`; a semantic
/// failure of either fold aborts the whole parse.
pub proof fn lemma_left_assoc(a: u8, op1: u8, b: u8, op2: u8, c: u8)
    requires
        is_dig(a),
        is_dig(b),
        is_dig(c),
        (op1 == 43 || op1 == 45) && (op2 == 43 || op2 == 45) || (op1 == 42 || op1 == 47) && (op2
            == 42 || op2 == 47),
    ensures
        ({
            let va = (a - 48) as i64;
            let vb = (b - 48) as i64;
            let vc = (c - 48) as i64;
            let s = seq![a, op1, b, op2, c];
            match arith_reduce(OpSpec::Binary(va, seq![op1], vb)) {
                Ok(d) => match arith_reduce(OpSpec::Binary(d, seq![op2], vc)) {
                    Ok(o) => spec_arith(s) == Ok::<(int, i64), ParseFail<ArithError>>((5int, o)),
                    Err(e) => spec_arith(s) == Err::<(int, i64), ParseFail<ArithError>>(
                        ParseFail::Semantic(e),
                    ),
                },
                Err(e) => spec_arith(s) == Err::<(int, i64), ParseFail<ArithError>>(
                    ParseFail::Semantic(e),
                ),
            }
        }),
{
    let s = seq![a, op1, b, op2, c];
    let g = arith_grammar();
    assert(s.len() == 5);
    assert(s[0] == a && s[1] == op1 && s[2] == b && s[3] == op2 && s[4] == c);
    lemma_tokens_distinct();
    let va = (a - 48) as i64;
    let vb = (b - 48) as i64;
    let vc = (c - 48) as i64;
    let level: int = if op1 == 43 || op1 == 45 {
        3
    } else {
        2
    };
    let rb = level - 1;
    // the right operand of OP1 stops before the same-level OP2
    lemma_primary_digit(s, 2);
    if level == 3 {
        lemma_climb_deferred(s, 3, vb, rb);
    } else {
        lemma_climb_deferred_mul(s, 3, vb, rb);
    }
    assert(spec_expr(ArithSem, g, s, 2, rb) == Ok::<(int, i64), ParseFail<ArithError>>((3int, vb)));
    // fold `a OP1 b`, then consume OP2 in the same loop
    lemma_primary_digit(s, 0);
    lemma_find_postfix(s, 1);
    lemma_find_binary(s, 1);
    lemma_primary_digit(s, 4);
    lemma_climb_stop(s, 5, vc, rb);
    assert(spec_expr(ArithSem, g, s, 4, rb) == Ok::<(int, i64), ParseFail<ArithError>>((5int, vc)));
    lemma_find_postfix(s, 3);
    lemma_find_binary(s, 3);
    match arith_reduce(OpSpec::Binary(va, seq![op1], vb)) {
        Ok(d) => {
            match arith_reduce(OpSpec::Binary(d, seq![op2], vc)) {
                Ok(o) => {
                    lemma_climb_stop(s, 5, o, i64::MAX as int);
                    assert(spec_climb(ArithSem, g, s, 3, d, i64::MAX as int) == Ok::<
                        (int, i64),
                        ParseFail<ArithError>,
                    >((5int, o)));
                    assert(spec_climb(ArithSem, g, s, 1, va, i64::MAX as int) == Ok::<
                        (int, i64),
                        ParseFail<ArithError>,
                    >((5int, o)));
                    assert(spec_arith(s) == Ok::<(int, i64), ParseFail<ArithError>>((5int, o)));
                },
                Err(e) => {
                    assert(spec_climb(ArithSem, g, s, 3, d, i64::MAX as int) == Err::<
                        (int, i64),
                        ParseFail<ArithError>,
                    >(ParseFail::Semantic(e)));
                    assert(spec_arith(s) == Err::<(int, i64), ParseFail<ArithError>>(
                        ParseFail::Semantic(e),
                    ));
                },
            }
        },
        Err(e) => {
            assert(spec_climb(ArithSem, g, s, 1, va, i64::MAX as int) == Err::<
                (int, i64),
                ParseFail<ArithError>,
            >(ParseFail::Semantic(e)));
            assert(spec_arith(s) == Err::<(int, i64), ParseFail<ArithError>>(
                ParseFail::Semantic(e),
            ));
        },
    }
}

/// Parenthesization overrides precedence: `(a OP1 b) OP2 c` groups
/// exactly as written, whatever the relative precedence of OP1 and OP2; a
/// semantic failure of either fold aborts the whole parse.
pub proof fn lemma_paren_overrides(a: u8, op1: u8, b: u8, op2: u8, c: u8)
    requires
        is_dig(a),
        is_dig(b),
        is_dig(c),
        op1 == 42 || op1 == 47 || op1 == 43 || op1 == 45,
        op2 == 42 || op2 == 47 || op2 == 43 || op2 == 45,
    ensures
        ({
            let va = (a - 48) as i64;
            let vb = (b - 48) as i64;
            let vc = (c - 48) as i64;
            let s = seq![40u8, a, op1, b, 41u8, op2, c];
            match arith_reduce(OpSpec::Binary(va, seq![op1], vb)) {
                Ok(d) => match arith_reduce(OpSpec::Binary(d, seq![op2], vc)) {
                    Ok(o) => spec_arith(s) == Ok::<(int, i64), ParseFail<ArithError>>((7int, o)),
                    Err(e) => spec_arith(s) == Err::<(int, i64), ParseFail<ArithError>>(
                        ParseFail::Semantic(e),
                    ),
                },
                Err(e) => spec_arith(s) == Err::<(int, i64), ParseFail<ArithError>>(
                    ParseFail::Semantic(e),
                ),
            }
        }),
{
    let s = seq![40u8, a, op1, b, 41u8, op2, c];
    let g = arith_grammar();
    assert(s.len() == 7);
    assert(s[0] == 40u8 && s[1] == a && s[2] == op1 && s[3] == b && s[4] == 41u8 && s[5] == op2
        && s[6] == c);
    lemma_tokens_distinct();
    let va = (a - 48) as i64;
    let vb = (b - 48) as i64;
    let vc = (c - 48) as i64;
    // inside the parentheses: `a OP1 b`, whose climb stops at `)`
    lemma_primary_digit(s, 3);
    lemma_primary_digit(s, 1);
    lemma_find_postfix(s, 2);
    lemma_find_binary(s, 2);
    lemma_climb_stop(s, 4, vb, 1);
    lemma_climb_stop(s, 4, vb, 2);
    assert(spec_expr(ArithSem, g, s, 3, 1) == Ok::<(int, i64), ParseFail<ArithError>>((4int, vb)));
    assert(spec_expr(ArithSem, g, s, 3, 2) == Ok::<(int, i64), ParseFail<ArithError>>((4int, vb)));
    lemma_find_prefix(s, 0);
    assert(!byte_at(s, 0, 45u8));
    assert(byte_at(s, 0, 40u8));
    match arith_reduce(OpSpec::Binary(va, seq![op1], vb)) {
        Ok(d) => {
            lemma_climb_stop(s, 4, d, i64::MAX as int);
            assert(spec_climb(ArithSem, g, s, 2, va, i64::MAX as int) == Ok::<
                (int, i64),
                ParseFail<ArithError>,
            >((4int, d)));
            assert(spec_expr(ArithSem, g, s, 1, i64::MAX as int) == Ok::<
                (int, i64),
                ParseFail<ArithError>,
            >((4int, d)));
            assert(byte_at(s, 4, 41u8));
            assert(spec_primary(ArithSem, g, s, 0) == Ok::<(int, i64), ParseFail<ArithError>>(
                (5int, d),
            ));
            // then OP2 applies to the grouped value
            lemma_find_postfix(s, 5);
            lemma_find_binary(s, 5);
            lemma_primary_digit(s, 6);
            lemma_climb_stop(s, 7, vc, 1);
            lemma_climb_stop(s, 7, vc, 2);
            assert(spec_expr(ArithSem, g, s, 6, 1) == Ok::<(int, i64), ParseFail<ArithError>>(
                (7int, vc),
            ));
            assert(spec_expr(ArithSem, g, s, 6, 2) == Ok::<(int, i64), ParseFail<ArithError>>(
                (7int, vc),
            ));
            match arith_reduce(OpSpec::Binary(d, seq![op2], vc)) {
                Ok(o) => {
                    lemma_climb_stop(s, 7, o, i64::MAX as int);
                    assert(spec_climb(ArithSem, g, s, 5, d, i64::MAX as int) == Ok::<
                        (int, i64),
                        ParseFail<ArithError>,
                    >((7int, o)));
                    assert(spec_arith(s) == Ok::<(int, i64), ParseFail<ArithError>>((7int, o)));
                },
                Err(e) => {
                    assert(spec_climb(ArithSem, g, s, 5, d, i64::MAX as int) == Err::<
                        (int, i64),
                        ParseFail<ArithError>,
                    >(ParseFail::Semantic(e)));
                    assert(spec_arith(s) == Err::<(int, i64), ParseFail<ArithError>>(
                        ParseFail::Semantic(e),
                    ));
                },
            }
        },
        Err(e) => {
            assert(spec_climb(ArithSem, g, s, 2, va, i64::MAX as int) == Err::<
                (int, i64),
                ParseFail<ArithError>,
            >(ParseFail::Semantic(e)));
            assert(spec_expr(ArithSem, g, s, 1, i64::MAX as int) == Err::<
                (int, i64),
                ParseFail<ArithError>,
            >(ParseFail::Semantic(e)));
            assert(spec_primary(ArithSem, g, s, 0) == Err::<(int, i64), ParseFail<ArithError>>(
                ParseFail::Semantic(e),
            ));
            assert(spec_arith(s) == Err::<(int, i64), ParseFail<ArithError>>(
                ParseFail::Semantic(e),
            ));
        },
    }
}

/// Prefix application binds tighter than any binary operator: the result
/// of `-a OP b` is that of `(-a) OP b`, for every binary operator of the
/// grammar; a semantic failure of the binary fold aborts the whole parse.
pub proof fn lemma_prefix_tightest(a: u8, op: u8, b: u8)
    requires
        is_dig(a),
        is_dig(b),
        op == 42 || op == 47 || op == 43 || op == 45,
    ensures
        ({
            let va = (a - 48) as i64;
            let vb = (b - 48) as i64;
            let n = (0 - va as int) as i64;
            let s = seq![45u8, a, op, b];
            arith_reduce(OpSpec::Prefix(seq![45u8], va)) == Ok::<i64, ArithError>(n)
                && match arith_reduce(OpSpec::Binary(n, seq![op], vb)) {
                Ok(o) => spec_arith(s) == Ok::<(int, i64), ParseFail<ArithError>>((4int, o)),
                Err(e) => spec_arith(s) == Err::<(int, i64), ParseFail<ArithError>>(
                    ParseFail::Semantic(e),
                ),
            }
        }),
{
    let s = seq![45u8, a, op, b];
    let g = arith_grammar();
    assert(s.len() == 4);
    assert(s[0] == 45u8 && s[1] == a && s[2] == op && s[3] == b);
    lemma_tokens_distinct();
    let va = (a - 48) as i64;
    let vb = (b - 48) as i64;
    // the prefix operator parses its operand under its own bound 1, which
    // excludes every binary operator of the grammar
    lemma_find_prefix(s, 0);
    assert(byte_at(s, 0, 45u8));
    lemma_primary_digit(s, 1);
    if op == 42 || op == 47 {
        lemma_climb_deferred_mul(s, 2, va, 1);
    } else {
        lemma_climb_deferred(s, 2, va, 1);
    }
    assert(spec_expr(ArithSem, g, s, 1, 1) == Ok::<(int, i64), ParseFail<ArithError>>((2int, va)));
    let n = (0 - va as int) as i64;
    assert(spec_primary(ArithSem, g, s, 0) == Ok::<(int, i64), ParseFail<ArithError>>((2int, n)));
    // the binary operator then applies to the negated value
    lemma_find_postfix(s, 2);
    lemma_find_binary(s, 2);
    lemma_primary_digit(s, 3);
    lemma_climb_stop(s, 4, vb, 1);
    lemma_climb_stop(s, 4, vb, 2);
    assert(spec_expr(ArithSem, g, s, 3, 1) == Ok::<(int, i64), ParseFail<ArithError>>((4int, vb)));
    assert(spec_expr(ArithSem, g, s, 3, 2) == Ok::<(int, i64), ParseFail<ArithError>>((4int, vb)));
    match arith_reduce(OpSpec::Binary(n, seq![op], vb)) {
        Ok(o) => {
            lemma_climb_stop(s, 4, o, i64::MAX as int);
            assert(spec_climb(ArithSem, g, s, 2, n, i64::MAX as int) == Ok::<
                (int, i64),
                ParseFail<ArithError>,
            >((4int, o)));
            assert(spec_arith(s) == Ok::<(int, i64), ParseFail<ArithError>>((4int, o)));
        },
        Err(e) => {
            assert(spec_climb(ArithSem, g, s, 2, n, i64::MAX as int) == Err::<
                (int, i64),
                ParseFail<ArithError>,
            >(ParseFail::Semantic(e)));
            assert(spec_arith(s) == Err::<(int, i64), ParseFail<ArithError>>(
                ParseFail::Semantic(e),
            ));
        },
    }
}

/// The climbing loop leaves a `*` or `/` for the enclosing level when the
/// bound excludes level 2.
proof fn lemma_climb_deferred_mul(s: Seq<u8>, pos: int, lhs: i64, bound: int)
    requires
        byte_at(s, pos, 42u8) || byte_at(s, pos, 47u8),
        bound < 2,
    ensures
        spec_climb(ArithSem, arith_grammar(), s, pos, lhs, bound) == Ok::<
            (int, i64),
            ParseFail<ArithError>,
        >((pos, lhs)),
{
    lemma_find_postfix(s, pos);
    lemma_find_binary(s, pos);
}

/// Failure locality: an input whose first byte matches no alternative
/// fails with an "expected an expression" diagnostic at offset 0, wrapping
/// the atomic lexer's failure at offset 0.
pub proof fn lemma_failure_at_start(s: Seq<u8>)
    requires
        s.len() == 0 || (!is_dig(s[0]) && s[0] != 45 && s[0] != 40),
    ensures
        spec_arith(s) == Err::<(int, i64), ParseFail<ArithError>>(
            ParseFail::Syntax(
                SyntaxErr {
                    offset: 0,
                    kind: FailKind::Expression,
                    cause: Some(Cause { offset: 0, kind: FailKind::Literal }),
                },
            ),
        ),
{
    lemma_find_prefix(s, 0);
    assert(!byte_at(s, 0, 45u8));
    assert(!byte_at(s, 0, 40u8));
    assert(run_len(s, 0) == 0);
    assert(arith_atom(s, 0) is None);
}

/// Failure propagation: where a binary operator is followed by an
/// unparseable operand, the failure is positioned at the operand's offset,
/// not at the operator's.
pub proof fn lemma_failure_after_operator(a: u8, op: u8, c: u8)
    requires
        is_dig(a),
        op == 42 || op == 47 || op == 43 || op == 45,
        !is_dig(c),
        c != 45,
        c != 40,
    ensures
        spec_arith(seq![a, op, c]) == Err::<(int, i64), ParseFail<ArithError>>(
            ParseFail::Syntax(
                SyntaxErr {
                    offset: 2,
                    kind: FailKind::Expression,
                    cause: Some(Cause { offset: 2, kind: FailKind::Literal }),
                },
            ),
        ),
{
    let s = seq![a, op, c];
    let g = arith_grammar();
    assert(s.len() == 3);
    assert(s[0] == a && s[1] == op && s[2] == c);
    lemma_primary_digit(s, 0);
    let va = (a - 48) as i64;
    lemma_find_postfix(s, 1);
    lemma_find_binary(s, 1);
    // the right operand fails to resolve
    lemma_find_prefix(s, 2);
    assert(!byte_at(s, 2, 45u8));
    assert(!byte_at(s, 2, 40u8));
    assert(run_len(s, 2) == 0);
    assert(arith_atom(s, 2) is None);
    let e = Err::<(int, i64), ParseFail<ArithError>>(
        ParseFail::Syntax(
            SyntaxErr {
                offset: 2,
                kind: FailKind::Expression,
                cause: Some(Cause { offset: 2, kind: FailKind::Literal }),
            },
        ),
    );
    assert(spec_primary(ArithSem, g, s, 2) == e);
    assert(spec_expr(ArithSem, g, s, 2, 1) == e);
    assert(spec_expr(ArithSem, g, s, 2, 2) == e);
    assert(spec_climb(ArithSem, g, s, 1, va, i64::MAX as int) == e);
    assert(spec_arith(s) == e);
}

/// `s` wrapped in one matched pair of delimiters.
pub open spec fn wrap_parens(s: Seq<u8>) -> Seq<u8> {
    seq![40u8] + s + seq![41u8]
}

/// The reference grammar is well formed.
proof fn lemma_arith_wf()
    ensures
        wf_grammar(arith_grammar()),
{
    let g = arith_grammar();
    assert(g.prefix.len() == 1);
    assert(g.prefix[0].token.len() == 1);
    assert(g.postfix.len() == 0);
    assert(g.binary.len() == 4);
    assert(g.binary[0].token.len() == 1);
    assert(g.binary[1].token.len() == 1);
    assert(g.binary[2].token.len() == 1);
    assert(g.binary[3].token.len() == 1);
}

proof fn lemma_wrap_facts(s: Seq<u8>)
    ensures
        wrap_parens(s).len() == s.len() + 2,
        wrap_parens(s)[0] == 40u8,
        wrap_parens(s)[s.len() as int + 1] == 41u8,
        forall|i: int| 0 <= i < s.len() ==> wrap_parens(s)[i + 1] == s[i],
{
    let w = wrap_parens(s);
    assert(w[s.len() as int + 1] == seq![41u8][0]);
    assert forall|i: int| 0 <= i < s.len() implies w[i + 1] == s[i] by {
        assert(w[i + 1] == (seq![40u8] + s)[i + 1]);
    }
}

/// Probing for a byte other than the closing delimiter gives the same
/// answer in `s` at `pos` and in the wrapped input at `pos + 1`.
proof fn lemma_wrap_byte(s: Seq<u8>, pos: int, b: u8)
    requires
        0 <= pos <= s.len(),
        b != 41,
    ensures
        byte_at(wrap_parens(s), pos + 1, b) == byte_at(s, pos, b),
{
    lemma_wrap_facts(s);
}

proof fn lemma_wrap_run_len(s: Seq<u8>, pos: int)
    requires
        0 <= pos <= s.len(),
    ensures
        run_len(wrap_parens(s), pos + 1) == run_len(s, pos),
    decreases s.len() - pos,
{
    lemma_wrap_facts(s);
    if pos < s.len() && is_dig(s[pos]) {
        lemma_wrap_run_len(s, pos + 1);
    }
}

proof fn lemma_wrap_atom(s: Seq<u8>, pos: int)
    requires
        0 <= pos <= s.len(),
    ensures
        arith_atom(wrap_parens(s), pos + 1) == arith_atom(s, pos),
{
    lemma_wrap_facts(s);
    lemma_wrap_run_len(s, pos);
    let n = run_len(s, pos);
    lemma_run_len_bounds(s, pos);
    if n != 0 {
        assert(wrap_parens(s).subrange(pos + 1, pos + 1 + n) =~= s.subrange(pos, pos + n));
    }
}

/// The operator tables match the same descriptors in `s` at `pos` and in
/// the wrapped input at `pos + 1`.
proof fn lemma_wrap_finds(s: Seq<u8>, pos: int)
    requires
        0 <= pos <= s.len(),
    ensures
        find_un(arith_grammar().prefix, wrap_parens(s), pos + 1) == find_un(
            arith_grammar().prefix,
            s,
            pos,
        ),
        find_un(arith_grammar().postfix, wrap_parens(s), pos + 1) is None,
        find_un(arith_grammar().postfix, s, pos) is None,
        find_bin(arith_grammar().binary, wrap_parens(s), pos + 1) == find_bin(
            arith_grammar().binary,
            s,
            pos,
        ),
{
    lemma_find_prefix(s, pos);
    lemma_find_prefix(wrap_parens(s), pos + 1);
    lemma_find_postfix(s, pos);
    lemma_find_postfix(wrap_parens(s), pos + 1);
    lemma_find_binary(s, pos);
    lemma_find_binary(wrap_parens(s), pos + 1);
    lemma_wrap_byte(s, pos, 45u8);
    lemma_wrap_byte(s, pos, 42u8);
    lemma_wrap_byte(s, pos, 47u8);
    lemma_wrap_byte(s, pos, 43u8);
}

/// A successful primary resolution is preserved, shifted by one, inside
/// the wrapped input.
proof fn lemma_embed_primary(s: Seq<u8>, pos: int)
    requires
        0 <= pos <= s.len(),
    ensures
        spec_primary(ArithSem, arith_grammar(), s, pos) matches Ok((np, v))
            ==> spec_primary(ArithSem, arith_grammar(), wrap_parens(s), pos + 1) == Ok::<
            (int, i64),
            ParseFail<ArithError>,
        >((np + 1, v)),
    decreases s.len() - pos, 0int,
{
    let g = arith_grammar();
    let w = wrap_parens(s);
    lemma_wrap_facts(s);
    lemma_wrap_finds(s, pos);
    lemma_wrap_byte(s, pos, 40u8);
    if let Ok((np, v)) = spec_primary(ArithSem, g, s, pos) {
        lemma_find_prefix(s, pos);
        match find_un(g.prefix, s, pos) {
            Some(u) => {
                assert(u == UnaryModel { level: 1, token: seq![45u8] });
                assert(byte_at(s, pos, 45u8));
                let opos = pos + 1;
                match spec_expr(ArithSem, g, s, opos, 1int) {
                    Ok((np1, v1)) => {
                        lemma_embed_expr(s, opos, 1int);
                    },
                    Err(_) => {
                        assert(false);
                    },
                }
            },
            None => {
                if byte_at(s, pos, 40u8) {
                    match spec_expr(ArithSem, g, s, pos + 1, i64::MAX as int) {
                        Ok((np1, v1)) => {
                            lemma_embed_expr(s, pos + 1, i64::MAX as int);
                            assert(byte_at(s, np1, 41u8));
                            assert(w[np1 + 1] == s[np1]);
                            assert(byte_at(w, np1 + 1, 41u8));
                        },
                        Err(_) => {
                            assert(false);
                        },
                    }
                } else {
                    lemma_wrap_atom(s, pos);
                }
            },
        }
    }
}

/// A successful expression parse is preserved, shifted by one, inside the
/// wrapped input.
proof fn lemma_embed_expr(s: Seq<u8>, pos: int, bound: int)
    requires
        0 <= pos <= s.len(),
    ensures
        spec_expr(ArithSem, arith_grammar(), s, pos, bound) matches Ok((np, v))
            ==> spec_expr(ArithSem, arith_grammar(), wrap_parens(s), pos + 1, bound) == Ok::<
            (int, i64),
            ParseFail<ArithError>,
        >((np + 1, v)),
    decreases s.len() - pos, 1int,
{
    let g = arith_grammar();
    lemma_arith_wf();
    if let Ok((np, v)) = spec_expr(ArithSem, g, s, pos, bound) {
        lemma_embed_primary(s, pos);
        lemma_primary_consumes(ArithSem, g, s, pos);
        match spec_primary(ArithSem, g, s, pos) {
            Ok((np1, lhs)) => {
                lemma_embed_climb(s, np1, lhs, bound);
            },
            Err(_) => {
                assert(false);
            },
        }
    }
}

/// A successful run of the climbing loop is preserved, shifted by one,
/// inside the wrapped input.
proof fn lemma_embed_climb(s: Seq<u8>, pos: int, lhs: i64, bound: int)
    requires
        0 <= pos <= s.len(),
    ensures
        spec_climb(ArithSem, arith_grammar(), s, pos, lhs, bound) matches Ok((np, v))
            ==> spec_climb(ArithSem, arith_grammar(), wrap_parens(s), pos + 1, lhs, bound) == Ok::<
            (int, i64),
            ParseFail<ArithError>,
        >((np + 1, v)),
    decreases s.len() - pos, 2int,
{
    let g = arith_grammar();
    lemma_arith_wf();
    lemma_wrap_facts(s);
    lemma_wrap_finds(s, pos);
    if let Ok((np, v)) = spec_climb(ArithSem, g, s, pos, lhs, bound) {
        lemma_find_binary(s, pos);
        match find_bin(g.binary, s, pos) {
            Some(b) => {
                assert(b.token.len() == 1);
                if b.level as int <= bound {
                    let rpos = pos + 1;
                    let rbound: int = if b.assoc == Assoc::Left {
                        b.level - 1
                    } else {
                        b.level as int
                    };
                    match spec_expr(ArithSem, g, s, rpos, rbound) {
                        Ok((np1, rv)) => {
                            lemma_embed_expr(s, rpos, rbound);
                            lemma_expr_consumes(ArithSem, g, s, rpos, rbound);
                            match arith_reduce(OpSpec::Binary(lhs, b.token, rv)) {
                                Ok(v1) => {
                                    lemma_embed_climb(s, np1, v1, bound);
                                },
                                Err(_) => {
                                    assert(false);
                                },
                            }
                        },
                        Err(_) => {
                            assert(false);
                        },
                    }
                }
            },
            None => {},
        }
    }
}

/// Idempotence of the round trip for parenthesized input: wrapping an
/// accepted, fully consumed expression in one extra matched pair of
/// delimiters yields the same folded result, again consuming the entire
/// input.
pub proof fn lemma_paren_round_trip(s: Seq<u8>, v: i64)
    requires
        spec_arith(s) == Ok::<(int, i64), ParseFail<ArithError>>((s.len() as int, v)),
    ensures
        spec_arith(wrap_parens(s)) == Ok::<(int, i64), ParseFail<ArithError>>((s.len() + 2int, v)),
{
    let g = arith_grammar();
    let w = wrap_parens(s);
    lemma_wrap_facts(s);
    lemma_embed_expr(s, 0, i64::MAX as int);
    assert(spec_expr(ArithSem, g, w, 1, i64::MAX as int) == Ok::<(int, i64), ParseFail<ArithError>>(
        (s.len() + 1int, v),
    ));
    lemma_find_prefix(w, 0);
    assert(!byte_at(w, 0, 45u8));
    assert(byte_at(w, 0, 40u8));
    assert(byte_at(w, s.len() as int + 1, 41u8));
    assert(spec_primary(ArithSem, g, w, 0) == Ok::<(int, i64), ParseFail<ArithError>>(
        (s.len() + 2int, v),
    ));
    lemma_climb_stop(w, s.len() as int + 2, v, i64::MAX as int);
    assert(spec_arith(w) == Ok::<(int, i64), ParseFail<ArithError>>((s.len() + 2int, v)));
}

} // verus!
