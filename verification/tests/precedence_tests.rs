use nom::error::{Error, ErrorKind};
use nom::IResult;
use precedence::{
    binary_op, parse_arith, precedence, unary_op, ArithError, ArithSem, Assoc, Cause, FailKind,
    ParseFail, SyntaxErr, UnaryOp,
};

/// Parses an arithmetic expression, reporting the remaining input on
/// success and the deepest failure position as a nom error on failure.
fn parser(i: &str) -> IResult<&str, i64> {
    match parse_arith(i.as_bytes()) {
        Ok((consumed, v)) => Ok((&i[consumed..], v)),
        Err(e) => {
            let off = match &e {
                ParseFail::Syntax(se) => se.deepest_offset(),
                ParseFail::Semantic(_) => 0,
            };
            Err(nom::Err::Error(Error::new(&i[off..], ErrorKind::Tag)))
        }
    }
}

#[test]
fn precedence_test() {
    assert_eq!(parser("3"), Ok(("", 3)));
    assert_eq!(parser("-3"), Ok(("", -3)));
    assert_eq!(parser("4-(2*2)"), Ok(("", 0)));
    assert_eq!(parser("4-2*2"), Ok(("", 0)));
    assert_eq!(parser("(4-2)*2"), Ok(("", 4)));
    assert_eq!(parser("2*2/1"), Ok(("", 4)));

    let a = "a";

    assert_eq!(
        parser(a),
        Err(nom::Err::Error(Error::new(&a[..], ErrorKind::Tag)))
    );

    let b = "3+b";

    assert_eq!(
        parser(b),
        Err(nom::Err::Error(Error::new(&b[2..], ErrorKind::Tag)))
    );
}

#[test]
fn single_literal_consumed_whole() {
    assert_eq!(parse_arith(b"0"), Ok((1, 0)));
    assert_eq!(parse_arith(b"007"), Ok((3, 7)));
    assert_eq!(parse_arith(b"42"), Ok((2, 42)));
    assert_eq!(parse_arith(b"9223372036854775807"), Ok((19, i64::MAX)));
}

#[test]
fn literal_too_large_is_a_syntax_failure() {
    assert_eq!(
        parse_arith(b"9223372036854775808"),
        Err(ParseFail::Syntax(SyntaxErr {
            offset: 0,
            kind: FailKind::Expression,
            cause: Some(Cause {
                offset: 0,
                kind: FailKind::Literal
            }),
        }))
    );
}

#[test]
fn looser_operator_defers_to_tighter() {
    assert_eq!(parse_arith(b"1+2*3"), Ok((5, 7)));
    assert_eq!(parse_arith(b"8-6/2"), Ok((5, 5)));
}

#[test]
fn same_level_groups_leftward() {
    assert_eq!(parse_arith(b"4-2-1"), Ok((5, 1)));
    assert_eq!(parse_arith(b"8/4/2"), Ok((5, 1)));
}

#[test]
fn right_assoc_groups_rightward() {
    let prefix = vec![unary_op(1, vec![b'-'])];
    let postfix: Vec<UnaryOp> = Vec::new();
    let binary = vec![
        binary_op(2, Assoc::Left, vec![b'*']),
        binary_op(2, Assoc::Left, vec![b'/']),
        binary_op(3, Assoc::Right, vec![b'+']),
        binary_op(3, Assoc::Right, vec![b'-']),
    ];
    let r = precedence(&prefix, &postfix, &binary, &ArithSem, b"4-2-1");
    assert_eq!(r, Ok((5, 3)));
}

#[test]
fn prefix_binds_tighter_than_binary() {
    assert_eq!(parse_arith(b"-3*2"), Ok((4, -6)));
    assert_eq!(parse_arith(b"-7/2"), Ok((4, -3)));
}

#[test]
fn nested_prefix_applications() {
    assert_eq!(parse_arith(b"--3"), Ok((3, 3)));
}

#[test]
fn parentheses_override_precedence() {
    assert_eq!(parse_arith(b"(1+2)*3"), Ok((7, 9)));
}

#[test]
fn extra_parentheses_keep_the_result() {
    assert_eq!(parse_arith(b"(3)"), Ok((3, 3)));
    assert_eq!(parse_arith(b"((4-2)*2)"), Ok((9, 4)));
    assert_eq!(parse_arith(b"(-3*2)"), Ok((6, -6)));
}

#[test]
fn missing_close_delimiter_reports_its_position() {
    assert_eq!(
        parse_arith(b"4-(2*2"),
        Err(ParseFail::Syntax(SyntaxErr {
            offset: 6,
            kind: FailKind::CloseDelim,
            cause: None,
        }))
    );
}

#[test]
fn empty_input_fails_at_offset_zero() {
    assert_eq!(
        parse_arith(b""),
        Err(ParseFail::Syntax(SyntaxErr {
            offset: 0,
            kind: FailKind::Expression,
            cause: Some(Cause {
                offset: 0,
                kind: FailKind::Literal
            }),
        }))
    );
}

#[test]
fn operand_failure_is_at_operand_offset() {
    assert_eq!(
        parse_arith(b"3*)"),
        Err(ParseFail::Syntax(SyntaxErr {
            offset: 2,
            kind: FailKind::Expression,
            cause: Some(Cause {
                offset: 2,
                kind: FailKind::Literal
            }),
        }))
    );
}

#[test]
fn trailing_input_is_left_unconsumed() {
    assert_eq!(parse_arith(b"2+3x"), Ok((3, 5)));
    assert_eq!(parser("2+3x"), Ok(("x", 5)));
}

#[test]
fn division_truncates_toward_zero() {
    assert_eq!(parse_arith(b"7/2"), Ok((3, 3)));
    assert_eq!(parse_arith(b"(0-7)/2"), Ok((7, -3)));
}

#[test]
fn division_by_zero_is_a_semantic_failure() {
    assert_eq!(
        parse_arith(b"1/0"),
        Err(ParseFail::Semantic(ArithError::DivideByZero))
    );
}

#[test]
fn result_overflow_is_a_semantic_failure() {
    assert_eq!(
        parse_arith(b"9223372036854775807*2"),
        Err(ParseFail::Semantic(ArithError::Overflow))
    );
    assert_eq!(
        parse_arith(b"9223372036854775807+1"),
        Err(ParseFail::Semantic(ArithError::Overflow))
    );
}
