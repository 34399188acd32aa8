//! The climbing driver: the recursive precedence-climbing algorithm, its
//! mathematical model, and the interface to the caller-supplied atomic
//! lexer and reducer.

use vstd::prelude::*;

use crate::ops::{
    bin_model, op_model, un_model, Assoc, BinaryModel, BinaryOp, Cause, FailKind, OpSpec,
    Operation, ParseFail, SyntaxErr, UnaryModel, UnaryOp,
};

verus! {

/// The opening delimiter of a parenthesized sub-expression.
pub const OPEN_DELIM: u8 = 40;

/// The closing delimiter of a parenthesized sub-expression.
pub const CLOSE_DELIM: u8 = 41;

/// Mathematical view of a whole grammar: the three operator tables.
pub struct GrammarModel {
    pub prefix: Seq<UnaryModel>,
    pub postfix: Seq<UnaryModel>,
    pub binary: Seq<BinaryModel>,
}

pub open spec fn uns_model(t: Seq<UnaryOp>) -> Seq<UnaryModel> {
    t.map_values(|u: UnaryOp| un_model(u))
}

pub open spec fn bins_model(t: Seq<BinaryOp>) -> Seq<BinaryModel> {
    t.map_values(|b: BinaryOp| bin_model(b))
}

pub open spec fn gmodel(pre: Seq<UnaryOp>, post: Seq<UnaryOp>, bin: Seq<BinaryOp>) -> GrammarModel {
    GrammarModel { prefix: uns_model(pre), postfix: uns_model(post), binary: bins_model(bin) }
}

/// A grammar is well formed when every operator token is non-empty, so that
/// a successful match always consumes at least one byte and the driver
/// cannot loop forever.
pub open spec fn wf_grammar(g: GrammarModel) -> bool {
    &&& forall|i: int| 0 <= i < g.prefix.len() ==> (#[trigger] g.prefix[i]).token.len() >= 1
    &&& forall|i: int| 0 <= i < g.postfix.len() ==> (#[trigger] g.postfix[i]).token.len() >= 1
    &&& forall|i: int| 0 <= i < g.binary.len() ==> (#[trigger] g.binary[i]).token.len() >= 1
}

/// The token `tok` occurs in `s` at byte offset `pos`.
pub open spec fn tok_at(s: Seq<u8>, pos: int, tok: Seq<u8>) -> bool {
    &&& 0 <= pos
    &&& pos + tok.len() <= s.len()
    &&& s.subrange(pos, pos + tok.len()) == tok
}

/// The single byte `b` occurs in `s` at offset `pos`.
pub open spec fn byte_at(s: Seq<u8>, pos: int, b: u8) -> bool {
    0 <= pos < s.len() && s[pos] == b
}

/// The first descriptor at index `i` or later whose token occurs at `pos`,
/// in table order; alternatives are tried first to last.
pub open spec fn find_un_from(t: Seq<UnaryModel>, s: Seq<u8>, pos: int, i: int) -> Option<
    UnaryModel,
>
    decreases t.len() - i,
{
    if i < 0 || i >= t.len() {
        None
    } else if tok_at(s, pos, t[i].token) {
        Some(t[i])
    } else {
        find_un_from(t, s, pos, i + 1)
    }
}

pub open spec fn find_un(t: Seq<UnaryModel>, s: Seq<u8>, pos: int) -> Option<UnaryModel> {
    find_un_from(t, s, pos, 0)
}

pub open spec fn find_bin_from(t: Seq<BinaryModel>, s: Seq<u8>, pos: int, i: int) -> Option<
    BinaryModel,
>
    decreases t.len() - i,
{
    if i < 0 || i >= t.len() {
        None
    } else if tok_at(s, pos, t[i].token) {
        Some(t[i])
    } else {
        find_bin_from(t, s, pos, i + 1)
    }
}

pub open spec fn find_bin(t: Seq<BinaryModel>, s: Seq<u8>, pos: int) -> Option<BinaryModel> {
    find_bin_from(t, s, pos, 0)
}

/// The diagnostic produced when no alternative matched where an expression
/// was required: an "expected an expression" marker at the position where
/// resolution was attempted, wrapping the failure of the collaborator tried
/// last, the atomic-literal lexer, at the same position.
pub open spec fn unmatched_err<E2>(pos: int) -> ParseFail<E2> {
    ParseFail::Syntax(
        SyntaxErr {
            offset: pos as usize,
            kind: FailKind::Expression,
            cause: Some(Cause { offset: pos as usize, kind: FailKind::Literal }),
        },
    )
}

/// The diagnostic produced when a parenthesized sub-expression was parsed
/// but its closing delimiter is missing at `pos`.
pub open spec fn close_err<E2>(pos: int) -> ParseFail<E2> {
    ParseFail::Syntax(SyntaxErr { offset: pos as usize, kind: FailKind::CloseDelim, cause: None })
}

/// The caller-supplied half of a grammar: the atomic-literal lexer and the
/// reducer that folds each completed operator application into a value.
pub trait Semantics: Sized {
    /// The operand type the reducer produces.
    type V;

    /// The reducer's semantic-error type, propagated verbatim.
    type E;

    /// Well-formedness of this instance; `precedence` requires it.
    spec fn wf(&self) -> bool;

    /// What the atomic lexer recognizes at `pos`: the number of bytes it
    /// consumes and the value it yields, or `None` if no literal is there.
    spec fn atom_spec(&self, s: Seq<u8>, pos: int) -> Option<(int, Self::V)>;

    /// What the reducer returns for each completed operator application.
    spec fn reduce_spec(&self, op: OpSpec<Self::V>) -> Result<Self::V, Self::E>;

    /// A successful atomic match consumes at least one byte and stays
    /// within the input.
    proof fn atom_wf(&self, s: Seq<u8>, pos: int)
        requires
            self.wf(),
            0 <= pos <= s.len(),
        ensures
            (match self.atom_spec(s, pos) {
                Some((n, _)) => 1 <= n && pos + n <= s.len(),
                None => true,
            }),
    ;

    /// Runs the atomic lexer at `pos`.
    fn atom(&self, s: &[u8], pos: usize) -> (r: Option<(usize, Self::V)>)
        requires
            pos <= s@.len(),
        ensures
            atom_matches(r, self.atom_spec(s@, pos as int)),
    ;

    /// Folds one completed operator application.
    fn reduce(&self, op: Operation<Vec<u8>, Vec<u8>, Vec<u8>, Self::V>) -> (r: Result<
        Self::V,
        Self::E,
    >)
        ensures
            r == self.reduce_spec(op_model(op)),
    ;
}

pub open spec fn atom_matches<V>(r: Option<(usize, V)>, m: Option<(int, V)>) -> bool {
    match r {
        Some((n, v)) => m == Some((n as int, v)),
        None => m is None,
    }
}

/// An executable result agrees with its mathematical counterpart.
pub open spec fn res_ok<V, E2>(
    r: Result<(usize, V), ParseFail<E2>>,
    m: Result<(int, V), ParseFail<E2>>,
) -> bool {
    match r {
        Ok((n, v)) => m == Ok::<(int, V), ParseFail<E2>>((n as int, v)),
        Err(e) => m == Err::<(int, V), ParseFail<E2>>(e),
    }
}

/// Resolution of one operand at `pos`: try a prefix operator, else a
/// parenthesized sub-expression, else the atomic lexer, first success wins;
/// a branch that consumed input and then failed propagates its failure.
pub open spec fn spec_primary<S: Semantics>(
    sem: S,
    g: GrammarModel,
    s: Seq<u8>,
    pos: int,
) -> Result<(int, S::V), ParseFail<S::E>>
    decreases s.len() - pos, 0int,
{
    match find_un(g.prefix, s, pos) {
        Some(u) => {
            let opos = pos + u.token.len();
            if pos < opos <= s.len() {
                match spec_expr(sem, g, s, opos, u.level as int) {
                    Ok((np, v)) => match sem.reduce_spec(OpSpec::Prefix(u.token, v)) {
                        Ok(rv) => Ok((np, rv)),
                        Err(e) => Err(ParseFail::Semantic(e)),
                    },
                    Err(e) => Err(e),
                }
            } else {
                arbitrary()
            }
        },
        None => {
            if byte_at(s, pos, OPEN_DELIM) {
                match spec_expr(sem, g, s, pos + 1, i64::MAX as int) {
                    Ok((np, v)) => if byte_at(s, np, CLOSE_DELIM) {
                        Ok((np + 1, v))
                    } else {
                        Err(close_err(np))
                    },
                    Err(e) => Err(e),
                }
            } else {
                match sem.atom_spec(s, pos) {
                    Some((n, v)) => Ok((pos + n, v)),
                    None => Err(unmatched_err(pos)),
                }
            }
        },
    }
}

/// One full (sub)expression at `pos` under a binding-power bound: resolve a
/// primary, then climb.
pub open spec fn spec_expr<S: Semantics>(
    sem: S,
    g: GrammarModel,
    s: Seq<u8>,
    pos: int,
    bound: int,
) -> Result<(int, S::V), ParseFail<S::E>>
    decreases s.len() - pos, 1int,
{
    match spec_primary(sem, g, s, pos) {
        Ok((np, lhs)) => if pos < np <= s.len() {
            spec_climb(sem, g, s, np, lhs, bound)
        } else {
            arbitrary()
        },
        Err(e) => Err(e),
    }
}

/// The climbing loop: with `lhs` resolved up to `pos`, repeatedly consume a
/// postfix operator, or a binary operator whose level satisfies `bound`
/// (smaller level = binds more tightly); a binary operator at level `l`
/// parses its right operand under the bound `l - 1` when left-associative
/// and `l` when right-associative.  An operator looser than `bound` is left
/// for the enclosing recursion level to consume.  A postfix operator, by
/// choice, applies whenever its token matches, without a precedence check;
/// its level field is carried for the reducer's benefit only.
pub open spec fn spec_climb<S: Semantics>(
    sem: S,
    g: GrammarModel,
    s: Seq<u8>,
    pos: int,
    lhs: S::V,
    bound: int,
) -> Result<(int, S::V), ParseFail<S::E>>
    decreases s.len() - pos, 2int,
{
    match find_un(g.postfix, s, pos) {
        Some(u) => {
            let npos = pos + u.token.len();
            if pos < npos <= s.len() {
                match sem.reduce_spec(OpSpec::Postfix(lhs, u.token)) {
                    Ok(v) => spec_climb(sem, g, s, npos, v, bound),
                    Err(e) => Err(ParseFail::Semantic(e)),
                }
            } else {
                arbitrary()
            }
        },
        None => match find_bin(g.binary, s, pos) {
            Some(b) => {
                if b.level as int <= bound {
                    let rpos = pos + b.token.len();
                    let rbound: int = if b.assoc == Assoc::Left {
                        b.level - 1
                    } else {
                        b.level as int
                    };
                    if pos < rpos <= s.len() {
                        match spec_expr(sem, g, s, rpos, rbound) {
                            Ok((np, rv)) => match sem.reduce_spec(
                                OpSpec::Binary(lhs, b.token, rv),
                            ) {
                                Ok(v) => if pos < np <= s.len() {
                                    spec_climb(sem, g, s, np, v, bound)
                                } else {
                                    arbitrary()
                                },
                                Err(e) => Err(ParseFail::Semantic(e)),
                            },
                            Err(e) => Err(e),
                        }
                    } else {
                        arbitrary()
                    }
                } else {
                    Ok((pos, lhs))
                }
            },
            None => Ok((pos, lhs)),
        },
    }
}

/// A match found by `find_un_from` is a table entry whose token occurs at
/// `pos`.
pub proof fn lemma_find_un_from_mem(t: Seq<UnaryModel>, s: Seq<u8>, pos: int, i: int)
    ensures
        find_un_from(t, s, pos, i) matches Some(u) ==> exists|j: int|
            i <= j < t.len() && t[j] == u && tok_at(s, pos, u.token),
    decreases t.len() - i,
{
    if i < 0 || i >= t.len() {
    } else if tok_at(s, pos, t[i].token) {
        assert(i <= i < t.len() && t[i] == t[i] && tok_at(s, pos, t[i].token));
    } else {
        lemma_find_un_from_mem(t, s, pos, i + 1);
    }
}

/// A match found by `find_bin_from` is a table entry whose token occurs at
/// `pos`.
pub proof fn lemma_find_bin_from_mem(t: Seq<BinaryModel>, s: Seq<u8>, pos: int, i: int)
    ensures
        find_bin_from(t, s, pos, i) matches Some(b) ==> exists|j: int|
            i <= j < t.len() && t[j] == b && tok_at(s, pos, b.token),
    decreases t.len() - i,
{
    if i < 0 || i >= t.len() {
    } else if tok_at(s, pos, t[i].token) {
        assert(i <= i < t.len() && t[i] == t[i] && tok_at(s, pos, t[i].token));
    } else {
        lemma_find_bin_from_mem(t, s, pos, i + 1);
    }
}

/// A successful primary resolution consumes at least one byte and stays
/// within the input.
pub proof fn lemma_primary_consumes<S: Semantics>(sem: S, g: GrammarModel, s: Seq<u8>, pos: int)
    requires
        wf_grammar(g),
        sem.wf(),
        0 <= pos <= s.len(),
    ensures
        spec_primary(sem, g, s, pos) matches Ok((np, v)) ==> pos < np <= s.len(),
    decreases s.len() - pos, 0int,
{
    lemma_find_un_from_mem(g.prefix, s, pos, 0);
    match find_un(g.prefix, s, pos) {
        Some(u) => {
            let j = choose|j: int|
                0 <= j < g.prefix.len() && g.prefix[j] == u && tok_at(s, pos, u.token);
            assert(g.prefix[j].token.len() >= 1);
            let opos = pos + u.token.len();
            lemma_expr_consumes(sem, g, s, opos, u.level as int);
        },
        None => {
            if byte_at(s, pos, OPEN_DELIM) {
                lemma_expr_consumes(sem, g, s, pos + 1, i64::MAX as int);
            } else {
                sem.atom_wf(s, pos);
            }
        },
    }
}

/// A successful expression parse consumes at least one byte and stays
/// within the input.
pub proof fn lemma_expr_consumes<S: Semantics>(
    sem: S,
    g: GrammarModel,
    s: Seq<u8>,
    pos: int,
    bound: int,
)
    requires
        wf_grammar(g),
        sem.wf(),
        0 <= pos <= s.len(),
    ensures
        spec_expr(sem, g, s, pos, bound) matches Ok((np, v)) ==> pos < np <= s.len(),
    decreases s.len() - pos, 1int,
{
    lemma_primary_consumes(sem, g, s, pos);
    match spec_primary(sem, g, s, pos) {
        Ok((np, lhs)) => {
            lemma_climb_consumes(sem, g, s, np, lhs, bound);
        },
        Err(_) => {},
    }
}

/// The climbing loop never moves backwards and stays within the input.
pub proof fn lemma_climb_consumes<S: Semantics>(
    sem: S,
    g: GrammarModel,
    s: Seq<u8>,
    pos: int,
    lhs: S::V,
    bound: int,
)
    requires
        wf_grammar(g),
        sem.wf(),
        0 <= pos <= s.len(),
    ensures
        spec_climb(sem, g, s, pos, lhs, bound) matches Ok((np, v)) ==> pos <= np <= s.len(),
    decreases s.len() - pos, 2int,
{
    lemma_find_un_from_mem(g.postfix, s, pos, 0);
    match find_un(g.postfix, s, pos) {
        Some(u) => {
            let j = choose|j: int|
                0 <= j < g.postfix.len() && g.postfix[j] == u && tok_at(s, pos, u.token);
            assert(g.postfix[j].token.len() >= 1);
            let npos = pos + u.token.len();
            match sem.reduce_spec(OpSpec::Postfix(lhs, u.token)) {
                Ok(v) => {
                    lemma_climb_consumes(sem, g, s, npos, v, bound);
                },
                Err(_) => {},
            }
        },
        None => {
            lemma_find_bin_from_mem(g.binary, s, pos, 0);
            match find_bin(g.binary, s, pos) {
                Some(b) => {
                    if b.level as int <= bound {
                        let j = choose|j: int|
                            0 <= j < g.binary.len() && g.binary[j] == b && tok_at(
                                s,
                                pos,
                                b.token,
                            );
                        assert(g.binary[j].token.len() >= 1);
                        let rpos = pos + b.token.len();
                        let rbound: int = if b.assoc == Assoc::Left {
                            b.level - 1
                        } else {
                            b.level as int
                        };
                        lemma_expr_consumes(sem, g, s, rpos, rbound);
                        match spec_expr(sem, g, s, rpos, rbound) {
                            Ok((np, rv)) => {
                                match sem.reduce_spec(OpSpec::Binary(lhs, b.token, rv)) {
                                    Ok(v) => {
                                        lemma_climb_consumes(sem, g, s, np, v, bound);
                                    },
                                    Err(_) => {},
                                }
                            },
                            Err(_) => {},
                        }
                    }
                },
                None => {},
            }
        },
    }
}

/// Compares the bytes of `tok` with the bytes of `s` starting at `pos`.
fn tok_match(s: &[u8], pos: usize, tok: &Vec<u8>) -> (r: bool)
    requires
        pos <= s@.len(),
    ensures
        r == tok_at(s@, pos as int, tok@),
{
    if tok.len() > s.len() - pos {
        return false;
    }
    let mut i: usize = 0;
    while i < tok.len()
        invariant
            pos <= s@.len(),
            s@.len() <= usize::MAX,
            i <= tok@.len(),
            pos + tok@.len() <= s@.len(),
            forall|k: int| 0 <= k < i ==> s@[pos + k] == tok@[k],
        decreases tok@.len() - i,
    {
        if s[pos + i] != tok[i] {
            proof {
                if tok_at(s@, pos as int, tok@) {
                    assert(s@.subrange(pos as int, pos + tok@.len())[i as int] == tok@[i as int]);
                }
            }
            return false;
        }
        i += 1;
    }
    proof {
        assert(s@.subrange(pos as int, pos + tok@.len()) =~= tok@);
    }
    true
}

/// Index of the first descriptor in `t` whose token occurs at `pos`.
fn find_unary(t: &Vec<UnaryOp>, s: &[u8], pos: usize) -> (r: Option<usize>)
    requires
        pos <= s@.len(),
    ensures
        (match r {
            Some(i) => i < t@.len() && find_un(uns_model(t@), s@, pos as int) == Some(
                un_model(t@[i as int]),
            ) && tok_at(s@, pos as int, t@[i as int].token@),
            None => find_un(uns_model(t@), s@, pos as int) is None,
        }),
{
    let mut i: usize = 0;
    while i < t.len()
        invariant
            pos <= s@.len(),
            i <= t@.len(),
            find_un(uns_model(t@), s@, pos as int) == find_un_from(
                uns_model(t@),
                s@,
                pos as int,
                i as int,
            ),
        decreases t@.len() - i,
    {
        proof {
            assert(uns_model(t@)[i as int] == un_model(t@[i as int]));
        }
        if tok_match(s, pos, &t[i].token) {
            return Some(i);
        }
        i += 1;
    }
    None
}

/// Index of the first binary descriptor in `t` whose token occurs at `pos`.
fn find_binary(t: &Vec<BinaryOp>, s: &[u8], pos: usize) -> (r: Option<usize>)
    requires
        pos <= s@.len(),
    ensures
        (match r {
            Some(i) => i < t@.len() && find_bin(bins_model(t@), s@, pos as int) == Some(
                bin_model(t@[i as int]),
            ) && tok_at(s@, pos as int, t@[i as int].token@),
            None => find_bin(bins_model(t@), s@, pos as int) is None,
        }),
{
    let mut i: usize = 0;
    while i < t.len()
        invariant
            pos <= s@.len(),
            i <= t@.len(),
            find_bin(bins_model(t@), s@, pos as int) == find_bin_from(
                bins_model(t@),
                s@,
                pos as int,
                i as int,
            ),
        decreases t@.len() - i,
    {
        proof {
            assert(bins_model(t@)[i as int] == bin_model(t@[i as int]));
        }
        if tok_match(s, pos, &t[i].token) {
            return Some(i);
        }
        i += 1;
    }
    None
}

/// Copies an operator token so it can be handed to the reducer.
fn copy_bytes(v: &Vec<u8>) -> (r: Vec<u8>)
    ensures
        r@ == v@,
{
    let mut r: Vec<u8> = Vec::new();
    let mut i: usize = 0;
    while i < v.len()
        invariant
            i <= v@.len(),
            r@ == v@.subrange(0, i as int),
        decreases v@.len() - i,
    {
        r.push(v[i]);
        i += 1;
        proof {
            assert(v@.subrange(0, i as int) =~= v@.subrange(0, i - 1).push(v@[i - 1]));
        }
    }
    proof {
        assert(v@.subrange(0, v@.len() as int) =~= v@);
    }
    r
}

/// Resolves one operand at `pos`: a prefix operator application, a
/// parenthesized sub-expression, or an atomic literal, tried in that order.
fn parse_primary<S: Semantics>(
    pre: &Vec<UnaryOp>,
    post: &Vec<UnaryOp>,
    bin: &Vec<BinaryOp>,
    sem: &S,
    s: &[u8],
    pos: usize,
) -> (r: Result<(usize, S::V), ParseFail<S::E>>)
    requires
        wf_grammar(gmodel(pre@, post@, bin@)),
        sem.wf(),
        pos <= s@.len(),
    ensures
        res_ok(r, spec_primary(*sem, gmodel(pre@, post@, bin@), s@, pos as int)),
    decreases s@.len() - pos, 0int,
{
    let ghost g = gmodel(pre@, post@, bin@);
    let slen = s.len();
    match find_unary(pre, s, pos) {
        Some(i) => {
            proof {
                assert(uns_model(pre@)[i as int] == un_model(pre@[i as int]));
                assert(g.prefix[i as int].token.len() >= 1);
            }
            let tl = pre[i].token.len();
            proof {
                assert(pos + tl <= slen);
            }
            let level = pre[i].level;
            let tok = copy_bytes(&pre[i].token);
            match parse_expr(pre, post, bin, sem, s, pos + tl, level as i64) {
                Ok((np, v)) => match sem.reduce(Operation::Prefix(tok, v)) {
                    Ok(rv) => Ok((np, rv)),
                    Err(e) => Err(ParseFail::Semantic(e)),
                },
                Err(e) => Err(e),
            }
        },
        None => {
            if pos < s.len() && s[pos] == OPEN_DELIM {
                match parse_expr(pre, post, bin, sem, s, pos + 1, i64::MAX) {
                    Ok((np, v)) => {
                        proof {
                            lemma_expr_consumes(*sem, g, s@, pos + 1, i64::MAX as int);
                        }
                        if np < s.len() && s[np] == CLOSE_DELIM {
                            Ok((np + 1, v))
                        } else {
                            Err(
                                ParseFail::Syntax(
                                    SyntaxErr {
                                        offset: np,
                                        kind: FailKind::CloseDelim,
                                        cause: None,
                                    },
                                ),
                            )
                        }
                    },
                    Err(e) => Err(e),
                }
            } else {
                match sem.atom(s, pos) {
                    Some((n, v)) => {
                        proof {
                            sem.atom_wf(s@, pos as int);
                        }
                        Ok((pos + n, v))
                    },
                    None => Err(
                        ParseFail::Syntax(
                            SyntaxErr {
                                offset: pos,
                                kind: FailKind::Expression,
                                cause: Some(Cause { offset: pos, kind: FailKind::Literal }),
                            },
                        ),
                    ),
                }
            }
        },
    }
}

/// Parses one full (sub)expression at `pos` under `bound`.
fn parse_expr<S: Semantics>(
    pre: &Vec<UnaryOp>,
    post: &Vec<UnaryOp>,
    bin: &Vec<BinaryOp>,
    sem: &S,
    s: &[u8],
    pos: usize,
    bound: i64,
) -> (r: Result<(usize, S::V), ParseFail<S::E>>)
    requires
        wf_grammar(gmodel(pre@, post@, bin@)),
        sem.wf(),
        pos <= s@.len(),
    ensures
        res_ok(r, spec_expr(*sem, gmodel(pre@, post@, bin@), s@, pos as int, bound as int)),
    decreases s@.len() - pos, 1int,
{
    let ghost g = gmodel(pre@, post@, bin@);
    match parse_primary(pre, post, bin, sem, s, pos) {
        Ok((np, lhs)) => {
            proof {
                lemma_primary_consumes(*sem, g, s@, pos as int);
            }
            climb(pre, post, bin, sem, s, lhs, np, bound)
        },
        Err(e) => Err(e),
    }
}

/// The climbing loop, written as tail recursion: with `lhs` resolved up to
/// `pos`, consume postfix and binary operators while their levels satisfy
/// `bound`.
fn climb<S: Semantics>(
    pre: &Vec<UnaryOp>,
    post: &Vec<UnaryOp>,
    bin: &Vec<BinaryOp>,
    sem: &S,
    s: &[u8],
    lhs: S::V,
    pos: usize,
    bound: i64,
) -> (r: Result<(usize, S::V), ParseFail<S::E>>)
    requires
        wf_grammar(gmodel(pre@, post@, bin@)),
        sem.wf(),
        pos <= s@.len(),
    ensures
        res_ok(r, spec_climb(*sem, gmodel(pre@, post@, bin@), s@, pos as int, lhs, bound as int)),
    decreases s@.len() - pos, 2int,
{
    let ghost g = gmodel(pre@, post@, bin@);
    let slen = s.len();
    match find_unary(post, s, pos) {
        Some(i) => {
            proof {
                assert(uns_model(post@)[i as int] == un_model(post@[i as int]));
                assert(g.postfix[i as int].token.len() >= 1);
            }
            let tl = post[i].token.len();
            proof {
                assert(pos + tl <= slen);
            }
            let tok = copy_bytes(&post[i].token);
            match sem.reduce(Operation::Postfix(lhs, tok)) {
                Ok(v) => climb(pre, post, bin, sem, s, v, pos + tl, bound),
                Err(e) => Err(ParseFail::Semantic(e)),
            }
        },
        None => {
            match find_binary(bin, s, pos) {
                Some(i) => {
                    proof {
                        assert(bins_model(bin@)[i as int] == bin_model(bin@[i as int]));
                        assert(g.binary[i as int].token.len() >= 1);
                    }
                    let level = bin[i].level;
                    if (level as i64) <= bound {
                        let tl = bin[i].token.len();
                        proof {
                            assert(pos + tl <= slen);
                        }
                        let tok = copy_bytes(&bin[i].token);
                        let rbound: i64 = match bin[i].assoc {
                            Assoc::Left => (level as i64) - 1,
                            Assoc::Right => level as i64,
                        };
                        match parse_expr(pre, post, bin, sem, s, pos + tl, rbound) {
                            Ok((np, rv)) => {
                                proof {
                                    lemma_expr_consumes(*sem, g, s@, pos + tl, rbound as int);
                                }
                                match sem.reduce(Operation::Binary(lhs, tok, rv)) {
                                    Ok(v) => climb(pre, post, bin, sem, s, v, np, bound),
                                    Err(e) => Err(ParseFail::Semantic(e)),
                                }
                            },
                            Err(e) => Err(e),
                        }
                    } else {
                        Ok((pos, lhs))
                    }
                },
                None => Ok((pos, lhs)),
            }
        },
    }
}

/// The produced parser: parses one whole expression from the start of
/// `input` under the loosest bound, returning the folded value and the
/// number of bytes consumed, or a position-tagged failure.
///
/// The result is exactly the mathematical parse `spec_expr` of the input
/// under the given grammar and semantics.
pub fn precedence<S: Semantics>(
    prefix: &Vec<UnaryOp>,
    postfix: &Vec<UnaryOp>,
    binary: &Vec<BinaryOp>,
    sem: &S,
    input: &[u8],
) -> (r: Result<(usize, S::V), ParseFail<S::E>>)
    requires
        wf_grammar(gmodel(prefix@, postfix@, binary@)),
        sem.wf(),
    ensures
        res_ok(
            r,
            spec_expr(*sem, gmodel(prefix@, postfix@, binary@), input@, 0, i64::MAX as int),
        ),
{
    parse_expr(prefix, postfix, binary, sem, input, 0, i64::MAX)
}

} // verus!
