//! The parser. It owns the token list of one input and builds an
//! expression tree by precedence climbing with one-token lookahead.
//! `Ident` and `Illegal` tokens are skipped wherever an expression is
//! expected; a `Times` or `Over` token in such a position aborts with
//! `UnexpectedToken`, and running out of input aborts with
//! `UnexpectedEnd` at the end-of-input token's offset. A structural
//! error always propagates to the caller: there is no partial result.
use vstd::prelude::*;
use vstd::slice::slice_to_vec;
use crate::ast::{BinOp, BinaryExpr, Expr, UnOp, UnaryExpr, expr_wf};
use crate::lexer::{
    Lexer, Token, TokenKind, dot_pos, is_digit, is_float_text, lemma_dot_at_found,
    lemma_tokenize_wf, span, spec_tokenize, token_shape_ok, wf_tokens,
};
use crate::value::Rat;

verus! {

/// A token kind together with the byte offset it was found at: what an
/// `UnexpectedToken` error carries.
#[derive(Clone, Copy, PartialEq, Eq, Structural, Debug)]
pub struct TokenKindAt {
    pub position: usize,
    pub kind: TokenKind,
}

/// The two parse errors. Both carry a byte offset into the source, for
/// the renderer's caret.
#[derive(Clone, Copy, PartialEq, Eq, Structural, Debug)]
pub enum ErrorKind {
    UnexpectedToken { token: TokenKindAt },
    UnexpectedEnd { at: usize },
}

/// Operator binding strength, low to high. Infix sums bind weakest,
/// infix products tighter, and prefix operators tightest.
#[derive(Clone, Copy, PartialEq, Eq, Structural, Debug)]
pub enum Precedence {
    Lowest,
    Sum,
    Product,
    Prefix,
}

pub open spec fn prec_level(p: Precedence) -> int {
    match p {
        Precedence::Lowest => 0,
        Precedence::Sum => 1,
        Precedence::Product => 2,
        Precedence::Prefix => 3,
    }
}

pub open spec fn prec_lt(a: Precedence, b: Precedence) -> bool {
    prec_level(a) < prec_level(b)
}

fn prec_lt_x(a: Precedence, b: Precedence) -> (r: bool)
    ensures
        r == prec_lt(a, b),
{
    let la: u8 = match a {
        Precedence::Lowest => 0,
        Precedence::Sum => 1,
        Precedence::Product => 2,
        Precedence::Prefix => 3,
    };
    let lb: u8 = match b {
        Precedence::Lowest => 0,
        Precedence::Sum => 1,
        Precedence::Product => 2,
        Precedence::Prefix => 3,
    };
    la < lb
}

/// The infix operator a token stands for, if any.
pub open spec fn binop_of_kind(k: TokenKind) -> Option<BinOp> {
    match k {
        TokenKind::Plus => Some(BinOp::Plus),
        TokenKind::Minus => Some(BinOp::Minus),
        TokenKind::Times => Some(BinOp::Times),
        TokenKind::Over => Some(BinOp::Over),
        _ => None,
    }
}

fn binop_of_kind_x(k: TokenKind) -> (r: Option<BinOp>)
    ensures
        r == binop_of_kind(k),
{
    match k {
        TokenKind::Plus => Some(BinOp::Plus),
        TokenKind::Minus => Some(BinOp::Minus),
        TokenKind::Times => Some(BinOp::Times),
        TokenKind::Over => Some(BinOp::Over),
        _ => None,
    }
}

/// Sums bind at `Sum`, products at `Product`.
pub open spec fn binop_prec(op: BinOp) -> Precedence {
    match op {
        BinOp::Plus => Precedence::Sum,
        BinOp::Minus => Precedence::Sum,
        BinOp::Times => Precedence::Product,
        BinOp::Over => Precedence::Product,
    }
}

fn binop_prec_x(op: BinOp) -> (r: Precedence)
    ensures
        r == binop_prec(op),
{
    match op {
        BinOp::Plus => Precedence::Sum,
        BinOp::Minus => Precedence::Sum,
        BinOp::Times => Precedence::Product,
        BinOp::Over => Precedence::Product,
    }
}

/// The number a string of decimal digits denotes.
pub open spec fn digits_val(t: Seq<u8>) -> int
    decreases t.len(),
{
    if t.len() == 0 {
        0
    } else {
        digits_val(t.drop_last()) * 10 + (t.last() - 48)
    }
}

/// Ten to the `k`.
pub open spec fn pow10(k: nat) -> int
    decreases k,
{
    if k == 0 {
        1
    } else {
        10 * pow10((k - 1) as nat)
    }
}

/// The numerator a fractional literal denotes: its digits with the dot
/// removed, read as one number.
pub open spec fn float_lit_num(t: Seq<u8>) -> int {
    let d = dot_pos(t);
    digits_val(t.subrange(0, d)) * pow10((t.len() - d - 1) as nat) + digits_val(
        t.subrange(d + 1, t.len() as int),
    )
}

/// The denominator of a fractional literal: ten to the number of
/// digits after the dot.
pub open spec fn float_lit_den(t: Seq<u8>) -> int {
    pow10((t.len() - dot_pos(t) - 1) as nat)
}

/// The exact rational a fractional literal denotes.
pub open spec fn float_lit_rat(t: Seq<u8>) -> Rat {
    Rat { num: float_lit_num(t) as i64, den: float_lit_den(t) as i64 }
}

/// An integer literal the data model can hold.
pub open spec fn int_lit_fits(t: Seq<u8>) -> bool {
    digits_val(t) <= i64::MAX
}

/// A fractional literal the data model can hold.
pub open spec fn float_lit_fits(t: Seq<u8>) -> bool {
    float_lit_num(t) <= i64::MAX && float_lit_den(t) <= i64::MAX
}

/// One token's literal, if it is numeric, denotes a representable
/// value.
pub open spec fn literal_fits(t: Token, s: Seq<u8>) -> bool {
    &&& (t.kind == TokenKind::Integer ==> int_lit_fits(t.text(s)))
    &&& (t.kind == TokenKind::Float ==> float_lit_fits(t.text(s)))
}

/// Every numeric literal in the token list denotes a representable
/// value. Parsing demands this of its input: a larger literal has no
/// place in the data model, and `literals_fit` decides the condition
/// for any input.
pub open spec fn all_literals_fit(toks: Seq<Token>, s: Seq<u8>) -> bool {
    forall|i: int| 0 <= i < toks.len() ==> literal_fits(#[trigger] toks[i], s)
}


/// Reads the digits `v[a .. b]` as a number, or reports that they
/// denote more than the data model can hold.
pub(crate) fn try_parse_digits(v: &Vec<u8>, a: usize, b: usize) -> (r: Option<i64>)
    requires
        a <= b <= v@.len(),
        forall|k: int| a <= k < b ==> is_digit(#[trigger] v@[k]),
    ensures
        match r {
            Some(x) => x as int == digits_val(v@.subrange(a as int, b as int)) && x >= 0
                && int_lit_fits(v@.subrange(a as int, b as int)),
            None => !int_lit_fits(v@.subrange(a as int, b as int)),
        },
{
    let ghost t = v@.subrange(a as int, b as int);
    proof {
        assert(forall|k: int| 0 <= k < t.len() ==> is_digit(#[trigger] t[k]));
    }
    let n = b - a;
    let mut acc: i64 = 0;
    let mut i: usize = 0;
    while i < n
        invariant
            a <= b <= v@.len(),
            n == b - a,
            t == v@.subrange(a as int, b as int),
            forall|k: int| 0 <= k < t.len() ==> is_digit(#[trigger] t[k]),
            0 <= i <= n,
            acc as int == digits_val(t.subrange(0, i as int)),
            acc >= 0,
        decreases n - i,
    {
        proof {
            let nxt = t.subrange(0, i + 1);
            assert(nxt.drop_last() =~= t.subrange(0, i as int));
            assert(nxt.last() == t[i as int]);
            assert(t[i as int] == v@[a + i]);
            assert(digits_val(nxt) == acc * 10 + (t[i as int] - 48));
            lemma_digits_val_prefix_le(t, i + 1);
        }
        let d = v[a + i] - 48;
        let next = match acc.checked_mul(10) {
            Some(m) => m.checked_add(d as i64),
            None => None,
        };
        match next {
            Some(x) => {
                acc = x;
            },
            None => {
                return None;
            },
        }
        i = i + 1;
    }
    proof {
        assert(t.subrange(0, n as int) =~= t);
    }
    Some(acc)
}

/// Whether the fractional literal `v[a .. b]` denotes a representable
/// rational.
pub(crate) fn float_fits(v: &Vec<u8>, a: usize, b: usize) -> (r: bool)
    requires
        a <= b <= v@.len(),
        is_float_text(v@.subrange(a as int, b as int)),
    ensures
        r == float_lit_fits(v@.subrange(a as int, b as int)),
{
    let ghost text = v@.subrange(a as int, b as int);
    let ghost dp = dot_pos(text);
    proof {
        assert(forall|k: int| 0 <= k < text.len() ==> #[trigger] text[k] == v@[a + k]);
        lemma_dot_at_found(text, 0);
    }
    let mut d = a;
    while v[d] != 46
        invariant
            a <= d <= a + dp,
            a + dp < b <= v@.len(),
            text == v@.subrange(a as int, b as int),
            dp == dot_pos(text),
            is_float_text(text),
            forall|k: int| 0 <= k < text.len() ==> #[trigger] text[k] == v@[a + k],
            text[dp] == 46,
        decreases a + dp - d,
    {
        proof {
            assert(v@[d as int] == text[d - a]);
            assert(d - a != dp);
            assert(is_digit(text[d - a]));
        }
        d = d + 1;
    }
    proof {
        assert(v@[d as int] == text[d - a]);
        if d - a < dp {
            assert(is_digit(text[d - a]));
        }
        assert(d == a + dp);
        assert forall|k: int| a <= k < d implies is_digit(#[trigger] v@[k]) by {
            assert(v@[k] == text[k - a]);
        }
        assert forall|k: int| d + 1 <= k < b implies is_digit(#[trigger] v@[k]) by {
            assert(v@[k] == text[k - a]);
        }
        assert(v@.subrange(a as int, d as int) =~= text.subrange(0, dp));
        assert(v@.subrange(d + 1, b as int) =~= text.subrange(dp + 1, text.len() as int));
        lemma_digits_val_nonneg(text.subrange(0, dp));
        lemma_digits_val_nonneg(text.subrange(dp + 1, text.len() as int));
        lemma_pow10_pos((text.len() - dp - 1) as nat);
    }
    let fraclen = b - (d + 1);
    if fraclen > 18 {
        proof {
            reveal_with_fuel(pow10, 20);
            lemma_pow10_mono(19nat, fraclen as nat);
            assert(pow10(19nat) > i64::MAX);
        }
        return false;
    }
    proof {
        reveal_with_fuel(pow10, 20);
        lemma_pow10_mono(fraclen as nat, 18nat);
        assert(pow10(18nat) <= i64::MAX);
    }
    let den = pow10_x(fraclen);
    let ghost ipv = digits_val(text.subrange(0, dp));
    let ghost fpv = digits_val(text.subrange(dp + 1, text.len() as int));
    let ip = match try_parse_digits(v, a, d) {
        Some(x) => x,
        None => {
            proof {
                assert(ipv > i64::MAX);
                assert(ipv * (den as int) >= ipv) by (nonlinear_arith)
                    requires
                        ipv >= 0,
                        den as int >= 1,
                ;
            }
            return false;
        },
    };
    let fp = match try_parse_digits(v, d + 1, b) {
        Some(x) => x,
        None => {
            proof {
                assert(fpv > i64::MAX);
                assert(ipv * (den as int) >= 0) by (nonlinear_arith)
                    requires
                        ipv >= 0,
                        den as int >= 1,
                ;
            }
            return false;
        },
    };
    match ip.checked_mul(den) {
        Some(m) => match m.checked_add(fp) {
            Some(_) => true,
            None => false,
        },
        None => {
            proof {
                assert(ipv * (den as int) > i64::MAX ==> ipv * (den as int) + fpv > i64::MAX);
            }
            false
        },
    }
}

/// One parsing step at `pos`, expecting a primary expression, at the
/// precedence floor `prec`. On success it returns the expression and
/// the index just past its last token.
pub open spec fn spec_parse_expr(
    toks: Seq<Token>,
    s: Seq<u8>,
    pos: int,
    prec: Precedence,
) -> Result<(Expr, int), ErrorKind>
    decreases span(pos, toks.len() as int), 1int,
{
    if pos < 0 || pos >= toks.len() {
        Err(ErrorKind::UnexpectedEnd { at: 0 })
    } else {
        let t = toks[pos];
        match t.kind {
            TokenKind::Ident => spec_parse_expr(toks, s, pos + 1, prec),
            TokenKind::Illegal => spec_parse_expr(toks, s, pos + 1, prec),
            TokenKind::Integer => spec_bin_loop(
                toks,
                s,
                pos + 1,
                Expr::Integer(digits_val(t.text(s)) as i64),
                prec,
            ),
            TokenKind::Float => spec_bin_loop(
                toks,
                s,
                pos + 1,
                Expr::Float(float_lit_rat(t.text(s))),
                prec,
            ),
            TokenKind::Plus | TokenKind::Minus => {
                let op = if t.kind == TokenKind::Plus {
                    UnOp::Plus
                } else {
                    UnOp::Minus
                };
                match spec_parse_expr(toks, s, pos + 1, Precedence::Prefix) {
                    Err(e) => Err(e),
                    Ok(p) => {
                        let e = Expr::UnExpr(Box::new(UnaryExpr { op, right: p.0 }));
                        spec_bin_loop(
                            toks,
                            s,
                            if p.1 > pos + 1 {
                                p.1
                            } else {
                                pos + 1
                            },
                            e,
                            prec,
                        )
                    },
                }
            },
            TokenKind::Times | TokenKind::Over => Err(
                ErrorKind::UnexpectedToken {
                    token: TokenKindAt { position: t.start, kind: t.kind },
                },
            ),
            TokenKind::Eof => Err(ErrorKind::UnexpectedEnd { at: t.start }),
        }
    }
}

/// The binary-operator loop: while the token at `pos` is an infix
/// operator binding tighter than `prec`, consume it, parse its right
/// operand at the operator's own precedence (left association), and
/// fold it onto `left`.
pub open spec fn spec_bin_loop(
    toks: Seq<Token>,
    s: Seq<u8>,
    pos: int,
    left: Expr,
    prec: Precedence,
) -> Result<(Expr, int), ErrorKind>
    decreases span(pos, toks.len() as int), 0int,
{
    if pos < 0 || pos >= toks.len() {
        Ok((left, pos))
    } else {
        let t = toks[pos];
        match binop_of_kind(t.kind) {
            None => Ok((left, pos)),
            Some(op) => {
                if prec_lt(prec, binop_prec(op)) {
                    match spec_parse_expr(toks, s, pos + 1, binop_prec(op)) {
                        Err(e) => Err(e),
                        Ok(p) => {
                            let e = Expr::BinExpr(Box::new(BinaryExpr { left, op, right: p.0 }));
                            spec_bin_loop(
                                toks,
                                s,
                                if p.1 > pos + 1 {
                                    p.1
                                } else {
                                    pos + 1
                                },
                                e,
                                prec,
                            )
                        },
                    }
                } else {
                    Ok((left, pos))
                }
            },
        }
    }
}


/// The binary loop stops at a non-operator token, at one that does not
/// bind tighter than the floor, or at the token list's end.
proof fn lemma_bin_loop_stop(toks: Seq<Token>, s: Seq<u8>, pos: int, left: Expr, prec: Precedence)
    requires
        pos >= toks.len() || (0 <= pos && match binop_of_kind(toks[pos].kind) {
            None => true,
            Some(op) => !prec_lt(prec, binop_prec(op)),
        }),
        0 <= pos,
    ensures
        spec_bin_loop(toks, s, pos, left, prec) == Result::<(Expr, int), ErrorKind>::Ok(
            (left, pos),
        ),
{
}

/// One successful turn of the binary loop folds the right operand onto
/// `left` and resumes past it.
proof fn lemma_bin_loop_step(
    toks: Seq<Token>,
    s: Seq<u8>,
    pos: int,
    left: Expr,
    prec: Precedence,
    op: BinOp,
    rhs: Expr,
    nx: int,
)
    requires
        0 <= pos < toks.len(),
        binop_of_kind(toks[pos].kind) == Some(op),
        prec_lt(prec, binop_prec(op)),
        spec_parse_expr(toks, s, pos + 1, binop_prec(op)) == Result::<(Expr, int), ErrorKind>::Ok(
            (rhs, nx),
        ),
        nx > pos + 1,
    ensures
        spec_bin_loop(toks, s, pos, left, prec) == spec_bin_loop(
            toks,
            s,
            nx,
            Expr::BinExpr(Box::new(BinaryExpr { left, op, right: rhs })),
            prec,
        ),
{
}

/// A failing right operand aborts the binary loop with its error.
proof fn lemma_bin_loop_err(
    toks: Seq<Token>,
    s: Seq<u8>,
    pos: int,
    left: Expr,
    prec: Precedence,
    op: BinOp,
    e: ErrorKind,
)
    requires
        0 <= pos < toks.len(),
        binop_of_kind(toks[pos].kind) == Some(op),
        prec_lt(prec, binop_prec(op)),
        spec_parse_expr(toks, s, pos + 1, binop_prec(op)) == Result::<(Expr, int), ErrorKind>::Err(
            e,
        ),
    ensures
        spec_bin_loop(toks, s, pos, left, prec) == Result::<(Expr, int), ErrorKind>::Err(e),
{
}

/// What parsing a whole input yields: the expression of its token list,
/// or the located error.
pub open spec fn spec_parse(s: Seq<u8>) -> Result<Expr, ErrorKind> {
    match spec_parse_expr(spec_tokenize(s), s, 0, Precedence::Lowest) {
        Ok(p) => Ok(p.0),
        Err(k) => Err(k),
    }
}


/// Token lists that agree kind for kind, and byte for byte on the texts
/// of their numeric literals. Offsets and operator spellings may
/// differ: `plus` and `+` leave tokens of the same shape.
pub open spec fn same_shape(toks1: Seq<Token>, s1: Seq<u8>, toks2: Seq<Token>, s2: Seq<u8>) -> bool {
    &&& toks1.len() == toks2.len()
    &&& forall|i: int| 0 <= i < toks1.len() ==> (#[trigger] toks1[i]).kind == toks2[i].kind
    &&& forall|i: int|
        0 <= i < toks1.len() && ((#[trigger] toks1[i]).kind == TokenKind::Integer || toks1[i].kind
            == TokenKind::Float) ==> toks1[i].text(s1) == toks2[i].text(s2)
}

/// Parsing reads nothing of a token but its kind and, for a numeric
/// literal, its text: over two inputs of the same shape it builds the
/// same expression and consumes the same number of tokens, or fails on
/// both (only the failure's offset can differ).
pub proof fn lemma_parse_same_shape(
    toks1: Seq<Token>,
    s1: Seq<u8>,
    toks2: Seq<Token>,
    s2: Seq<u8>,
    pos: int,
    prec: Precedence,
)
    requires
        same_shape(toks1, s1, toks2, s2),
    ensures
        match (spec_parse_expr(toks1, s1, pos, prec), spec_parse_expr(toks2, s2, pos, prec)) {
            (Ok(p1), Ok(p2)) => p1 == p2,
            (Err(_), Err(_)) => true,
            _ => false,
        },
    decreases span(pos, toks1.len() as int), 1int,
{
    if 0 <= pos < toks1.len() {
        let t1 = toks1[pos];
        let t2 = toks2[pos];
        assert(t1.kind == t2.kind);
        match t1.kind {
            TokenKind::Ident | TokenKind::Illegal => {
                lemma_parse_same_shape(toks1, s1, toks2, s2, pos + 1, prec);
            },
            TokenKind::Integer => {
                assert(t1.text(s1) == t2.text(s2));
                lemma_bin_loop_same_shape(
                    toks1,
                    s1,
                    toks2,
                    s2,
                    pos + 1,
                    Expr::Integer(digits_val(t1.text(s1)) as i64),
                    prec,
                );
            },
            TokenKind::Float => {
                assert(t1.text(s1) == t2.text(s2));
                lemma_bin_loop_same_shape(
                    toks1,
                    s1,
                    toks2,
                    s2,
                    pos + 1,
                    Expr::Float(float_lit_rat(t1.text(s1))),
                    prec,
                );
            },
            TokenKind::Plus | TokenKind::Minus => {
                lemma_parse_same_shape(toks1, s1, toks2, s2, pos + 1, Precedence::Prefix);
                let op = if t1.kind == TokenKind::Plus {
                    UnOp::Plus
                } else {
                    UnOp::Minus
                };
                match (
                    spec_parse_expr(toks1, s1, pos + 1, Precedence::Prefix),
                    spec_parse_expr(toks2, s2, pos + 1, Precedence::Prefix),
                ) {
                    (Ok(p1), Ok(p2)) => {
                        let e = Expr::UnExpr(Box::new(UnaryExpr { op, right: p1.0 }));
                        let nx = if p1.1 > pos + 1 {
                            p1.1
                        } else {
                            pos + 1
                        };
                        lemma_bin_loop_same_shape(toks1, s1, toks2, s2, nx, e, prec);
                    },
                    (Err(_), Err(_)) => {},
                    _ => {
                        assert(false);
                    },
                }
            },
            TokenKind::Times | TokenKind::Over => {},
            TokenKind::Eof => {},
        }
    }
}

proof fn lemma_bin_loop_same_shape(
    toks1: Seq<Token>,
    s1: Seq<u8>,
    toks2: Seq<Token>,
    s2: Seq<u8>,
    pos: int,
    left: Expr,
    prec: Precedence,
)
    requires
        same_shape(toks1, s1, toks2, s2),
    ensures
        match (spec_bin_loop(toks1, s1, pos, left, prec), spec_bin_loop(toks2, s2, pos, left, prec)) {
            (Ok(p1), Ok(p2)) => p1 == p2,
            (Err(_), Err(_)) => true,
            _ => false,
        },
    decreases span(pos, toks1.len() as int), 0int,
{
    if 0 <= pos < toks1.len() {
        let t1 = toks1[pos];
        let t2 = toks2[pos];
        assert(t1.kind == t2.kind);
        match binop_of_kind(t1.kind) {
            None => {},
            Some(op) => {
                if prec_lt(prec, binop_prec(op)) {
                    lemma_parse_same_shape(toks1, s1, toks2, s2, pos + 1, binop_prec(op));
                    match (
                        spec_parse_expr(toks1, s1, pos + 1, binop_prec(op)),
                        spec_parse_expr(toks2, s2, pos + 1, binop_prec(op)),
                    ) {
                        (Ok(p1), Ok(p2)) => {
                            let e = Expr::BinExpr(Box::new(BinaryExpr { left, op, right: p1.0 }));
                            let nx = if p1.1 > pos + 1 {
                                p1.1
                            } else {
                                pos + 1
                            };
                            lemma_bin_loop_same_shape(toks1, s1, toks2, s2, nx, e, prec);
                        },
                        (Err(_), Err(_)) => {},
                        _ => {
                            assert(false);
                        },
                    }
                }
            },
        }
    }
}

/// A digit string denotes a number that never goes negative.
proof fn lemma_digits_val_nonneg(t: Seq<u8>)
    requires
        forall|k: int| 0 <= k < t.len() ==> is_digit(#[trigger] t[k]),
    ensures
        digits_val(t) >= 0,
    decreases t.len(),
{
    if t.len() > 0 {
        lemma_digits_val_nonneg(t.drop_last());
    }
}

/// A prefix of a digit string denotes no more than the whole string.
proof fn lemma_digits_val_prefix_le(t: Seq<u8>, k: int)
    requires
        0 <= k <= t.len(),
        forall|j: int| 0 <= j < t.len() ==> is_digit(#[trigger] t[j]),
    ensures
        digits_val(t.subrange(0, k)) <= digits_val(t),
        digits_val(t.subrange(0, k)) >= 0,
    decreases t.len() - k,
{
    assert(forall|j: int| 0 <= j < k ==> is_digit(#[trigger] t.subrange(0, k)[j]));
    lemma_digits_val_nonneg(t.subrange(0, k));
    if k == t.len() {
        assert(t.subrange(0, k) =~= t);
    } else {
        lemma_digits_val_prefix_le(t, k + 1);
        let a = t.subrange(0, k);
        let b = t.subrange(0, k + 1);
        assert(b.drop_last() =~= a);
        assert(b.last() == t[k]);
        assert(digits_val(b) == digits_val(a) * 10 + (t[k] - 48));
    }
}

/// Reads the digits `v[a .. b]` as a number.
fn parse_digits(v: &Vec<u8>, a: usize, b: usize) -> (r: i64)
    requires
        a <= b <= v@.len(),
        forall|k: int| a <= k < b ==> is_digit(#[trigger] v@[k]),
        digits_val(v@.subrange(a as int, b as int)) <= i64::MAX,
    ensures
        r as int == digits_val(v@.subrange(a as int, b as int)),
        r >= 0,
{
    let ghost t = v@.subrange(a as int, b as int);
    proof {
        assert(forall|k: int| 0 <= k < t.len() ==> is_digit(#[trigger] t[k]));
    }
    let n = b - a;
    let mut acc: i64 = 0;
    let mut i: usize = 0;
    while i < n
        invariant
            a <= b <= v@.len(),
            n == b - a,
            t == v@.subrange(a as int, b as int),
            forall|k: int| 0 <= k < t.len() ==> is_digit(#[trigger] t[k]),
            digits_val(t) <= i64::MAX,
            0 <= i <= n,
            acc as int == digits_val(t.subrange(0, i as int)),
            acc >= 0,
        decreases n - i,
    {
        proof {
            let nxt = t.subrange(0, i + 1);
            assert(nxt.drop_last() =~= t.subrange(0, i as int));
            assert(nxt.last() == t[i as int]);
            assert(t[i as int] == v@[a + i]);
            lemma_digits_val_prefix_le(t, i + 1);
            assert(digits_val(nxt) == acc * 10 + (t[i as int] - 48));
        }
        let d = v[a + i] - 48;
        acc = acc * 10 + (d as i64);
        i = i + 1;
    }
    proof {
        assert(t.subrange(0, n as int) =~= t);
    }
    acc
}

proof fn lemma_pow10_pos(k: nat)
    ensures
        pow10(k) >= 1,
    decreases k,
{
    if k > 0 {
        lemma_pow10_pos((k - 1) as nat);
    }
}

proof fn lemma_pow10_mono(i: nat, k: nat)
    requires
        i <= k,
    ensures
        pow10(i) <= pow10(k),
    decreases k - i,
{
    lemma_pow10_pos(i);
    if i < k {
        lemma_pow10_mono(i, (k - 1) as nat);
        lemma_pow10_pos((k - 1) as nat);
    }
}

/// Computes ten to the `k`.
fn pow10_x(k: usize) -> (r: i64)
    requires
        pow10(k as nat) <= i64::MAX,
    ensures
        r as int == pow10(k as nat),
        r >= 1,
{
    let mut r: i64 = 1;
    let mut i: usize = 0;
    proof {
        lemma_pow10_pos(k as nat);
    }
    while i < k
        invariant
            0 <= i <= k,
            pow10(k as nat) <= i64::MAX,
            r as int == pow10(i as nat),
            r >= 1,
        decreases k - i,
    {
        proof {
            lemma_pow10_mono((i + 1) as nat, k as nat);
            assert(pow10((i + 1) as nat) == 10 * pow10(i as nat));
        }
        r = r * 10;
        i = i + 1;
    }
    r
}

/// The parser: the input, its token list, and a cursor over it.
pub struct Parser {
    input: Vec<u8>,
    tokens: Vec<Token>,
    position: usize,
}

impl Parser {
    /// The source bytes being parsed.
    pub closed spec fn src(self) -> Seq<u8> {
        self.input@
    }

    /// The token list being consumed.
    pub closed spec fn toks(self) -> Seq<Token> {
        self.tokens@
    }

    /// The cursor: the index of the next unconsumed token.
    pub closed spec fn pos(self) -> int {
        self.position as int
    }

    /// The tokens are exactly the tokenizer's output for the input, and
    /// the cursor stays inside them.
    pub closed spec fn wf(self) -> bool {
        &&& self.tokens@ == spec_tokenize(self.input@)
        &&& self.position <= self.tokens@.len()
        &&& self.input@.len() < usize::MAX
    }

    /// Tokenizes `input` and places the cursor at the first token.
    pub fn new(input: &[u8]) -> (p: Parser)
        requires
            input@.len() < usize::MAX,
        ensures
            p.wf(),
            p.src() == input@,
            p.toks() == spec_tokenize(input@),
            p.pos() == 0,
    {
        let lx = Lexer::new(input);
        let tokens = lx.tokenize();
        Parser { input: slice_to_vec(input), tokens, position: 0 }
    }

    /// Moves the cursor one token forward.
    fn advance(&mut self)
        requires
            old(self).wf(),
            old(self).pos() < old(self).toks().len(),
        ensures
            final(self).wf(),
            final(self).src() == old(self).src(),
            final(self).toks() == old(self).toks(),
            final(self).pos() == old(self).pos() + 1,
    {
        let n = self.tokens.len();
        proof {
            assert(self.tokens@.len() == n as int);
        }
        self.position = self.position + 1;
    }

    /// Whether the cursor sits on a token the grammar skips.
    fn at_skippable(&self) -> (r: bool)
        requires
            self.pos() < self.toks().len(),
        ensures
            r == (self.toks()[self.pos()].kind == TokenKind::Ident || self.toks()[self.pos()].kind
                == TokenKind::Illegal),
    {
        let k = self.tokens[self.position].kind;
        k == TokenKind::Ident || k == TokenKind::Illegal
    }

    /// Reads the integer literal under `t` into a literal node.
    fn parse_integer(&self, t: Token) -> (e: Expr)
        requires
            self.wf(),
            token_shape_ok(t, self.src()),
            t.kind == TokenKind::Integer,
            int_lit_fits(t.text(self.src())),
        ensures
            e == Expr::Integer(digits_val(t.text(self.src())) as i64),
    {
        let ghost text = t.text(self.src());
        proof {
            assert(forall|k: int|
                t.start <= k < t.start + t.len ==> #[trigger] self.src()[k] == text[k - t.start]);
            assert(digits_val(self.src().subrange(t.start as int, (t.start + t.len) as int))
                == digits_val(text));
        }
        let v = parse_digits(&self.input, t.start, t.start + t.len);
        Expr::Integer(v)
    }

    /// Reads the fractional literal under `t` into a literal node
    /// holding the exact rational it denotes.
    #[verifier::loop_isolation(false)]
    fn parse_fp_number(&self, t: Token) -> (e: Expr)
        requires
            self.wf(),
            token_shape_ok(t, self.src()),
            t.kind == TokenKind::Float,
            float_lit_fits(t.text(self.src())),
        ensures
            e == Expr::Float(float_lit_rat(t.text(self.src()))),
            expr_wf(e),
    {
        let ghost text = t.text(self.src());
        let ghost dp = dot_pos(text);
        let a = t.start;
        let b = t.start + t.len;
        proof {
            assert(forall|k: int|
                0 <= k < text.len() ==> #[trigger] text[k] == self.src()[t.start + k]);
            lemma_dot_at_found(text, 0);
        }
        let mut d = a;
        while self.input[d] != 46
            invariant
                self.wf(),
                a <= d <= a + dp,
                a + dp < b <= self.src().len(),
                text == self.src().subrange(a as int, b as int),
                dp == dot_pos(text),
                is_float_text(text),
                forall|k: int|
                    0 <= k < text.len() ==> #[trigger] text[k] == self.src()[a + k],
                text[dp] == 46,
                forall|k: int| a <= k < d ==> self.src()[k] != 46,
            decreases a + dp - d,
        {
            proof {
                assert(self.src()[d as int] == text[d - a]);
                assert(d - a != dp);
                assert(is_digit(text[d - a]));
            }
            d = d + 1;
        }
        proof {
            assert(self.src()[d as int] == text[d - a]);
            if d - a < dp {
                assert(is_digit(text[d - a]));
                assert(!(text[d - a] == 46));
            }
            assert(d == a + dp);
            assert forall|k: int| a <= k < d implies is_digit(#[trigger] self.src()[k]) by {
                assert(self.src()[k] == text[k - a]);
            }
            assert forall|k: int| d + 1 <= k < b implies is_digit(#[trigger] self.src()[k]) by {
                assert(self.src()[k] == text[k - a]);
            }
            assert(self.src().subrange(a as int, d as int) =~= text.subrange(0, dp));
            assert(self.src().subrange(d + 1, b as int) =~= text.subrange(dp + 1, text.len() as int));
            lemma_digits_val_nonneg(text.subrange(0, dp));
            lemma_digits_val_nonneg(text.subrange(dp + 1, text.len() as int));
            lemma_pow10_pos((text.len() - dp - 1) as nat);
            assert(digits_val(text.subrange(0, dp)) * pow10((text.len() - dp - 1) as nat)
                >= digits_val(text.subrange(0, dp))) by (nonlinear_arith)
                requires
                    digits_val(text.subrange(0, dp)) >= 0,
                    pow10((text.len() - dp - 1) as nat) >= 1,
            ;
            assert(digits_val(text.subrange(0, dp)) * pow10((text.len() - dp - 1) as nat) >= 0)
                by (nonlinear_arith)
                requires
                    digits_val(text.subrange(0, dp)) >= 0,
                    pow10((text.len() - dp - 1) as nat) >= 1,
            ;
        }
        let ip = parse_digits(&self.input, a, d);
        let den = pow10_x(b - (d + 1));
        let fp = parse_digits(&self.input, d + 1, b);
        proof {
            assert(ip as int * den as int == digits_val(text.subrange(0, dp)) * pow10(
                (text.len() - dp - 1) as nat,
            ));
        }
        let num = ip * den + fp;
        Expr::Float(Rat { num, den })
    }

    /// Parses one expression at the precedence floor `prec`, returning
    /// exactly what the specification parser returns and leaving the
    /// cursor just past the expression on success.
    fn parse_expr(&mut self, prec: Precedence) -> (r: Result<Expr, ErrorKind>)
        requires
            old(self).wf(),
            all_literals_fit(old(self).toks(), old(self).src()),
        ensures
            final(self).wf(),
            final(self).src() == old(self).src(),
            ({
                let sp = spec_parse_expr(old(self).toks(), old(self).src(), old(self).pos(), prec);
                match sp {
                    Ok(p) => r == Result::<Expr, ErrorKind>::Ok(p.0) && expr_wf(p.0)
                        && final(self).pos() == p.1
                        && old(self).pos() < p.1 <= old(self).toks().len(),
                    Err(k) => r == Result::<Expr, ErrorKind>::Err(k),
                }
            }),
        decreases span(old(self).pos(), old(self).toks().len() as int), 1int,
    {
        let ghost toks = self.toks();
        let ghost s = self.src();
        let ghost p_entry = self.pos();
        proof {
            lemma_tokenize_wf(s);
        }
        if self.position >= self.tokens.len() {
            return Err(ErrorKind::UnexpectedEnd { at: 0 });
        }
        while self.at_skippable()
            invariant
                self.wf(),
                self.src() == s,
                self.toks() == toks,
                old(self).src() == s,
                old(self).toks() == toks,
                old(self).pos() == p_entry,
                wf_tokens(toks, s),
                all_literals_fit(toks, s),
                p_entry <= self.pos() < toks.len(),
                spec_parse_expr(toks, s, self.pos(), prec) == spec_parse_expr(
                    toks,
                    s,
                    p_entry,
                    prec,
                ),
            decreases toks.len() - self.pos(),
        {
            proof {
                assert(self.pos() < toks.len() - 1);
            }
            self.advance();
        }
        let ghost p0 = self.pos();
        let t = self.tokens[self.position];
        let mut cur: Expr;
        match t.kind {
            TokenKind::Integer => {
                cur = self.parse_integer(t);
                self.advance();
            },
            TokenKind::Float => {
                cur = self.parse_fp_number(t);
                self.advance();
            },
            TokenKind::Plus | TokenKind::Minus => {
                let op = if t.kind == TokenKind::Plus {
                    UnOp::Plus
                } else {
                    UnOp::Minus
                };
                self.advance();
                let rhs = match self.parse_expr(Precedence::Prefix) {
                    Ok(e) => e,
                    Err(e) => {
                        return Err(e);
                    },
                };
                cur = Expr::UnExpr(Box::new(UnaryExpr { op, right: rhs }));
            },
            TokenKind::Times | TokenKind::Over => {
                return Err(
                    ErrorKind::UnexpectedToken {
                        token: TokenKindAt { position: t.start, kind: t.kind },
                    },
                );
            },
            TokenKind::Eof => {
                return Err(ErrorKind::UnexpectedEnd { at: t.start });
            },
            TokenKind::Ident | TokenKind::Illegal => {
                proof {
                    assert(false);
                }
                return Err(ErrorKind::UnexpectedEnd { at: 0 });
            },
        }
        proof {
            assert(spec_parse_expr(toks, s, p_entry, prec) == spec_bin_loop(
                toks,
                s,
                self.pos(),
                cur,
                prec,
            ));
        }
        loop
            invariant
                self.wf(),
                self.src() == s,
                self.toks() == toks,
                old(self).src() == s,
                old(self).toks() == toks,
                old(self).pos() == p_entry,
                wf_tokens(toks, s),
                all_literals_fit(toks, s),
                expr_wf(cur),
                p_entry < self.pos() <= toks.len(),
                spec_bin_loop(toks, s, self.pos(), cur, prec) == spec_parse_expr(
                    toks,
                    s,
                    p_entry,
                    prec,
                ),
            ensures
                spec_parse_expr(toks, s, p_entry, prec) == Result::<(Expr, int), ErrorKind>::Ok(
                    (cur, self.pos()),
                ),
            decreases span(self.pos(), toks.len() as int),
        {
            if self.position >= self.tokens.len() {
                proof {
                    lemma_bin_loop_stop(toks, s, self.pos(), cur, prec);
                }
                break ;
            }
            let t2 = self.tokens[self.position];
            match binop_of_kind_x(t2.kind) {
                None => {
                    proof {
                        lemma_bin_loop_stop(toks, s, self.pos(), cur, prec);
                    }
                    break ;
                },
                Some(op) => {
                    if prec_lt_x(prec, binop_prec_x(op)) {
                        let ghost loop_pos = self.pos();
                        let ghost prev = cur;
                        self.advance();
                        let rhs = match self.parse_expr(binop_prec_x(op)) {
                            Ok(e) => e,
                            Err(e) => {
                                proof {
                                    lemma_bin_loop_err(toks, s, loop_pos, prev, prec, op, e);
                                }
                                return Err(e);
                            },
                        };
                        let ghost rhsv = rhs;
                        proof {
                            lemma_bin_loop_step(
                                toks,
                                s,
                                loop_pos,
                                prev,
                                prec,
                                op,
                                rhsv,
                                self.pos(),
                            );
                        }
                        cur = Expr::BinExpr(Box::new(BinaryExpr { left: cur, op, right: rhs }));
                        proof {
                            assert(cur == Expr::BinExpr(
                                Box::new(BinaryExpr { left: prev, op, right: rhsv }),
                            ));
                        }
                    } else {
                        proof {
                            lemma_bin_loop_stop(toks, s, self.pos(), cur, prec);
                        }
                        break ;
                    }
                },
            }
        }
        Ok(cur)
    }

    /// Parses the whole expression the tokens spell, starting at the
    /// cursor; surplus tokens after a complete expression are left
    /// unconsumed.
    pub fn parse(&mut self) -> (r: Result<Expr, ErrorKind>)
        requires
            old(self).wf(),
            all_literals_fit(old(self).toks(), old(self).src()),
        ensures
            final(self).wf(),
            final(self).src() == old(self).src(),
            ({
                let sp = spec_parse_expr(
                    old(self).toks(),
                    old(self).src(),
                    old(self).pos(),
                    Precedence::Lowest,
                );
                match sp {
                    Ok(p) => r == Result::<Expr, ErrorKind>::Ok(p.0) && expr_wf(p.0),
                    Err(k) => r == Result::<Expr, ErrorKind>::Err(k),
                }
            }),
    {
        self.parse_expr(Precedence::Lowest)
    }
}

} // verus!
