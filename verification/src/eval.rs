//! The evaluator, and the composed entry point `eval`. Evaluation walks
//! the tree bottom-up and never fails: integer arithmetic wraps on
//! overflow, any operand promotion to rationals is exact, and division
//! always produces a rational, with division by zero yielding a signed
//! infinity (or the undefined value for zero over zero).
use vstd::prelude::*;
use vstd::slice::slice_to_vec;
use crate::ast::{BinOp, BinaryExpr, Expr, UnOp, UnaryExpr, expr_wf};
use crate::lexer::{
    Lexer, TokenKind, is_digit, lemma_tokenize_wf, spec_tokenize, token_shape_ok, wf_tokens,
};
use crate::parser::{
    ErrorKind, Parser, Precedence, all_literals_fit, float_fits, lemma_parse_same_shape,
    literal_fits, same_shape, spec_parse, try_parse_digits,
};
use crate::value::{
    Rat, Value, rat_of_i64, spec_rat_add, spec_rat_div, spec_rat_mul, spec_rat_neg, spec_rat_sub,
};

verus! {

/// The rational a value stands for: integers promote exactly.
pub open spec fn rat_of_value(v: Value) -> Rat {
    match v {
        Value::Integer(i) => rat_of_i64(i),
        Value::Float(r) => r,
    }
}

/// The value of a prefix application: plus is the identity, minus
/// negates and preserves the operand's kind.
pub open spec fn sp_eval_un(op: UnOp, v: Value) -> Value {
    match op {
        UnOp::Plus => v,
        UnOp::Minus => match v {
            Value::Integer(i) => Value::Integer(vstd::wrapping::i64_specs::wrapping_sub(0i64, i)),
            Value::Float(r) => Value::Float(spec_rat_neg(r)),
        },
    }
}

/// The value of an infix application, with the promotion table: two
/// integers stay integral except under division, which always yields a
/// rational; any rational operand makes the result rational.
pub open spec fn sp_eval_bin(op: BinOp, l: Value, r: Value) -> Value {
    match (l, r) {
        (Value::Integer(a), Value::Integer(b)) => match op {
            BinOp::Plus => Value::Integer(vstd::wrapping::i64_specs::wrapping_add(a, b)),
            BinOp::Minus => Value::Integer(vstd::wrapping::i64_specs::wrapping_sub(a, b)),
            BinOp::Times => Value::Integer(vstd::wrapping::i64_specs::wrapping_mul(a, b)),
            BinOp::Over => Value::Float(spec_rat_div(rat_of_i64(a), rat_of_i64(b))),
        },
        _ => {
            let a = rat_of_value(l);
            let b = rat_of_value(r);
            match op {
                BinOp::Plus => Value::Float(spec_rat_add(a, b)),
                BinOp::Minus => Value::Float(spec_rat_sub(a, b)),
                BinOp::Times => Value::Float(spec_rat_mul(a, b)),
                BinOp::Over => Value::Float(spec_rat_div(a, b)),
            }
        },
    }
}

/// The value of a whole tree.
pub open spec fn sp_eval(e: Expr) -> Value
    decreases e,
{
    match e {
        Expr::Integer(i) => Value::Integer(i),
        Expr::Float(r) => Value::Float(r),
        Expr::BinExpr(b) => sp_eval_bin(b.op, sp_eval(b.left), sp_eval(b.right)),
        Expr::UnExpr(u) => sp_eval_un(u.op, sp_eval(u.right)),
    }
}

impl Value {
    /// Addition under the promotion table.
    pub fn add(self, rhs: Value) -> (v: Value)
        requires
            self.wf(),
            rhs.wf(),
        ensures
            v == sp_eval_bin(BinOp::Plus, self, rhs),
            v.wf(),
    {
        match (self, rhs) {
            (Value::Integer(a), Value::Integer(b)) => Value::Integer(a.wrapping_add(b)),
            (Value::Integer(a), Value::Float(r)) => Value::Float(Rat { num: a, den: 1 }.add(r)),
            (Value::Float(l), Value::Integer(b)) => Value::Float(l.add(Rat { num: b, den: 1 })),
            (Value::Float(l), Value::Float(r)) => Value::Float(l.add(r)),
        }
    }

    /// Subtraction under the promotion table.
    pub fn sub(self, rhs: Value) -> (v: Value)
        requires
            self.wf(),
            rhs.wf(),
        ensures
            v == sp_eval_bin(BinOp::Minus, self, rhs),
            v.wf(),
    {
        match (self, rhs) {
            (Value::Integer(a), Value::Integer(b)) => Value::Integer(a.wrapping_sub(b)),
            (Value::Integer(a), Value::Float(r)) => Value::Float(Rat { num: a, den: 1 }.sub(r)),
            (Value::Float(l), Value::Integer(b)) => Value::Float(l.sub(Rat { num: b, den: 1 })),
            (Value::Float(l), Value::Float(r)) => Value::Float(l.sub(r)),
        }
    }

    /// Multiplication under the promotion table.
    pub fn mul(self, rhs: Value) -> (v: Value)
        requires
            self.wf(),
            rhs.wf(),
        ensures
            v == sp_eval_bin(BinOp::Times, self, rhs),
            v.wf(),
    {
        match (self, rhs) {
            (Value::Integer(a), Value::Integer(b)) => Value::Integer(a.wrapping_mul(b)),
            (Value::Integer(a), Value::Float(r)) => Value::Float(Rat { num: a, den: 1 }.mul(r)),
            (Value::Float(l), Value::Integer(b)) => Value::Float(l.mul(Rat { num: b, den: 1 })),
            (Value::Float(l), Value::Float(r)) => Value::Float(l.mul(r)),
        }
    }

    /// Division: always rational, whatever the operands.
    pub fn div(self, rhs: Value) -> (v: Value)
        requires
            self.wf(),
            rhs.wf(),
        ensures
            v == sp_eval_bin(BinOp::Over, self, rhs),
            v.wf(),
    {
        match (self, rhs) {
            (Value::Integer(a), Value::Integer(b)) => Value::Float(
                Rat { num: a, den: 1 }.div(Rat { num: b, den: 1 }),
            ),
            (Value::Integer(a), Value::Float(r)) => Value::Float(Rat { num: a, den: 1 }.div(r)),
            (Value::Float(l), Value::Integer(b)) => Value::Float(l.div(Rat { num: b, den: 1 })),
            (Value::Float(l), Value::Float(r)) => Value::Float(l.div(r)),
        }
    }

    /// Negation, preserving the value's kind.
    pub fn neg(self) -> (v: Value)
        requires
            self.wf(),
        ensures
            v == sp_eval_un(UnOp::Minus, self),
            v.wf(),
    {
        match self {
            Value::Integer(a) => Value::Integer((0i64).wrapping_sub(a)),
            Value::Float(r) => Value::Float(r.neg()),
        }
    }
}

/// Evaluates a tree bottom-up.
pub fn eval_expr(expr: &Expr) -> (v: Value)
    requires
        expr_wf(*expr),
    ensures
        v == sp_eval(*expr),
        v.wf(),
    decreases *expr,
{
    match expr {
        Expr::Integer(i) => Value::Integer(*i),
        Expr::Float(r) => Value::Float(*r),
        Expr::BinExpr(b) => eval_binary_expr(b),
        Expr::UnExpr(u) => eval_unary_expr(u),
    }
}

/// Evaluates both operands, then applies the operator.
fn eval_binary_expr(expr: &BinaryExpr) -> (v: Value)
    requires
        expr_wf(expr.left),
        expr_wf(expr.right),
    ensures
        v == sp_eval_bin(expr.op, sp_eval(expr.left), sp_eval(expr.right)),
        v.wf(),
    decreases *expr,
{
    let left = eval_expr(&expr.left);
    let right = eval_expr(&expr.right);
    match expr.op {
        BinOp::Plus => left.add(right),
        BinOp::Minus => left.sub(right),
        BinOp::Times => left.mul(right),
        BinOp::Over => left.div(right),
    }
}

/// Evaluates the operand, then applies the prefix operator.
fn eval_unary_expr(expr: &UnaryExpr) -> (v: Value)
    requires
        expr_wf(expr.right),
    ensures
        v == sp_eval_un(expr.op, sp_eval(expr.right)),
        v.wf(),
    decreases *expr,
{
    let number = eval_expr(&expr.right);
    match expr.op {
        UnOp::Plus => number,
        UnOp::Minus => number.neg(),
    }
}



/// Trees built only from integer literals with no division in them.
pub open spec fn int_only(e: Expr) -> bool
    decreases e,
{
    match e {
        Expr::Integer(_) => true,
        Expr::Float(_) => false,
        Expr::BinExpr(b) => b.op != BinOp::Over && int_only(b.left) && int_only(b.right),
        Expr::UnExpr(u) => int_only(u.right),
    }
}

/// The unbounded mathematical value of an integer-only tree, under
/// standard arithmetic.
pub open spec fn exact_int_eval(e: Expr) -> int
    decreases e,
{
    match e {
        Expr::Integer(i) => i as int,
        Expr::Float(_) => 0,
        Expr::BinExpr(b) => {
            let l = exact_int_eval(b.left);
            let r = exact_int_eval(b.right);
            match b.op {
                BinOp::Plus => l + r,
                BinOp::Minus => l - r,
                BinOp::Times => l * r,
                BinOp::Over => 0,
            }
        },
        Expr::UnExpr(u) => match u.op {
            UnOp::Plus => exact_int_eval(u.right),
            UnOp::Minus => -exact_int_eval(u.right),
        },
    }
}

/// Every subtree's exact value stays within the machine integers.
pub open spec fn int_eval_in_range(e: Expr) -> bool
    decreases e,
{
    &&& i64::MIN <= exact_int_eval(e) <= i64::MAX
    &&& match e {
        Expr::BinExpr(b) => int_eval_in_range(b.left) && int_eval_in_range(b.right),
        Expr::UnExpr(u) => int_eval_in_range(u.right),
        _ => true,
    }
}

/// Wrapping arithmetic agrees with the exact value when it fits.
proof fn lemma_crop_identity(v: int)
    requires
        i64::MIN <= v <= i64::MAX,
    ensures
        vstd::wrapping::i64_specs::signed_crop(v) == v as i64,
{
    let range = 0x1_0000_0000_0000_0000int;
    if v >= 0 {
        vstd::arithmetic::div_mod::lemma_small_mod(v as nat, range as nat);
    } else {
        vstd::arithmetic::div_mod::lemma_mod_multiples_vanish(1, v, range);
        vstd::arithmetic::div_mod::lemma_small_mod((v + range) as nat, range as nat);
    }
}

/// An integer-only tree without division evaluates to the integer that
/// standard precedence-respecting arithmetic gives, whenever every
/// intermediate value fits the machine integers.
pub proof fn lemma_integer_arithmetic_exact(e: Expr)
    requires
        int_only(e),
        int_eval_in_range(e),
    ensures
        sp_eval(e) == Value::Integer(exact_int_eval(e) as i64),
    decreases e,
{
    match e {
        Expr::Integer(i) => {
            assert(exact_int_eval(e) == i as int);
            assert(sp_eval(e) == Value::Integer(i));
            assert((i as int) as i64 == i);
            assert(sp_eval(e) == Value::Integer(exact_int_eval(e) as i64));
        },
        Expr::Float(_) => {},
        Expr::BinExpr(b) => {
            lemma_integer_arithmetic_exact(b.left);
            lemma_integer_arithmetic_exact(b.right);
            let l = exact_int_eval(b.left);
            let r = exact_int_eval(b.right);
            assert(int_eval_in_range(b.left));
            assert(int_eval_in_range(b.right));
            assert(i64::MIN <= l <= i64::MAX);
            assert(i64::MIN <= r <= i64::MAX);
            if b.op == BinOp::Times {
                lemma_crop_identity(l * r);
                assert((l as i64) as int == l && (r as i64) as int == r);
                assert(l * r == (l as i64) as int * ((r as i64) as int));
            }
        },
        Expr::UnExpr(u) => {
            assert(int_eval_in_range(u.right));
            lemma_integer_arithmetic_exact(u.right);
            let v = exact_int_eval(u.right);
            assert((v as i64) as int == v);
        },
    }
}

/// Division always yields a rational value, whatever its operands.
pub proof fn lemma_division_yields_float(l: Value, r: Value)
    ensures
        sp_eval_bin(BinOp::Over, l, r) matches Value::Float(_),
{
}

/// Inputs whose numeric literals all denote representable values; the
/// one condition `eval` places on its input.
pub open spec fn source_fits(s: Seq<u8>) -> bool {
    all_literals_fit(spec_tokenize(s), s)
}


/// Decides `source_fits`: whether every numeric literal of the input
/// denotes a representable value. A caller that cannot know this of its
/// input tests it here before calling `eval`.
pub fn literals_fit(source: &[u8]) -> (r: bool)
    requires
        source@.len() < usize::MAX,
    ensures
        r == source_fits(source@),
{
    let ghost s = source@;
    let lx = Lexer::new(source);
    let tokens = lx.tokenize();
    let ghost toks = tokens@;
    let input = slice_to_vec(source);
    proof {
        lemma_tokenize_wf(s);
    }
    let n = tokens.len();
    let mut i: usize = 0;
    while i < n
        invariant
            s == source@,
            toks == tokens@,
            toks == spec_tokenize(s),
            input@ == s,
            wf_tokens(toks, s),
            n == toks.len(),
            0 <= i <= n,
            forall|k: int| 0 <= k < i ==> literal_fits(#[trigger] toks[k], s),
        decreases n - i,
    {
        let t = tokens[i];
        proof {
            assert(token_shape_ok(toks[i as int], s));
        }
        match t.kind {
            TokenKind::Integer => {
                proof {
                    assert forall|k: int| t.start <= k < t.start + t.len implies is_digit(
                        #[trigger] input@[k],
                    ) by {
                        assert(input@[k] == t.text(s)[k - t.start]);
                    }
                }
                match try_parse_digits(&input, t.start, t.start + t.len) {
                    Some(_) => {
                        proof {
                            assert(input@.subrange(t.start as int, t.start + t.len) == t.text(s));
                        }
                    },
                    None => {
                        proof {
                            assert(input@.subrange(t.start as int, t.start + t.len) == t.text(s));
                            assert(!literal_fits(toks[i as int], s));
                            assert(!all_literals_fit(toks, s)) by {
                                if all_literals_fit(toks, s) {
                                    assert(literal_fits(toks[i as int], s));
                                }
                            }
                        }
                        return false;
                    },
                }
            },
            TokenKind::Float => {
                proof {
                    assert(input@.subrange(t.start as int, t.start + t.len) == t.text(s));
                }
                if !float_fits(&input, t.start, t.start + t.len) {
                    proof {
                        assert(!literal_fits(toks[i as int], s));
                        assert(!all_literals_fit(toks, s)) by {
                            if all_literals_fit(toks, s) {
                                assert(literal_fits(toks[i as int], s));
                            }
                        }
                    }
                    return false;
                }
            },
            _ => {},
        }
        i = i + 1;
    }
    true
}

/// What `eval` returns: the value of the parsed expression, or the
/// parse error, for every input.
pub open spec fn spec_eval_source(s: Seq<u8>) -> Result<Value, ErrorKind> {
    match spec_parse(s) {
        Ok(e) => Ok(sp_eval(e)),
        Err(k) => Err(k),
    }
}


/// Spelling an operator as a word or a symbol cannot change a result:
/// two inputs whose token lists agree kind for kind and literal for
/// literal evaluate to the same value, or fail on both (only the
/// failure's offset can differ). In particular `2 plus 2` and `2 + 2`
/// evaluate alike.
pub proof fn lemma_same_shape_same_value(s1: Seq<u8>, s2: Seq<u8>)
    requires
        same_shape(spec_tokenize(s1), s1, spec_tokenize(s2), s2),
    ensures
        match (spec_eval_source(s1), spec_eval_source(s2)) {
            (Ok(v1), Ok(v2)) => v1 == v2,
            (Err(_), Err(_)) => true,
            _ => false,
        },
{
    lemma_parse_same_shape(spec_tokenize(s1), s1, spec_tokenize(s2), s2, 0, Precedence::Lowest);
}

/// The composed entry point: tokenize, parse, evaluate.
pub fn eval(source: &[u8]) -> (r: Result<Value, ErrorKind>)
    requires
        source@.len() < usize::MAX,
        source_fits(source@),
    ensures
        r == spec_eval_source(source@),
        r matches Ok(v) ==> v.wf(),
{
    let mut parser = Parser::new(source);
    match parser.parse() {
        Ok(e) => Ok(eval_expr(&e)),
        Err(k) => Err(k),
    }
}

} // verus!
