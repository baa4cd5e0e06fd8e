use vstd::prelude::*;

use vstd::math::abs;

use crate::ast::Expr;

verus! {

/// The evaluator of expression trees.
pub struct Eval {}

/// Why evaluation failed. Evaluation has no failure of its own: the one
/// variant holds an `Infallible`, so no value of this type exists.
#[derive(Debug)]
pub enum Error {
    Never(core::convert::Infallible),
}

/// Integer division that rounds toward zero, as Rust's `/` does.
pub open spec fn trunc_div(a: int, b: int) -> int {
    let q = (abs(a) / abs(b)) as int;
    if (a < 0) == (b < 0) {
        q
    } else {
        -q
    }
}

/// The mathematical value of an expression tree.
pub open spec fn value(e: Expr) -> int
    decreases e,
{
    match e {
        Expr::Number(n) => n as int,
        Expr::Add(l, r) => value(*l) + value(*r),
        Expr::Sub(l, r) => value(*l) - value(*r),
        Expr::Mul(l, r) => value(*l) * value(*r),
        Expr::Div(l, r) => trunc_div(value(*l), value(*r)),
    }
}

/// `v` is a value of `i32`.
pub open spec fn in_i32(v: int) -> bool {
    i32::MIN <= v <= i32::MAX
}

/// Every node of `e` has a value that fits in an `i32`, and no division in
/// it has a divisor whose value is zero.
pub open spec fn evaluable(e: Expr) -> bool
    decreases e,
{
    match e {
        Expr::Number(_) => true,
        Expr::Add(l, r) => evaluable(*l) && evaluable(*r) && in_i32(value(e)),
        Expr::Sub(l, r) => evaluable(*l) && evaluable(*r) && in_i32(value(e)),
        Expr::Mul(l, r) => evaluable(*l) && evaluable(*r) && in_i32(value(e)),
        Expr::Div(l, r) => evaluable(*l) && evaluable(*r) && value(*r) != 0 && in_i32(value(e)),
    }
}

/// Euclidean division of a non-negative number by a negative one rounds toward zero.
proof fn lemma_div_by_negative(a: int, b: int)
    requires
        a >= 0,
        b < 0,
    ensures
        a / b == -(a / (-b)),
{
    let q = a / (-b);
    let r = a % (-b);
    vstd::arithmetic::div_mod::lemma_fundamental_div_mod(a, -b);
    assert(a == (-q) * b + r) by (nonlinear_arith)
        requires
            a == (-b) * q + r,
    ;
    assert(a / b == -q) by (nonlinear_arith)
        requires
            a == (-q) * b + r,
            0 <= r < -b,
            b < 0,
    ;
}

/// Rust's `/` on `i32`, as vstd specifies it, is `trunc_div`.
proof fn lemma_trunc_div(a: i32, b: i32)
    requires
        b != 0,
    ensures
        trunc_div(a as int, b as int) == (if a >= 0 {
            a as int / b as int
        } else {
            -((-a as int) / (b as int))
        }),
        a == i32::MIN && b == -1 ==> trunc_div(a as int, b as int) == 0x8000_0000,
        !(a == i32::MIN && b == -1) ==> in_i32(trunc_div(a as int, b as int)),
{
    let x = abs(a as int) as int;
    let y = abs(b as int) as int;
    if y == 1 {
        assert(x / y == x);
    } else {
        assert(x / y <= x / 2) by {
            vstd::arithmetic::div_mod::lemma_div_is_ordered_by_denominator(x, 2, y);
        }
    }
    if a >= 0 && b < 0 {
        lemma_div_by_negative(a as int, b as int);
    } else if a < 0 && b < 0 {
        lemma_div_by_negative(-a as int, b as int);
    }
    if a == i32::MIN && b == -1 {
        assert(abs(a as int) == 0x8000_0000);
        assert(abs(b as int) == 1);
        assert(0x8000_0000nat / 1nat == 0x8000_0000);
    }
}

impl Eval {
    /// An evaluator; it holds no state.
    pub fn new() -> (r: Eval) {
        Eval {}
    }

    /// The value of `ast` when `ast` can be evaluated in `i32` arithmetic,
    /// `None` when some node overflows or divides by zero.
    pub fn try_exec(&self, ast: &Expr) -> (r: Option<i32>)
        ensures
            r is Some <==> evaluable(*ast),
            r matches Some(v) ==> v == value(*ast),
        decreases ast,
    {
        match ast {
            Expr::Number(n) => Some(*n),
            Expr::Mul(lhs, rhs) => {
                let a = match self.try_exec(lhs) { Some(v) => v as i64, None => return None };
                let b = match self.try_exec(rhs) { Some(v) => v as i64, None => return None };
                assert(i64::MIN <= a * b <= i64::MAX) by (nonlinear_arith)
                    requires
                        i32::MIN <= a <= i32::MAX,
                        i32::MIN <= b <= i32::MAX,
                ;
                let v = a * b;
                let res = if -0x8000_0000i64 <= v && v <= 0x7fff_ffffi64 {
                    Some(v as i32)
                } else {
                    None
                };
                res
            },
            Expr::Add(lhs, rhs) => {
                let a = match self.try_exec(lhs) { Some(v) => v as i64, None => return None };
                let b = match self.try_exec(rhs) { Some(v) => v as i64, None => return None };
                let v = a + b;
                let res = if -0x8000_0000i64 <= v && v <= 0x7fff_ffffi64 {
                    Some(v as i32)
                } else {
                    None
                };
                res
            },
            Expr::Sub(lhs, rhs) => {
                let a = match self.try_exec(lhs) { Some(v) => v as i64, None => return None };
                let b = match self.try_exec(rhs) { Some(v) => v as i64, None => return None };
                let v = a - b;
                let res = if -0x8000_0000i64 <= v && v <= 0x7fff_ffffi64 {
                    Some(v as i32)
                } else {
                    None
                };
                res
            },
            Expr::Div(lhs, rhs) => {
                let a = match self.try_exec(lhs) { Some(v) => v, None => return None };
                let b = match self.try_exec(rhs) { Some(v) => v, None => return None };
                if b == 0 {
                    return None;
                }
                proof {
                    lemma_trunc_div(a, b);
                }
                if a == i32::MIN && b == -1 {
                    None
                } else {
                    Some(a / b)
                }
            },
        }
    }

    /// The value of `ast`, computed with `i32` arithmetic. Evaluation has no
    /// failure of its own, so the result is always `Ok`; a tree with a zero
    /// divisor or an overflowing node is not admitted (see `try_exec`).
    pub fn exec(&self, ast: &Expr) -> (r: Result<i32, Error>)
        requires
            evaluable(*ast),
        ensures
            r matches Ok(v) && v == value(*ast),
        decreases ast,
    {
        match ast {
            Expr::Number(n) => Ok(*n),
            Expr::Mul(lhs, rhs) => {
                let a = match self.exec(lhs) { Ok(v) => v, Err(e) => return Err(e) };
                let b = match self.exec(rhs) { Ok(v) => v, Err(e) => return Err(e) };
                Ok(a * b)
            },
            Expr::Add(lhs, rhs) => {
                let a = match self.exec(lhs) { Ok(v) => v, Err(e) => return Err(e) };
                let b = match self.exec(rhs) { Ok(v) => v, Err(e) => return Err(e) };
                Ok(a + b)
            },
            Expr::Sub(lhs, rhs) => {
                let a = match self.exec(lhs) { Ok(v) => v, Err(e) => return Err(e) };
                let b = match self.exec(rhs) { Ok(v) => v, Err(e) => return Err(e) };
                Ok(a - b)
            },
            Expr::Div(lhs, rhs) => {
                let a = match self.exec(lhs) { Ok(v) => v, Err(e) => return Err(e) };
                let b = match self.exec(rhs) { Ok(v) => v, Err(e) => return Err(e) };
                proof {
                    lemma_trunc_div(a, b);
                }
                Ok(a / b)
            },
        }
    }
}

} // verus!
