use vstd::prelude::*;

use crate::token::Token;

verus! {

/// An arithmetic expression tree.
#[derive(Debug, PartialEq)]
pub enum Expr {
    Number(i32),
    Mul(Box<Expr>, Box<Expr>),
    Add(Box<Expr>, Box<Expr>),
    Sub(Box<Expr>, Box<Expr>),
    Div(Box<Expr>, Box<Expr>),
}

/// Why parsing failed.
#[derive(Debug, PartialEq, Eq, Structural, Clone, Copy)]
pub enum Error {
    InsufficientInput,
    UnexpectedToken(Token),
}

/// `f` applied to the tree of `r`, or the error of `r`.
pub open spec fn map_ok(r: Result<Expr, Error>, f: spec_fn(Expr) -> Expr) -> Result<Expr, Error> {
    match r {
        Ok(e) => Ok(f(e)),
        Err(e) => Err(e),
    }
}

/// The tree that the token sequence `t` parses to.
///
/// A sequence of one number is a leaf. Otherwise it starts with a number, an
/// operator and a number; `+` and `-` take the parse of everything after the
/// operator as their right operand, `*` and `/` bind the two numbers at once
/// and continue with `extend`.
pub open spec fn parse_tokens(t: Seq<Token>) -> Result<Expr, Error>
    decreases t.len(),
{
    if t.len() == 0 {
        Err(Error::InsufficientInput)
    } else if t.len() == 1 && t[0] is Number {
        Ok(Expr::Number(t[0]->Number_0))
    } else if t.len() == 2 {
        Err(Error::InsufficientInput)
    } else if !(t[0] is Number) {
        Err(Error::UnexpectedToken(t[0]))
    } else if !(t[2] is Number) {
        Err(Error::UnexpectedToken(t[2]))
    } else {
        let left = Expr::Number(t[0]->Number_0);
        let right = Expr::Number(t[2]->Number_0);
        match t[1] {
            Token::Number(_) => Err(Error::UnexpectedToken(t[1])),
            Token::Plus => map_ok(
                parse_tokens(t.skip(2)),
                |e: Expr| Expr::Add(Box::new(left), Box::new(e)),
            ),
            Token::Minus => map_ok(
                parse_tokens(t.skip(2)),
                |e: Expr| Expr::Sub(Box::new(left), Box::new(e)),
            ),
            Token::Asterisk => extend(Expr::Mul(Box::new(left), Box::new(right)), t.skip(3)),
            Token::Slash => extend(Expr::Div(Box::new(left), Box::new(right)), t.skip(3)),
        }
    }
}

/// The tree built from `left` and the tokens `t` that follow it.
///
/// With no tokens, `left` itself. `+` and `-` take `left` and the parse of the
/// rest; `*` and `/` take `left` and the number right after the operator, and
/// continue from there. A trailing `*` or `/` lacks its operand.
pub open spec fn extend(left: Expr, t: Seq<Token>) -> Result<Expr, Error>
    decreases t.len(),
{
    if t.len() == 0 {
        Ok(left)
    } else {
        match t[0] {
            Token::Number(_) => Err(Error::UnexpectedToken(t[0])),
            Token::Plus => map_ok(
                parse_tokens(t.skip(1)),
                |e: Expr| Expr::Add(Box::new(left), Box::new(e)),
            ),
            Token::Minus => map_ok(
                parse_tokens(t.skip(1)),
                |e: Expr| Expr::Sub(Box::new(left), Box::new(e)),
            ),
            Token::Asterisk => if t.len() < 2 {
                Err(Error::InsufficientInput)
            } else if !(t[1] is Number) {
                Err(Error::UnexpectedToken(t[1]))
            } else {
                extend(Expr::Mul(Box::new(left), Box::new(Expr::Number(t[1]->Number_0))), t.skip(2))
            },
            Token::Slash => if t.len() < 2 {
                Err(Error::InsufficientInput)
            } else if !(t[1] is Number) {
                Err(Error::UnexpectedToken(t[1]))
            } else {
                extend(Expr::Div(Box::new(left), Box::new(Expr::Number(t[1]->Number_0))), t.skip(2))
            },
        }
    }
}

impl Expr {
    /// Continues the tree `left` with the tokens of `tok` from index `start` on.
    fn from_expr_and_tok(left: Expr, tok: &[Token], start: usize) -> (r: Result<Expr, Error>)
        requires
            start <= tok@.len(),
        ensures
            r == extend(left, tok@.skip(start as int)),
        decreases tok@.len() - start,
    {
        let ghost t = tok@.skip(start as int);
        if start == tok.len() {
            return Ok(left);
        }
        proof {
            assert(t[0] == tok@[start as int]);
            assert(t.skip(1) =~= tok@.skip(start + 1));
        }
        match tok[start] {
            Token::Number(_) => Err(Error::UnexpectedToken(tok[start])),
            Token::Plus => match Self::from_at(tok, start + 1) {
                Ok(right) => Ok(Expr::Add(Box::new(left), Box::new(right))),
                Err(e) => Err(e),
            },
            Token::Minus => match Self::from_at(tok, start + 1) {
                Ok(right) => Ok(Expr::Sub(Box::new(left), Box::new(right))),
                Err(e) => Err(e),
            },
            Token::Asterisk => {
                if start + 1 == tok.len() {
                    return Err(Error::InsufficientInput);
                }
                proof {
                    assert(t[1] == tok@[start + 1]);
                    assert(t.skip(2) =~= tok@.skip(start + 2));
                }
                match tok[start + 1].number() {
                    Some(n) => {
                        let expr = Expr::Mul(Box::new(left), Box::new(Expr::Number(n)));
                        Self::from_expr_and_tok(expr, tok, start + 2)
                    },
                    None => Err(Error::UnexpectedToken(tok[start + 1])),
                }
            },
            Token::Slash => {
                if start + 1 == tok.len() {
                    return Err(Error::InsufficientInput);
                }
                proof {
                    assert(t[1] == tok@[start + 1]);
                    assert(t.skip(2) =~= tok@.skip(start + 2));
                }
                match tok[start + 1].number() {
                    Some(n) => {
                        let expr = Expr::Div(Box::new(left), Box::new(Expr::Number(n)));
                        Self::from_expr_and_tok(expr, tok, start + 2)
                    },
                    None => Err(Error::UnexpectedToken(tok[start + 1])),
                }
            },
        }
    }

    /// Parses the tokens of `tok` from index `start` on.
    fn from_at(tok: &[Token], start: usize) -> (r: Result<Expr, Error>)
        requires
            start <= tok@.len(),
        ensures
            r == parse_tokens(tok@.skip(start as int)),
        decreases tok@.len() - start,
    {
        let ghost t = tok@.skip(start as int);
        let len = tok.len() - start;
        if len == 0 {
            return Err(Error::InsufficientInput);
        }
        proof {
            assert(t[0] == tok@[start as int]);
        }
        if len == 1 {
            if let Some(n) = tok[start].number() {
                return Ok(Expr::Number(n));
            }
        }
        if len == 2 {
            return Err(Error::InsufficientInput);
        }
        let left = match tok[start].number() {
            Some(n) => n,
            None => return Err(Error::UnexpectedToken(tok[start])),
        };
        proof {
            assert(t[1] == tok@[start + 1]);
            assert(t[2] == tok@[start + 2]);
            assert(t.skip(2) =~= tok@.skip(start + 2));
            assert(t.skip(3) =~= tok@.skip(start + 3));
        }
        let right = match tok[start + 2].number() {
            Some(n) => n,
            None => return Err(Error::UnexpectedToken(tok[start + 2])),
        };
        match tok[start + 1] {
            Token::Number(_) => Err(Error::UnexpectedToken(tok[start + 1])),
            Token::Plus => match Self::from_at(tok, start + 2) {
                Ok(rest) => Ok(Expr::Add(Box::new(Expr::Number(left)), Box::new(rest))),
                Err(e) => Err(e),
            },
            Token::Minus => match Self::from_at(tok, start + 2) {
                Ok(rest) => Ok(Expr::Sub(Box::new(Expr::Number(left)), Box::new(rest))),
                Err(e) => Err(e),
            },
            Token::Asterisk => {
                let expr = Expr::Mul(Box::new(Expr::Number(left)), Box::new(Expr::Number(right)));
                Self::from_expr_and_tok(expr, tok, start + 3)
            },
            Token::Slash => {
                let expr = Expr::Div(Box::new(Expr::Number(left)), Box::new(Expr::Number(right)));
                Self::from_expr_and_tok(expr, tok, start + 3)
            },
        }
    }

    /// Parses a whole token sequence into an expression tree.
    pub fn from(tok: &[Token]) -> (r: Result<Expr, Error>)
        ensures
            r == parse_tokens(tok@),
    {
        proof {
            assert(tok@.skip(0) =~= tok@);
        }
        Self::from_at(tok, 0)
    }
}

} // verus!
