use vstd::prelude::*;

verus! {

/// One lexical unit of the calculator's input.
#[derive(PartialEq, Eq, Structural, Debug, Clone, Copy)]
pub enum Token {
    Number(i32),
    Plus,
    Minus,
    Asterisk,
    Slash,
}

/// Why tokenizing failed.
#[derive(PartialEq, Eq, Structural, Debug, Clone, Copy)]
pub enum Error {
    /// A run of digits whose value does not fit in an `i32`: the position
    /// counter after the run, and the run's first digit.
    UnexpectedChar(usize, char),
}

/// The characters that have Unicode's `White_Space` property, as listed in
/// the Unicode Character Database's `PropList.txt`.
pub open spec fn is_white_space(c: char) -> bool {
    let u = c as u32;
    ||| 0x09 <= u <= 0x0D
    ||| u == 0x20
    ||| u == 0x85
    ||| u == 0xA0
    ||| u == 0x1680
    ||| 0x2000 <= u <= 0x200A
    ||| u == 0x2028
    ||| u == 0x2029
    ||| u == 0x202F
    ||| u == 0x205F
    ||| u == 0x3000
}

/// Relies on `char::is_whitespace`, which reports the `White_Space` property.
#[verifier::external_body]
fn white_space(c: char) -> (r: bool)
    ensures
        r == is_white_space(c),
{
    c.is_whitespace()
}

/// An ASCII decimal digit.
pub open spec fn is_digit(c: char) -> bool {
    '0' <= c <= '9'
}

/// The value of the digit `c`.
pub open spec fn digit_value(c: char) -> int {
    c as int - '0' as int
}

/// The single-character operator token for `c`, if `c` is one.
pub open spec fn operator(c: char) -> Option<Token> {
    if c == '+' {
        Some(Token::Plus)
    } else if c == '-' {
        Some(Token::Minus)
    } else if c == '*' {
        Some(Token::Asterisk)
    } else if c == '/' {
        Some(Token::Slash)
    } else {
        None
    }
}

/// The length of the run of digits that `s` starts with.
pub open spec fn digit_run(s: Seq<char>) -> nat
    decreases s.len(),
{
    if s.len() > 0 && is_digit(s[0]) {
        1 + digit_run(s.drop_first())
    } else {
        0
    }
}

/// The value of a sequence of decimal digits, most significant first.
pub open spec fn digits_value(ds: Seq<char>) -> int
    decreases ds.len(),
{
    if ds.len() == 0 {
        0
    } else {
        digits_value(ds.drop_last()) * 10 + digit_value(ds.last())
    }
}

/// `t` put in front of the tokens of `r`, or the error of `r`.
pub open spec fn prepend(t: Seq<Token>, r: Result<Seq<Token>, Error>) -> Result<Seq<Token>, Error> {
    match r {
        Ok(ts) => Ok(t + ts),
        Err(e) => Err(e),
    }
}

/// The tokens of `s`, scanned from the left with the position counter at `pos`.
///
/// Operators become their tokens; a run of digits becomes one number token, or
/// an error when its value exceeds `i32::MAX`; whitespace advances the counter;
/// any other character is skipped without advancing it.
pub open spec fn lex(s: Seq<char>, pos: nat) -> Result<Seq<Token>, Error>
    decreases s.len() via lex_decreases
{
    if s.len() == 0 {
        Ok(Seq::empty())
    } else {
        let c = s[0];
        if operator(c) is Some {
            prepend(seq![operator(c)->0], lex(s.drop_first(), pos + 1))
        } else if is_digit(c) {
            let n = digit_run(s);
            let v = digits_value(s.take(n as int));
            if v > i32::MAX {
                Err(Error::UnexpectedChar((pos + n) as usize, c))
            } else {
                prepend(seq![Token::Number(v as i32)], lex(s.skip(n as int), pos + n))
            }
        } else if is_white_space(c) {
            lex(s.drop_first(), pos + 1)
        } else {
            lex(s.drop_first(), pos)
        }
    }
}

#[via_fn]
proof fn lex_decreases(s: Seq<char>, pos: nat) {
    if s.len() > 0 {
        lemma_digit_run_bound(s);
        if operator(s[0]) is None && is_digit(s[0]) {
            assert(s.skip(digit_run(s) as int).len() < s.len());
        }
    }
}

proof fn lemma_digit_run_bound(s: Seq<char>)
    ensures
        digit_run(s) <= s.len(),
        s.len() > 0 && is_digit(s[0]) ==> digit_run(s) >= 1,
        forall|k: int| 0 <= k < digit_run(s) ==> is_digit(#[trigger] s[k]),
        digit_run(s) < s.len() ==> !is_digit(s[digit_run(s) as int]),
    decreases s.len(),
{
    if s.len() > 0 && is_digit(s[0]) {
        lemma_digit_run_bound(s.drop_first());
        assert forall|k: int| 0 <= k < digit_run(s) implies is_digit(#[trigger] s[k]) by {
            if k > 0 {
                assert(s[k] == s.drop_first()[k - 1]);
            }
        }
    }
}

/// The decimal digit character for `d < 10`.
pub open spec fn digit_char(d: nat) -> char {
    ((48 + d) as u8) as char
}

/// The decimal text of `n`, without leading zeros.
pub open spec fn decimal(n: nat) -> Seq<char>
    decreases n,
{
    if n < 10 {
        seq![digit_char(n)]
    } else {
        decimal(n / 10).push(digit_char(n % 10))
    }
}

proof fn lemma_decimal(n: nat)
    ensures
        decimal(n).len() >= 1,
        forall|k: int| 0 <= k < decimal(n).len() ==> is_digit(#[trigger] decimal(n)[k]),
        digits_value(decimal(n)) == n,
    decreases n,
{
    let s = decimal(n);
    if n < 10 {
        assert(s.drop_last() =~= Seq::<char>::empty());
        assert(digits_value(Seq::<char>::empty()) == 0);
    } else {
        lemma_decimal(n / 10);
        assert(s.drop_last() =~= decimal(n / 10));
        assert forall|k: int| 0 <= k < s.len() implies is_digit(#[trigger] s[k]) by {
            if k < s.len() - 1 {
                assert(s[k] == decimal(n / 10)[k]);
            }
        }
    }
}

/// Tokenizing the decimal text of a non-negative `i32` gives exactly one
/// number token holding that value.
pub proof fn lemma_tokenize_decimal(n: i32)
    requires
        n >= 0,
    ensures
        lex(decimal(n as nat), 0) == Ok::<Seq<Token>, Error>(seq![Token::Number(n)]),
{
    let s = decimal(n as nat);
    lemma_decimal(n as nat);
    lemma_digit_run_bound(s);
    let r = digit_run(s);
    if r < s.len() {
        assert(is_digit(s[r as int]));
    }
    assert(s.take(r as int) =~= s);
    assert(s.skip(r as int) =~= Seq::<char>::empty());
    assert(lex(s.skip(r as int), r) == Ok::<Seq<Token>, Error>(Seq::empty()));
    assert(is_digit(s[0]));
    assert(operator(s[0]) is None);
    assert(digits_value(s.take(r as int)) == n);
    assert(seq![Token::Number(n)] + Seq::<Token>::empty() =~= seq![Token::Number(n)]);
}

proof fn lemma_lex_blank(s: Seq<char>, pos: nat)
    requires
        forall|k: int| 0 <= k < s.len() ==> is_white_space(#[trigger] s[k]),
    ensures
        lex(s, pos) == Ok::<Seq<Token>, Error>(Seq::empty()),
    decreases s.len(),
{
    if s.len() > 0 {
        assert(is_white_space(s[0]));
        let rest = s.drop_first();
        assert forall|k: int| 0 <= k < rest.len() implies is_white_space(#[trigger] rest[k]) by {
            assert(rest[k] == s[k + 1]);
        }
        lemma_lex_blank(rest, pos + 1);
    }
}

/// Tokenizing text made of whitespace alone, or empty text, gives no tokens
/// and no error.
pub proof fn lemma_tokenize_blank(s: Seq<char>)
    requires
        forall|k: int| 0 <= k < s.len() ==> is_white_space(#[trigger] s[k]),
    ensures
        lex(s, 0) == Ok::<Seq<Token>, Error>(Seq::empty()),
{
    lemma_lex_blank(s, 0);
}

/// The tokens of an executable result, as a sequence.
pub open spec fn lex_view(r: Result<Vec<Token>, Error>) -> Result<Seq<Token>, Error> {
    match r {
        Ok(v) => Ok(v@),
        Err(e) => Err(e),
    }
}

proof fn lemma_prepend_concat(a: Seq<Token>, b: Seq<Token>, r: Result<Seq<Token>, Error>)
    ensures
        prepend(a, prepend(b, r)) == prepend(a + b, r),
{
    if let Ok(ts) = r {
        assert(a + (b + ts) =~= (a + b) + ts);
    }
}

fn is_digit_char(c: char) -> (r: bool)
    ensures
        r == is_digit(c),
{
    '0' <= c && c <= '9'
}

fn operator_token(c: char) -> (r: Option<Token>)
    ensures
        r == operator(c),
{
    if c == '+' {
        Some(Token::Plus)
    } else if c == '-' {
        Some(Token::Minus)
    } else if c == '*' {
        Some(Token::Asterisk)
    } else if c == '/' {
        Some(Token::Slash)
    } else {
        None
    }
}

impl Token {
    /// The value of a number token; `None` for an operator.
    pub fn number(&self) -> (r: Option<i32>)
        ensures
            r == (match *self {
                Token::Number(n) => Some(n),
                _ => None,
            }),
    {
        if let Token::Number(n) = self {
            Some(*n)
        } else {
            None
        }
    }

    /// Splits `input` into tokens, scanning it once from the left.
    pub fn tokenize(input: &str) -> (r: Result<Vec<Token>, Error>)
        ensures
            lex_view(r) == lex(input@, 0),
    {
        let ghost s = input@;
        let len = input.unicode_len();
        let mut tokens: Vec<Token> = Vec::new();
        let mut pos: usize = 0;
        let mut i: usize = 0;
        proof {
            assert(s.skip(0) =~= s);
            assert(tokens@ + seq![] =~= tokens@);
            assert(Seq::<Token>::empty() + seq![] =~= Seq::<Token>::empty());
        }
        while i < len
            invariant
                len == s.len(),
                s == input@,
                i <= len,
                pos <= i,
                lex(s, 0) == prepend(tokens@, lex(s.skip(i as int), pos as nat)),
            decreases len - i,
        {
            let c = input.get_char(i);
            let ghost rest = s.skip(i as int);
            proof {
                assert(rest[0] == c);
                assert(rest.drop_first() =~= s.skip(i + 1));
            }
            if let Some(t) = operator_token(c) {
                proof {
                    lemma_prepend_concat(tokens@, seq![t], lex(s.skip(i + 1), pos as nat + 1));
                }
                let ghost before = tokens@;
                tokens.push(t);
                proof {
                    assert(tokens@ =~= before + seq![t]);
                }
                pos = pos + 1;
                i = i + 1;
            } else if is_digit_char(c) {
                let mut j: usize = i + 1;
                let mut value: i64 = (c as u32 - '0' as u32) as i64;
                let mut overflow: bool = false;
                proof {
                    assert(s.subrange(i as int, j as int).drop_last() =~= Seq::<char>::empty());
                    assert(s.subrange(i as int, j as int).last() == c);
                    assert(digits_value(Seq::<char>::empty()) == 0);
                }
                while j < len && is_digit_char(input.get_char(j))
                    invariant
                        len == s.len(),
                        s == input@,
                        i < j <= len,
                        forall|k: int| i <= k < j ==> is_digit(#[trigger] s[k]),
                        overflow ==> digits_value(s.subrange(i as int, j as int)) > i32::MAX,
                        !overflow ==> value == digits_value(s.subrange(i as int, j as int)),
                        !overflow ==> 0 <= value <= i32::MAX,
                    decreases len - j,
                {
                    let d = input.get_char(j);
                    proof {
                        assert(s.subrange(i as int, j + 1).drop_last() =~= s.subrange(i as int, j as int));
                    }
                    if !overflow {
                        value = value * 10 + (d as u32 - '0' as u32) as i64;
                        if value > i32::MAX as i64 {
                            overflow = true;
                        }
                    }
                    j = j + 1;
                }
                let n: usize = j - i;
                proof {
                    lemma_digit_run_bound(rest);
                    let r = digit_run(rest);
                    if r < n {
                        assert(rest[r as int] == s[i + r]);
                        assert(is_digit(s[i + r]));
                    }
                    if r > n {
                        assert(rest[n as int] == s[j as int]);
                        assert(is_digit(rest[n as int]));
                    }
                    assert(rest.take(n as int) =~= s.subrange(i as int, j as int));
                    assert(rest.skip(n as int) =~= s.skip(j as int));
                }
                if overflow {
                    return Err(Error::UnexpectedChar(pos + n, c));
                }
                proof {
                    lemma_prepend_concat(tokens@, seq![Token::Number(value as i32)], lex(s.skip(j as int), (pos + n) as nat));
                }
                let ghost before = tokens@;
                tokens.push(Token::Number(value as i32));
                proof {
                    assert(tokens@ =~= before + seq![Token::Number(value as i32)]);
                }
                pos = pos + n;
                i = j;
            } else if white_space(c) {
                pos = pos + 1;
                i = i + 1;
            } else {
                i = i + 1;
            }
        }
        proof {
            assert(s.skip(i as int) =~= Seq::<char>::empty());
            assert(tokens@ + Seq::<Token>::empty() =~= tokens@);
        }
        Ok(tokens)
    }
}

} // verus!
