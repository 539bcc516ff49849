//! Lexical analysis: from the raw expression text to a token sequence.
//!
//! [`spec_tokenize`] is the mathematical description of the scan; the
//! executable [`tokenize`] is proved to return exactly its value.  The scan
//! walks the text left to right, skips whitespace, reads numeric literals
//! with at most one decimal point, maps the four operators and the two
//! parentheses to their tokens, appends the `End` sentinel, and rejects
//! anything else with `UnexpectedCharacter` at its 0-based offset.

use vstd::prelude::*;
use vstd::string::StrSliceExecFns;

use crate::error::EvalError;
use crate::rational::{spec_reduced, reduced, Rational};

verus! {

/// The tag and payload of one lexical unit.
#[derive(Clone, Copy, Debug, PartialEq, Eq, Structural)]
pub enum TokenKind {
    /// A numeric literal such as `123` or `3.14`, held in lowest terms.
    Number(Rational),
    /// `+`
    Plus,
    /// `-`
    Minus,
    /// `*`
    Star,
    /// `/`
    Slash,
    /// `(`
    LParen,
    /// `)`
    RParen,
    /// The sentinel after the last real token, so the parser always has a
    /// well-defined lookahead.
    End,
}

/// One token together with the 0-based character offset where it starts;
/// the `End` sentinel carries the input length.
#[derive(Clone, Copy, Debug, PartialEq, Eq, Structural)]
pub struct Token {
    /// Tag and payload.
    pub kind: TokenKind,
    /// Offset of the token's first character in the input.
    pub pos: usize,
}

impl Token {
    /// Validity: a numeric payload is in lowest-terms form.
    pub open spec fn wf(self) -> bool {
        match self.kind {
            TokenKind::Number(q) => q.wf(),
            _ => true,
        }
    }
}

/// Every token of the sequence is well formed.
pub open spec fn tokens_wf(ts: Seq<Token>) -> bool {
    forall|i: int| 0 <= i < ts.len() ==> (#[trigger] ts[i]).wf()
}

/// Whitespace accepted between tokens.
pub open spec fn is_space_char(c: char) -> bool {
    c == ' ' || c == '\t' || c == '\n' || c == '\r'
}

/// An ASCII decimal digit.
pub open spec fn is_digit_char(c: char) -> bool {
    48 <= c as u32 <= 57
}

/// The numeric value of an ASCII decimal digit.
pub open spec fn digit_val(c: char) -> nat
    recommends
        is_digit_char(c),
{
    (c as u32 - 48) as nat
}

/// The token a single operator or parenthesis character stands for.
pub open spec fn char_kind(c: char) -> Option<TokenKind> {
    if c == '+' {
        Some(TokenKind::Plus)
    } else if c == '-' {
        Some(TokenKind::Minus)
    } else if c == '*' {
        Some(TokenKind::Star)
    } else if c == '/' {
        Some(TokenKind::Slash)
    } else if c == '(' {
        Some(TokenKind::LParen)
    } else if c == ')' {
        Some(TokenKind::RParen)
    } else {
        None
    }
}

/// Reads a run of digits starting at `pos`, extending the value `acc` one
/// digit at a time; the first step past `u128::MAX` is `NumericOverflow`.
/// Returns the value and the position after the last digit.
pub open spec fn spec_scan_digits(s: Seq<char>, pos: int, acc: nat) -> Result<(nat, int), EvalError>
    decreases s.len() - pos,
{
    if 0 <= pos < s.len() && is_digit_char(s[pos]) {
        let v = acc * 10 + digit_val(s[pos]);
        if v > u128::MAX {
            Err(EvalError::NumericOverflow)
        } else {
            spec_scan_digits(s, pos + 1, v)
        }
    } else {
        Ok((acc, pos))
    }
}

/// Reads the digits of a fractional part starting at `pos`: each digit
/// extends the numerator `num` and multiplies the denominator `den` by ten,
/// with the first step past `u128::MAX` reported as `NumericOverflow`.
/// Returns numerator, denominator and the position after the last digit.
pub open spec fn spec_scan_frac(s: Seq<char>, pos: int, num: nat, den: nat) -> Result<
    (nat, nat, int),
    EvalError,
>
    decreases s.len() - pos,
{
    if 0 <= pos < s.len() && is_digit_char(s[pos]) {
        let n2 = num * 10 + digit_val(s[pos]);
        let d2 = den * 10;
        if n2 > u128::MAX {
            Err(EvalError::NumericOverflow)
        } else if d2 > u128::MAX {
            Err(EvalError::NumericOverflow)
        } else {
            spec_scan_frac(s, pos + 1, n2, d2)
        }
    } else {
        Ok((num, den, pos))
    }
}

/// The sentinel token for the end of the input.
pub open spec fn end_token(s: Seq<char>) -> Token {
    Token { kind: TokenKind::End, pos: s.len() as usize }
}

/// A numeric token starting at `pos` whose value is `n / d` in lowest terms.
pub open spec fn number_token(pos: int, n: nat, d: nat) -> Token {
    Token { kind: TokenKind::Number(spec_reduced(false, n, d)), pos: pos as usize }
}

/// The position scanning continues from after a token that started at `pos`
/// and ended at `p`: `p` itself on the expected path, clamped into
/// `pos < result <= len` so that the scan always moves forward.
pub open spec fn advance_to(pos: int, p: int, len: int) -> int {
    if p <= pos {
        pos + 1
    } else if p > len {
        len
    } else {
        p
    }
}

/// The token sequence of the text from position `pos` on, ending in the
/// `End` sentinel, or the first scanning error.
pub open spec fn spec_tokenize_from(s: Seq<char>, pos: int) -> Result<Seq<Token>, EvalError>
    decreases s.len() - pos,
{
    let len = s.len() as int;
    if pos < 0 || pos >= len {
        Ok(seq![end_token(s)])
    } else {
        let c = s[pos];
        if is_space_char(c) {
            spec_tokenize_from(s, pos + 1)
        } else if is_digit_char(c) {
            match spec_scan_digits(s, pos, 0) {
                Err(e) => Err(e),
                Ok(ip) => {
                    let p1 = ip.1;
                    if p1 < len && s[p1] == '.' {
                        if p1 + 1 < len && is_digit_char(s[p1 + 1]) {
                            match spec_scan_frac(s, p1 + 1, ip.0, 1) {
                                Err(e) => Err(e),
                                Ok(fp) => match spec_tokenize_from(
                                    s,
                                    advance_to(pos, fp.2, len),
                                ) {
                                    Err(e) => Err(e),
                                    Ok(rest) => Ok(seq![number_token(pos, fp.0, fp.1)] + rest),
                                },
                            }
                        } else {
                            Err(EvalError::UnexpectedCharacter(p1 as usize, '.'))
                        }
                    } else {
                        match spec_tokenize_from(s, advance_to(pos, p1, len)) {
                            Err(e) => Err(e),
                            Ok(rest) => Ok(seq![number_token(pos, ip.0, 1)] + rest),
                        }
                    }
                },
            }
        } else {
            match char_kind(c) {
                Some(k) => match spec_tokenize_from(s, pos + 1) {
                    Err(e) => Err(e),
                    Ok(rest) => Ok(seq![Token { kind: k, pos: pos as usize }] + rest),
                },
                None => Err(EvalError::UnexpectedCharacter(pos as usize, c)),
            }
        }
    }
}

/// The token sequence of the whole text, or the first scanning error.
pub open spec fn spec_tokenize(s: Seq<char>) -> Result<Seq<Token>, EvalError> {
    spec_tokenize_from(s, 0)
}

/// The tokens already produced, followed by the tokens still to come from
/// `pos`, make up exactly the tokens of the whole text — and a failure from
/// `pos` on is the failure of the whole text.
pub open spec fn prefix_ok(s: Seq<char>, done: Seq<Token>, pos: int) -> bool {
    if spec_tokenize_from(s, pos) is Ok {
        spec_tokenize_from(s, 0) == Ok::<Seq<Token>, EvalError>(
            done + spec_tokenize_from(s, pos)->Ok_0,
        )
    } else {
        spec_tokenize_from(s, 0) == spec_tokenize_from(s, pos)
    }
}

/// The characters of `input`, in order.
fn chars_of(input: &str) -> (r: Vec<char>)
    ensures
        r@ == input@,
{
    let n = input.unicode_len();
    let mut v: Vec<char> = Vec::new();
    let mut i: usize = 0;
    while i < n
        invariant
            n as nat == input@.len(),
            i <= n,
            v@ == input@.subrange(0, i as int),
        decreases n - i,
    {
        let c = input.get_char(i);
        v.push(c);
        i = i + 1;
        proof {
            assert(v@ =~= input@.subrange(0, i as int));
        }
    }
    proof {
        assert(input@.subrange(0, n as int) =~= input@);
    }
    v
}

/// The token of a single operator or parenthesis character, if it is one.
fn op_kind(c: char) -> (k: Option<TokenKind>)
    ensures
        k == char_kind(c),
{
    match c {
        '+' => Some(TokenKind::Plus),
        '-' => Some(TokenKind::Minus),
        '*' => Some(TokenKind::Star),
        '/' => Some(TokenKind::Slash),
        '(' => Some(TokenKind::LParen),
        ')' => Some(TokenKind::RParen),
        _ => None,
    }
}

/// Scans `input` into its token sequence, ending in the `End` sentinel, or
/// reports the first lexical fault; the result is exactly
/// [`spec_tokenize`]`(input@)`.
pub fn tokenize(input: &str) -> (r: Result<Vec<Token>, EvalError>)
    ensures
        (r matches Ok(toks) ==> spec_tokenize(input@) == Ok::<Seq<Token>, EvalError>(toks@)
            && tokens_wf(toks@)),
        (r matches Err(e) ==> spec_tokenize(input@) == Err::<Seq<Token>, EvalError>(e)),
{
    let chars = chars_of(input);
    let len = chars.len();
    let mut out: Vec<Token> = Vec::new();
    let mut i: usize = 0;
    proof {
        assert(Seq::<Token>::empty() + spec_tokenize_from(input@, 0)->Ok_0 =~= spec_tokenize_from(
            input@,
            0,
        )->Ok_0);
    }
    loop
        invariant
            chars@ == input@,
            len == chars@.len(),
            i <= len,
            tokens_wf(out@),
            prefix_ok(input@, out@, i as int),
        decreases len - i,
    {
        let ghost prev = out@;
        if i >= len {
            let t = Token { kind: TokenKind::End, pos: len };
            out.push(t);
            proof {
                assert(out@ =~= prev + spec_tokenize_from(input@, i as int)->Ok_0);
                assert(tokens_wf(out@)) by {
                    assert(forall|k: int|
                        0 <= k < prev.len() ==> (#[trigger] out@[k]) == prev[k]);
                }
            }
            return Ok(out);
        }
        let c = chars[i];
        if c == ' ' || c == '\t' || c == '\n' || c == '\r' {
            i = i + 1;
        } else {
            let u: u32 = c as u32;
            if 48 <= u && u <= 57 {
                // A numeric literal: integer digits, then an optional
                // fractional part after a single decimal point.
                let start = i;
                let mut acc: u128 = (u - 48) as u128;
                let mut j: usize = i + 1;
                proof {
                    assert(spec_scan_digits(input@, start as int, 0) == spec_scan_digits(
                        input@,
                        start as int + 1,
                        digit_val(c),
                    ));
                }
                loop
                    invariant
                        chars@ == input@,
                        len == chars@.len(),
                        start < j <= len,
                        start < len,
                        is_digit_char(input@[start as int]),
                        !is_space_char(input@[start as int]),
                        tokens_wf(out@),
                        prefix_ok(input@, out@, start as int),
                        spec_scan_digits(input@, start as int, 0) == spec_scan_digits(
                            input@,
                            j as int,
                            acc as nat,
                        ),
                    ensures
                        start < j <= len,
                        spec_scan_digits(input@, start as int, 0) == Ok::<(nat, int), EvalError>(
                            (acc as nat, j as int),
                        ),
                    decreases len - j,
                {
                    if j >= len {
                        break ;
                    }
                    let c2 = chars[j];
                    let u2: u32 = c2 as u32;
                    if !(48 <= u2 && u2 <= 57) {
                        break ;
                    }
                    let d: u128 = (u2 - 48) as u128;
                    match acc.checked_mul(10) {
                        None => {
                            return Err(EvalError::NumericOverflow);
                        },
                        Some(a10) => match a10.checked_add(d) {
                            None => {
                                return Err(EvalError::NumericOverflow);
                            },
                            Some(v) => {
                                acc = v;
                                j = j + 1;
                            },
                        },
                    }
                }
                let mut num: u128 = acc;
                let mut den: u128 = 1;
                let mut k: usize = j;
                if j < len && chars[j] == '.' {
                    let mut frac_ok = false;
                    if j + 1 < len {
                        let c3 = chars[j + 1];
                        let u3: u32 = c3 as u32;
                        if 48 <= u3 && u3 <= 57 {
                            frac_ok = true;
                        }
                    }
                    if !frac_ok {
                        return Err(EvalError::UnexpectedCharacter(j, '.'));
                    }
                    k = j + 1;
                    loop
                        invariant
                            chars@ == input@,
                            len == chars@.len(),
                            start < j < len,
                            j + 1 <= k <= len,
                            start < len,
                            is_digit_char(input@[start as int]),
                            !is_space_char(input@[start as int]),
                            input@[j as int] == '.',
                            j + 1 < len,
                            is_digit_char(input@[j as int + 1]),
                            tokens_wf(out@),
                            prefix_ok(input@, out@, start as int),
                            spec_scan_digits(input@, start as int, 0) == Ok::<
                                (nat, int),
                                EvalError,
                            >((acc as nat, j as int)),
                            spec_scan_frac(input@, j as int + 1, acc as nat, 1)
                                == spec_scan_frac(input@, k as int, num as nat, den as nat),
                            1 <= den,
                        ensures
                            j + 1 <= k <= len,
                            1 <= den,
                            spec_scan_frac(input@, j as int + 1, acc as nat, 1) == Ok::<
                                (nat, nat, int),
                                EvalError,
                            >((num as nat, den as nat, k as int)),
                        decreases len - k,
                    {
                        if k >= len {
                            break ;
                        }
                        let c4 = chars[k];
                        let u4: u32 = c4 as u32;
                        if !(48 <= u4 && u4 <= 57) {
                            break ;
                        }
                        let d: u128 = (u4 - 48) as u128;
                        match num.checked_mul(10) {
                            None => {
                                return Err(EvalError::NumericOverflow);
                            },
                            Some(n10) => match n10.checked_add(d) {
                                None => {
                                    return Err(EvalError::NumericOverflow);
                                },
                                Some(n2) => match den.checked_mul(10) {
                                    None => {
                                        return Err(EvalError::NumericOverflow);
                                    },
                                    Some(d2) => {
                                        num = n2;
                                        den = d2;
                                        k = k + 1;
                                    },
                                },
                            },
                        }
                    }
                }
                let q = reduced(false, num, den);
                let t = Token { kind: TokenKind::Number(q), pos: start };
                out.push(t);
                proof {
                    assert(advance_to(start as int, k as int, len as int) == k as int);
                    assert(t == number_token(start as int, num as nat, den as nat));
                    if spec_tokenize_from(input@, k as int) is Ok {
                        let rest = spec_tokenize_from(input@, k as int)->Ok_0;
                        assert(spec_tokenize_from(input@, start as int) == Ok::<
                            Seq<Token>,
                            EvalError,
                        >(seq![t] + rest));
                        assert(prev + (seq![t] + rest) =~= out@ + rest);
                    }
                    assert(tokens_wf(out@)) by {
                        assert(forall|m: int|
                            0 <= m < prev.len() ==> (#[trigger] out@[m]) == prev[m]);
                    }
                }
                i = k;
            } else {
                match op_kind(c) {
                    Some(kind) => {
                        let t = Token { kind, pos: i };
                        out.push(t);
                        proof {
                            if spec_tokenize_from(input@, i as int + 1) is Ok {
                                let rest = spec_tokenize_from(input@, i as int + 1)->Ok_0;
                                assert(spec_tokenize_from(input@, i as int) == Ok::<
                                    Seq<Token>,
                                    EvalError,
                                >(seq![t] + rest));
                                assert(prev + (seq![t] + rest) =~= out@ + rest);
                            }
                            assert(tokens_wf(out@)) by {
                                assert(forall|m: int|
                                    0 <= m < prev.len() ==> (#[trigger] out@[m]) == prev[m]);
                            }
                        }
                        i = i + 1;
                    },
                    None => {
                        return Err(EvalError::UnexpectedCharacter(i, c));
                    },
                }
            }
        }
    }
}

} // verus!
