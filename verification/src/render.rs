//! The canonical string form of an expression tree, and the round-trip law:
//! re-tokenizing the canonical form yields exactly the tree's canonical
//! token sequence, ended by the `End` sentinel.
//!
//! The canonical form is fully parenthesized and puts one space after every
//! token, so tokens never merge: a literal prints as its decimal digits
//! when it is a non-negative whole number and as the quotient form
//! `( num / den )` (with a leading `-` when negative) otherwise.

use vstd::prelude::*;

use crate::ast::{BinOp, Expr};
use crate::error::EvalError;
use crate::rational::{spec_gcd, spec_reduced, Rational};
use crate::token::{
    advance_to, char_kind, digit_val, end_token, is_digit_char, is_space_char, number_token,
    spec_scan_digits, spec_tokenize, spec_tokenize_from, Token, TokenKind,
};

verus! {

/// The tags of a token sequence, positions dropped.
pub open spec fn kinds_of(ts: Seq<Token>) -> Seq<TokenKind> {
    ts.map_values(|t: Token| t.kind)
}

/// The character of one decimal digit.
pub open spec fn digit_char(d: nat) -> char
    recommends
        d < 10,
{
    if d == 0 {
        '0'
    } else if d == 1 {
        '1'
    } else if d == 2 {
        '2'
    } else if d == 3 {
        '3'
    } else if d == 4 {
        '4'
    } else if d == 5 {
        '5'
    } else if d == 6 {
        '6'
    } else if d == 7 {
        '7'
    } else if d == 8 {
        '8'
    } else {
        '9'
    }
}

/// The decimal digits of `n`, most significant first.
pub open spec fn digits_of(n: nat) -> Seq<char>
    decreases n,
{
    if n < 10 {
        seq![digit_char(n)]
    } else {
        digits_of(n / 10) + seq![digit_char(n % 10)]
    }
}

/// Ten to the power `k`.
pub open spec fn pow10(k: nat) -> nat
    decreases k,
{
    if k == 0 {
        1
    } else {
        10 * pow10((k - 1) as nat)
    }
}

/// The character of each binary operator.
pub open spec fn op_char(op: BinOp) -> char {
    match op {
        BinOp::Add => '+',
        BinOp::Sub => '-',
        BinOp::Mul => '*',
        BinOp::Div => '/',
    }
}

/// The token of each binary operator.
pub open spec fn op_token_kind(op: BinOp) -> TokenKind {
    match op {
        BinOp::Add => TokenKind::Plus,
        BinOp::Sub => TokenKind::Minus,
        BinOp::Mul => TokenKind::Star,
        BinOp::Div => TokenKind::Slash,
    }
}

/// The whole number `n` as a token value.
pub open spec fn whole_number(n: u128) -> Rational {
    Rational { neg: false, num: n, den: 1 }
}

/// A run of decimal digits followed by one space.
pub open spec fn number_chars(n: nat) -> Seq<char> {
    digits_of(n) + seq![' ']
}

/// The canonical text of one literal.
pub open spec fn rational_chars(q: Rational) -> Seq<char> {
    if q.den == 1 && !q.neg {
        number_chars(q.num as nat)
    } else {
        seq!['(', ' '] + (if q.neg {
            seq!['-', ' ']
        } else {
            Seq::<char>::empty()
        }) + number_chars(q.num as nat) + seq!['/', ' '] + number_chars(q.den as nat) + seq![
            ')',
            ' ',
        ]
    }
}

/// The canonical token sequence of one literal.
pub open spec fn rational_kinds(q: Rational) -> Seq<TokenKind> {
    if q.den == 1 && !q.neg {
        seq![TokenKind::Number(q)]
    } else {
        seq![TokenKind::LParen] + (if q.neg {
            seq![TokenKind::Minus]
        } else {
            Seq::<TokenKind>::empty()
        }) + seq![
            TokenKind::Number(whole_number(q.num)),
            TokenKind::Slash,
            TokenKind::Number(whole_number(q.den)),
            TokenKind::RParen,
        ]
    }
}

/// The canonical text of a tree: fully parenthesized, one space after every
/// token.
pub open spec fn expr_chars(e: Expr) -> Seq<char>
    decreases e,
{
    match e {
        Expr::Literal(q) => rational_chars(q),
        Expr::Neg(x) => seq!['-', ' '] + expr_chars(*x),
        Expr::Bin(op, l, r) => seq!['(', ' '] + expr_chars(*l) + seq![op_char(op), ' ']
            + expr_chars(*r) + seq![')', ' '],
    }
}

/// The canonical token sequence of a tree.
pub open spec fn expr_kinds(e: Expr) -> Seq<TokenKind>
    decreases e,
{
    match e {
        Expr::Literal(q) => rational_kinds(q),
        Expr::Neg(x) => seq![TokenKind::Minus] + expr_kinds(*x),
        Expr::Bin(op, l, r) => seq![TokenKind::LParen] + expr_kinds(*l) + seq![op_token_kind(op)]
            + expr_kinds(*r) + seq![TokenKind::RParen],
    }
}

/// The character of one decimal digit.
fn digit_char_of(d: u128) -> (c: char)
    requires
        d < 10,
    ensures
        c == digit_char(d as nat),
{
    if d == 0 {
        '0'
    } else if d == 1 {
        '1'
    } else if d == 2 {
        '2'
    } else if d == 3 {
        '3'
    } else if d == 4 {
        '4'
    } else if d == 5 {
        '5'
    } else if d == 6 {
        '6'
    } else if d == 7 {
        '7'
    } else if d == 8 {
        '8'
    } else {
        '9'
    }
}

/// The decimal digits of `n`, most significant first.
fn digits_vec(n: u128) -> (v: Vec<char>)
    ensures
        v@ == digits_of(n as nat),
    decreases n,
{
    if n < 10 {
        let mut v: Vec<char> = Vec::new();
        v.push(digit_char_of(n));
        proof {
            assert(v@ =~= digits_of(n as nat));
        }
        v
    } else {
        let mut v = digits_vec(n / 10);
        v.push(digit_char_of(n % 10));
        proof {
            assert(v@ =~= digits_of(n as nat));
        }
        v
    }
}

/// Appends the digits of `n` and one space.
fn push_number(out: &mut Vec<char>, n: u128)
    ensures
        final(out)@ == old(out)@ + number_chars(n as nat),
{
    let mut ds = digits_vec(n);
    out.append(&mut ds);
    out.push(' ');
    proof {
        assert(out@ =~= old(out)@ + number_chars(n as nat));
    }
}

/// Appends the canonical text of one literal.
fn push_rational(out: &mut Vec<char>, q: Rational)
    ensures
        final(out)@ == old(out)@ + rational_chars(q),
{
    if q.den == 1 && !q.neg {
        push_number(out, q.num);
    } else {
        out.push('(');
        out.push(' ');
        if q.neg {
            out.push('-');
            out.push(' ');
        }
        push_number(out, q.num);
        out.push('/');
        out.push(' ');
        push_number(out, q.den);
        out.push(')');
        out.push(' ');
        proof {
            assert(out@ =~= old(out)@ + rational_chars(q));
        }
    }
}

/// Appends the canonical text of a tree.
fn push_expr(out: &mut Vec<char>, e: &Expr)
    ensures
        final(out)@ == old(out)@ + expr_chars(*e),
    decreases *e,
{
    match e {
        Expr::Literal(q) => {
            push_rational(out, *q);
        },
        Expr::Neg(x) => {
            out.push('-');
            out.push(' ');
            push_expr(out, &**x);
            proof {
                assert(out@ =~= old(out)@ + expr_chars(*e));
            }
        },
        Expr::Bin(op, l, r) => {
            out.push('(');
            out.push(' ');
            push_expr(out, &**l);
            let c = match *op {
                BinOp::Add => '+',
                BinOp::Sub => '-',
                BinOp::Mul => '*',
                BinOp::Div => '/',
            };
            out.push(c);
            out.push(' ');
            push_expr(out, &**r);
            out.push(')');
            out.push(' ');
            proof {
                assert(out@ =~= old(out)@ + expr_chars(*e));
            }
        },
    }
}

/// The canonical text of a tree, as characters: fully parenthesized, one
/// space after every token; exactly [`expr_chars`]`(*e)`.
pub fn render(e: &Expr) -> (r: Vec<char>)
    ensures
        r@ == expr_chars(*e),
{
    let mut out: Vec<char> = Vec::new();
    push_expr(&mut out, e);
    proof {
        assert(Seq::<char>::empty() + expr_chars(*e) =~= expr_chars(*e));
    }
    out
}

/// Each decimal digit's character is a digit character and nothing else the
/// tokenizer treats specially.
proof fn lemma_digit_char(d: nat)
    requires
        d < 10,
    ensures
        is_digit_char(digit_char(d)),
        digit_val(digit_char(d)) == d,
        !is_space_char(digit_char(d)),
        digit_char(d) != '.',
{
}

/// A digit run is never empty and starts with a digit.
proof fn lemma_digits_of_shape(n: nat)
    ensures
        digits_of(n).len() >= 1,
        is_digit_char(digits_of(n)[0]),
        !is_space_char(digits_of(n)[0]),
    decreases n,
{
    if n < 10 {
        lemma_digit_char(n);
    } else {
        lemma_digits_of_shape(n / 10);
        assert(digits_of(n)[0] == digits_of(n / 10)[0]);
    }
}

/// Scanning the digit run of `n` folds it into the accumulator — the value
/// becomes `acc * 10^len + n` — and moves just past the run.
proof fn lemma_scan_digits_run(s: Seq<char>, p: int, acc: nat, n: nat)
    requires
        0 <= p,
        p + digits_of(n).len() <= s.len(),
        s.subrange(p, p + digits_of(n).len() as int) == digits_of(n),
        acc * pow10(digits_of(n).len()) + n <= u128::MAX,
    ensures
        spec_scan_digits(s, p, acc) == spec_scan_digits(
            s,
            p + digits_of(n).len(),
            acc * pow10(digits_of(n).len()) + n,
        ),
    decreases n,
{
    let ds = digits_of(n);
    if n < 10 {
        lemma_digit_char(n);
        assert(s[p] == ds[0]);
        assert(pow10(1) == 10 * pow10(0));
        assert(acc * pow10(1) == acc * 10);
        assert(spec_scan_digits(s, p, acc) == spec_scan_digits(s, p + 1, acc * 10 + n));
    } else {
        let m = n / 10;
        let d0 = n % 10;
        let dm = digits_of(m);
        let lm = dm.len() as int;
        lemma_digit_char(d0);
        assert(ds == dm + seq![digit_char(d0)]);
        assert(s.subrange(p, p + lm) =~= dm) by {
            assert(forall|i: int|
                0 <= i < lm ==> s.subrange(p, p + lm)[i] == #[trigger] ds[i] && ds[i] == dm[i]);
        }
        assert(pow10(dm.len() + 1) == 10 * pow10(dm.len()));
        let combined = acc * pow10(ds.len()) + n;
        let mid = acc * pow10(dm.len()) + m;
        assert(combined == mid * 10 + d0) by (nonlinear_arith)
            requires
                pow10(ds.len()) == 10 * pow10(dm.len()),
                n == 10 * m + d0,
                combined == acc * pow10(ds.len()) + n,
                mid == acc * pow10(dm.len()) + m,
        ;
        assert(mid <= u128::MAX);
        lemma_scan_digits_run(s, p, acc, m);
        assert(s[p + lm] == ds[lm]);
        assert(spec_scan_digits(s, p + lm, mid) == spec_scan_digits(s, p + lm + 1, mid * 10 + d0));
    }
}

/// Reducing the whole number `n / 1` changes nothing.
proof fn lemma_reduced_whole(n: u128)
    ensures
        spec_reduced(false, n as nat, 1) == whole_number(n),
{
    assert(spec_gcd(n as nat, 1) == spec_gcd(1, 0));
    assert(spec_gcd(1nat, 0nat) == 1);
}

/// Tokenizing at a rendered number: one `Number` token, and the scan goes
/// on after the digits and the following space.
proof fn lemma_tokenize_number(s: Seq<char>, p: int, n: u128)
    requires
        0 <= p,
        p + number_chars(n as nat).len() <= s.len(),
        s.subrange(p, p + number_chars(n as nat).len() as int) == number_chars(n as nat),
    ensures
        spec_tokenize_from(s, p) == (match spec_tokenize_from(
            s,
            p + number_chars(n as nat).len(),
        ) {
            Ok(rest) => Ok::<Seq<Token>, EvalError>(
                seq![Token { kind: TokenKind::Number(whole_number(n)), pos: p as usize }] + rest,
            ),
            Err(e) => Err::<Seq<Token>, EvalError>(e),
        }),
{
    let nc = number_chars(n as nat);
    let ds = digits_of(n as nat);
    let dlen = ds.len() as int;
    lemma_digits_of_shape(n as nat);
    assert(s.subrange(p, p + dlen) =~= ds) by {
        assert(forall|i: int|
            0 <= i < dlen ==> s.subrange(p, p + dlen)[i] == #[trigger] nc[i] && nc[i] == ds[i]);
    }
    assert(s[p] == ds[0]);
    assert(s[p + dlen] == s.subrange(p, p + nc.len() as int)[dlen]);
    assert(nc[dlen] == ' ');
    assert(0 * pow10(ds.len()) == 0) by (nonlinear_arith);
    lemma_scan_digits_run(s, p, 0, n as nat);
    assert(spec_scan_digits(s, p + dlen, n as nat) == Ok::<(nat, int), EvalError>(
        (n as nat, p + dlen),
    ));
    assert(advance_to(p, p + dlen, s.len() as int) == p + dlen);
    lemma_reduced_whole(n);
    assert(number_token(p, n as nat, 1) == (Token {
        kind: TokenKind::Number(whole_number(n)),
        pos: p as usize,
    }));
    assert(spec_tokenize_from(s, p + dlen) == spec_tokenize_from(s, p + dlen + 1));
}

/// Tokenizing at a rendered one-character symbol: its token, and the scan
/// goes on after the symbol and the following space.
proof fn lemma_tokenize_symbol(s: Seq<char>, p: int, c: char, k: TokenKind)
    requires
        0 <= p,
        p + 2 <= s.len(),
        s[p] == c,
        s[p + 1] == ' ',
        char_kind(c) == Some(k),
    ensures
        spec_tokenize_from(s, p) == (match spec_tokenize_from(s, p + 2) {
            Ok(rest) => Ok::<Seq<Token>, EvalError>(
                seq![Token { kind: k, pos: p as usize }] + rest,
            ),
            Err(e) => Err::<Seq<Token>, EvalError>(e),
        }),
{
    assert(!is_space_char(c));
    assert(!is_digit_char(c));
    assert(spec_tokenize_from(s, p + 1) == spec_tokenize_from(s, p + 2));
}

/// Dropping positions commutes with putting one token in front.
proof fn lemma_kinds_cons(t: Token, rest: Seq<Token>)
    ensures
        kinds_of(seq![t] + rest) == seq![t.kind] + kinds_of(rest),
{
    assert(kinds_of(seq![t] + rest) =~= seq![t.kind] + kinds_of(rest));
}

/// A character of a known stretch of the text, read off by its offset.
proof fn lemma_char_at(s: Seq<char>, p: int, whole: Seq<char>, off: int)
    requires
        0 <= p,
        p + whole.len() <= s.len(),
        s.subrange(p, p + whole.len() as int) == whole,
        0 <= off < whole.len(),
    ensures
        s[p + off] == whole[off],
{
    assert(s[p + off] == s.subrange(p, p + whole.len() as int)[off]);
}

/// A piece of a known stretch of the text is itself a known stretch.
proof fn lemma_part_at(s: Seq<char>, p: int, whole: Seq<char>, off: int, part: Seq<char>)
    requires
        0 <= p,
        p + whole.len() <= s.len(),
        s.subrange(p, p + whole.len() as int) == whole,
        0 <= off,
        off + part.len() <= whole.len(),
        forall|i: int| 0 <= i < part.len() ==> whole[off + i] == #[trigger] part[i],
    ensures
        s.subrange(p + off, p + off + part.len() as int) == part,
{
    assert forall|i: int|
        0 <= i < part.len() implies s.subrange(p + off, p + off + part.len() as int)[i]
        == part[i] by {
        assert(s.subrange(p + off, p + off + part.len() as int)[i] == s[p + off + i]);
        assert(s[p + off + i] == s.subrange(p, p + whole.len() as int)[off + i]);
    }
    assert(s.subrange(p + off, p + off + part.len() as int) =~= part);
}

/// Tokenizing at the canonical text of a literal yields its canonical
/// tokens and goes on after them; a fault later in the text is the fault of
/// the whole scan.
#[verifier::rlimit(100)]
proof fn lemma_literal_chars_tokenize(q: Rational, s: Seq<char>, p: int)
    requires
        0 <= p,
        p + rational_chars(q).len() <= s.len(),
        s.subrange(p, p + rational_chars(q).len() as int) == rational_chars(q),
    ensures
        (spec_tokenize_from(s, p + rational_chars(q).len()) is Ok ==> spec_tokenize_from(s, p)
            is Ok && kinds_of(spec_tokenize_from(s, p)->Ok_0) == rational_kinds(q) + kinds_of(
            spec_tokenize_from(s, p + rational_chars(q).len())->Ok_0,
        )),
        (spec_tokenize_from(s, p + rational_chars(q).len()) is Err ==> spec_tokenize_from(s, p)
            == spec_tokenize_from(s, p + rational_chars(q).len())),
{
    let whole = rational_chars(q);
    let all = whole.len() as int;
    let t_end = spec_tokenize_from(s, p + all);
    if q.den == 1 && !q.neg {
        lemma_tokenize_number(s, p, q.num);
        assert(whole_number(q.num) == q);
        if t_end is Ok {
            lemma_kinds_cons(Token { kind: TokenKind::Number(q), pos: p as usize }, t_end->Ok_0);
        }
    } else {
        let num_c = number_chars(q.num as nat);
        let den_c = number_chars(q.den as nat);
        let sign: Seq<char> = if q.neg {
            seq!['-', ' ']
        } else {
            Seq::<char>::empty()
        };
        let o_num = 2 + sign.len() as int;
        let o_slash = o_num + num_c.len() as int;
        let o_den = o_slash + 2;
        let o_close = o_den + den_c.len() as int;
        assert(whole == seq!['(', ' '] + sign + num_c + seq!['/', ' '] + den_c + seq![')', ' ']);
        assert(all == o_close + 2);
        lemma_char_at(s, p, whole, 0);
        lemma_char_at(s, p, whole, 1);
        if q.neg {
            lemma_char_at(s, p, whole, 2);
            lemma_char_at(s, p, whole, 3);
        }
        lemma_part_at(s, p, whole, o_num, num_c);
        lemma_char_at(s, p, whole, o_slash);
        lemma_char_at(s, p, whole, o_slash + 1);
        lemma_part_at(s, p, whole, o_den, den_c);
        lemma_char_at(s, p, whole, o_close);
        lemma_char_at(s, p, whole, o_close + 1);
        lemma_tokenize_symbol(s, p + o_close, ')', TokenKind::RParen);
        lemma_tokenize_number(s, p + o_den, q.den);
        lemma_tokenize_symbol(s, p + o_slash, '/', TokenKind::Slash);
        lemma_tokenize_number(s, p + o_num, q.num);
        if q.neg {
            lemma_tokenize_symbol(s, p + 2, '-', TokenKind::Minus);
        }
        lemma_tokenize_symbol(s, p, '(', TokenKind::LParen);
        if t_end is Ok {
            let k_tail = kinds_of(t_end->Ok_0);
            lemma_kinds_cons(
                Token { kind: TokenKind::RParen, pos: (p + o_close) as usize },
                t_end->Ok_0,
            );
            let r3 = spec_tokenize_from(s, p + o_close)->Ok_0;
            lemma_kinds_cons(
                Token { kind: TokenKind::Number(whole_number(q.den)), pos: (p + o_den) as usize },
                r3,
            );
            let r2 = spec_tokenize_from(s, p + o_den)->Ok_0;
            lemma_kinds_cons(Token { kind: TokenKind::Slash, pos: (p + o_slash) as usize }, r2);
            let r1 = spec_tokenize_from(s, p + o_slash)->Ok_0;
            lemma_kinds_cons(
                Token { kind: TokenKind::Number(whole_number(q.num)), pos: (p + o_num) as usize },
                r1,
            );
            let r0 = spec_tokenize_from(s, p + o_num)->Ok_0;
            if q.neg {
                lemma_kinds_cons(Token { kind: TokenKind::Minus, pos: (p + 2) as usize }, r0);
            }
            let ropen = spec_tokenize_from(s, p + 2)->Ok_0;
            lemma_kinds_cons(Token { kind: TokenKind::LParen, pos: p as usize }, ropen);
            assert(kinds_of(spec_tokenize_from(s, p)->Ok_0) =~= rational_kinds(q) + k_tail);
        }
    }
}

/// Tokenizing at the canonical text of a tree yields the tree's canonical
/// tokens and goes on after them; a fault later in the text is the fault of
/// the whole scan.
#[verifier::rlimit(100)]
proof fn lemma_expr_chars_tokenize(e: Expr, s: Seq<char>, p: int)
    requires
        0 <= p,
        p + expr_chars(e).len() <= s.len(),
        s.subrange(p, p + expr_chars(e).len() as int) == expr_chars(e),
    ensures
        (spec_tokenize_from(s, p + expr_chars(e).len()) is Ok ==> spec_tokenize_from(s, p) is Ok
            && kinds_of(spec_tokenize_from(s, p)->Ok_0) == expr_kinds(e) + kinds_of(
            spec_tokenize_from(s, p + expr_chars(e).len())->Ok_0,
        )),
        (spec_tokenize_from(s, p + expr_chars(e).len()) is Err ==> spec_tokenize_from(s, p)
            == spec_tokenize_from(s, p + expr_chars(e).len())),
    decreases e,
{
    let whole = expr_chars(e);
    let all = whole.len() as int;
    let t_end = spec_tokenize_from(s, p + all);
    match e {
        Expr::Literal(q) => {
            lemma_literal_chars_tokenize(q, s, p);
        },
        Expr::Neg(x) => {
            let cx = expr_chars(*x);
            assert(whole == seq!['-', ' '] + cx);
            lemma_char_at(s, p, whole, 0);
            lemma_char_at(s, p, whole, 1);
            lemma_part_at(s, p, whole, 2, cx);
            lemma_expr_chars_tokenize(*x, s, p + 2);
            lemma_tokenize_symbol(s, p, '-', TokenKind::Minus);
            if t_end is Ok {
                lemma_kinds_cons(
                    Token { kind: TokenKind::Minus, pos: p as usize },
                    spec_tokenize_from(s, p + 2)->Ok_0,
                );
                assert(kinds_of(spec_tokenize_from(s, p)->Ok_0) =~= expr_kinds(e) + kinds_of(
                    t_end->Ok_0,
                ));
            }
        },
        Expr::Bin(op, l, r) => {
            let cl = expr_chars(*l);
            let cr = expr_chars(*r);
            let opc = op_char(op);
            let o_op = 2 + cl.len() as int;
            let o_r = o_op + 2;
            let o_close = o_r + cr.len() as int;
            assert(whole == seq!['(', ' '] + cl + seq![opc, ' '] + cr + seq![')', ' ']);
            assert(all == o_close + 2);
            lemma_char_at(s, p, whole, 0);
            lemma_char_at(s, p, whole, 1);
            lemma_part_at(s, p, whole, 2, cl);
            lemma_char_at(s, p, whole, o_op);
            lemma_char_at(s, p, whole, o_op + 1);
            lemma_part_at(s, p, whole, o_r, cr);
            lemma_char_at(s, p, whole, o_close);
            lemma_char_at(s, p, whole, o_close + 1);
            assert(char_kind(opc) == Some(op_token_kind(op)));
            lemma_tokenize_symbol(s, p + o_close, ')', TokenKind::RParen);
            lemma_expr_chars_tokenize(*r, s, p + o_r);
            lemma_tokenize_symbol(s, p + o_op, opc, op_token_kind(op));
            lemma_expr_chars_tokenize(*l, s, p + 2);
            lemma_tokenize_symbol(s, p, '(', TokenKind::LParen);
            if t_end is Ok {
                let k_tail = kinds_of(t_end->Ok_0);
                lemma_kinds_cons(
                    Token { kind: TokenKind::RParen, pos: (p + o_close) as usize },
                    t_end->Ok_0,
                );
                lemma_kinds_cons(
                    Token { kind: op_token_kind(op), pos: (p + o_op) as usize },
                    spec_tokenize_from(s, p + o_r)->Ok_0,
                );
                lemma_kinds_cons(
                    Token { kind: TokenKind::LParen, pos: p as usize },
                    spec_tokenize_from(s, p + 2)->Ok_0,
                );
                assert(kinds_of(spec_tokenize_from(s, p)->Ok_0) =~= expr_kinds(e) + k_tail);
            }
        },
    }
}

/// Re-tokenizing the canonical string form of an expression tree succeeds
/// and yields exactly the tree's canonical token sequence, closed by the
/// `End` sentinel.
pub proof fn lemma_canonical_form_retokenizes(e: Expr)
    ensures
        spec_tokenize(expr_chars(e)) is Ok,
        kinds_of(spec_tokenize(expr_chars(e))->Ok_0) == expr_kinds(e) + seq![TokenKind::End],
{
    let s = expr_chars(e);
    let all = s.len() as int;
    assert(spec_tokenize_from(s, all) == Ok::<Seq<Token>, EvalError>(seq![end_token(s)]));
    assert(s.subrange(0, all) =~= s);
    lemma_expr_chars_tokenize(e, s, 0);
    assert(kinds_of(seq![end_token(s)]) =~= seq![TokenKind::End]);
}

} // verus!
