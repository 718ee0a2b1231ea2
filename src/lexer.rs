//! The lexer: characters to tokens.
use vstd::prelude::*;

use crate::node::{push_char, Token, TokenV};

verus! {

/// The characters that Rust's `char::is_whitespace` accepts (Unicode
/// White_Space).
pub open spec fn space_char(c: char) -> bool {
    let u = c as u32;
    (0x9 <= u <= 0xD) || u == 0x20 || u == 0x85 || u == 0xA0 || u == 0x1680 || (0x2000 <= u
        <= 0x200A) || u == 0x2028 || u == 0x2029 || u == 0x202F || u == 0x205F || u == 0x3000
}

pub open spec fn digit_char(c: char) -> bool {
    0x30 <= c as u32 <= 0x39
}

/// A character that ends a word.
pub open spec fn delim_char(c: char) -> bool {
    space_char(c) || c == '(' || c == ')'
}

/// The length of the run of ASCII digits at the front of `s`.
pub open spec fn digit_run(s: Seq<char>) -> nat
    decreases s.len(),
{
    if s.len() > 0 && digit_char(s[0]) {
        1 + digit_run(s.drop_first())
    } else {
        0
    }
}

/// The length of the run of word characters at the front of `s`.
pub open spec fn word_run(s: Seq<char>) -> nat
    decreases s.len(),
{
    if s.len() > 0 && !delim_char(s[0]) {
        1 + word_run(s.drop_first())
    } else {
        0
    }
}

/// What is left of `s` once its first line, newline included, is dropped.
pub open spec fn after_line(s: Seq<char>) -> Seq<char>
    decreases s.len(),
{
    if s.len() == 0 {
        s
    } else if s[0] == '\n' {
        s.drop_first()
    } else {
        after_line(s.drop_first())
    }
}

/// The value of a sequence of decimal digits.
pub open spec fn digits_value(d: Seq<char>) -> int
    decreases d.len(),
{
    if d.len() == 0 {
        0
    } else {
        10 * digits_value(d.drop_last()) + (d.last() as u32 - 0x30)
    }
}

pub proof fn lemma_runs_bounded(s: Seq<char>)
    ensures
        digit_run(s) <= s.len(),
        word_run(s) <= s.len(),
        after_line(s).len() <= s.len(),
    decreases s.len(),
{
    if s.len() > 0 {
        lemma_runs_bounded(s.drop_first());
    }
}

/// The tokens of `s`, read from left to right.
pub open spec fn lex_spec(s: Seq<char>) -> Seq<TokenV>
    decreases s.len(),
{
    if s.len() == 0 {
        Seq::empty()
    } else {
        proof {
            lemma_runs_bounded(s.drop_first());
            lemma_runs_bounded(s);
        }
        let c = s[0];
        if space_char(c) {
            lex_spec(s.drop_first())
        } else if c == '(' {
            seq![TokenV::LParen] + lex_spec(s.drop_first())
        } else if c == ')' {
            seq![TokenV::RParen] + lex_spec(s.drop_first())
        } else if c == ';' {
            lex_spec(after_line(s.drop_first()))
        } else if digit_char(c) {
            let n = digit_run(s);
            seq![TokenV::Number(digits_value(s.take(n as int)))] + lex_spec(s.skip(n as int))
        } else {
            let n = word_run(s);
            seq![TokenV::Word(s.take(n as int))] + lex_spec(s.skip(n as int))
        }
    }
}

/// Every number literal among `t` fits in an `i64`.
pub open spec fn literals_fit(t: Seq<TokenV>) -> bool {
    forall|k: int| 0 <= k < t.len() && (#[trigger] t[k]) is Number ==> t[k]->Number_0 <= i64::MAX
}

/// The models of a sequence of tokens.
pub open spec fn view_tokens(t: Seq<Token>) -> Seq<TokenV> {
    t.map_values(|x: Token| x@)
}

/// Why lexing failed.
#[derive(Debug, Clone, Copy, PartialEq, Eq)]
pub enum LexError {
    /// A number literal does not fit in an `i64`.
    NumberOutOfRange,
}

/// The text `s` with each parenthesis surrounded by single spaces.
pub open spec fn pad_parens_spec(s: Seq<char>) -> Seq<char>
    decreases s.len(),
{
    if s.len() == 0 {
        s
    } else {
        let c = s.last();
        let tail = if c == '(' || c == ')' {
            seq![' ', c, ' ']
        } else {
            seq![c]
        };
        pad_parens_spec(s.drop_last()) + tail
    }
}

/// Surrounds each parenthesis of `chars` with single spaces, so that no
/// parenthesis touches a word or a number.
pub fn pad_parens(chars: &Vec<char>) -> (r: Vec<char>)
    ensures
        r@ == pad_parens_spec(chars@),
{
    let mut out: Vec<char> = Vec::new();
    let mut i: usize = 0;
    assert(chars@.take(0) =~= Seq::<char>::empty());
    while i < chars.len()
        invariant
            i <= chars.len(),
            out@ == pad_parens_spec(chars@.take(i as int)),
        decreases chars.len() - i,
    {
        let c = chars[i];
        assert(chars@.take(i + 1).drop_last() =~= chars@.take(i as int));
        if c == '(' || c == ')' {
            out.push(' ');
            out.push(c);
            out.push(' ');
        } else {
            out.push(c);
        }
        i = i + 1;
        assert(out@ =~= pad_parens_spec(chars@.take(i as int)));
    }
    assert(chars@.take(i as int) =~= chars@);
    out
}

/// Whether `c` is white space, as `char::is_whitespace` decides it.
pub fn is_space(c: char) -> (r: bool)
    ensures
        r == space_char(c),
{
    let u = c as u32;
    (0x9 <= u && u <= 0xD) || u == 0x20 || u == 0x85 || u == 0xA0 || u == 0x1680 || (0x2000 <= u
        && u <= 0x200A) || u == 0x2028 || u == 0x2029 || u == 0x202F || u == 0x205F || u == 0x3000
}

/// A longer run of digits is worth at least as much as its prefix.
pub proof fn lemma_digits_value_grows(d: Seq<char>, k: int)
    requires
        0 <= k <= d.len(),
        forall|i: int| 0 <= i < d.len() ==> digit_char(#[trigger] d[i]),
    ensures
        digits_value(d.take(k)) <= digits_value(d),
        0 <= digits_value(d),
    decreases d.len(),
{
    if d.len() > 0 {
        lemma_digits_value_grows(d.drop_last(), if k == d.len() { 0 } else { k });
        if k < d.len() {
            assert(d.drop_last().take(k) =~= d.take(k));
        } else {
            assert(d.take(k) =~= d);
        }
    } else {
        assert(d.take(k) =~= d);
    }
}

/// Whether `c` is an ASCII digit.
pub fn is_digit(c: char) -> (r: bool)
    ensures
        r == digit_char(c),
{
    let u = c as u32;
    0x30 <= u && u <= 0x39
}

pub proof fn lemma_digit_run(s: Seq<char>, k: int)
    ensures
        forall|i: int| 0 <= i < digit_run(s) ==> digit_char(#[trigger] s[i]),
        0 <= k <= s.len() && (forall|i: int| 0 <= i < k ==> digit_char(#[trigger] s[i]))
            ==> k <= digit_run(s),
    decreases s.len(),
{
    if s.len() > 0 {
        lemma_digit_run(s.drop_first(), k - 1);
        lemma_runs_bounded(s.drop_first());
        assert forall|i: int| 0 <= i < digit_run(s) implies digit_char(#[trigger] s[i]) by {
            if i > 0 {
                assert(s[i] == s.drop_first()[i - 1]);
            }
        }
        if 0 < k <= s.len() && (forall|i: int| 0 <= i < k ==> digit_char(#[trigger] s[i])) {
            assert forall|i: int| 0 <= i < k - 1 implies digit_char(
                #[trigger] s.drop_first()[i],
            ) by {
                assert(s.drop_first()[i] == s[i + 1]);
            }
        }
    }
}

/// A literal whose leading digits already exceed `i64::MAX` leaves the
/// tokens of `s` with a literal that does not fit.
proof fn lemma_overflow_fails(s: Seq<char>, toks: Seq<Token>, start: int, j: int)
    requires
        0 <= start < j <= s.len(),
        lex_spec(s) == view_tokens(toks) + lex_spec(s.skip(start)),
        forall|k: int| start <= k < j ==> digit_char(#[trigger] s[k]),
        digits_value(s.subrange(start, j)) > i64::MAX,
    ensures
        !literals_fit(lex_spec(s)),
{
    let rest = s.skip(start);
    assert(rest[0] == s[start]);
    let n = digit_run(rest) as int;
    lemma_digit_run(rest, j - start);
    assert forall|i: int| 0 <= i < j - start implies digit_char(#[trigger] rest[i]) by {
        assert(rest[i] == s[start + i]);
    }
    lemma_runs_bounded(rest);
    let d = rest.take(n);
    assert(d.take(j - start) =~= s.subrange(start, j));
    lemma_digits_value_grows(d, j - start);
    let k = view_tokens(toks).len() as int;
    assert(lex_spec(s)[k] == lex_spec(rest)[0]);
}

/// Splits `chars` into tokens; fails where a number literal does not fit in
/// an `i64`.
pub fn lex(chars: &Vec<char>) -> (r: Result<Vec<Token>, LexError>)
    ensures
        r is Ok <==> literals_fit(lex_spec(chars@)),
        r is Ok ==> view_tokens(r->Ok_0@) == lex_spec(chars@),
{
    let n = chars.len();
    let mut i: usize = 0;
    let mut toks: Vec<Token> = Vec::new();
    assert(chars@.skip(0) =~= chars@);
    assert(view_tokens(toks@) + lex_spec(chars@) =~= lex_spec(chars@));
    while i < n
        invariant
            i <= n == chars.len(),
            lex_spec(chars@) == view_tokens(toks@) + lex_spec(chars@.skip(i as int)),
        decreases n - i,
    {
        let ghost rest = chars@.skip(i as int);
        let c = chars[i];
        assert(rest[0] == c);
        assert(rest.drop_first() =~= chars@.skip(i + 1));
        if is_space(c) {
            i = i + 1;
        } else if c == '(' || c == ')' {
            let t = if c == '(' {
                Token::LParen
            } else {
                Token::RParen
            };
            toks.push(t);
            i = i + 1;
            assert(view_tokens(toks@) =~= view_tokens(toks@.drop_last()).push(t@));
            assert(lex_spec(chars@) == view_tokens(toks@) + lex_spec(chars@.skip(i as int)));
        } else if c == ';' {
            i = i + 1;
            let ghost body = i;
            while i < n && chars[i] != '\n'
                invariant
                    body <= i <= n == chars.len(),
                    after_line(rest.drop_first()) == after_line(chars@.skip(i as int)),
                decreases n - i,
            {
                assert(chars@.skip(i as int).drop_first() =~= chars@.skip(i + 1));
                i = i + 1;
            }
            if i < n {
                assert(chars@.skip(i as int).drop_first() =~= chars@.skip(i + 1));
                i = i + 1;
            } else {
                assert(chars@.skip(i as int).len() == 0);
            }
            assert(lex_spec(chars@) == view_tokens(toks@) + lex_spec(chars@.skip(i as int)));
        } else {
            let start = i;
            let ghost run = if digit_char(c) {
                digit_run(rest)
            } else {
                word_run(rest)
            };
            if is_digit(c) {
                let mut v: i64 = 0;
                while i < n && is_digit(chars[i])
                    invariant
                        start <= i <= n == chars.len(),
                        rest == chars@.skip(start as int),
                        lex_spec(chars@) == view_tokens(toks@) + lex_spec(rest),
                        run == digit_run(rest),
                        digit_run(rest) == (i - start) + digit_run(chars@.skip(i as int)),
                        v == digits_value(chars@.subrange(start as int, i as int)),
                        forall|k: int| start <= k < i ==> digit_char(#[trigger] chars@[k]),
                    decreases n - i,
                {
                    let d = (chars[i] as u32 - 0x30) as i64;
                    assert(chars@.skip(i as int).drop_first() =~= chars@.skip(i + 1));
                    proof {
                        let sub = chars@.subrange(start as int, i + 1);
                        assert(sub.drop_last() =~= chars@.subrange(start as int, i as int));
                        assert(sub.last() == chars@[i as int]);
                        assert(digits_value(sub) == 10 * v + d);
                        lemma_digits_value_grows(chars@.subrange(start as int, i as int), 0);
                        assert forall|k: int| start <= k < i + 1 implies digit_char(
                            #[trigger] chars@[k],
                        ) by {
                            if k == i {
                                assert(digit_char(chars@[i as int]));
                            }
                        }
                    }
                    match v.checked_mul(10) {
                        Some(m) => match m.checked_add(d) {
                            Some(w) => {
                                v = w;
                            },
                            None => {
                                proof {
                                    lemma_overflow_fails(chars@, toks@, start as int, i + 1);
                                }
                                return Err(LexError::NumberOutOfRange);
                            },
                        },
                        None => {
                            proof {
                                lemma_overflow_fails(chars@, toks@, start as int, i + 1);
                            }
                            return Err(LexError::NumberOutOfRange);
                        },
                    }
                    i = i + 1;
                }
                proof {
                    if i < n {
                        assert(chars@.skip(i as int)[0] == chars@[i as int]);
                    }
                    assert(run >= 1);
                    assert(run == i - start);
                    assert(rest.take(run as int) =~= chars@.subrange(start as int, i as int));
                    assert(rest.skip(run as int) =~= chars@.skip(i as int));
                }
                toks.push(Token::Number(v));
                assert(view_tokens(toks@) =~= view_tokens(toks@.drop_last()).push(
                    Token::Number(v)@,
                ));
                assert(lex_spec(chars@) == view_tokens(toks@) + lex_spec(chars@.skip(i as int)));
            } else {
                let mut w = String::new();
                while i < n && !is_space(chars[i]) && chars[i] != '(' && chars[i] != ')'
                    invariant
                        start <= i <= n == chars.len(),
                        rest == chars@.skip(start as int),
                        lex_spec(chars@) == view_tokens(toks@) + lex_spec(rest),
                        run == word_run(rest),
                        word_run(rest) == (i - start) + word_run(chars@.skip(i as int)),
                        w@ == chars@.subrange(start as int, i as int),
                    decreases n - i,
                {
                    assert(chars@.skip(i as int).drop_first() =~= chars@.skip(i + 1));
                    push_char(&mut w, chars[i]);
                    i = i + 1;
                    assert(w@ =~= chars@.subrange(start as int, i as int));
                }
                proof {
                    if i < n {
                        assert(chars@.skip(i as int)[0] == chars@[i as int]);
                    }
                    assert(run >= 1);
                    assert(run == i - start);
                    assert(rest.take(run as int) =~= chars@.subrange(start as int, i as int));
                    assert(rest.skip(run as int) =~= chars@.skip(i as int));
                }
                let ghost wv = w@;
                toks.push(Token::Word(w));
                assert(view_tokens(toks@) =~= view_tokens(toks@.drop_last()).push(TokenV::Word(wv)));
                assert(lex_spec(chars@) == view_tokens(toks@) + lex_spec(chars@.skip(i as int)));
            }
        }
    }
    assert(chars@.skip(i as int).len() == 0);
    assert(view_tokens(toks@) + lex_spec(chars@.skip(i as int)) =~= view_tokens(toks@));
    proof {
        assert forall|k: int|
            0 <= k < view_tokens(toks@).len() && (#[trigger] view_tokens(toks@)[k]) is Number implies
            view_tokens(toks@)[k]->Number_0 <= i64::MAX by {
            let t = toks@[k];
            assert(view_tokens(toks@)[k] == t@);
        }
    }
    Ok(toks)
}

} // verus!
