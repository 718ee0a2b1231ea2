//! Properties of the whole pipeline, proved over the models of the lexer,
//! parser and evaluator.
use vstd::prelude::*;

use crate::interp::{eval_seq_spec, eval_spec, plus_word, EvalError};
use crate::lexer::{
    after_line, delim_char, digit_char, digit_run, digits_value, lemma_digit_run,
    lemma_digits_value_grows, lemma_runs_bounded, lex_spec, space_char, word_run,
};
use crate::node::{NodeV, TokenV};
use crate::parser::{parse_items, parse_spec};
use crate::render::{nat_digits, render_items_spec, render_spec};

verus! {

/// A tree built only of numbers and addition forms `(+ a b)`.
pub open spec fn sum_form(n: NodeV) -> bool
    decreases n,
{
    match n {
        NodeV::Number(_) => true,
        NodeV::List(l) => l.len() == 3 && l[0] is Word && plus_word(l[0]->Word_0) && sum_form(l[1])
            && sum_form(l[2]),
        _ => false,
    }
}

/// The arithmetic value of an addition tree, grouped as its parentheses say.
pub open spec fn sum_value(n: NodeV) -> int
    decreases n,
{
    match n {
        NodeV::Number(x) => x,
        NodeV::List(l) => if l.len() == 3 {
            sum_value(l[1]) + sum_value(l[2])
        } else {
            0
        },
        _ => 0,
    }
}

/// Every partial sum of an addition tree fits in an `i64`.
pub open spec fn sums_fit(n: NodeV) -> bool
    decreases n,
{
    &&& i64::MIN <= sum_value(n) <= i64::MAX
    &&& match n {
        NodeV::List(l) => l.len() == 3 ==> sums_fit(l[1]) && sums_fit(l[2]),
        _ => true,
    }
}

/// An addition tree whose partial sums fit evaluates to its arithmetic sum.
pub proof fn lemma_sum_forms_add_up(n: NodeV)
    requires
        sum_form(n),
        sums_fit(n),
    ensures
        eval_spec(n) == Ok::<NodeV, EvalError>(NodeV::Number(sum_value(n))),
    decreases n,
{
    if let NodeV::List(l) = n {
        lemma_sum_forms_add_up(l[1]);
        lemma_sum_forms_add_up(l[2]);
    }
}

/// An empty text, or one of white space only, has no tokens, and the program
/// it holds evaluates to the empty list.
pub proof fn lemma_blank_program(s: Seq<char>)
    requires
        forall|i: int| 0 <= i < s.len() ==> space_char(#[trigger] s[i]),
    ensures
        lex_spec(s) == Seq::<TokenV>::empty(),
        eval_spec(parse_spec(lex_spec(s))) == Ok::<NodeV, EvalError>(
            NodeV::List(Seq::empty()),
        ),
    decreases s.len(),
{
    if s.len() > 0 {
        assert forall|i: int| 0 <= i < s.len() - 1 implies space_char(
            #[trigger] s.drop_first()[i],
        ) by {
            assert(s.drop_first()[i] == s[i + 1]);
        }
        lemma_blank_program(s.drop_first());
    }
    let empty = Seq::<NodeV>::empty();
    assert(eval_seq_spec(empty) == Ok::<Seq<NodeV>, EvalError>(empty));
}

proof fn lemma_after_line(c: Seq<char>, rest: Seq<char>)
    requires
        forall|i: int| 0 <= i < c.len() ==> #[trigger] c[i] != '\n',
    ensures
        after_line(c + seq!['\n'] + rest) == rest,
        after_line(c) == Seq::<char>::empty(),
    decreases c.len(),
{
    if c.len() == 0 {
        assert((c + seq!['\n'] + rest).drop_first() =~= rest);
    } else {
        assert((c + seq!['\n'] + rest).drop_first() =~= c.drop_first() + seq!['\n'] + rest);
        assert forall|i: int| 0 <= i < c.len() - 1 implies #[trigger] c.drop_first()[i] != '\n' by {
            assert(c.drop_first()[i] == c[i + 1]);
        }
        lemma_after_line(c.drop_first(), rest);
    }
}

/// A comment line gives no tokens, whatever it holds: the tokens of a text
/// that starts with one are those of what follows its newline, and a comment
/// that runs to the end of the text gives none.
pub proof fn lemma_comment_line_no_tokens(c: Seq<char>, rest: Seq<char>)
    requires
        forall|i: int| 0 <= i < c.len() ==> #[trigger] c[i] != '\n',
    ensures
        lex_spec(seq![';'] + c + seq!['\n'] + rest) == lex_spec(rest),
        lex_spec(seq![';'] + c) == Seq::<TokenV>::empty(),
{
    lemma_after_line(c, rest);
    let s = seq![';'] + c + seq!['\n'] + rest;
    assert(s[0] == ';');
    assert(s.drop_first() =~= c + seq!['\n'] + rest);
    let t = seq![';'] + c;
    assert(t[0] == ';');
    assert(t.drop_first() =~= c);
    assert(lex_spec(Seq::<char>::empty()) == Seq::<TokenV>::empty());
}

/// A list headed by a word other than `+` evaluates to `Null`, whatever
/// follows the word.
pub proof fn lemma_other_operator_null(l: Seq<NodeV>)
    requires
        l.len() > 0,
        l[0] is Word,
        !plus_word(l[0]->Word_0),
    ensures
        eval_spec(NodeV::List(l)) == Ok::<NodeV, EvalError>(NodeV::Null),
{
}

/// A sequence result never holds `Null`.
pub proof fn lemma_sequence_has_no_null(l: Seq<NodeV>)
    ensures
        eval_seq_spec(l) is Ok ==> forall|i: int|
            0 <= i < eval_seq_spec(l)->Ok_0.len() ==> !(#[trigger] eval_seq_spec(l)->Ok_0[i] is Null),
    decreases l.len(),
{
    if l.len() > 0 {
        lemma_sequence_has_no_null(l.drop_last());
    }
}

/// The list that evaluating a list yields never holds `Null`.
pub proof fn lemma_list_result_has_no_null(l: Seq<NodeV>)
    ensures
        eval_spec(NodeV::List(l)) matches Ok(NodeV::List(r)) ==> forall|i: int|
            0 <= i < r.len() ==> !(#[trigger] r[i] is Null),
{
    lemma_sequence_has_no_null(l);
}

/// A word that reads back as one word token: not empty, not starting like a
/// number or a comment, with no white space or parenthesis in it.
pub open spec fn word_text(w: Seq<char>) -> bool {
    &&& w.len() > 0
    &&& !digit_char(w[0])
    &&& w[0] != ';'
    &&& forall|i: int| 0 <= i < w.len() ==> !delim_char(#[trigger] w[i])
}

/// A tree that the parser can build: no `Null`, no negative number, and
/// words that read back as words.
pub open spec fn parsed_shape(n: NodeV) -> bool
    decreases n,
{
    match n {
        NodeV::Null => false,
        NodeV::Number(x) => 0 <= x,
        NodeV::Word(w) => word_text(w),
        NodeV::List(l) => forall|i: int| 0 <= i < l.len() ==> parsed_shape(#[trigger] l[i]),
    }
}

/// A token that the lexer can produce.
pub open spec fn lexed_shape(t: TokenV) -> bool {
    match t {
        TokenV::Number(x) => 0 <= x,
        TokenV::Word(w) => word_text(w),
        _ => true,
    }
}

/// The tokens that spell a tree.
pub open spec fn node_tokens(n: NodeV) -> Seq<TokenV>
    decreases n, 1int,
{
    match n {
        NodeV::Null => Seq::empty(),
        NodeV::Number(x) => seq![TokenV::Number(x)],
        NodeV::Word(w) => seq![TokenV::Word(w)],
        NodeV::List(l) => seq![TokenV::LParen] + items_tokens(l) + seq![TokenV::RParen],
    }
}

/// The tokens that spell a sequence of trees.
pub open spec fn items_tokens(l: Seq<NodeV>) -> Seq<TokenV>
    decreases l, 0int,
{
    if l.len() == 0 {
        Seq::empty()
    } else {
        node_tokens(l[0]) + items_tokens(l.drop_first())
    }
}

/// Text that ends a token, or no text at all.
pub open spec fn token_end(rest: Seq<char>) -> bool {
    rest.len() == 0 || delim_char(rest[0])
}

proof fn lemma_runs_exact(d: Seq<char>, rest: Seq<char>)
    requires
        token_end(rest),
    ensures
        (forall|i: int| 0 <= i < d.len() ==> digit_char(#[trigger] d[i])) ==> digit_run(d + rest)
            == d.len(),
        (forall|i: int| 0 <= i < d.len() ==> !delim_char(#[trigger] d[i])) ==> word_run(d + rest)
            == d.len(),
    decreases d.len(),
{
    if d.len() == 0 {
        assert(d + rest =~= rest);
    } else {
        assert((d + rest).drop_first() =~= d.drop_first() + rest);
        assert((d + rest)[0] == d[0]);
        assert(forall|i: int| 0 <= i < d.len() - 1 ==> #[trigger] d.drop_first()[i] == d[i + 1]);
        lemma_runs_exact(d.drop_first(), rest);
    }
}

proof fn lemma_nat_digits(x: nat)
    ensures
        nat_digits(x).len() > 0,
        forall|i: int| 0 <= i < nat_digits(x).len() ==> digit_char(#[trigger] nat_digits(x)[i]),
        digits_value(nat_digits(x)) == x,
    decreases x,
{
    if x >= 10 {
        lemma_nat_digits(x / 10);
        let d = nat_digits(x);
        assert(d.drop_last() =~= nat_digits(x / 10));
        assert(d.last() as u32 == x % 10 + 0x30);
        assert(x == 10 * (x / 10) + x % 10);
        assert(digits_value(d) == 10 * digits_value(d.drop_last()) + (d.last() as u32 - 0x30));
    } else {
        let d = nat_digits(x);
        assert(d.drop_last() =~= Seq::<char>::empty());
        assert(d.last() as u32 == x + 0x30);
        assert(digits_value(d) == 10 * digits_value(d.drop_last()) + (d.last() as u32 - 0x30));
        assert(digits_value(d.drop_last()) == 0);
    }
}

/// The text of a tree, read by the lexer, gives back the tokens that spell
/// it.
proof fn lemma_lex_render(n: NodeV, rest: Seq<char>)
    requires
        parsed_shape(n),
        token_end(rest),
    ensures
        lex_spec(render_spec(n) + rest) == node_tokens(n) + lex_spec(rest),
    decreases n, 1int,
{
    let s = render_spec(n) + rest;
    match n {
        NodeV::Number(x) => {
            let d = nat_digits(x as nat);
            lemma_nat_digits(x as nat);
            lemma_runs_exact(d, rest);
            assert(s[0] == d[0]);
            assert(s.take(d.len() as int) =~= d);
            assert(s.skip(d.len() as int) =~= rest);
        },
        NodeV::Word(w) => {
            lemma_runs_exact(w, rest);
            assert(s[0] == w[0]);
            assert(s.take(w.len() as int) =~= w);
            assert(s.skip(w.len() as int) =~= rest);
        },
        NodeV::List(l) => {
            let close = seq![')'] + rest;
            lemma_lex_items(l, close);
            assert(s[0] == '(');
            assert(s.drop_first() =~= render_items_spec(l) + close);
            assert(close[0] == ')');
            assert(close.drop_first() =~= rest);
            assert(node_tokens(n) + lex_spec(rest) =~= seq![TokenV::LParen] + (items_tokens(l) + (
            seq![TokenV::RParen] + lex_spec(rest))));
        },
        NodeV::Null => {},
    }
}

/// The text of a sequence of trees, read by the lexer, gives back the tokens
/// that spell them.
proof fn lemma_lex_items(l: Seq<NodeV>, rest: Seq<char>)
    requires
        forall|i: int| 0 <= i < l.len() ==> parsed_shape(#[trigger] l[i]),
        token_end(rest),
    ensures
        lex_spec(render_items_spec(l) + rest) == items_tokens(l) + lex_spec(rest),
    decreases l, 0int,
{
    if l.len() == 0 {
        assert(render_items_spec(l) + rest =~= rest);
        assert(items_tokens(l) + lex_spec(rest) =~= lex_spec(rest));
    } else {
        let tail = l.drop_first();
        assert(forall|i: int| 0 <= i < tail.len() ==> #[trigger] tail[i] == l[i + 1]);
        if l.len() == 1 {
            lemma_lex_render(l[0], rest);
            assert(items_tokens(tail) =~= Seq::<TokenV>::empty());
            assert(items_tokens(l) =~= node_tokens(l[0]));
        } else {
            let after = seq![' '] + render_items_spec(tail) + rest;
            lemma_lex_render(l[0], after);
            assert(render_items_spec(l) + rest =~= render_spec(l[0]) + after);
            assert(after[0] == ' ');
            assert(after.drop_first() =~= render_items_spec(tail) + rest);
            lemma_lex_items(tail, rest);
            assert(items_tokens(l) + lex_spec(rest) =~= node_tokens(l[0]) + (items_tokens(tail)
                + lex_spec(rest)));
        }
    }
}

/// The parser reads the tokens that spell a tree back into that tree, and
/// goes on with what follows.
proof fn lemma_parse_node(n: NodeV, more: Seq<TokenV>)
    requires
        parsed_shape(n),
    ensures
        parse_items(node_tokens(n) + more) == (
        seq![n] + parse_items(more).0,
        node_tokens(n).len() + parse_items(more).1,
        ),
    decreases n, 1int,
{
    let t = node_tokens(n) + more;
    match n {
        NodeV::List(l) => {
            let close = seq![TokenV::RParen] + more;
            lemma_parse_items(l, close);
            assert(t[0] == TokenV::LParen);
            assert(t.drop_first() =~= items_tokens(l) + close);
            assert(close[0] == TokenV::RParen);
            let used = items_tokens(l).len() + 1int;
            assert(t.drop_first().skip(used) =~= more);
        },
        NodeV::Null => {},
        _ => {
            assert(t[0] == node_tokens(n)[0]);
            assert(t.drop_first() =~= more);
        },
    }
}

/// The parser reads the tokens that spell a sequence of trees back into
/// those trees, up to and including a close-marker that follows them.
proof fn lemma_parse_items(l: Seq<NodeV>, more: Seq<TokenV>)
    requires
        forall|i: int| 0 <= i < l.len() ==> parsed_shape(#[trigger] l[i]),
        more.len() == 0 || more[0] is RParen,
    ensures
        parse_items(items_tokens(l) + more) == (
        l,
        items_tokens(l).len() + if more.len() == 0 {
            0int
        } else {
            1int
        },
        ),
    decreases l, 0int,
{
    if l.len() == 0 {
        assert(items_tokens(l) + more =~= more);
        assert(l =~= Seq::<NodeV>::empty());
    } else {
        let tail = l.drop_first();
        assert(forall|i: int| 0 <= i < tail.len() ==> #[trigger] tail[i] == l[i + 1]);
        lemma_parse_items(tail, more);
        lemma_parse_node(l[0], items_tokens(tail) + more);
        assert(items_tokens(l) + more =~= node_tokens(l[0]) + (items_tokens(tail) + more));
        assert(seq![l[0]] + tail =~= l);
    }
}

proof fn lemma_word_run_chars(s: Seq<char>)
    ensures
        forall|i: int| 0 <= i < word_run(s) ==> !delim_char(#[trigger] s[i]),
    decreases s.len(),
{
    if s.len() > 0 {
        lemma_word_run_chars(s.drop_first());
        lemma_runs_bounded(s.drop_first());
        assert forall|i: int| 0 <= i < word_run(s) implies !delim_char(#[trigger] s[i]) by {
            if i > 0 {
                assert(s[i] == s.drop_first()[i - 1]);
            }
        }
    }
}

proof fn lemma_lexed_concat(x: Seq<TokenV>, y: Seq<TokenV>)
    requires
        forall|k: int| 0 <= k < x.len() ==> lexed_shape(#[trigger] x[k]),
        forall|k: int| 0 <= k < y.len() ==> lexed_shape(#[trigger] y[k]),
    ensures
        forall|k: int| 0 <= k < (x + y).len() ==> lexed_shape(#[trigger] (x + y)[k]),
{
    assert forall|k: int| 0 <= k < (x + y).len() implies lexed_shape(#[trigger] (x + y)[k]) by {
        if k >= x.len() {
            assert((x + y)[k] == y[k - x.len()]);
        }
    }
}

proof fn lemma_parsed_concat(x: Seq<NodeV>, y: Seq<NodeV>)
    requires
        forall|k: int| 0 <= k < x.len() ==> parsed_shape(#[trigger] x[k]),
        forall|k: int| 0 <= k < y.len() ==> parsed_shape(#[trigger] y[k]),
    ensures
        forall|k: int| 0 <= k < (x + y).len() ==> parsed_shape(#[trigger] (x + y)[k]),
{
    assert forall|k: int| 0 <= k < (x + y).len() implies parsed_shape(#[trigger] (x + y)[k]) by {
        if k >= x.len() {
            assert((x + y)[k] == y[k - x.len()]);
        }
    }
}

/// The lexer produces only non-negative numbers and words that read back as
/// words.
proof fn lemma_lex_shape(s: Seq<char>)
    ensures
        forall|k: int| 0 <= k < lex_spec(s).len() ==> lexed_shape(#[trigger] lex_spec(s)[k]),
    decreases s.len(),
{
    if s.len() > 0 {
        lemma_runs_bounded(s);
        lemma_runs_bounded(s.drop_first());
        let c = s[0];
        if space_char(c) {
            lemma_lex_shape(s.drop_first());
            assert(lex_spec(s) == lex_spec(s.drop_first()));
        } else if c == '(' || c == ')' {
            lemma_lex_shape(s.drop_first());
            let tok = if c == '(' {
                TokenV::LParen
            } else {
                TokenV::RParen
            };
            lemma_lexed_concat(seq![tok], lex_spec(s.drop_first()));
            assert(lex_spec(s) == seq![tok] + lex_spec(s.drop_first()));
        } else if c == ';' {
            lemma_lex_shape(after_line(s.drop_first()));
            assert(lex_spec(s) == lex_spec(after_line(s.drop_first())));
        } else if digit_char(c) {
            let n = digit_run(s) as int;
            lemma_digit_run(s, 0);
            let d = s.take(n);
            assert(forall|i: int| 0 <= i < d.len() ==> #[trigger] d[i] == s[i]);
            lemma_digits_value_grows(d, 0);
            lemma_lex_shape(s.skip(n));
            assert(lexed_shape(TokenV::Number(digits_value(d))));
            lemma_lexed_concat(seq![TokenV::Number(digits_value(d))], lex_spec(s.skip(n)));
            assert(lex_spec(s) == seq![TokenV::Number(digits_value(d))] + lex_spec(s.skip(n)));
        } else {
            let n = word_run(s) as int;
            lemma_word_run_chars(s);
            let w = s.take(n);
            assert(forall|i: int| 0 <= i < w.len() ==> #[trigger] w[i] == s[i]);
            assert(word_text(w));
            lemma_lex_shape(s.skip(n));
            lemma_lexed_concat(seq![TokenV::Word(w)], lex_spec(s.skip(n)));
            assert(lex_spec(s) == seq![TokenV::Word(w)] + lex_spec(s.skip(n)));
        }
    }
}

/// The parser builds trees of the shape that rendering reads back, from
/// tokens that the lexer can produce.
proof fn lemma_parse_shape(t: Seq<TokenV>)
    requires
        forall|k: int| 0 <= k < t.len() ==> lexed_shape(#[trigger] t[k]),
    ensures
        forall|i: int|
            0 <= i < parse_items(t).0.len() ==> parsed_shape(#[trigger] parse_items(t).0[i]),
    decreases t.len(),
{
    if t.len() > 0 {
        let rest = t.drop_first();
        assert(forall|k: int| 0 <= k < rest.len() ==> #[trigger] rest[k] == t[k + 1]);
        lemma_parse_shape(rest);
        if t[0] is LParen {
            crate::parser::lemma_parse_items_bounded(rest);
            let used = parse_items(rest).1;
            let r2 = rest.skip(used);
            assert(forall|k: int| 0 <= k < r2.len() ==> #[trigger] r2[k] == rest[k + used]);
            lemma_parse_shape(r2);
            let inner = parse_items(rest).0;
            assert(parsed_shape(NodeV::List(inner)));
            lemma_parsed_concat(seq![NodeV::List(inner)], parse_items(r2).0);
        } else if !(t[0] is RParen) {
            let x = match t[0] {
                TokenV::Number(v) => NodeV::Number(v),
                TokenV::Word(w) => NodeV::Word(w),
                _ => NodeV::Null,
            };
            assert(lexed_shape(t[0]));
            lemma_parsed_concat(seq![x], parse_items(rest).0);
        }
    }
}

/// Rendering the forms of a parsed program, separated by spaces, and
/// parsing that text again gives the same tree, and so the same result.
/// Rendering the whole program list gives a program of one form: that list.
pub proof fn lemma_render_parse_round_trip(s: Seq<char>)
    ensures
        parse_spec(lex_spec(render_items_spec(parse_items(lex_spec(s)).0))) == parse_spec(
            lex_spec(s),
        ),
        eval_spec(parse_spec(lex_spec(render_items_spec(parse_items(lex_spec(s)).0))))
            == eval_spec(parse_spec(lex_spec(s))),
        parse_spec(lex_spec(render_spec(parse_spec(lex_spec(s))))) == NodeV::List(
            seq![parse_spec(lex_spec(s))],
        ),
{
    let items = parse_items(lex_spec(s)).0;
    lemma_lex_shape(s);
    lemma_parse_shape(lex_spec(s));
    let none = Seq::<char>::empty();
    let no_tokens = Seq::<TokenV>::empty();
    lemma_lex_items(items, none);
    assert(render_items_spec(items) + none =~= render_items_spec(items));
    assert(items_tokens(items) + lex_spec(none) =~= items_tokens(items));
    lemma_parse_items(items, no_tokens);
    assert(items_tokens(items) + no_tokens =~= items_tokens(items));
    let top = parse_spec(lex_spec(s));
    lemma_lex_render(top, none);
    assert(render_spec(top) + none =~= render_spec(top));
    assert(node_tokens(top) + lex_spec(none) =~= node_tokens(top));
    lemma_parse_node(top, no_tokens);
    assert(node_tokens(top) + no_tokens =~= node_tokens(top));
    assert(seq![top] + Seq::<NodeV>::empty() =~= seq![top]);
}

} // verus!
