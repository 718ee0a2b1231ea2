use sexp_eval::interp::{interp_binop, interp_list, interp_node, interp_word, EvalError};
use sexp_eval::lexer::{lex, pad_parens, LexError};
use sexp_eval::node::{Node, Token};
use sexp_eval::parser::parse;

fn chars_of(s: &str) -> Vec<char> {
    s.chars().collect()
}

fn tokens_of(s: &str) -> Vec<Token> {
    lex(&pad_parens(&chars_of(s))).expect("literals fit")
}

fn tree_of(s: &str) -> Node {
    parse(&tokens_of(s))
}

fn run(s: &str) -> Result<Node, EvalError> {
    interp_node(&tree_of(s))
}

fn word(s: &str) -> Node {
    Node::Word(s.to_string())
}

#[test]
fn simple_sum_tokens_tree_and_result() {
    assert_eq!(
        tokens_of("(+ 1 2)"),
        vec![
            Token::LParen,
            Token::Word("+".to_string()),
            Token::Number(1),
            Token::Number(2),
            Token::RParen
        ]
    );
    assert_eq!(
        tree_of("(+ 1 2)"),
        Node::List(vec![Node::List(vec![word("+"), Node::Number(1), Node::Number(2)])])
    );
    assert_eq!(run("(+ 1 2)"), Ok(Node::List(vec![Node::Number(3)])));
}

#[test]
fn nested_sum() {
    assert_eq!(run("(+ (+ 1 2) 3)"), Ok(Node::List(vec![Node::Number(6)])));
}

#[test]
fn nested_sum_on_the_right() {
    assert_eq!(run("(+ 10 (+ 20 (+ 30 40)))"), Ok(Node::List(vec![Node::Number(100)])));
}

#[test]
fn bare_word_is_dropped() {
    assert_eq!(tokens_of("foo"), vec![Token::Word("foo".to_string())]);
    assert_eq!(tree_of("foo"), Node::List(vec![word("foo")]));
    // The top-level list is headed by a word other than `+`, so the whole
    // program evaluates to `Null`.
    assert_eq!(run("foo"), Ok(Node::Null));
    assert_eq!(run("1 foo"), Ok(Node::List(vec![Node::Number(1)])));
}

#[test]
fn sibling_forms() {
    assert_eq!(
        run("(+ 1 2) (+ 3 4)"),
        Ok(Node::List(vec![Node::Number(3), Node::Number(7)]))
    );
}

#[test]
fn comment_only() {
    assert_eq!(tokens_of("; comment only"), vec![]);
    assert_eq!(run("; comment only"), Ok(Node::List(vec![])));
}

#[test]
fn comment_line_adds_no_tokens() {
    assert_eq!(tokens_of("; (+ 1 2) 99 words\n(+ 1 2)"), tokens_of("(+ 1 2)"));
    assert_eq!(tokens_of("7 ; x\n8"), vec![Token::Number(7), Token::Number(8)]);
}

#[test]
fn empty_input() {
    assert_eq!(tokens_of(""), vec![]);
    assert_eq!(tree_of(""), Node::List(vec![]));
    assert_eq!(run(""), Ok(Node::List(vec![])));
    assert_eq!(run("  \n\t "), Ok(Node::List(vec![])));
}

#[test]
fn digits_then_letters_split() {
    assert_eq!(
        lex(&chars_of("12ab")),
        Ok(vec![Token::Number(12), Token::Word("ab".to_string())])
    );
    assert_eq!(lex(&chars_of("a1")), Ok(vec![Token::Word("a1".to_string())]));
}

#[test]
fn last_character_is_read() {
    assert_eq!(lex(&chars_of("42")), Ok(vec![Token::Number(42)]));
    assert_eq!(lex(&chars_of(")")), Ok(vec![Token::RParen]));
}

#[test]
fn largest_literal_fits() {
    assert_eq!(
        lex(&chars_of("9223372036854775807")),
        Ok(vec![Token::Number(i64::MAX)])
    );
}

#[test]
fn literal_out_of_range() {
    assert_eq!(lex(&chars_of("9223372036854775808")), Err(LexError::NumberOutOfRange));
    assert_eq!(lex(&chars_of("1 99999999999999999999999 2")), Err(LexError::NumberOutOfRange));
}

#[test]
fn pad_parens_spaces_them() {
    assert_eq!(pad_parens(&chars_of("(a)")), chars_of(" ( a ) "));
}

#[test]
fn other_operator_is_null() {
    assert_eq!(run("(- 5 3)"), Ok(Node::List(vec![])));
    let l = vec![word("*"), Node::Number(2), Node::Number(3)];
    assert_eq!(interp_list(&l), Ok(Node::Null));
}

#[test]
fn nulls_are_dropped_from_sequences() {
    assert_eq!(
        run("(+ 1 2) a (f 1) b 5"),
        Ok(Node::List(vec![Node::Number(3), Node::Number(5)]))
    );
}

#[test]
fn empty_list_is_empty_sequence() {
    assert_eq!(run("()"), Ok(Node::List(vec![Node::List(vec![])])));
}

#[test]
fn nested_sequence_keeps_lists() {
    assert_eq!(
        run("((+ 1 1) 4)"),
        Ok(Node::List(vec![Node::List(vec![Node::Number(2), Node::Number(4)])]))
    );
}

#[test]
fn sum_with_word_operand_is_null() {
    assert_eq!(run("(+ x 1)"), Ok(Node::List(vec![])));
}

#[test]
fn short_sum_is_missing_operand() {
    assert_eq!(run("(+ 1)"), Err(EvalError::MissingOperand));
    assert_eq!(run("(+)"), Err(EvalError::MissingOperand));
}

#[test]
fn sum_overflow() {
    assert_eq!(run("(+ 9223372036854775807 1)"), Err(EvalError::Overflow));
}

#[test]
fn binop_directly() {
    let l = vec![word("+"), Node::Number(40), Node::Number(2)];
    assert_eq!(interp_binop(&l), Ok(Node::Number(42)));
    let short = vec![word("+"), Node::Number(40)];
    assert_eq!(interp_binop(&short), Err(EvalError::MissingOperand));
}

#[test]
fn word_alone_is_null() {
    assert_eq!(interp_word(&"anything".to_string()), Node::Null);
    assert_eq!(interp_node(&Node::Number(-4)), Ok(Node::Number(-4)));
    assert_eq!(interp_node(&Node::Null), Ok(Node::Null));
}

#[test]
fn unbalanced_parens_are_tolerated() {
    assert_eq!(
        tree_of("(+ 1 2"),
        Node::List(vec![Node::List(vec![word("+"), Node::Number(1), Node::Number(2)])])
    );
    assert_eq!(tree_of("1 ) 2"), Node::List(vec![Node::Number(1)]));
}

#[test]
fn render_text() {
    let t = tree_of("(+ 1 (f x)) 7");
    assert_eq!(t.render(), "((+ 1 (f x)) 7)");
    assert_eq!(Node::Number(-120).render(), "-120");
    assert_eq!(Node::Number(i64::MIN).render(), "-9223372036854775808");
    assert_eq!(Node::Null.render(), "Null");
    assert_eq!(Node::List(vec![]).render(), "()");
}

#[test]
fn render_then_parse_gives_same_tree() {
    let t = tree_of("(+ 1 (+ 2 3)) foo (bar 12 ()) 4");
    let text = t.render();
    let again = tree_of(&text);
    assert_eq!(again, Node::List(vec![t]));
}

#[test]
fn rendered_forms_parse_to_the_same_program() {
    let t = tree_of("(+ 1 (+ 2 3)) foo (bar 12 ()) 4");
    let forms = match &t {
        Node::List(items) => items.iter().map(|n| n.render()).collect::<Vec<_>>().join(" "),
        _ => panic!("a program is a list"),
    };
    assert_eq!(forms, "(+ 1 (+ 2 3)) foo (bar 12 ()) 4");
    let again = tree_of(&forms);
    assert_eq!(again, t);
    assert_eq!(interp_node(&again), interp_node(&t));
}

#[test]
fn unicode_white_space_separates_tokens() {
    assert_eq!(
        lex(&chars_of("1\u{3000}2\u{a0}x")),
        Ok(vec![Token::Number(1), Token::Number(2), Token::Word("x".to_string())])
    );
}

#[test]
fn comment_to_end_of_text() {
    assert_eq!(lex(&chars_of("5 ; trailing (+ 1 2)")), Ok(vec![Token::Number(5)]));
}
