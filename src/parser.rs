//! The parser: tokens to a tree of nested lists.
use vstd::prelude::*;

use crate::lexer::view_tokens;
use crate::node::{lemma_view_nodes_push, view_nodes, Node, NodeV, Token, TokenV};

verus! {

/// The items of one list read from the front of `t`, and how many tokens
/// they take. A close-marker ends the list and is consumed with it; the end
/// of the tokens ends it too. (The count never exceeds what is there, see
/// `lemma_parse_items_bounded`, so the second branch of the open-marker case
/// is never taken.)
pub open spec fn parse_items(t: Seq<TokenV>) -> (Seq<NodeV>, int)
    decreases t.len(),
{
    if t.len() == 0 {
        (Seq::empty(), 0)
    } else {
        let rest = t.drop_first();
        match t[0] {
            TokenV::RParen => (Seq::empty(), 1),
            TokenV::LParen => {
                let (inner, used) = parse_items(rest);
                if 0 <= used <= rest.len() {
                    let (more, used2) = parse_items(rest.skip(used));
                    (seq![NodeV::List(inner)] + more, 1 + used + used2)
                } else {
                    (seq![NodeV::List(inner)], 1 + used)
                }
            },
            TokenV::Number(x) => {
                let (more, used) = parse_items(rest);
                (seq![NodeV::Number(x)] + more, 1 + used)
            },
            TokenV::Word(w) => {
                let (more, used) = parse_items(rest);
                (seq![NodeV::Word(w)] + more, 1 + used)
            },
        }
    }
}

/// The tree of a whole program: the list of its top-level forms.
pub open spec fn parse_spec(t: Seq<TokenV>) -> NodeV {
    NodeV::List(parse_items(t).0)
}

pub proof fn lemma_parse_items_bounded(t: Seq<TokenV>)
    ensures
        0 <= parse_items(t).1 <= t.len(),
        t.len() > 0 ==> parse_items(t).1 > 0,
    decreases t.len(),
{
    if t.len() > 0 {
        let rest = t.drop_first();
        lemma_parse_items_bounded(rest);
        if t[0] is LParen {
            lemma_parse_items_bounded(rest.skip(parse_items(rest).1));
        }
    }
}

/// Reads the items of one list from `tokens`, starting at `pos`; returns them
/// and the position after the list.
fn parse_list(tokens: &Vec<Token>, pos: usize) -> (r: (Vec<Node>, usize))
    requires
        pos <= tokens.len(),
    ensures
        view_nodes(r.0@) == parse_items(view_tokens(tokens@).skip(pos as int)).0,
        r.1 == pos + parse_items(view_tokens(tokens@).skip(pos as int)).1,
    decreases tokens.len() - pos,
{
    let ghost t = view_tokens(tokens@);
    let n = tokens.len();
    let mut i = pos;
    let mut items: Vec<Node> = Vec::new();
    assert(Seq::<NodeV>::empty() + parse_items(t.skip(pos as int)).0 =~= parse_items(
        t.skip(pos as int),
    ).0);
    while i < n
        invariant
            pos <= i <= n == tokens.len(),
            t == view_tokens(tokens@),
            parse_items(t.skip(pos as int)).0 == view_nodes(items@) + parse_items(
                t.skip(i as int),
            ).0,
            parse_items(t.skip(pos as int)).1 == (i - pos) + parse_items(t.skip(i as int)).1,
        decreases n - i,
    {
        let ghost rest = t.skip(i as int);
        assert(rest[0] == tokens@[i as int]@);
        assert(rest.drop_first() =~= t.skip(i + 1));
        let ghost old_items = items@;
        match &tokens[i] {
            Token::RParen => {
                assert(parse_items(t.skip(pos as int)).0 =~= view_nodes(items@));
                return (items, i + 1);
            },
            Token::LParen => {
                let (inner, next) = parse_list(tokens, i + 1);
                proof {
                    lemma_parse_items_bounded(t.skip(i + 1));
                    assert(t.skip(i + 1).skip(parse_items(t.skip(i + 1)).1) =~= t.skip(
                        next as int,
                    ));
                }
                let x = Node::List(inner);
                items.push(x);
                i = next;
            },
            Token::Number(v) => {
                let x = Node::Number(*v);
                items.push(x);
                i = i + 1;
            },
            Token::Word(w) => {
                let x = Node::Word(w.clone());
                items.push(x);
                i = i + 1;
            },
        }
        proof {
            lemma_view_nodes_push(old_items, items@.last());
            assert(items@ == old_items.push(items@.last()));
        }
        assert(parse_items(t.skip(pos as int)).0 =~= view_nodes(items@) + parse_items(
            t.skip(i as int),
        ).0);
    }
    assert(t.skip(i as int).len() == 0);
    assert(parse_items(t.skip(pos as int)).0 =~= view_nodes(items@));
    (items, i)
}

/// Builds the tree of a program from its tokens: a list of the top-level
/// forms, each parenthesised group a nested list.
pub fn parse(tokens: &Vec<Token>) -> (r: Node)
    ensures
        r@ == parse_spec(view_tokens(tokens@)),
{
    let (items, _) = parse_list(tokens, 0);
    assert(view_tokens(tokens@).skip(0) =~= view_tokens(tokens@));
    Node::List(items)
}

} // verus!
