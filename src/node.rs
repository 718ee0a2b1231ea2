//! Tokens and tree nodes, with their mathematical models.
use vstd::prelude::*;

verus! {

/// A lexical unit of the source text.
#[derive(Debug, PartialEq)]
pub enum Token {
    LParen,
    RParen,
    Number(i64),
    Word(String),
}

/// The model of a token: a number literal is an unbounded integer, so that a
/// literal too large for `i64` can be spoken of.
pub enum TokenV {
    LParen,
    RParen,
    Number(int),
    Word(Seq<char>),
}

impl View for Token {
    type V = TokenV;

    open spec fn view(&self) -> TokenV {
        match self {
            Token::LParen => TokenV::LParen,
            Token::RParen => TokenV::RParen,
            Token::Number(n) => TokenV::Number(*n as int),
            Token::Word(w) => TokenV::Word(w@),
        }
    }
}

/// A tree of the language, used both for parsed programs and for results.
#[derive(Debug, PartialEq)]
pub enum Node {
    Null,
    List(Vec<Node>),
    Number(i64),
    Word(String),
}

/// The model of a tree node.
pub enum NodeV {
    Null,
    List(Seq<NodeV>),
    Number(int),
    Word(Seq<char>),
}

/// The models of a sequence of nodes.
pub open spec fn view_nodes(s: Seq<Node>) -> Seq<NodeV>
    decreases s,
{
    if s.len() == 0 {
        Seq::empty()
    } else {
        view_nodes(s.drop_last()).push(view_node(s.last()))
    }
}

/// The model of a node.
pub open spec fn view_node(n: Node) -> NodeV
    decreases n,
{
    match n {
        Node::Null => NodeV::Null,
        Node::List(l) => NodeV::List(view_nodes(l@)),
        Node::Number(x) => NodeV::Number(x as int),
        Node::Word(w) => NodeV::Word(w@),
    }
}

pub proof fn lemma_view_nodes_index(s: Seq<Node>)
    ensures
        view_nodes(s).len() == s.len(),
        forall|k: int| 0 <= k < s.len() ==> #[trigger] view_nodes(s)[k] == view_node(s[k]),
    decreases s.len(),
{
    if s.len() > 0 {
        lemma_view_nodes_index(s.drop_last());
    }
}

pub proof fn lemma_view_nodes_push(s: Seq<Node>, x: Node)
    ensures
        view_nodes(s.push(x)) == view_nodes(s).push(view_node(x)),
{
    assert(s.push(x).drop_last() =~= s);
}

impl View for Node {
    type V = NodeV;

    open spec fn view(&self) -> NodeV {
        view_node(*self)
    }
}

/// Relies on `String::push`: the character is appended at the end.
#[verifier::external_body]
pub(crate) fn push_char(s: &mut String, c: char)
    ensures
        final(s)@ == old(s)@.push(c),
{
    s.push(c)
}

/// Relies on `String::push_str`: the text is appended at the end.
#[verifier::external_body]
pub(crate) fn push_str(s: &mut String, t: &String)
    ensures
        final(s)@ == old(s)@ + t@,
{
    s.push_str(t)
}

} // verus!
