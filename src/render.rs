//! Rendering a tree as text: lists in parentheses, items separated by one
//! space.
use vstd::prelude::*;

use crate::node::{lemma_view_nodes_index, push_char, push_str, view_nodes, Node, NodeV};

verus! {

/// The decimal digits of `n`, most significant first.
pub open spec fn nat_digits(n: nat) -> Seq<char>
    decreases n,
{
    if n < 10 {
        seq![(n + 0x30) as char]
    } else {
        nat_digits(n / 10).push(((n % 10) + 0x30) as char)
    }
}

/// The decimal text of `x`, with a minus sign when negative.
pub open spec fn int_text(x: int) -> Seq<char> {
    if x < 0 {
        seq!['-'] + nat_digits((-x) as nat)
    } else {
        nat_digits(x as nat)
    }
}

/// The texts of `l`, separated by single spaces.
pub open spec fn render_items_spec(l: Seq<NodeV>) -> Seq<char>
    decreases l, 0int,
{
    if l.len() == 0 {
        Seq::empty()
    } else if l.len() == 1 {
        render_spec(l[0])
    } else {
        render_spec(l[0]) + seq![' '] + render_items_spec(l.drop_first())
    }
}

/// The text of a node.
pub open spec fn render_spec(n: NodeV) -> Seq<char>
    decreases n, 1int,
{
    match n {
        NodeV::Null => seq!['N', 'u', 'l', 'l'],
        NodeV::Number(x) => int_text(x),
        NodeV::Word(w) => w,
        NodeV::List(l) => seq!['('] + render_items_spec(l) + seq![')'],
    }
}

/// Appends the decimal digits of `m`.
fn push_digits(out: &mut String, m: u64)
    ensures
        final(out)@ == old(out)@ + nat_digits(m as nat),
    decreases m,
{
    if m >= 10 {
        push_digits(out, m / 10);
    }
    let d = (m % 10) as u32 + 0x30;
    let c = char_of_digit(d);
    push_char(out, c);
    assert(final(out)@ =~= old(out)@ + nat_digits(m as nat));
}

/// The character with code `d`, an ASCII digit.
fn char_of_digit(d: u32) -> (c: char)
    requires
        0x30 <= d <= 0x39,
    ensures
        c == d as char,
{
    if d == 0x30 { '0' } else if d == 0x31 { '1' } else if d == 0x32 { '2' } else if d == 0x33 { '3' }
    else if d == 0x34 { '4' } else if d == 0x35 { '5' } else if d == 0x36 { '6' } else if d == 0x37 { '7' }
    else if d == 0x38 { '8' } else { '9' }
}

/// Appends the texts of `l[k..]`, separated by single spaces.
fn render_items(l: &Vec<Node>, k: usize, out: &mut String)
    requires
        k <= l.len(),
    ensures
        final(out)@ == old(out)@ + render_items_spec(view_nodes(l@).skip(k as int)),
    decreases l, l.len() - k,
{
    proof {
        lemma_view_nodes_index(l@);
    }
    let ghost rest = view_nodes(l@).skip(k as int);
    if k == l.len() {
        assert(rest.len() == 0);
        assert(final(out)@ =~= old(out)@ + render_items_spec(rest));
        return;
    }
    render_into(&l[k], out);
    assert(rest[0] == l@[k as int]@);
    if k + 1 < l.len() {
        push_char(out, ' ');
        assert(rest.drop_first() =~= view_nodes(l@).skip(k + 1));
        render_items(l, k + 1, out);
    }
    assert(final(out)@ =~= old(out)@ + render_items_spec(rest));
}

/// Appends the text of `n`.
fn render_into(n: &Node, out: &mut String)
    ensures
        final(out)@ == old(out)@ + render_spec(n@),
    decreases n, 0int,
{
    match n {
        Node::Null => {
            push_char(out, 'N');
            push_char(out, 'u');
            push_char(out, 'l');
            push_char(out, 'l');
        },
        Node::Number(x) => {
            if *x < 0 {
                push_char(out, '-');
                let m: u64 = ((-(*x + 1)) as u64) + 1;
                push_digits(out, m);
            } else {
                push_digits(out, *x as u64);
            }
        },
        Node::Word(w) => {
            push_str(out, w);
        },
        Node::List(l) => {
            push_char(out, '(');
            render_items(l, 0, out);
            assert(view_nodes(l@).skip(0) =~= view_nodes(l@));
            push_char(out, ')');
        },
    }
    assert(final(out)@ =~= old(out)@ + render_spec(n@));
}

impl Node {
    /// The text of this node: a list in parentheses with its items separated
    /// by single spaces, a number in decimal, a word as it is, `Null` as
    /// `Null`.
    pub fn render(&self) -> (r: String)
        ensures
            r@ == render_spec(self@),
    {
        let mut out = String::new();
        render_into(self, &mut out);
        assert(out@ =~= render_spec(self@));
        out
    }
}

} // verus!
