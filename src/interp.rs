//! The evaluator: a tree to its value.
use vstd::prelude::*;
use vstd::string::*;

use crate::node::{lemma_view_nodes_index, lemma_view_nodes_push, view_nodes, Node, NodeV};

verus! {

/// Why evaluation failed.
#[derive(Debug, Clone, Copy, PartialEq, Eq)]
pub enum EvalError {
    /// An addition form with fewer than two operands.
    MissingOperand,
    /// A sum that does not fit in an `i64`.
    Overflow,
}

/// The name of the addition operator.
pub open spec fn plus_word(w: Seq<char>) -> bool {
    w == seq!['+']
}

/// The addition form `l`: both operands are evaluated, left first; a sum of
/// two numbers is their value, anything else is `Null`.
pub open spec fn eval_binop_spec(l: Seq<NodeV>) -> Result<NodeV, EvalError>
    decreases l, 0int,
{
    if l.len() < 3 {
        Err(EvalError::MissingOperand)
    } else {
        match eval_spec(l[1]) {
            Err(e) => Err(e),
            Ok(a) => match eval_spec(l[2]) {
                Err(e) => Err(e),
                Ok(b) => if a is Number && b is Number && l[0] is Word && plus_word(
                    l[0]->Word_0,
                ) {
                    let s = a->Number_0 + b->Number_0;
                    if i64::MIN <= s <= i64::MAX {
                        Ok(NodeV::Number(s))
                    } else {
                        Err(EvalError::Overflow)
                    }
                } else {
                    Ok(NodeV::Null)
                },
            },
        }
    }
}

/// The non-`Null` values of the elements of `l`, in order; the first error
/// among them, if any.
pub open spec fn eval_seq_spec(l: Seq<NodeV>) -> Result<Seq<NodeV>, EvalError>
    decreases l, 0int,
{
    if l.len() == 0 {
        Ok(Seq::empty())
    } else {
        match eval_seq_spec(l.drop_last()) {
            Err(e) => Err(e),
            Ok(r) => match eval_spec(l.last()) {
                Err(e) => Err(e),
                Ok(v) => if v is Null {
                    Ok(r)
                } else {
                    Ok(r.push(v))
                },
            },
        }
    }
}

/// An error in the sequence evaluation of a prefix is the error of the whole.
proof fn lemma_seq_error_stays(l: Seq<NodeV>, k: int)
    requires
        0 <= k <= l.len(),
        eval_seq_spec(l.take(k)) is Err,
    ensures
        eval_seq_spec(l) == eval_seq_spec(l.take(k)),
    decreases l.len(),
{
    if k == l.len() {
        assert(l.take(k) =~= l);
    } else {
        assert(l.drop_last().take(k) =~= l.take(k));
        lemma_seq_error_stays(l.drop_last(), k);
    }
}

/// The value of a list: an addition form, a form with another operator
/// (`Null`), or a plain sequence.
pub open spec fn eval_list_spec(l: Seq<NodeV>) -> Result<NodeV, EvalError>
    decreases l, 1int,
{
    if l.len() > 0 && l[0] is Word {
        if plus_word(l[0]->Word_0) {
            eval_binop_spec(l)
        } else {
            Ok(NodeV::Null)
        }
    } else {
        match eval_seq_spec(l) {
            Err(e) => Err(e),
            Ok(r) => Ok(NodeV::List(r)),
        }
    }
}

/// The value of a node. Numbers and `Null` stand for themselves; a word
/// alone has no value.
pub open spec fn eval_spec(n: NodeV) -> Result<NodeV, EvalError>
    decreases n, 0int,
{
    match n {
        NodeV::Null => Ok(NodeV::Null),
        NodeV::Number(x) => Ok(NodeV::Number(x)),
        NodeV::Word(_) => Ok(NodeV::Null),
        NodeV::List(l) => eval_list_spec(l),
    }
}

/// The model of an evaluation outcome.
pub open spec fn view_result(r: Result<Node, EvalError>) -> Result<NodeV, EvalError> {
    match r {
        Ok(n) => Ok(n@),
        Err(e) => Err(e),
    }
}

/// Whether `w` is the addition operator.
fn is_plus(w: &String) -> (r: bool)
    ensures
        r == plus_word(w@),
{
    let s = w.as_str();
    if s.unicode_len() == 1 {
        let c = s.get_char(0);
        assert(w@.len() == 1 ==> (w@ == seq!['+'] <==> w@[0] == '+')) by {
            if w@.len() == 1 && w@[0] == '+' {
                assert(w@ =~= seq!['+']);
            }
        }
        c == '+'
    } else {
        false
    }
}

/// The value of a word alone.
pub fn interp_word(word: &String) -> (r: Node)
    ensures
        r@ == NodeV::Null,
{
    Node::Null
}

/// Evaluates a node.
pub fn interp_node(node: &Node) -> (r: Result<Node, EvalError>)
    ensures
        view_result(r) == eval_spec(node@),
    decreases node, 0int,
{
    match node {
        Node::List(l) => interp_list(l),
        Node::Word(w) => Ok(interp_word(w)),
        Node::Number(x) => Ok(Node::Number(*x)),
        Node::Null => Ok(Node::Null),
    }
}

/// Evaluates the addition form `list`.
pub fn interp_binop(list: &Vec<Node>) -> (r: Result<Node, EvalError>)
    ensures
        view_result(r) == eval_binop_spec(view_nodes(list@)),
    decreases list, 0int,
{
    proof {
        lemma_view_nodes_index(list@);
    }
    if list.len() < 3 {
        return Err(EvalError::MissingOperand);
    }
    let left = interp_node(&list[1])?;
    let right = interp_node(&list[2])?;
    if let Node::Word(w) = &list[0] {
        if is_plus(w) {
            if let (Node::Number(a), Node::Number(b)) = (&left, &right) {
                return match a.checked_add(*b) {
                    Some(s) => Ok(Node::Number(s)),
                    None => Err(EvalError::Overflow),
                };
            }
        }
    }
    Ok(Node::Null)
}

/// Evaluates a list: an addition form, a form with another operator, or a
/// sequence whose non-`Null` values are collected.
pub fn interp_list(list: &Vec<Node>) -> (r: Result<Node, EvalError>)
    ensures
        view_result(r) == eval_list_spec(view_nodes(list@)),
    decreases list, 1int,
{
    let ghost l = view_nodes(list@);
    proof {
        lemma_view_nodes_index(list@);
    }
    if list.len() > 0 {
        if let Node::Word(w) = &list[0] {
            if is_plus(w) {
                return interp_binop(list);
            } else {
                return Ok(Node::Null);
            }
        }
    }
    assert(!(l.len() > 0 && l[0] is Word));
    let mut out: Vec<Node> = Vec::new();
    let mut k: usize = 0;
    assert(l.take(0) =~= Seq::<NodeV>::empty());
    assert(view_nodes(out@) =~= Seq::<NodeV>::empty());
    while k < list.len()
        invariant
            k <= list.len(),
            l == view_nodes(list@),
            l.len() == list.len(),
            forall|j: int| 0 <= j < list.len() ==> #[trigger] l[j] == list@[j]@,
            !(l.len() > 0 && l[0] is Word),
            eval_seq_spec(l.take(k as int)) == Ok::<Seq<NodeV>, EvalError>(view_nodes(out@)),
        decreases list.len() - k,
    {
        assert(l.take(k + 1).drop_last() =~= l.take(k as int));
        assert(l.take(k + 1).last() == list@[k as int]@);
        let v = match interp_node(&list[k]) {
            Ok(v) => v,
            Err(e) => {
                proof {
                    assert(eval_seq_spec(l.take(k + 1)) == Err::<Seq<NodeV>, EvalError>(e));
                    lemma_seq_error_stays(l, k + 1);
                }
                return Err(e);
            },
        };
        if !matches!(v, Node::Null) {
            proof {
                lemma_view_nodes_push(out@, v);
            }
            out.push(v);
        }
        k = k + 1;
    }
    assert(l.take(k as int) =~= l);
    Ok(Node::List(out))
}

} // verus!
