//! The abstract syntax tree: a closed set of node variants mirroring the
//! grammar, owned strictly as a tree.
//!
//! Grammar shape: a `Program` holds `Assignment`s; an `Assignment` pairs an
//! `Identifier` with an `Expression`; `+` and `-` chains, and `*` chains,
//! are left-folded into nested `Term` nodes; `Fact` wraps a parenthesized
//! expression or a unary-prefixed fact. The grammar can never produce `*`
//! as a unary operator, and every well-formed tree excludes it.

use vstd::prelude::*;
use core::ops::Range;

verus! {

/// The binary and unary operators of the language.
#[derive(Copy, Clone, Debug, PartialEq, Eq, Structural)]
pub enum Operator {
    Plus,
    Minus,
    Multiply,
}

/// An identifier occurrence: its text and its position in the source.
///
/// The text always equals the source bytes of its range; the range and line
/// make diagnostics possible without re-lexing.
#[derive(Debug)]
pub struct IdentifierNode {
    /// The bytes of the identifier.
    pub literal: Vec<u8>,
    /// The byte range of this occurrence in the source.
    pub range: Range<usize>,
    /// The 1-based source line of this occurrence.
    pub line: usize,
}

/// An integer literal's value.
#[derive(Debug)]
pub struct LiteralNode {
    /// The number this literal denotes.
    pub value: i64,
}

/// A node of the syntax tree.
#[derive(Debug)]
pub enum Node {
    /// The root: the assignments of the program, in source order.
    Program(Vec<Node>),
    /// An identifier and the expression assigned to it.
    Assignment(Box<Node>, Box<Node>),
    /// The single wrapper that every full expression carries.
    Expression(Box<Node>),
    /// A binary operation on two subtrees.
    Term(Box<Node>, Operator, Box<Node>),
    /// A parenthesized expression or a unary-prefixed fact.
    Fact(Box<Node>),
    /// A unary `+` or `-` applied to a fact; never `*`.
    UnaryOperator(Operator, Box<Node>),
    /// An identifier occurrence.
    Identifier(IdentifierNode),
    /// An integer literal.
    Literal(LiteralNode),
}

/// The mathematical view of a syntax tree.
pub ghost enum SNode {
    Program(Seq<SNode>),
    Assignment(Box<SNode>, Box<SNode>),
    Expression(Box<SNode>),
    Term(Box<SNode>, Operator, Box<SNode>),
    Fact(Box<SNode>),
    UnaryOperator(Operator, Box<SNode>),
    Identifier { name: Seq<u8>, start: int, end: int, line: int },
    Literal(i64),
}

/// The views of the nodes of `s` from index `i` on.
pub open spec fn nodes_view(s: Seq<Node>, i: int) -> Seq<SNode>
    decreases s, s.len() - i,
{
    if i < 0 || i >= s.len() {
        Seq::empty()
    } else {
        seq![node_view(s[i])] + nodes_view(s, i + 1)
    }
}

/// The view of a syntax tree node.
pub open spec fn node_view(n: Node) -> SNode
    decreases n, 0int,
{
    match n {
        Node::Program(stmts) => SNode::Program(nodes_view(stmts@, 0)),
        Node::Assignment(id, e) => SNode::Assignment(
            Box::new(node_view(*id)),
            Box::new(node_view(*e)),
        ),
        Node::Expression(e) => SNode::Expression(Box::new(node_view(*e))),
        Node::Term(l, op, r) => SNode::Term(
            Box::new(node_view(*l)),
            op,
            Box::new(node_view(*r)),
        ),
        Node::Fact(e) => SNode::Fact(Box::new(node_view(*e))),
        Node::UnaryOperator(op, e) => SNode::UnaryOperator(op, Box::new(node_view(*e))),
        Node::Identifier(id) => SNode::Identifier {
            name: id.literal@,
            start: id.range.start as int,
            end: id.range.end as int,
            line: id.line as int,
        },
        Node::Literal(l) => SNode::Literal(l.value),
    }
}

/// Appending a node appends its view.
pub proof fn lemma_nodes_view_push(s: Seq<Node>, x: Node, i: int)
    requires
        0 <= i <= s.len(),
    ensures
        nodes_view(s.push(x), i) =~= nodes_view(s, i).push(node_view(x)),
    decreases s.len() - i,
{
    if i == s.len() {
        assert(s.push(x)[i] == x);
        assert(nodes_view(s.push(x), i + 1) =~= Seq::<SNode>::empty());
        assert(nodes_view(s, i) =~= Seq::<SNode>::empty());
    } else {
        lemma_nodes_view_push(s, x, i + 1);
        assert(s.push(x)[i] == s[i]);
    }
}

/// The view of a node sequence keeps its length and views each element.
pub proof fn lemma_nodes_view_index(s: Seq<Node>, i: int)
    requires
        0 <= i <= s.len(),
    ensures
        nodes_view(s, i).len() == s.len() - i,
        forall|j: int| i <= j < s.len() ==> nodes_view(s, i)[j - i] == node_view(s[j]),
    decreases s.len() - i,
{
    if i < s.len() {
        lemma_nodes_view_index(s, i + 1);
    }
}

impl View for Node {
    type V = SNode;

    open spec fn view(&self) -> SNode {
        node_view(*self)
    }
}

/// Well-formedness of an expression-shaped subtree over source `src`: only
/// expression variants occur, `*` is never unary, and every identifier's
/// text is exactly the source bytes of its range.
pub open spec fn wf_expr(src: Seq<u8>, n: SNode) -> bool
    decreases n,
{
    match n {
        SNode::Expression(e) => wf_expr(src, *e),
        SNode::Fact(e) => wf_expr(src, *e),
        SNode::Term(l, _op, r) => wf_expr(src, *l) && wf_expr(src, *r),
        SNode::UnaryOperator(op, e) => op != Operator::Multiply && wf_expr(src, *e),
        SNode::Identifier { name, start, end, line: _ } => 0 <= start <= end <= src.len()
            && name == src.subrange(start, end),
        SNode::Literal(_) => true,
        SNode::Program(_) => false,
        SNode::Assignment(_, _) => false,
    }
}

/// Well-formedness of an assignment: an identifier on the left, a
/// well-formed expression on the right.
pub open spec fn wf_stmt(src: Seq<u8>, n: SNode) -> bool {
    match n {
        SNode::Assignment(id, e) => (*id matches SNode::Identifier { .. })
            && wf_expr(src, *id)
            && wf_expr(src, *e),
        _ => false,
    }
}

/// Well-formedness of a whole program: a `Program` node whose children are
/// all well-formed assignments.
pub open spec fn wf_program(src: Seq<u8>, n: SNode) -> bool {
    match n {
        SNode::Program(stmts) => forall|i: int|
            0 <= i < stmts.len() ==> wf_stmt(src, #[trigger] stmts[i]),
        _ => false,
    }
}

} // verus!
