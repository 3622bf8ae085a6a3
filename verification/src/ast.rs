//! The AST data model: a tagged-union tree whose nodes exclusively own their
//! children, canonical construction helpers, a spec-level view of trees, and
//! the engine's evaluation semantics over scalars.
use crate::scalar::{
    add_bits_spec, div_bits_spec, mul_bits_spec, neg_bits_spec, pow_sem, NAN_BITS, ONE_BITS,
    ZERO_BITS,
};
use vstd::prelude::*;

verus! {

broadcast use vstd::std_specs::vec::group_vec_axioms, vstd::seq::axiom_seq_index_decreases;

/// ASCII code of the letter `x`, the first unknown.
pub const LETTER_X: u8 = 120;

/// ASCII code of the letter `y`, the second unknown.
pub const LETTER_Y: u8 = 121;

/// Single-child operators.
#[derive(Clone, Copy, PartialEq, Eq, Structural)]
pub enum UnaryOperation {
    Minus,
}

/// Two-child, fixed-arity operators.
#[derive(Clone, Copy, PartialEq, Eq, Structural)]
pub enum BinaryOperation {
    Division,
    Exponent,
}

/// Variable-arity associative operators with an ordered child list.
#[derive(Clone, Copy, PartialEq, Eq, Structural)]
pub enum NAryOperation {
    Add,
    Multiply,
}

/// One node of an expression tree. Scalars are IEEE-754 double bit patterns;
/// identifiers are single ASCII letters.
pub enum Node {
    /// A literal scalar; a leaf.
    Constant { value: u64 },
    /// A reference to a name that may be resolved against the variable
    /// table; a leaf until folded.
    Variable { name: u8 },
    /// A single-child operator.
    Unary { op_type: UnaryOperation, child: Option<Box<Node>> },
    /// A two-child operator with ordered children.
    Binary { op_type: BinaryOperation, lhs: Option<Box<Node>>, rhs: Option<Box<Node>> },
    /// A variable-arity operator; child order is insertion order and is
    /// preserved through folding.
    NAry { op_type: NAryOperation, children: Vec<Box<Node>> },
    /// A free function parameter (the letter `x` or `y`); never folded, it
    /// denotes the input of the compiled program.
    Unknown { name: u8 },
}

/// The mathematical shape of a tree, with sequences for child lists, so that
/// contracts can compare trees structurally.
#[verifier::ext_equal]
pub enum NodeView {
    Constant { value: u64 },
    Variable { name: u8 },
    Unary { op_type: UnaryOperation, child: Option<Box<NodeView>> },
    Binary { op_type: BinaryOperation, lhs: Option<Box<NodeView>>, rhs: Option<Box<NodeView>> },
    NAry { op_type: NAryOperation, children: Seq<NodeView> },
    Unknown { name: u8 },
}

/// The views of the first `n` elements of a child list.
pub open spec fn rep_children(s: Seq<Box<Node>>, n: int) -> Seq<NodeView>
    decreases s, n,
{
    if n <= 0 {
        Seq::empty()
    } else if n <= s.len() {
        rep_children(s, n - 1).push(rep_of(*s[n - 1]))
    } else {
        Seq::empty()
    }
}

/// Indexing into `rep_children` is the view of the indexed child.
pub proof fn lemma_rep_children(s: Seq<Box<Node>>, n: int)
    requires
        0 <= n <= s.len(),
    ensures
        rep_children(s, n).len() == n,
        forall|i: int| 0 <= i < n ==> rep_children(s, n)[i] == rep_of(*s[i]),
    decreases n,
{
    if n > 0 {
        lemma_rep_children(s, n - 1);
    }
}

/// The view of a two-child n-ary node is the two children's views in order.
proof fn lemma_pair_rep(t: Node)
    requires
        t matches Node::NAry { children, .. } && children@.len() == 2,
    ensures
        t matches Node::NAry { op_type, children } ==> (rep_of(t) == NodeView::NAry {
            op_type,
            children: seq![rep_of(*children@[0]), rep_of(*children@[1])],
        }),
{
    match t {
        Node::NAry { op_type, children } => {
            lemma_rep_children(children@, 2);
            assert(rep_children(children@, 2) =~= seq![
                rep_of(*children@[0]),
                rep_of(*children@[1]),
            ]);
        }
        _ => (),
    }
}

/// The view of an executable tree.
pub open spec fn rep_of(t: Node) -> NodeView
    decreases t, 1int,
{
    match t {
        Node::Constant { value } => NodeView::Constant { value },
        Node::Variable { name } => NodeView::Variable { name },
        Node::Unknown { name } => NodeView::Unknown { name },
        Node::Unary { op_type, child } => NodeView::Unary {
            op_type,
            child: match child {
                Some(c) => Some(Box::new(rep_of(*c))),
                None => None,
            },
        },
        Node::Binary { op_type, lhs, rhs } => NodeView::Binary {
            op_type,
            lhs: match lhs {
                Some(l) => Some(Box::new(rep_of(*l))),
                None => None,
            },
            rhs: match rhs {
                Some(r) => Some(Box::new(rep_of(*r))),
                None => None,
            },
        },
        Node::NAry { op_type, children } => NodeView::NAry {
            op_type,
            children: rep_children(children@, children@.len() as int),
        },
    }
}

impl View for Node {
    type V = NodeView;

    open spec fn view(&self) -> NodeView {
        rep_of(*self)
    }
}

/// The identity element of an n-ary operator: 0 for addition, 1 for
/// multiplication, as scalar bit patterns.
pub open spec fn identity_of(op: NAryOperation) -> u64 {
    match op {
        NAryOperation::Add => ZERO_BITS,
        NAryOperation::Multiply => ONE_BITS,
    }
}

/// Applies an n-ary operator to two already-evaluated operands.
pub open spec fn nary_apply(op: NAryOperation, a: u64, b: u64) -> u64 {
    match op {
        NAryOperation::Add => add_bits_spec(a, b),
        NAryOperation::Multiply => mul_bits_spec(a, b),
    }
}

/// Applies a unary operator to an already-evaluated operand.
pub open spec fn un_apply(op: UnaryOperation, a: u64) -> u64 {
    match op {
        UnaryOperation::Minus => neg_bits_spec(a),
    }
}

/// Applies a binary operator to two already-evaluated operands.
pub open spec fn bin_apply(op: BinaryOperation, a: u64, b: u64) -> u64 {
    match op {
        BinaryOperation::Division => div_bits_spec(a, b),
        BinaryOperation::Exponent => pow_sem(a, b),
    }
}

/// Structural well-formedness: every operator node's required children are
/// present, n-ary nodes have at least two children, and unknowns are one of
/// the two supported parameter letters.
pub open spec fn wf(t: NodeView) -> bool
    decreases t,
{
    match t {
        NodeView::Constant { .. } => true,
        NodeView::Variable { .. } => true,
        NodeView::Unknown { name } => name == LETTER_X || name == LETTER_Y,
        NodeView::Unary { child, .. } => match child {
            Some(c) => wf(*c),
            None => false,
        },
        NodeView::Binary { lhs, rhs, .. } => match (lhs, rhs) {
            (Some(l), Some(r)) => wf(*l) && wf(*r),
            _ => false,
        },
        NodeView::NAry { children, .. } => children.len() >= 2 && (forall|i: int|
            0 <= i < children.len() ==> wf(#[trigger] children[i])),
    }
}

/// The value of the first `n` children of an n-ary node, folded left to
/// right, starting from the operator's identity element.
pub open spec fn eval_children(
    op: NAryOperation,
    s: Seq<NodeView>,
    n: int,
    vars: Map<u8, u64>,
    x: u64,
    y: u64,
) -> u64
    decreases s, n,
{
    if n <= 0 {
        identity_of(op)
    } else if n == 1 && n <= s.len() {
        eval_node(s[0], vars, x, y)
    } else if n <= s.len() {
        nary_apply(op, eval_children(op, s, n - 1, vars, x, y), eval_node(s[n - 1], vars, x, y))
    } else {
        NAN_BITS
    }
}

/// The engine's evaluation semantics: the scalar a tree denotes, given the
/// variable bindings and a value for each of the two unknowns. A bound
/// variable evaluates to its binding; an unbound one, and a missing required
/// child, evaluate to the canonical quiet NaN.
pub open spec fn eval_node(t: NodeView, vars: Map<u8, u64>, x: u64, y: u64) -> u64
    decreases t, 1int,
{
    match t {
        NodeView::Constant { value } => value,
        NodeView::Variable { name } => if vars.contains_key(name) {
            vars[name]
        } else {
            NAN_BITS
        },
        NodeView::Unknown { name } => if name == LETTER_X {
            x
        } else {
            y
        },
        NodeView::Unary { op_type, child } => match child {
            Some(c) => un_apply(op_type, eval_node(*c, vars, x, y)),
            None => NAN_BITS,
        },
        NodeView::Binary { op_type, lhs, rhs } => match (lhs, rhs) {
            (Some(l), Some(r)) => bin_apply(
                op_type,
                eval_node(*l, vars, x, y),
                eval_node(*r, vars, x, y),
            ),
            _ => NAN_BITS,
        },
        NodeView::NAry { op_type, children } => eval_children(
            op_type,
            children,
            children.len() as int,
            vars,
            x,
            y,
        ),
    }
}


/// The one-line label of a node in the diagnostic tree dump.
pub open spec fn diag_label(t: NodeView) -> Seq<u8> {
    match t {
        NodeView::Constant { .. } => seq![67u8, 111u8, 110u8, 115u8, 116u8, 97u8, 110u8, 116u8],
        NodeView::Variable { name } => seq![
            86u8, 97u8, 114u8, 105u8, 97u8, 98u8, 108u8, 101u8, 32u8,
            if name < 128 { name } else { 63u8 },
        ],
        NodeView::Unknown { name } => seq![
            85u8, 110u8, 107u8, 110u8, 111u8, 119u8, 110u8, 32u8,
            if name < 128 { name } else { 63u8 },
        ],
        NodeView::Unary { .. } => seq![85u8, 110u8, 97u8, 114u8, 121u8],
        NodeView::Binary { op_type, .. } => match op_type {
            BinaryOperation::Division => seq![68u8, 105u8, 118u8, 105u8, 100u8, 101u8],
            BinaryOperation::Exponent => seq![80u8, 111u8, 119u8, 101u8, 114u8],
        },
        NodeView::NAry { op_type, .. } => match op_type {
            NAryOperation::Add => seq![65u8, 100u8, 100u8],
            NAryOperation::Multiply => seq![77u8, 117u8, 108u8, 116u8, 105u8, 112u8, 108u8, 121u8],
        },
    }
}

/// The connector drawn before a node: a corner for the last sibling, a tee
/// for the others.
pub open spec fn diag_connector(last: bool) -> Seq<u8> {
    if last {
        seq![96u8, 45u8, 45u8, 32u8]
    } else {
        seq![124u8, 45u8, 45u8, 32u8]
    }
}

/// The prefix continuation below a node.
pub open spec fn diag_pad(last: bool) -> Seq<u8> {
    if last {
        seq![32u8, 32u8, 32u8, 32u8]
    } else {
        seq![124u8, 32u8, 32u8, 32u8]
    }
}

/// The diagnostic dumps of the first `n` elements of a child list.
pub open spec fn diag_children(s: Seq<NodeView>, n: int, prefix: Seq<u8>) -> Seq<u8>
    decreases s, n,
{
    if n <= 0 || n > s.len() {
        Seq::empty()
    } else {
        diag_children(s, n - 1, prefix) + diag_tree(s[n - 1], prefix, n == s.len())
    }
}

/// The depth-first diagnostic dump of a tree: one line per node, each child
/// indented under its parent.
pub open spec fn diag_tree(t: NodeView, prefix: Seq<u8>, last: bool) -> Seq<u8>
    decreases t, 1int,
{
    let line = prefix + diag_connector(last) + diag_label(t) + seq![10u8];
    let pad = prefix + diag_pad(last);
    match t {
        NodeView::Unary { child, .. } => match child {
            Some(c) => line + diag_tree(*c, pad, true),
            None => line,
        },
        NodeView::Binary { lhs, rhs, .. } => match (lhs, rhs) {
            (Some(l), Some(r)) => line + diag_tree(*l, pad, false) + diag_tree(*r, pad, true),
            _ => line,
        },
        NodeView::NAry { children, .. } => line + diag_children(children, children.len() as int, pad),
        _ => line,
    }
}

impl Node {
    /// Canonical addition: always the n-ary variant, so the simplifier can
    /// fold any number of same-operator siblings in one pass.
    pub fn add(a: Node, b: Node) -> (r: Node)
        ensures
            (r@ == NodeView::NAry { op_type: NAryOperation::Add, children: seq![a@, b@] }),
    {
        let r = Node::NAry { op_type: NAryOperation::Add, children: vec![Box::new(a), Box::new(b)] };
        proof {
            lemma_pair_rep(r);
        }
        r
    }

    /// Canonical multiplication: always the n-ary variant.
    pub fn multiply(a: Node, b: Node) -> (r: Node)
        ensures
            (r@ == NodeView::NAry { op_type: NAryOperation::Multiply, children: seq![a@, b@] }),
    {
        let r = Node::NAry {
            op_type: NAryOperation::Multiply,
            children: vec![Box::new(a), Box::new(b)],
        };
        proof {
            lemma_pair_rep(r);
        }
        r
    }

    /// Division, a fixed-arity binary node.
    pub fn divide(a: Node, b: Node) -> (r: Node)
        ensures
            (r@ == NodeView::Binary {
                op_type: BinaryOperation::Division,
                lhs: Some(Box::new(a@)),
                rhs: Some(Box::new(b@)),
            }),
    {
        Node::Binary {
            op_type: BinaryOperation::Division,
            lhs: Some(Box::new(a)),
            rhs: Some(Box::new(b)),
        }
    }

    /// A unary operator applied to one child.
    pub fn op(op_type: UnaryOperation, a: Node) -> (r: Node)
        ensures
            (r@ == NodeView::Unary { op_type, child: Some(Box::new(a@)) }),
    {
        Node::Unary { op_type, child: Some(Box::new(a)) }
    }

    /// Canonical subtraction: addition of the negated right-hand side, so
    /// that folding needs only one associative addition rule.
    pub fn substract(a: Node, b: Node) -> (r: Node)
        ensures
            (r@ == NodeView::NAry {
                op_type: NAryOperation::Add,
                children: seq![
                    a@,
                    (NodeView::Unary {
                        op_type: UnaryOperation::Minus,
                        child: Some(Box::new(b@)),
                    }),
                ],
            }),
    {
        let r = Node::NAry {
            op_type: NAryOperation::Add,
            children: vec![
                Box::new(a),
                Box::new(Node::Unary { op_type: UnaryOperation::Minus, child: Some(Box::new(b)) }),
            ],
        };
        proof {
            lemma_pair_rep(r);
        }
        r
    }


    /// The diagnostic tree dump, one line per node. Structural only: it
    /// names each node's kind and draws the child relation; values are not
    /// rendered. Callers print it.
    #[verifier::loop_isolation(false)]
    pub fn print_tree(&self) -> (r: Vec<u8>)
        ensures
            r@ == seq![45u8, 82u8, 111u8, 111u8, 116u8, 10u8] + diag_tree(self@, Seq::empty(), true),
        decreases *self,
    {
        let mut out: Vec<u8> = Vec::new();
        out.push(45);
        out.push(82);
        out.push(111);
        out.push(111);
        out.push(116);
        out.push(10);
        let mut prefix: Vec<u8> = Vec::new();
        let mut body = self.diag_dump(&prefix, true);
        out.append(&mut body);
        proof {
            assert(out@ =~= seq![45u8, 82u8, 111u8, 111u8, 116u8, 10u8] + diag_tree(
                self@,
                Seq::empty(),
                true,
            ));
        }
        out
    }

    /// One node's diagnostic lines under the given prefix.
    #[verifier::loop_isolation(false)]
    fn diag_dump(&self, prefix: &Vec<u8>, last: bool) -> (r: Vec<u8>)
        ensures
            r@ == diag_tree(self@, prefix@, last),
        decreases *self,
    {
        let mut out: Vec<u8> = Vec::new();
        let mut pre = prefix.clone();
        proof {
            assert(pre@ == prefix@);
        }
        out.append(&mut pre);
        if last {
            out.push(96);
        } else {
            out.push(124);
        }
        out.push(45);
        out.push(45);
        out.push(32);
        let mut label = self.diag_label_bytes();
        out.append(&mut label);
        out.push(10);
        let mut pad = prefix.clone();
        proof {
            assert(pad@ == prefix@);
        }
        if last {
            pad.push(32);
        } else {
            pad.push(124);
        }
        pad.push(32);
        pad.push(32);
        pad.push(32);
        proof {
            assert(out@ =~= prefix@ + diag_connector(last) + diag_label(self@) + seq![10u8]);
            assert(pad@ =~= prefix@ + diag_pad(last));
        }
        match self {
            Node::Unary { child, .. } => match child {
                Some(c) => {
                    let mut cd = c.diag_dump(&pad, true);
                    out.append(&mut cd);
                }
                None => (),
            },
            Node::Binary { lhs, rhs, .. } => match (lhs, rhs) {
                (Some(l), Some(r)) => {
                    let mut ld = l.diag_dump(&pad, false);
                    out.append(&mut ld);
                    let mut rd = r.diag_dump(&pad, true);
                    out.append(&mut rd);
                }
                _ => (),
            },
            Node::NAry { children, .. } => {
                let ghost srep = rep_children(children@, children@.len() as int);
                proof {
                    lemma_rep_children(children@, children@.len() as int);
                }
                let mut i: usize = 0;
                while i < children.len()
                    invariant
                        i <= children@.len(),
                        out@ == prefix@ + diag_connector(last) + diag_label(self@) + seq![10u8]
                            + diag_children(srep, i as int, pad@),
                    decreases children@.len() - i,
                {
                    proof {
                        assert(decreases_to!(*children => children@));
                        assert(decreases_to!(children@ => *children@[i as int]));
                    }
                    let mut cd = children[i].diag_dump(&pad, i == children.len() - 1);
                    out.append(&mut cd);
                    proof {
                        assert(out@ =~= prefix@ + diag_connector(last) + diag_label(self@)
                            + seq![10u8] + diag_children(srep, i + 1, pad@));
                    }
                    i = i + 1;
                }
            }
            _ => (),
        }
        out
    }

    /// The label bytes of this node.
    fn diag_label_bytes(&self) -> (r: Vec<u8>)
        ensures
            r@ == diag_label(self@),
    {
        let mut out: Vec<u8> = Vec::new();
        match self {
            Node::Constant { .. } => {
                out.push(67);
                out.push(111);
                out.push(110);
                out.push(115);
                out.push(116);
                out.push(97);
                out.push(110);
                out.push(116);
            }
            Node::Variable { name } => {
                out.push(86);
                out.push(97);
                out.push(114);
                out.push(105);
                out.push(97);
                out.push(98);
                out.push(108);
                out.push(101);
                out.push(32);
                out.push(if *name < 128 { *name } else { 63 });
            }
            Node::Unknown { name } => {
                out.push(85);
                out.push(110);
                out.push(107);
                out.push(110);
                out.push(111);
                out.push(119);
                out.push(110);
                out.push(32);
                out.push(if *name < 128 { *name } else { 63 });
            }
            Node::Unary { .. } => {
                out.push(85);
                out.push(110);
                out.push(97);
                out.push(114);
                out.push(121);
            }
            Node::Binary { op_type, .. } => match op_type {
                BinaryOperation::Division => {
                    out.push(68);
                    out.push(105);
                    out.push(118);
                    out.push(105);
                    out.push(100);
                    out.push(101);
                }
                BinaryOperation::Exponent => {
                    out.push(80);
                    out.push(111);
                    out.push(119);
                    out.push(101);
                    out.push(114);
                }
            },
            Node::NAry { op_type, .. } => match op_type {
                NAryOperation::Add => {
                    out.push(65);
                    out.push(100);
                    out.push(100);
                }
                NAryOperation::Multiply => {
                    out.push(77);
                    out.push(117);
                    out.push(108);
                    out.push(116);
                    out.push(105);
                    out.push(112);
                    out.push(108);
                    out.push(121);
                }
            },
        }
        proof {
            assert(out@ =~= diag_label(self@));
        }
        out
    }

    /// Whether the tree is structurally well-formed.
    #[verifier::loop_isolation(false)]
    pub fn well_formed(&self) -> (r: bool)
        ensures
            r == wf(self@),
        decreases *self,
    {
        match self {
            Node::Constant { .. } => true,
            Node::Variable { .. } => true,
            Node::Unknown { name } => *name == LETTER_X || *name == LETTER_Y,
            Node::Unary { child, .. } => match child {
                Some(c) => c.well_formed(),
                None => false,
            },
            Node::Binary { lhs, rhs, .. } => match (lhs, rhs) {
                (Some(l), Some(r)) => {
                    let lw = l.well_formed();
                    lw && r.well_formed()
                }
                _ => false,
            },
            Node::NAry { children, .. } => {
                proof {
                    lemma_rep_children(children@, children@.len() as int);
                }
                if children.len() < 2 {
                    return false;
                }
                let mut i: usize = 0;
                while i < children.len()
                    invariant
                        i <= children@.len(),
                        forall|k: int| 0 <= k < i as int ==> wf(rep_of(*children@[k])),
                    decreases children@.len() - i,
                {
                    proof {
                        assert(decreases_to!(*children => children@));
                        assert(decreases_to!(children@ => *children@[i as int]));
                    }
                    if !children[i].well_formed() {
                        proof {
                            assert(self@ matches NodeView::NAry { children: cr, .. } && !wf(
                                cr[i as int],
                            ));
                        }
                        return false;
                    }
                    i = i + 1;
                }
                true
            }
        }
    }

    /// A structurally equal copy of the tree.
    #[verifier::loop_isolation(false)]
    pub fn duplicate(&self) -> (r: Node)
        ensures
            r@ == self@,
        decreases *self,
    {
        match self {
            Node::Constant { value } => Node::Constant { value: *value },
            Node::Variable { name } => Node::Variable { name: *name },
            Node::Unknown { name } => Node::Unknown { name: *name },
            Node::Unary { op_type, child } => Node::Unary {
                op_type: *op_type,
                child: match child {
                    Some(c) => Some(Box::new(c.duplicate())),
                    None => None,
                },
            },
            Node::Binary { op_type, lhs, rhs } => Node::Binary {
                op_type: *op_type,
                lhs: match lhs {
                    Some(l) => Some(Box::new(l.duplicate())),
                    None => None,
                },
                rhs: match rhs {
                    Some(r) => Some(Box::new(r.duplicate())),
                    None => None,
                },
            },
            Node::NAry { op_type, children } => {
                let mut out: Vec<Box<Node>> = Vec::new();
                let mut i: usize = 0;
                while i < children.len()
                    invariant
                        i <= children@.len(),
                        out@.len() == i as int,
                        forall|k: int| 0 <= k < i as int ==> (#[trigger] out@[k])@ == children@[k]@,
                    decreases children@.len() - i,
                {
                    proof {
                        assert(decreases_to!(*children => children@));
                        assert(decreases_to!(children@ => *children@[i as int]));
                    }
                    out.push(Box::new(children[i].duplicate()));
                    i = i + 1;
                }
                let r = Node::NAry { op_type: *op_type, children: out };
                proof {
                    lemma_rep_children(out@, out@.len() as int);
                    lemma_rep_children(children@, children@.len() as int);
                    assert(rep_children(out@, out@.len() as int) =~= rep_children(
                        children@,
                        children@.len() as int,
                    ));
                }
                r
            }
        }
    }
}

} // verus!
