//! The parser: text to AST.
//!
//! Grammar: numeric literals; single-letter identifiers (`x` and `y` are the
//! unknowns, any other letter a variable reference); unary plus and minus;
//! `+ - * /`; right-associative `^`; implicit multiplication between
//! adjacent factors; parenthesised grouping; and one-argument function
//! application `f(arg)`, resolved against the function table at parse time
//! by substituting the argument for the function's declared parameter in a
//! copy of its body. Call syntax against a name not in the table is an
//! error; a bare unrecognised letter is not.
//!
//! Every executable step mirrors a spec-level parse function, so callers'
//! contracts can say exactly which texts parse and to which tree.
use crate::ast::{
    lemma_rep_children, rep_children, rep_of, wf, BinaryOperation, NAryOperation, Node, NodeView,
    UnaryOperation, LETTER_X, LETTER_Y,
};
use crate::error::AppError;
use crate::scalar::{bits_of_literal, is_digit};
use crate::table::FunctionTable;
use vstd::prelude::*;
use vstd::string::StringSliceAdditionalSpecFns;

verus! {

broadcast use vstd::std_specs::vec::group_vec_axioms, vstd::seq::axiom_seq_index_decreases;

/// ASCII letters.
pub open spec fn is_letter(c: u8) -> bool {
    (65 <= c <= 90) || (97 <= c <= 122)
}

/// The first position at or after `i` that does not hold a space.
pub open spec fn skip_ws(s: Seq<u8>, i: int) -> int
    decreases s.len() - i,
{
    if 0 <= i < s.len() && s[i] == 32 {
        skip_ws(s, i + 1)
    } else {
        i
    }
}

/// The first position at or after `i` that does not hold a digit.
pub open spec fn scan_digits(s: Seq<u8>, i: int) -> int
    decreases s.len() - i,
{
    if 0 <= i < s.len() && is_digit(s[i]) {
        scan_digits(s, i + 1)
    } else {
        i
    }
}

pub proof fn lemma_scan_digits(s: Seq<u8>, i: int)
    requires
        0 <= i <= s.len(),
    ensures
        i <= scan_digits(s, i) <= s.len(),
    decreases s.len() - i,
{
    if i < s.len() && is_digit(s[i]) {
        lemma_scan_digits(s, i + 1);
    }
}

/// The end of a numeric literal starting at `i`: digits, an optional
/// fraction (`.` followed by a digit), and an optional exponent (`e` or `E`,
/// an optional sign, and a digit).
pub open spec fn scan_literal_end(s: Seq<u8>, i: int) -> int {
    let d = scan_digits(s, i);
    let f = if d < s.len() && s[d] == 46 && d + 1 < s.len() && is_digit(s[d + 1]) {
        scan_digits(s, d + 1)
    } else {
        d
    };
    if f < s.len() && (s[f] == 69 || s[f] == 101) {
        if f + 1 < s.len() && is_digit(s[f + 1]) {
            scan_digits(s, f + 1)
        } else if f + 2 < s.len() && (s[f + 1] == 43 || s[f + 1] == 45) && is_digit(s[f + 2]) {
            scan_digits(s, f + 2)
        } else {
            f
        }
    } else {
        f
    }
}

/// Extends an n-ary chain: appends to a node of the same operator, else
/// starts a fresh two-child node, keeping child order.
pub open spec fn nary_append(op: NAryOperation, acc: NodeView, t: NodeView) -> NodeView {
    match acc {
        NodeView::NAry { op_type, children } => if op_type == op {
            NodeView::NAry { op_type, children: children.push(t) }
        } else {
            NodeView::NAry { op_type: op, children: seq![acc, t] }
        },
        _ => NodeView::NAry { op_type: op, children: seq![acc, t] },
    }
}

/// Substitution of `arg` for the unknown `param` in the first `n` children.
pub open spec fn subst_children(s: Seq<NodeView>, n: int, param: u8, arg: NodeView) -> Seq<
    NodeView,
>
    decreases s, n,
{
    if n <= 0 || n > s.len() {
        Seq::empty()
    } else {
        subst_children(s, n - 1, param, arg).push(subst_node(s[n - 1], param, arg))
    }
}

/// Substitutes `arg` for every occurrence of the unknown `param`.
pub open spec fn subst_node(t: NodeView, param: u8, arg: NodeView) -> NodeView
    decreases t, 1int,
{
    match t {
        NodeView::Constant { .. } => t,
        NodeView::Variable { .. } => t,
        NodeView::Unknown { name } => if name == param {
            arg
        } else {
            t
        },
        NodeView::Unary { op_type, child } => match child {
            Some(c) => NodeView::Unary {
                op_type,
                child: Some(Box::new(subst_node(*c, param, arg))),
            },
            None => t,
        },
        NodeView::Binary { op_type, lhs, rhs } => match (lhs, rhs) {
            (Some(l), Some(r)) => NodeView::Binary {
                op_type,
                lhs: Some(Box::new(subst_node(*l, param, arg))),
                rhs: Some(Box::new(subst_node(*r, param, arg))),
            },
            _ => t,
        },
        NodeView::NAry { op_type, children } => NodeView::NAry {
            op_type,
            children: subst_children(children, children.len() as int, param, arg),
        },
    }
}

proof fn lemma_subst_children_index(s: Seq<NodeView>, n: int, param: u8, arg: NodeView)
    requires
        0 <= n <= s.len(),
    ensures
        subst_children(s, n, param, arg).len() == n,
        forall|i: int| 0 <= i < n ==> #[trigger] subst_children(s, n, param, arg)[i] == subst_node(
            s[i],
            param,
            arg,
        ),
    decreases n,
{
    if n > 0 {
        lemma_subst_children_index(s, n - 1, param, arg);
    }
}

/// Substitution into a well-formed tree with a well-formed argument yields a
/// well-formed tree.
pub proof fn lemma_subst_wf(t: NodeView, param: u8, arg: NodeView)
    requires
        wf(t),
        wf(arg),
    ensures
        wf(subst_node(t, param, arg)),
    decreases t,
{
    match t {
        NodeView::Unary { op_type, child } => {
            lemma_subst_wf(*child.unwrap(), param, arg);
        }
        NodeView::Binary { op_type, lhs, rhs } => {
            lemma_subst_wf(*lhs.unwrap(), param, arg);
            lemma_subst_wf(*rhs.unwrap(), param, arg);
        }
        NodeView::NAry { op_type, children } => {
            let n = children.len() as int;
            lemma_subst_children_index(children, n, param, arg);
            assert forall|i: int| 0 <= i < n implies wf(
                #[trigger] subst_children(children, n, param, arg)[i],
            ) by {
                lemma_subst_wf(children[i], param, arg);
            }
        }
        _ => (),
    }
}

/// A primary expression: a literal, an identifier, a function call, or a
/// parenthesised group. `Some((t, j))` parses to `t` consuming up to `j`.
pub open spec fn p_base(s: Seq<u8>, i: int, ft: Map<u8, (u8, NodeView)>) -> Option<
    (NodeView, int),
>
    decreases s.len() - i, 0int,
{
    if !(0 <= i < s.len()) {
        None
    } else if is_digit(s[i]) {
        let end = scan_literal_end(s, i);
        if i < end <= s.len() {
            match bits_of_literal(s.subrange(i, end)) {
                Some(b) => Some((NodeView::Constant { value: b }, end)),
                None => None,
            }
        } else {
            None
        }
    } else if is_letter(s[i]) {
        let c = s[i];
        let k = skip_ws(s, i + 1);
        if i + 1 <= k < s.len() && s[k] == 40 {
            // Call syntax: resolve against the table, else an error.
            if ft.contains_key(c) {
                match p_expr(s, k + 1, ft) {
                    Some((arg, j)) => {
                        let close = skip_ws(s, j);
                        if j <= close < s.len() && s[close] == 41 {
                            Some((subst_node(ft[c].1, ft[c].0, arg), close + 1))
                        } else {
                            None
                        }
                    }
                    None => None,
                }
            } else {
                None
            }
        } else if c == LETTER_X || c == LETTER_Y {
            Some((NodeView::Unknown { name: c }, i + 1))
        } else {
            Some((NodeView::Variable { name: c }, i + 1))
        }
    } else if s[i] == 40 {
        match p_expr(s, i + 1, ft) {
            Some((t, j)) => {
                let close = skip_ws(s, j);
                if j <= close < s.len() && s[close] == 41 {
                    Some((t, close + 1))
                } else {
                    None
                }
            }
            None => None,
        }
    } else {
        None
    }
}

/// A base, optionally raised to a right-associative exponent.
pub open spec fn p_power(s: Seq<u8>, i: int, ft: Map<u8, (u8, NodeView)>) -> Option<
    (NodeView, int),
>
    decreases s.len() - i, 1int,
{
    match p_base(s, i, ft) {
        Some((b, j)) => if i < j <= s.len() {
            let k = skip_ws(s, j);
            if j <= k < s.len() && s[k] == 94 {
                match p_factor(s, k + 1, ft) {
                    Some((e, m)) => Some(
                        (
                            NodeView::Binary {
                                op_type: BinaryOperation::Exponent,
                                lhs: Some(Box::new(b)),
                                rhs: Some(Box::new(e)),
                            },
                            m,
                        ),
                    ),
                    None => None,
                }
            } else {
                Some((b, j))
            }
        } else {
            None
        },
        None => None,
    }
}

/// A factor: unary signs applied to a power.
pub open spec fn p_factor(s: Seq<u8>, i: int, ft: Map<u8, (u8, NodeView)>) -> Option<
    (NodeView, int),
>
    decreases s.len() - i, 2int,
{
    if !(0 <= i <= s.len()) {
        None
    } else {
        let k = skip_ws(s, i);
        if !(i <= k <= s.len()) {
            None
        } else if k < s.len() && s[k] == 45 {
            match p_factor(s, k + 1, ft) {
                Some((f, j)) => Some(
                    (
                        NodeView::Unary { op_type: UnaryOperation::Minus, child: Some(Box::new(f)) },
                        j,
                    ),
                ),
                None => None,
            }
        } else if k < s.len() && s[k] == 43 {
            p_factor(s, k + 1, ft)
        } else {
            p_power(s, k, ft)
        }
    }
}

/// Whether position `k` starts a factor that binds by implicit
/// multiplication.
pub open spec fn starts_base(s: Seq<u8>, k: int) -> bool {
    0 <= k < s.len() && (is_digit(s[k]) || is_letter(s[k]) || s[k] == 40)
}

/// The multiplicative continuation after a first factor.
pub open spec fn p_term_rest(s: Seq<u8>, i: int, acc: NodeView, ft: Map<u8, (u8, NodeView)>)
    -> Option<(NodeView, int)>
    decreases s.len() - i, 4int,
{
    if !(0 <= i <= s.len()) {
        None
    } else {
        let k = skip_ws(s, i);
        if !(i <= k <= s.len()) {
            None
        } else if k < s.len() && s[k] == 42 {
            match p_factor(s, k + 1, ft) {
                Some((f, j)) => if i < j <= s.len() {
                    p_term_rest(s, j, nary_append(NAryOperation::Multiply, acc, f), ft)
                } else {
                    None
                },
                None => None,
            }
        } else if k < s.len() && s[k] == 47 {
            match p_factor(s, k + 1, ft) {
                Some((f, j)) => if i < j <= s.len() {
                    p_term_rest(
                        s,
                        j,
                        NodeView::Binary {
                            op_type: BinaryOperation::Division,
                            lhs: Some(Box::new(acc)),
                            rhs: Some(Box::new(f)),
                        },
                        ft,
                    )
                } else {
                    None
                },
                None => None,
            }
        } else if starts_base(s, k) {
            match p_factor(s, k, ft) {
                Some((f, j)) => if i < j <= s.len() {
                    p_term_rest(s, j, nary_append(NAryOperation::Multiply, acc, f), ft)
                } else {
                    None
                },
                None => None,
            }
        } else {
            Some((acc, i))
        }
    }
}

/// A term: factors joined by `*`, `/` or implicit multiplication.
pub open spec fn p_term(s: Seq<u8>, i: int, ft: Map<u8, (u8, NodeView)>) -> Option<
    (NodeView, int),
>
    decreases s.len() - i, 3int,
{
    match p_factor(s, i, ft) {
        Some((f, j)) => if i < j <= s.len() {
            p_term_rest(s, j, f, ft)
        } else {
            None
        },
        None => None,
    }
}

/// The additive continuation after a first term. Subtraction is built as
/// addition of the negated right-hand side.
pub open spec fn p_expr_rest(s: Seq<u8>, i: int, acc: NodeView, ft: Map<u8, (u8, NodeView)>)
    -> Option<(NodeView, int)>
    decreases s.len() - i, 6int,
{
    if !(0 <= i <= s.len()) {
        None
    } else {
        let k = skip_ws(s, i);
        if !(i <= k <= s.len()) {
            None
        } else if k < s.len() && (s[k] == 43 || s[k] == 45) {
            match p_term(s, k + 1, ft) {
                Some((t, j)) => if i < j <= s.len() {
                    let t2 = if s[k] == 43 {
                        t
                    } else {
                        NodeView::Unary { op_type: UnaryOperation::Minus, child: Some(Box::new(t)) }
                    };
                    p_expr_rest(s, j, nary_append(NAryOperation::Add, acc, t2), ft)
                } else {
                    None
                },
                None => None,
            }
        } else {
            Some((acc, i))
        }
    }
}

/// A full expression: terms joined by `+` and `-`.
pub open spec fn p_expr(s: Seq<u8>, i: int, ft: Map<u8, (u8, NodeView)>) -> Option<
    (NodeView, int),
>
    decreases s.len() - i, 5int,
{
    match p_term(s, i, ft) {
        Some((t, j)) => if i < j <= s.len() {
            p_expr_rest(s, j, t, ft)
        } else {
            None
        },
        None => None,
    }
}

/// What a whole text parses to: a full expression with only trailing spaces
/// after it.
pub open spec fn parse_text(s: Seq<u8>, ft: Map<u8, (u8, NodeView)>) -> Option<NodeView> {
    match p_expr(s, 0, ft) {
        Some((t, j)) => if skip_ws(s, j) == s.len() {
            Some(t)
        } else {
            None
        },
        None => None,
    }
}

/// A parse error with a short message.
fn perr(m: &str) -> (r: AppError)
    ensures
        r is ParseError,
{
    AppError::ParseError(m.to_owned())
}

fn letter(c: u8) -> (r: bool)
    ensures
        r == is_letter(c),
{
    (65 <= c && c <= 90) || (97 <= c && c <= 122)
}

fn digit(c: u8) -> (r: bool)
    ensures
        r == is_digit(c),
{
    48 <= c && c <= 57
}

fn skip_ws_exec(s: &[u8], i: usize) -> (r: usize)
    requires
        i <= s@.len(),
    ensures
        r == skip_ws(s@, i as int),
        i <= r <= s@.len(),
{
    let mut j = i;
    while j < s.len() && s[j] == 32
        invariant
            i <= j <= s@.len(),
            skip_ws(s@, i as int) == skip_ws(s@, j as int),
        decreases s@.len() - j,
    {
        j = j + 1;
    }
    j
}

fn scan_digits_exec(s: &[u8], i: usize) -> (r: usize)
    requires
        i <= s@.len(),
    ensures
        r == scan_digits(s@, i as int),
        i <= r <= s@.len(),
{
    let mut j = i;
    while j < s.len() && 48 <= s[j] && s[j] <= 57
        invariant
            i <= j <= s@.len(),
            scan_digits(s@, i as int) == scan_digits(s@, j as int),
        decreases s@.len() - j,
    {
        j = j + 1;
    }
    j
}

fn scan_literal_end_exec(s: &[u8], i: usize) -> (r: usize)
    requires
        i <= s@.len(),
    ensures
        r == scan_literal_end(s@, i as int),
        i <= r <= s@.len(),
        i < s@.len() && is_digit(s@[i as int]) ==> i < r,
{
    let d = scan_digits_exec(s, i);
    proof {
        if i < s@.len() && is_digit(s@[i as int]) {
            lemma_scan_digits(s@, i + 1);
            assert(scan_digits(s@, i as int) == scan_digits(s@, i + 1));
        }
    }
    let f = if d < s.len() && s[d] == 46 && d + 1 < s.len() && digit(s[d + 1]) {
        scan_digits_exec(s, d + 1)
    } else {
        d
    };
    if f < s.len() && (s[f] == 69 || s[f] == 101) {
        if f + 1 < s.len() && digit(s[f + 1]) {
            scan_digits_exec(s, f + 1)
        } else if f + 1 < s.len() && (s[f + 1] == 43 || s[f + 1] == 45) && f + 2 < s.len()
            && digit(s[f + 2]) {
            scan_digits_exec(s, f + 2)
        } else {
            f
        }
    } else {
        f
    }
}

/// A fresh two-child n-ary node.
fn pair_nary(op: NAryOperation, a: Node, b: Node) -> (r: Node)
    ensures
        (r@ == NodeView::NAry { op_type: op, children: seq![a@, b@] }),
        wf(a@) && wf(b@) ==> wf(r@),
{
    let r = Node::NAry { op_type: op, children: vec![Box::new(a), Box::new(b)] };
    proof {
        match &r {
            Node::NAry { children, .. } => {
                lemma_rep_children(children@, 2);
                assert(rep_children(children@, 2) =~= seq![a@, b@]);
            }
            _ => (),
        }
    }
    r
}

/// Extends an n-ary chain in place, keeping child order.
fn append_nary(op: NAryOperation, acc: Node, f: Node) -> (r: Node)
    ensures
        r@ == nary_append(op, acc@, f@),
        wf(acc@) && wf(f@) ==> wf(r@),
{
    match acc {
        Node::NAry { op_type, children } => {
            if op_type == op {
                let ghost c0 = children@;
                let ghost frep = f@;
                let mut children = children;
                children.push(Box::new(f));
                let out = Node::NAry { op_type, children };
                proof {
                    lemma_rep_children(c0, c0.len() as int);
                    lemma_rep_children(children@, children@.len() as int);
                    assert(rep_children(children@, children@.len() as int) =~= rep_children(
                        c0,
                        c0.len() as int,
                    ).push(frep));
                    assert(out@ =~= nary_append(op, NodeView::NAry { op_type, children: rep_children(c0, c0.len() as int) }, frep));
                }
                out
            } else {
                pair_nary(op, Node::NAry { op_type, children }, f)
            }
        }
        other => pair_nary(op, other, f),
    }
}

impl Node {
    /// A copy of the tree with `arg` substituted for the unknown `param`.
    #[verifier::loop_isolation(false)]
    pub fn substitute(&self, param: u8, arg: &Node) -> (r: Node)
        ensures
            r@ == subst_node(self@, param, arg@),
        decreases *self,
    {
        match self {
            Node::Constant { value } => Node::Constant { value: *value },
            Node::Variable { name } => Node::Variable { name: *name },
            Node::Unknown { name } => {
                if *name == param {
                    arg.duplicate()
                } else {
                    Node::Unknown { name: *name }
                }
            }
            Node::Unary { op_type, child } => match child {
                Some(c) => Node::Unary {
                    op_type: *op_type,
                    child: Some(Box::new(c.substitute(param, arg))),
                },
                None => Node::Unary { op_type: *op_type, child: None },
            },
            Node::Binary { op_type, lhs, rhs } => match (lhs, rhs) {
                (Some(l), Some(r)) => Node::Binary {
                    op_type: *op_type,
                    lhs: Some(Box::new(l.substitute(param, arg))),
                    rhs: Some(Box::new(r.substitute(param, arg))),
                },
                (l, r) => Node::Binary {
                    op_type: *op_type,
                    lhs: match l {
                        Some(n) => Some(Box::new(n.duplicate())),
                        None => None,
                    },
                    rhs: match r {
                        Some(n) => Some(Box::new(n.duplicate())),
                        None => None,
                    },
                },
            },
            Node::NAry { op_type, children } => {
                let ghost srep = rep_children(children@, children@.len() as int);
                proof {
                    lemma_rep_children(children@, children@.len() as int);
                    lemma_subst_children_index(srep, srep.len() as int, param, arg@);
                }
                let mut out: Vec<Box<Node>> = Vec::new();
                let mut i: usize = 0;
                while i < children.len()
                    invariant
                        i <= children@.len(),
                        out@.len() == i as int,
                        forall|k: int| 0 <= k < i as int ==> rep_of(*#[trigger] out@[k])
                            == subst_node(srep[k], param, arg@),
                    decreases children@.len() - i,
                {
                    proof {
                        assert(decreases_to!(*children => children@));
                        assert(decreases_to!(children@ => *children@[i as int]));
                    }
                    out.push(Box::new(children[i].substitute(param, arg)));
                    i = i + 1;
                }
                let r = Node::NAry { op_type: *op_type, children: out };
                proof {
                    lemma_rep_children(out@, out@.len() as int);
                    assert(rep_children(out@, out@.len() as int) =~= subst_children(
                        srep,
                        srep.len() as int,
                        param,
                        arg@,
                    ));
                }
                r
            }
        }
    }
}

fn parse_base(s: &[u8], i: usize, ft: &FunctionTable) -> (r: Result<(Node, usize), AppError>)
    requires
        i <= s@.len(),
    ensures
        match r {
            Ok(tj) => p_base(s@, i as int, ft@) == Some((tj.0@, tj.1 as int)) && i < tj.1
                <= s@.len() && wf(tj.0@),
            Err(e) => p_base(s@, i as int, ft@) is None && e is ParseError,
        },
    decreases s@.len() - i, 0int,
{
    if i >= s.len() {
        return Err(perr("unexpected end of input"));
    }
    let c = s[i];
    if digit(c) {
        let end = scan_literal_end_exec(s, i);
        proof {
            lemma_scan_digits(s@, i + 1);
        }
        match crate::scalar::parse_literal(&s[i..end]) {
            Some(b) => Ok((Node::Constant { value: b }, end)),
            None => Err(perr("malformed numeric literal")),
        }
    } else if letter(c) {
        let k = skip_ws_exec(s, i + 1);
        if k < s.len() && s[k] == 40 {
            match ft.get(c) {
                Some(pb) => {
                    let param = pb.0;
                    let body = pb.1;
                    match parse_expr(s, k + 1, ft) {
                        Ok(aj) => {
                            let arg = aj.0;
                            let close = skip_ws_exec(s, aj.1);
                            if close < s.len() && s[close] == 41 {
                                let t = body.substitute(param, &arg);
                                proof {
                                    lemma_subst_wf(body@, param, arg@);
                                }
                                Ok((t, close + 1))
                            } else {
                                Err(perr("unmatched parenthesis in call"))
                            }
                        }
                        Err(e) => Err(e),
                    }
                }
                None => Err(perr("call to an unknown function")),
            }
        } else if c == LETTER_X || c == LETTER_Y {
            Ok((Node::Unknown { name: c }, i + 1))
        } else {
            Ok((Node::Variable { name: c }, i + 1))
        }
    } else if c == 40 {
        match parse_expr(s, i + 1, ft) {
            Ok(tj) => {
                let t = tj.0;
                let close = skip_ws_exec(s, tj.1);
                if close < s.len() && s[close] == 41 {
                    Ok((t, close + 1))
                } else {
                    Err(perr("unmatched parenthesis"))
                }
            }
            Err(e) => Err(e),
        }
    } else {
        Err(perr("unexpected character"))
    }
}

fn parse_power(s: &[u8], i: usize, ft: &FunctionTable) -> (r: Result<(Node, usize), AppError>)
    requires
        i <= s@.len(),
    ensures
        match r {
            Ok(tj) => p_power(s@, i as int, ft@) == Some((tj.0@, tj.1 as int)) && i < tj.1
                <= s@.len() && wf(tj.0@),
            Err(e) => p_power(s@, i as int, ft@) is None && e is ParseError,
        },
    decreases s@.len() - i, 1int,
{
    match parse_base(s, i, ft) {
        Ok(bj) => {
            let b = bj.0;
            let j = bj.1;
            let k = skip_ws_exec(s, j);
            if k < s.len() && s[k] == 94 {
                match parse_factor(s, k + 1, ft) {
                    Ok(em) => Ok(
                        (
                            Node::Binary {
                                op_type: BinaryOperation::Exponent,
                                lhs: Some(Box::new(b)),
                                rhs: Some(Box::new(em.0)),
                            },
                            em.1,
                        ),
                    ),
                    Err(e) => Err(e),
                }
            } else {
                Ok((b, j))
            }
        }
        Err(e) => Err(e),
    }
}

fn parse_factor(s: &[u8], i: usize, ft: &FunctionTable) -> (r: Result<(Node, usize), AppError>)
    requires
        i <= s@.len(),
    ensures
        match r {
            Ok(tj) => p_factor(s@, i as int, ft@) == Some((tj.0@, tj.1 as int)) && i < tj.1
                <= s@.len() && wf(tj.0@),
            Err(e) => p_factor(s@, i as int, ft@) is None && e is ParseError,
        },
    decreases s@.len() - i, 2int,
{
    let k = skip_ws_exec(s, i);
    if k < s.len() && s[k] == 45 {
        match parse_factor(s, k + 1, ft) {
            Ok(fj) => Ok(
                (Node::Unary { op_type: UnaryOperation::Minus, child: Some(Box::new(fj.0)) }, fj.1),
            ),
            Err(e) => Err(e),
        }
    } else if k < s.len() && s[k] == 43 {
        parse_factor(s, k + 1, ft)
    } else {
        parse_power(s, k, ft)
    }
}

fn parse_term_rest(s: &[u8], i: usize, acc: Node, ft: &FunctionTable) -> (r: Result<
    (Node, usize),
    AppError,
>)
    requires
        i <= s@.len(),
        wf(acc@),
    ensures
        match r {
            Ok(tj) => p_term_rest(s@, i as int, acc@, ft@) == Some((tj.0@, tj.1 as int)) && i
                <= tj.1 <= s@.len() && wf(tj.0@),
            Err(e) => p_term_rest(s@, i as int, acc@, ft@) is None && e is ParseError,
        },
    decreases s@.len() - i, 4int,
{
    let k = skip_ws_exec(s, i);
    if k < s.len() && s[k] == 42 {
        match parse_factor(s, k + 1, ft) {
            Ok(fj) => parse_term_rest(s, fj.1, append_nary(NAryOperation::Multiply, acc, fj.0), ft),
            Err(e) => Err(e),
        }
    } else if k < s.len() && s[k] == 47 {
        match parse_factor(s, k + 1, ft) {
            Ok(fj) => parse_term_rest(
                s,
                fj.1,
                Node::Binary {
                    op_type: BinaryOperation::Division,
                    lhs: Some(Box::new(acc)),
                    rhs: Some(Box::new(fj.0)),
                },
                ft,
            ),
            Err(e) => Err(e),
        }
    } else if k < s.len() && (digit(s[k]) || letter(s[k]) || s[k] == 40) {
        match parse_factor(s, k, ft) {
            Ok(fj) => parse_term_rest(s, fj.1, append_nary(NAryOperation::Multiply, acc, fj.0), ft),
            Err(e) => Err(e),
        }
    } else {
        Ok((acc, i))
    }
}

fn parse_term(s: &[u8], i: usize, ft: &FunctionTable) -> (r: Result<(Node, usize), AppError>)
    requires
        i <= s@.len(),
    ensures
        match r {
            Ok(tj) => p_term(s@, i as int, ft@) == Some((tj.0@, tj.1 as int)) && i < tj.1
                <= s@.len() && wf(tj.0@),
            Err(e) => p_term(s@, i as int, ft@) is None && e is ParseError,
        },
    decreases s@.len() - i, 3int,
{
    match parse_factor(s, i, ft) {
        Ok(fj) => parse_term_rest(s, fj.1, fj.0, ft),
        Err(e) => Err(e),
    }
}

fn parse_expr_rest(s: &[u8], i: usize, acc: Node, ft: &FunctionTable) -> (r: Result<
    (Node, usize),
    AppError,
>)
    requires
        i <= s@.len(),
        wf(acc@),
    ensures
        match r {
            Ok(tj) => p_expr_rest(s@, i as int, acc@, ft@) == Some((tj.0@, tj.1 as int)) && i
                <= tj.1 <= s@.len() && wf(tj.0@),
            Err(e) => p_expr_rest(s@, i as int, acc@, ft@) is None && e is ParseError,
        },
    decreases s@.len() - i, 6int,
{
    let k = skip_ws_exec(s, i);
    if k < s.len() && (s[k] == 43 || s[k] == 45) {
        let minus = s[k] == 45;
        match parse_term(s, k + 1, ft) {
            Ok(tj) => {
                let t2 = if minus {
                    Node::Unary { op_type: UnaryOperation::Minus, child: Some(Box::new(tj.0)) }
                } else {
                    tj.0
                };
                parse_expr_rest(s, tj.1, append_nary(NAryOperation::Add, acc, t2), ft)
            }
            Err(e) => Err(e),
        }
    } else {
        Ok((acc, i))
    }
}

fn parse_expr(s: &[u8], i: usize, ft: &FunctionTable) -> (r: Result<(Node, usize), AppError>)
    requires
        i <= s@.len(),
    ensures
        match r {
            Ok(tj) => p_expr(s@, i as int, ft@) == Some((tj.0@, tj.1 as int)) && i < tj.1
                <= s@.len() && wf(tj.0@),
            Err(e) => p_expr(s@, i as int, ft@) is None && e is ParseError,
        },
    decreases s@.len() - i, 5int,
{
    match parse_term(s, i, ft) {
        Ok(tj) => parse_expr_rest(s, tj.1, tj.0, ft),
        Err(e) => Err(e),
    }
}

/// Parses a whole expression text against the current function table.
/// Returns the tree exactly when `parse_text` accepts the text; every
/// failure is a parse error.
pub fn parse(text: &str, funcs: &FunctionTable) -> (r: Result<Node, AppError>)
    ensures
        match r {
            Ok(t) => parse_text(text.spec_bytes(), funcs@) == Some(t@) && wf(t@),
            Err(e) => parse_text(text.spec_bytes(), funcs@) is None && e is ParseError,
        },
{
    let s = text.as_bytes();
    match parse_expr(s, 0, funcs) {
        Ok(tj) => {
            let k = skip_ws_exec(s, tj.1);
            if k == s.len() {
                Ok(tj.0)
            } else {
                Err(perr("unexpected trailing input"))
            }
        }
        Err(e) => Err(e),
    }
}


} // verus!
