//! The constant-folding simplifier.
//!
//! One bottom-up pass (`fold_node` at the spec level, `Node::fold_pass` at
//! the executable level) resolves bound variables, evaluates operator nodes
//! whose children have all become constants, and inside an n-ary node folds
//! the constant children into one, preserving the relative order of the
//! remaining children. `simplify_tree` iterates the pass to a fixed point,
//! tracking whether a pass changed anything, with an iteration cap as a
//! safety bound; the pass is proved idempotent, so the fixed point is always
//! reached.
//!
//! Domain policy, applied uniformly here and by bytecode evaluators: folding
//! never signals an error; division by zero and other out-of-domain
//! operations propagate the IEEE-754 non-finite result, and a non-integer
//! exponent yields the canonical quiet NaN.
use crate::ast::{
    bin_apply, identity_of, nary_apply, rep_children, un_apply, wf, BinaryOperation,
    lemma_rep_children, NAryOperation, Node, NodeView, UnaryOperation, LETTER_X, LETTER_Y,
};
use crate::scalar::{add_bits, div_bits, mul_bits, neg_bits, pow_scalar, ONE_BITS, ZERO_BITS};
use crate::table::VariableTable;
use vstd::prelude::*;

verus! {

broadcast use vstd::std_specs::vec::group_vec_axioms, vstd::seq::axiom_seq_index_decreases;

/// Each of the first `n` children, folded.
pub open spec fn fold_children(s: Seq<NodeView>, n: int, vars: Map<u8, u64>) -> Seq<NodeView>
    decreases s, n,
{
    if n <= 0 || n > s.len() {
        Seq::empty()
    } else {
        fold_children(s, n - 1, vars).push(fold_node(s[n - 1], vars))
    }
}

/// The values of the constant nodes among the first `n` elements, in order.
pub open spec fn consts_of(s: Seq<NodeView>, n: int) -> Seq<u64>
    decreases n,
{
    if n <= 0 || n > s.len() {
        Seq::empty()
    } else {
        let prev = consts_of(s, n - 1);
        match s[n - 1] {
            NodeView::Constant { value } => prev.push(value),
            _ => prev,
        }
    }
}

/// The non-constant nodes among the first `n` elements, in order.
pub open spec fn nonconsts_of(s: Seq<NodeView>, n: int) -> Seq<NodeView>
    decreases n,
{
    if n <= 0 || n > s.len() {
        Seq::empty()
    } else {
        let prev = nonconsts_of(s, n - 1);
        match s[n - 1] {
            NodeView::Constant { .. } => prev,
            _ => prev.push(s[n - 1]),
        }
    }
}

/// The first `n` values folded left to right: the identity element for an
/// empty group, otherwise the first value extended by the operator.
pub open spec fn fold_vals(op: NAryOperation, vs: Seq<u64>, n: int) -> u64
    decreases n,
{
    if n <= 0 || n > vs.len() {
        identity_of(op)
    } else if n == 1 {
        vs[0]
    } else {
        nary_apply(op, fold_vals(op, vs, n - 1), vs[n - 1])
    }
}

/// One bottom-up folding pass over a tree.
pub open spec fn fold_node(t: NodeView, vars: Map<u8, u64>) -> NodeView
    decreases t, 1int,
{
    match t {
        NodeView::Constant { .. } => t,
        NodeView::Unknown { .. } => t,
        NodeView::Variable { name } => if vars.contains_key(name) {
            NodeView::Constant { value: vars[name] }
        } else {
            t
        },
        NodeView::Unary { op_type, child } => match child {
            Some(c) => {
                let c2 = fold_node(*c, vars);
                match c2 {
                    NodeView::Constant { value } => NodeView::Constant {
                        value: un_apply(op_type, value),
                    },
                    _ => NodeView::Unary { op_type, child: Some(Box::new(c2)) },
                }
            }
            None => t,
        },
        NodeView::Binary { op_type, lhs, rhs } => match (lhs, rhs) {
            (Some(l), Some(r)) => {
                let l2 = fold_node(*l, vars);
                let r2 = fold_node(*r, vars);
                match (l2, r2) {
                    (NodeView::Constant { value: a }, NodeView::Constant { value: b }) =>
                        NodeView::Constant { value: bin_apply(op_type, a, b) },
                    _ => NodeView::Binary {
                        op_type,
                        lhs: Some(Box::new(l2)),
                        rhs: Some(Box::new(r2)),
                    },
                }
            }
            _ => t,
        },
        NodeView::NAry { op_type, children } => {
            let ch = fold_children(children, children.len() as int, vars);
            let cs = consts_of(ch, ch.len() as int);
            let ns = nonconsts_of(ch, ch.len() as int);
            let folded = fold_vals(op_type, cs, cs.len() as int);
            if ns.len() == 0 {
                NodeView::Constant { value: folded }
            } else if ns.len() == 1 && folded == identity_of(op_type) {
                ns[0]
            } else if folded == identity_of(op_type) {
                NodeView::NAry { op_type, children: ns }
            } else {
                NodeView::NAry {
                    op_type,
                    children: seq![NodeView::Constant { value: folded }] + ns,
                }
            }
        }
    }
}

/// Basic counting facts about the constant / non-constant partition.
proof fn lemma_split_len(s: Seq<NodeView>, n: int)
    requires
        0 <= n <= s.len(),
    ensures
        consts_of(s, n).len() + nonconsts_of(s, n).len() == n,
    decreases n,
{
    if n > 0 {
        lemma_split_len(s, n - 1);
    }
}

/// Every non-constant of the partition is a non-constant element of `s`.
proof fn lemma_split_elems(s: Seq<NodeView>, n: int)
    requires
        0 <= n <= s.len(),
    ensures
        forall|i: int| 0 <= i < nonconsts_of(s, n).len() ==> !((#[trigger] nonconsts_of(s, n)[i])
            is Constant),
        forall|i: int| 0 <= i < nonconsts_of(s, n).len() ==> exists|j: int|
            0 <= j < n && #[trigger] nonconsts_of(s, n)[i] == s[j],
    decreases n,
{
    if n > 0 {
        lemma_split_elems(s, n - 1);
        assert forall|i: int| 0 <= i < nonconsts_of(s, n).len() implies exists|j: int|
            0 <= j < n && #[trigger] nonconsts_of(s, n)[i] == s[j] by {
            if i < nonconsts_of(s, n - 1).len() {
                let j = choose|j: int| 0 <= j < n - 1 && nonconsts_of(s, n - 1)[i] == s[j];
                assert(nonconsts_of(s, n)[i] == s[j]);
            } else {
                assert(nonconsts_of(s, n)[i] == s[n - 1]);
            }
        }
    }
}

/// When no constant occurs among the first `n` elements, the partition
/// returns them unchanged.
proof fn lemma_no_consts(s: Seq<NodeView>, n: int)
    requires
        0 <= n <= s.len(),
        consts_of(s, n).len() == 0,
    ensures
        nonconsts_of(s, n) =~= s.subrange(0, n),
    decreases n,
{
    if n > 0 {
        lemma_no_consts(s, n - 1);
        assert(nonconsts_of(s, n) =~= s.subrange(0, n));
    }
}

/// Prepending a constant to an all-non-constant list partitions as expected.
proof fn lemma_prepend_const(v: u64, ns: Seq<NodeView>, n: int)
    requires
        0 <= n <= ns.len(),
        forall|i: int| 0 <= i < ns.len() ==> !((#[trigger] ns[i]) is Constant),
    ensures
        consts_of(seq![NodeView::Constant { value: v }] + ns, n + 1) =~= seq![v],
        nonconsts_of(seq![NodeView::Constant { value: v }] + ns, n + 1) =~= ns.subrange(0, n),
    decreases n,
{
    let u = seq![NodeView::Constant { value: v }] + ns;
    if n == 0 {
        assert(u[0] == (NodeView::Constant { value: v }));
        assert(consts_of(u, 0) == Seq::<u64>::empty());
        assert(nonconsts_of(u, 0) == Seq::<NodeView>::empty());
        assert(consts_of(u, 1) =~= seq![v]);
        assert(nonconsts_of(u, 1) =~= ns.subrange(0, 0));
    } else {
        lemma_prepend_const(v, ns, n - 1);
        assert(u[n] == ns[n - 1]);
        assert(!(u[n] is Constant));
        assert(consts_of(u, n + 1) =~= seq![v]);
        assert(nonconsts_of(u, n + 1) =~= ns.subrange(0, n));
    }
}

/// Pushing an element past the inspected prefix changes nothing.
proof fn lemma_split_push(s: Seq<NodeView>, e: NodeView, n: int)
    requires
        0 <= n <= s.len(),
    ensures
        consts_of(s.push(e), n) == consts_of(s, n),
        nonconsts_of(s.push(e), n) == nonconsts_of(s, n),
    decreases n,
{
    if n > 0 {
        lemma_split_push(s, e, n - 1);
    }
}

/// Indexing facts for `fold_children`.
proof fn lemma_fold_children_index(s: Seq<NodeView>, n: int, vars: Map<u8, u64>)
    requires
        0 <= n <= s.len(),
    ensures
        fold_children(s, n, vars).len() == n,
        forall|i: int| 0 <= i < n ==> #[trigger] fold_children(s, n, vars)[i] == fold_node(
            s[i],
            vars,
        ),
    decreases n,
{
    if n > 0 {
        lemma_fold_children_index(s, n - 1, vars);
    }
}

/// Folding preserves structural well-formedness.
pub proof fn lemma_fold_wf(t: NodeView, vars: Map<u8, u64>)
    requires
        wf(t),
    ensures
        wf(fold_node(t, vars)),
    decreases t,
{
    match t {
        NodeView::Unary { op_type, child } => {
            lemma_fold_wf(*child.unwrap(), vars);
        }
        NodeView::Binary { op_type, lhs, rhs } => {
            lemma_fold_wf(*lhs.unwrap(), vars);
            lemma_fold_wf(*rhs.unwrap(), vars);
        }
        NodeView::NAry { op_type, children } => {
            let n = children.len() as int;
            let ch = fold_children(children, n, vars);
            lemma_fold_children_index(children, n, vars);
            assert forall|i: int| 0 <= i < n implies wf(#[trigger] ch[i]) by {
                lemma_fold_wf(children[i], vars);
            }
            lemma_split_len(ch, n);
            lemma_split_elems(ch, n);
            let cs = consts_of(ch, n);
            let ns = nonconsts_of(ch, n);
            assert forall|i: int| 0 <= i < ns.len() implies wf(#[trigger] ns[i]) by {
                let j = choose|j: int| 0 <= j < n && ns[i] == ch[j];
            }
            let folded = fold_vals(op_type, cs, cs.len() as int);
            if ns.len() == 0 || (ns.len() == 1 && folded == identity_of(op_type)) {
            } else if folded == identity_of(op_type) {
            } else {
                let u = seq![NodeView::Constant { value: folded }] + ns;
                assert(forall|i: int| 0 <= i < u.len() ==> wf(#[trigger] u[i]));
            }
        }
        _ => (),
    }
}

/// The folding pass is idempotent: folding an already-folded tree changes
/// nothing. This is what makes the fixed-point iteration converge after one
/// productive pass.
pub proof fn lemma_fold_idempotent(t: NodeView, vars: Map<u8, u64>)
    ensures
        fold_node(fold_node(t, vars), vars) == fold_node(t, vars),
    decreases t,
{
    match t {
        NodeView::Unary { op_type, child } => {
            match child {
                Some(c) => {
                    lemma_fold_idempotent(*c, vars);
                }
                None => (),
            }
        }
        NodeView::Binary { op_type, lhs, rhs } => {
            match (lhs, rhs) {
                (Some(l), Some(r)) => {
                    lemma_fold_idempotent(*l, vars);
                    lemma_fold_idempotent(*r, vars);
                }
                _ => (),
            }
        }
        NodeView::NAry { op_type, children } => {
            let n = children.len() as int;
            let ch = fold_children(children, n, vars);
            lemma_fold_children_index(children, n, vars);
            assert forall|i: int| 0 <= i < n implies fold_node(#[trigger] ch[i], vars) == ch[i] by {
                lemma_fold_idempotent(children[i], vars);
            }
            lemma_split_len(ch, n);
            lemma_split_elems(ch, n);
            let cs = consts_of(ch, n);
            let ns = nonconsts_of(ch, n);
            let folded = fold_vals(op_type, cs, cs.len() as int);
            let r = fold_node(t, vars);
            assert forall|i: int| 0 <= i < ns.len() implies fold_node(#[trigger] ns[i], vars)
                == ns[i] by {
                let j = choose|j: int| 0 <= j < n && ns[i] == ch[j];
            }
            if ns.len() == 0 {
                // r is a constant; constants are fixed points.
            } else if ns.len() == 1 && folded == identity_of(op_type) {
                // r is the single non-constant child, itself a fold image.
            } else if folded == identity_of(op_type) {
                // r = NAry { ns }: refolding finds no constants and keeps ns.
                let m = ns.len() as int;
                lemma_fold_children_index(ns, m, vars);
                assert(fold_children(ns, m, vars) =~= ns);
                lemma_split_len(ns, m);
                assert(consts_of(ns, m).len() == 0) by {
                    lemma_no_consts_converse(ns, m);
                }
                lemma_no_consts(ns, m);
                assert(nonconsts_of(ns, m) =~= ns);
                assert(fold_node(r, vars) =~= r);
            } else {
                // r = NAry { Constant(folded) :: ns }.
                let u = seq![NodeView::Constant { value: folded }] + ns;
                let m = u.len() as int;
                lemma_fold_children_index(u, m, vars);
                assert(fold_children(u, m, vars) =~= u);
                lemma_prepend_const(folded, ns, ns.len() as int);
                assert(consts_of(u, m) =~= seq![folded]);
                assert(nonconsts_of(u, m) =~= ns.subrange(0, ns.len() as int));
                assert(ns.subrange(0, ns.len() as int) =~= ns);
                assert(fold_vals(op_type, seq![folded], 1) == folded);
                assert(fold_node(r, vars) =~= r);
            }
        }
        _ => (),
    }
}

/// A list with no constant in its partition consists of non-constants.
proof fn lemma_no_consts_converse(s: Seq<NodeView>, n: int)
    requires
        0 <= n <= s.len(),
        forall|i: int| 0 <= i < s.len() ==> !((#[trigger] s[i]) is Constant),
    ensures
        consts_of(s, n).len() == 0,
    decreases n,
{
    if n > 0 {
        lemma_no_consts_converse(s, n - 1);
    }
}

fn apply_unary(op: UnaryOperation, v: u64) -> (r: u64)
    ensures
        r == un_apply(op, v),
{
    match op {
        UnaryOperation::Minus => neg_bits(v),
    }
}

fn apply_binary(op: BinaryOperation, a: u64, b: u64) -> (r: u64)
    ensures
        r == bin_apply(op, a, b),
{
    match op {
        BinaryOperation::Division => div_bits(a, b),
        BinaryOperation::Exponent => pow_scalar(a, b),
    }
}

fn apply_nary(op: NAryOperation, a: u64, b: u64) -> (r: u64)
    ensures
        r == nary_apply(op, a, b),
{
    match op {
        NAryOperation::Add => add_bits(a, b),
        NAryOperation::Multiply => mul_bits(a, b),
    }
}

fn identity_value(op: NAryOperation) -> (r: u64)
    ensures
        r == identity_of(op),
{
    match op {
        NAryOperation::Add => ZERO_BITS,
        NAryOperation::Multiply => ONE_BITS,
    }
}

impl Node {
    /// One bottom-up folding pass. The flag is `false` only when the pass
    /// certainly changed nothing.
    #[verifier::loop_isolation(false)]
    #[verifier::rlimit(60)]
    pub fn fold_pass(&self, vars: &VariableTable) -> (r: (Node, bool))
        ensures
            r.0@ == fold_node(self@, vars@),
            !r.1 ==> r.0@ == self@,
        decreases *self,
    {
        match self {
            Node::Constant { value } => (Node::Constant { value: *value }, false),
            Node::Unknown { name } => (Node::Unknown { name: *name }, false),
            Node::Variable { name } => match vars.get(*name) {
                Some(v) => (Node::Constant { value: v }, true),
                None => (Node::Variable { name: *name }, false),
            },
            Node::Unary { op_type, child } => match child {
                Some(c) => {
                    let (c2, changed) = c.fold_pass(vars);
                    match c2 {
                        Node::Constant { value } => (
                            Node::Constant { value: apply_unary(*op_type, value) },
                            true,
                        ),
                        _ => (Node::Unary { op_type: *op_type, child: Some(Box::new(c2)) },
                        changed),
                    }
                }
                None => (Node::Unary { op_type: *op_type, child: None }, false),
            },
            Node::Binary { op_type, lhs, rhs } => match (lhs, rhs) {
                (Some(l), Some(r)) => {
                    let (l2, lchanged) = l.fold_pass(vars);
                    let (r2, rchanged) = r.fold_pass(vars);
                    if l2.is_constant() && r2.is_constant() {
                        let a = l2.constant_value();
                        let b = r2.constant_value();
                        (Node::Constant { value: apply_binary(*op_type, a, b) }, true)
                    } else {
                        (
                            Node::Binary {
                                op_type: *op_type,
                                lhs: Some(Box::new(l2)),
                                rhs: Some(Box::new(r2)),
                            },
                            lchanged || rchanged,
                        )
                    }
                }
                _ => (
                    Node::Binary {
                        op_type: *op_type,
                        lhs: duplicate_opt(lhs),
                        rhs: duplicate_opt(rhs),
                    },
                    false,
                ),
            },
            Node::NAry { op_type, children } => {
                let op = *op_type;
                let ghost s = rep_children(children@, children@.len() as int);
                proof {
                    lemma_rep_children(children@, children@.len() as int);
                }
                let mut consts: Vec<u64> = Vec::new();
                let mut others: Vec<Box<Node>> = Vec::new();
                let mut child_changed = false;
                let mut i: usize = 0;
                while i < children.len()
                    invariant
                        i <= children@.len(),
                        consts@ == consts_of(fold_children(s, i as int, vars@), i as int),
                        rep_children(others@, others@.len() as int) == nonconsts_of(
                            fold_children(s, i as int, vars@),
                            i as int,
                        ),
                        consts@.len() + others@.len() == i as int,
                        !child_changed ==> forall|k: int| 0 <= k < i as int ==> fold_node(
                            #[trigger] s[k],
                            vars@,
                        ) == s[k],
                    decreases children@.len() - i,
                {
                    proof {
                        assert(decreases_to!(*children => children@));
                        assert(decreases_to!(children@ => *children@[i as int]));
                        lemma_fold_children_index(s, i as int, vars@);
                        lemma_fold_children_index(s, i + 1, vars@);
                        lemma_split_push(
                            fold_children(s, i as int, vars@),
                            fold_node(s[i as int], vars@),
                            i as int,
                        );
                        lemma_rep_children(others@, others@.len() as int);
                    }
                    let ghost others0 = others@;
                    let (c2, changed) = children[i].fold_pass(vars);
                    child_changed = child_changed || changed;
                    if c2.is_constant() {
                        consts.push(c2.constant_value());
                    } else {
                        others.push(Box::new(c2));
                        proof {
                            lemma_rep_children(others@, others@.len() as int);
                            assert(rep_children(others@, others@.len() as int) =~= rep_children(
                                others0,
                                others0.len() as int,
                            ).push(fold_node(s[i as int], vars@)));
                        }
                    }
                    proof {
                        assert(fold_children(s, i + 1, vars@) =~= fold_children(
                            s,
                            i as int,
                            vars@,
                        ).push(fold_node(s[i as int], vars@)));
                    }
                    i = i + 1;
                }
                let ghost ch = fold_children(s, s.len() as int, vars@);
                let ghost cs = consts_of(ch, ch.len() as int);
                let ghost ns = nonconsts_of(ch, ch.len() as int);
                proof {
                    lemma_fold_children_index(s, s.len() as int, vars@);
                    lemma_rep_children(others@, others@.len() as int);
                }
                let idv = identity_value(op);
                let mut folded: u64 = idv;
                if consts.len() > 0 {
                    folded = consts[0];
                    let mut j: usize = 1;
                    while j < consts.len()
                        invariant
                            1 <= j <= consts@.len(),
                            folded == fold_vals(op, cs, j as int),
                        decreases consts@.len() - j,
                    {
                        folded = apply_nary(op, folded, consts[j]);
                        j = j + 1;
                    }
                }
                let flag = child_changed || consts.len() > 0 || children.len() < 2;
                if others.len() == 0 {
                    (Node::Constant { value: folded }, true)
                } else if others.len() == 1 && folded == idv {
                    let b = match others.pop() {
                        Some(b) => b,
                        None => Box::new(Node::Constant { value: folded }),
                    };
                    (*b, true)
                } else if folded == idv {
                    let out = Node::NAry { op_type: op, children: others };
                    proof {
                        if !flag {
                            lemma_no_consts(ch, ch.len() as int);
                            assert(ns =~= ch);
                            assert(ch =~= s);
                            assert(out@ =~= self@);
                        }
                    }
                    (out, flag)
                } else {
                    let mut cv: Vec<Box<Node>> = Vec::new();
                    cv.push(Box::new(Node::Constant { value: folded }));
                    let mut rest = others;
                    cv.append(&mut rest);
                    let out = Node::NAry { op_type: op, children: cv };
                    proof {
                        lemma_rep_children(cv@, cv@.len() as int);
                        assert(rep_children(cv@, cv@.len() as int) =~= seq![
                            NodeView::Constant { value: folded },
                        ] + ns);
                    }
                    (out, true)
                }
            }
        }
    }

    /// Whether the node is a constant leaf.
    pub fn is_constant(&self) -> (r: bool)
        ensures
            r == (self@ is Constant),
    {
        match self {
            Node::Constant { .. } => true,
            _ => false,
        }
    }

    /// The value of a constant leaf.
    pub fn constant_value(&self) -> (r: u64)
        requires
            self@ is Constant,
        ensures
            self@ == (NodeView::Constant { value: r }),
    {
        match self {
            Node::Constant { value } => *value,
            _ => 0,
        }
    }
}

fn duplicate_opt(c: &Option<Box<Node>>) -> (r: Option<Box<Node>>)
    ensures
        match c {
            Some(n) => r matches Some(m) && m@ == n@,
            None => r is None,
        },
{
    match c {
        Some(n) => Some(Box::new(n.duplicate())),
        None => None,
    }
}

/// The bound on fixed-point iterations; the proof shows two passes always
/// suffice, so the bound is never the reason iteration stops.
pub const MAX_FOLD_PASSES: usize = 32;

/// Simplifies the tree in place against the variable bindings, iterating the
/// folding pass until a pass reports no change (with `MAX_FOLD_PASSES` as a
/// safety cap). Returns the scalar exactly when the whole tree collapsed to
/// a constant; otherwise the tree is left in its folded residual state.
pub fn simplify_tree(root: &mut Node, vars: &VariableTable) -> (r: Option<u64>)
    ensures
        final(root)@ == fold_node(old(root)@, vars@),
        fold_node(final(root)@, vars@) == final(root)@,
        match r {
            Some(v) => final(root)@ == (NodeView::Constant { value: v }),
            None => !(final(root)@ is Constant),
        },
{
    let ghost t0 = root@;
    let mut tmp = Node::Constant { value: 0 };
    core::mem::swap(root, &mut tmp);
    proof {
        lemma_fold_idempotent(t0, vars@);
    }
    let (first, mut changed) = tmp.fold_pass(vars);
    let mut cur = first;
    let mut passes: usize = 1;
    while changed && passes < MAX_FOLD_PASSES
        invariant
            cur@ == fold_node(t0, vars@),
        decreases MAX_FOLD_PASSES - passes,
    {
        let (next, next_changed) = cur.fold_pass(vars);
        proof {
            lemma_fold_idempotent(t0, vars@);
        }
        cur = next;
        changed = next_changed;
        passes = passes + 1;
    }
    proof {
        lemma_fold_idempotent(t0, vars@);
    }
    let r = if cur.is_constant() {
        Some(cur.constant_value())
    } else {
        None
    };
    *root = cur;
    r
}

} // verus!
