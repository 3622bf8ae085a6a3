//! The string compiler and the free-unknown analysis.
//!
//! `compile_to_string` renders a residual tree as a fully parenthesised
//! textual formula, substituting any still-bound variable by its value
//! inline. The text identifies a function input by its own letter, so the
//! emitted form is independent of the slot context. A residual constant that
//! is not finite has no re-parsable literal form and is reported as a
//! compile error.
pub mod bytecode;

use crate::ast::{rep_children, rep_of, NAryOperation, Node, NodeView, LETTER_X, LETTER_Y};
use crate::ast::lemma_rep_children;
use crate::error::AppError;
use crate::scalar::{is_finite_bits, literal_of_bits, SIGN_BIT};
use crate::ast::{wf, UnaryOperation};
use crate::table::VariableTable;
use vstd::prelude::*;

verus! {

broadcast use vstd::std_specs::vec::group_vec_axioms, vstd::seq::axiom_seq_index_decreases;

/// Whether any `Unknown` with this letter occurs in the first `n` children.
pub open spec fn mentions_in(s: Seq<NodeView>, n: int, letter: u8) -> bool
    decreases s, n,
{
    if n <= 0 || n > s.len() {
        false
    } else {
        mentions_in(s, n - 1, letter) || mentions_letter(s[n - 1], letter)
    }
}

/// Whether any `Unknown` with this letter occurs in the tree.
pub open spec fn mentions_letter(t: NodeView, letter: u8) -> bool
    decreases t, 1int,
{
    match t {
        NodeView::Constant { .. } => false,
        NodeView::Variable { .. } => false,
        NodeView::Unknown { name } => name == letter,
        NodeView::Unary { child, .. } => match child {
            Some(c) => mentions_letter(*c, letter),
            None => false,
        },
        NodeView::Binary { lhs, rhs, .. } => match (lhs, rhs) {
            (Some(l), Some(r)) => mentions_letter(*l, letter) || mentions_letter(*r, letter),
            _ => false,
        },
        NodeView::NAry { children, .. } => mentions_in(children, children.len() as int, letter),
    }
}

/// Whether every `Unknown` letter in the first `n` children is supported.
pub open spec fn letters_ok_in(s: Seq<NodeView>, n: int) -> bool
    decreases s, n,
{
    if n <= 0 || n > s.len() {
        true
    } else {
        letters_ok_in(s, n - 1) && letters_ok(s[n - 1])
    }
}

/// Whether every `Unknown` letter in the tree is one of the two supported
/// parameter letters.
pub open spec fn letters_ok(t: NodeView) -> bool
    decreases t, 1int,
{
    match t {
        NodeView::Constant { .. } => true,
        NodeView::Variable { .. } => true,
        NodeView::Unknown { name } => name == LETTER_X || name == LETTER_Y,
        NodeView::Unary { child, .. } => match child {
            Some(c) => letters_ok(*c),
            None => true,
        },
        NodeView::Binary { lhs, rhs, .. } => match (lhs, rhs) {
            (Some(l), Some(r)) => letters_ok(*l) && letters_ok(*r),
            _ => true,
        },
        NodeView::NAry { children, .. } => letters_ok_in(children, children.len() as int),
    }
}

/// One bad element makes the whole list fail the letter check.
proof fn lemma_letters_bad(s: Seq<NodeView>, n: int, i: int)
    requires
        0 <= i < n <= s.len(),
        !letters_ok(s[i]),
    ensures
        !letters_ok_in(s, n),
    decreases n,
{
    if i < n - 1 {
        lemma_letters_bad(s, n - 1, i);
    }
}

/// Reports which free unknown letters occur in the tree, failing on an
/// unknown letter outside the two supported parameter names.
#[verifier::loop_isolation(false)]
pub fn ast_unknowns(root: &Node) -> (r: Result<(bool, bool), AppError>)
    ensures
        match r {
            Ok(xy) => letters_ok(root@) && xy.0 == mentions_letter(root@, LETTER_X) && xy.1
                == mentions_letter(root@, LETTER_Y),
            Err(e) => !letters_ok(root@) && e is MathError,
        },
    decreases *root, 0int,
{
    match root {
        Node::Constant { .. } => Ok((false, false)),
        Node::Variable { .. } => Ok((false, false)),
        Node::Unknown { name } => {
            if *name == LETTER_X {
                Ok((true, false))
            } else if *name == LETTER_Y {
                Ok((false, true))
            } else {
                Err(AppError::MathError("unsupported unknown letter".to_owned()))
            }
        }
        Node::Unary { child, .. } => match child {
            Some(c) => c.unknowns_helper(),
            None => Ok((false, false)),
        },
        Node::Binary { lhs, rhs, .. } => match (lhs, rhs) {
            (Some(l), Some(r)) => {
                let a = match l.unknowns_helper() {
                    Ok(v) => v,
                    Err(e) => return Err(e),
                };
                let b = match r.unknowns_helper() {
                    Ok(v) => v,
                    Err(e) => return Err(e),
                };
                Ok((a.0 || b.0, a.1 || b.1))
            }
            _ => Ok((false, false)),
        },
        Node::NAry { children, .. } => {
            let ghost srep = rep_children(children@, children@.len() as int);
            proof {
                lemma_rep_children(children@, children@.len() as int);
            }
            let mut sx = false;
            let mut sy = false;
            let mut i: usize = 0;
            while i < children.len()
                invariant
                    i <= children@.len(),
                    letters_ok_in(srep, i as int),
                    sx == mentions_in(srep, i as int, LETTER_X),
                    sy == mentions_in(srep, i as int, LETTER_Y),
                decreases children@.len() - i,
            {
                proof {
                    assert(decreases_to!(*children => children@));
                    assert(decreases_to!(children@ => *children@[i as int]));
                }
                proof {
                    if !letters_ok(srep[i as int]) {
                        lemma_letters_bad(srep, srep.len() as int, i as int);
                    }
                }
                let c = match children[i].unknowns_helper() {
                    Ok(v) => v,
                    Err(e) => return Err(e),
                };
                sx = sx || c.0;
                sy = sy || c.1;
                i = i + 1;
            }
            Ok((sx, sy))
        }
    }
}

impl Node {
    /// Method shim so that recursion through boxed children auto-derefs.
    #[verifier::loop_isolation(false)]
    fn unknowns_helper(&self) -> (r: Result<(bool, bool), AppError>)
        ensures
            match r {
                Ok(xy) => letters_ok(self@) && xy.0 == mentions_letter(self@, LETTER_X) && xy.1
                    == mentions_letter(self@, LETTER_Y),
                Err(e) => !letters_ok(self@) && e is MathError,
            },
        decreases *self, 1int,
    {
        ast_unknowns(self)
    }
}

/// The rendering of one scalar value: its decimal literal, wrapped as a
/// parenthesised negation when the sign bit is set.
pub open spec fn text_of_value(v: u64) -> Seq<u8> {
    if v >> 63 == 1 {
        seq![40u8, 45u8] + literal_of_bits(v ^ SIGN_BIT) + seq![41u8]
    } else {
        literal_of_bits(v)
    }
}

/// Whether every constant the text form must render is finite: literal
/// constants, and the values of still-bound variables.
pub open spec fn printable(t: NodeView, vars: Map<u8, u64>) -> bool
    decreases t, 1int,
{
    match t {
        NodeView::Constant { value } => is_finite_bits(value),
        NodeView::Variable { name } => if vars.contains_key(name) {
            is_finite_bits(vars[name])
        } else {
            name < 128
        },
        NodeView::Unknown { name } => name < 128,
        NodeView::Unary { child, .. } => match child {
            Some(c) => printable(*c, vars),
            None => false,
        },
        NodeView::Binary { lhs, rhs, .. } => match (lhs, rhs) {
            (Some(l), Some(r)) => printable(*l, vars) && printable(*r, vars),
            _ => false,
        },
        NodeView::NAry { children, .. } => children.len() >= 1 && printable_in(
            children,
            children.len() as int,
            vars,
        ),
    }
}

/// `printable` over the first `n` children.
pub open spec fn printable_in(s: Seq<NodeView>, n: int, vars: Map<u8, u64>) -> bool
    decreases s, n,
{
    if n <= 0 || n > s.len() {
        true
    } else {
        printable_in(s, n - 1, vars) && printable(s[n - 1], vars)
    }
}

/// The canonical, fully parenthesised text of a tree, with bound variables
/// substituted by their values.
pub open spec fn text_of(t: NodeView, vars: Map<u8, u64>) -> Seq<u8>
    decreases t, 1int,
{
    match t {
        NodeView::Constant { value } => text_of_value(value),
        NodeView::Variable { name } => if vars.contains_key(name) {
            text_of_value(vars[name])
        } else {
            seq![name]
        },
        NodeView::Unknown { name } => seq![name],
        NodeView::Unary { child, .. } => match child {
            Some(c) => seq![40u8, 45u8] + text_of(*c, vars) + seq![41u8],
            None => Seq::empty(),
        },
        NodeView::Binary { op_type, lhs, rhs } => match (lhs, rhs) {
            (Some(l), Some(r)) => {
                let op = match op_type {
                    crate::ast::BinaryOperation::Division => 47u8,
                    crate::ast::BinaryOperation::Exponent => 94u8,
                };
                seq![40u8] + text_of(*l, vars) + seq![op] + text_of(*r, vars) + seq![41u8]
            }
            _ => Seq::empty(),
        },
        NodeView::NAry { op_type, children } => {
            let op = match op_type {
                NAryOperation::Add => 43u8,
                NAryOperation::Multiply => 42u8,
            };
            seq![40u8] + text_in(op, children, children.len() as int, vars) + seq![41u8]
        }
    }
}

/// The texts of the first `n` children, joined by the operator byte.
pub open spec fn text_in(op: u8, s: Seq<NodeView>, n: int, vars: Map<u8, u64>) -> Seq<u8>
    decreases s, n,
{
    if n <= 0 || n > s.len() {
        Seq::empty()
    } else if n == 1 {
        text_of(s[0], vars)
    } else {
        text_in(op, s, n - 1, vars) + seq![op] + text_of(s[n - 1], vars)
    }
}

/// One unprintable element makes the whole list unprintable.
proof fn lemma_printable_bad(s: Seq<NodeView>, n: int, i: int, vars: Map<u8, u64>)
    requires
        0 <= i < n <= s.len(),
        !printable(s[i], vars),
    ensures
        !printable_in(s, n, vars),
    decreases n,
{
    if i < n - 1 {
        lemma_printable_bad(s, n - 1, i, vars);
    }
}

/// The bytes of a rendered scalar, by the trusted formatter.
fn value_text(v: u64) -> (r: Vec<u8>)
    requires
        is_finite_bits(v),
    ensures
        r@ == text_of_value(v),
        forall|i: int| 0 <= i < r@.len() ==> r@[i] < 128,
{
    if v >> 63 == 1 {
        let abs = v ^ SIGN_BIT;
        proof {
            assert((v ^ SIGN_BIT) & SIGN_BIT == 0 && ((v ^ SIGN_BIT) >> 52) & 0x7FF == (v >> 52)
                & 0x7FF) by (bit_vector)
                requires
                    v >> 63 == 1,
            ;
        }
        let mut lit = crate::scalar::format_bits(abs);
        proof {
            lemma_literal_ascii(lit@);
        }
        let mut out: Vec<u8> = Vec::new();
        out.push(40);
        out.push(45);
        out.append(&mut lit);
        out.push(41);
        proof {
            assert(out@ =~= text_of_value(v));
        }
        out
    } else {
        proof {
            assert(v & SIGN_BIT == 0) by (bit_vector)
                requires
                    v >> 63 != 1,
            ;
        }
        let lit = crate::scalar::format_bits(v);
        proof {
            lemma_literal_ascii(lit@);
        }
        lit
    }
}

/// Every byte of a well-shaped literal is ASCII.
proof fn lemma_literal_ascii(s: Seq<u8>)
    requires
        crate::scalar::is_literal_bytes(s),
    ensures
        forall|i: int| 0 <= i < s.len() ==> s[i] < 128,
{
    let (d, f, e) = choose|d: Seq<u8>, f: Seq<u8>, e: Seq<u8>|
        {
            &&& s == d + f + e
            &&& d.len() >= 1
            &&& crate::scalar::all_digits(d)
            &&& (f.len() == 0 || (f.len() >= 2 && f[0] == 46 && crate::scalar::all_digits(
                f.skip(1),
            )))
            &&& (e.len() == 0 || (e.len() >= 3 && e[0] == 69 && (e[1] == 43 || e[1] == 45)
                && crate::scalar::all_digits(e.skip(2))))
        };
    assert forall|i: int| 0 <= i < s.len() implies s[i] < 128 by {
        if i < d.len() {
            assert(s[i] == d[i]);
        } else if i < d.len() + f.len() {
            let j = i - d.len();
            assert(s[i] == f[j]);
            if j >= 1 {
                assert(f[j] == f.skip(1)[j - 1]);
            }
        } else {
            let j = i - d.len() - f.len();
            assert(s[i] == e[j]);
            if j >= 2 {
                assert(e[j] == e.skip(2)[j - 2]);
            }
        }
    }
}

impl Node {
    /// The tree rendered as bytes, or a compile error on a non-finite
    /// constant or a malformed node.
    #[verifier::loop_isolation(false)]
    fn to_text(&self, vars: &VariableTable) -> (r: Result<Vec<u8>, AppError>)
        ensures
            match r {
                Ok(v) => printable(self@, vars@) && v@ == text_of(self@, vars@) && (forall|i: int|
                    0 <= i < v@.len() ==> v@[i] < 128),
                Err(e) => !printable(self@, vars@) && e is CompileError,
            },
        decreases *self,
    {
        match self {
            Node::Constant { value } => {
                if crate::scalar::finite(*value) {
                    Ok(value_text(*value))
                } else {
                    Err(AppError::CompileError("non-finite constant has no text form".to_owned()))
                }
            }
            Node::Variable { name } => match vars.get(*name) {
                Some(v) => {
                    if crate::scalar::finite(v) {
                        Ok(value_text(v))
                    } else {
                        Err(
                            AppError::CompileError(
                                "non-finite binding has no text form".to_owned(),
                            ),
                        )
                    }
                }
                None => {
                    if *name < 128 {
                        let mut out: Vec<u8> = Vec::new();
                        out.push(*name);
                        proof {
                            assert(out@ =~= text_of(self@, vars@));
                        }
                        Ok(out)
                    } else {
                        Err(
                            AppError::CompileError(
                                "identifier outside the text alphabet".to_owned(),
                            ),
                        )
                    }
                }
            },
            Node::Unknown { name } => {
                if *name < 128 {
                    let mut out: Vec<u8> = Vec::new();
                    out.push(*name);
                    proof {
                        assert(out@ =~= text_of(self@, vars@));
                    }
                    Ok(out)
                } else {
                    Err(
                        AppError::CompileError("identifier outside the text alphabet".to_owned()),
                    )
                }
            }
            Node::Unary { child, .. } => match child {
                Some(c) => {
                    let mut inner = match c.to_text(vars) {
                        Ok(v) => v,
                        Err(e) => return Err(e),
                    };
                    let mut out: Vec<u8> = Vec::new();
                    out.push(40);
                    out.push(45);
                    out.append(&mut inner);
                    out.push(41);
                    proof {
                        assert(out@ =~= text_of(self@, vars@));
                    }
                    Ok(out)
                }
                None => Err(AppError::CompileError("operator node missing a child".to_owned())),
            },
            Node::Binary { op_type, lhs, rhs } => match (lhs, rhs) {
                (Some(l), Some(r)) => {
                    let mut lt = match l.to_text(vars) {
                        Ok(v) => v,
                        Err(e) => return Err(e),
                    };
                    let mut rt = match r.to_text(vars) {
                        Ok(v) => v,
                        Err(e) => return Err(e),
                    };
                    let opb: u8 = match op_type {
                        crate::ast::BinaryOperation::Division => 47,
                        crate::ast::BinaryOperation::Exponent => 94,
                    };
                    let mut out: Vec<u8> = Vec::new();
                    out.push(40);
                    out.append(&mut lt);
                    out.push(opb);
                    out.append(&mut rt);
                    out.push(41);
                    proof {
                        assert(out@ =~= text_of(self@, vars@));
                    }
                    Ok(out)
                }
                _ => Err(AppError::CompileError("operator node missing a child".to_owned())),
            },
            Node::NAry { op_type, children } => {
                let ghost srep = rep_children(children@, children@.len() as int);
                proof {
                    lemma_rep_children(children@, children@.len() as int);
                }
                if children.len() == 0 {
                    return Err(
                        AppError::CompileError("empty n-ary node has no text form".to_owned()),
                    );
                }
                let opb: u8 = match op_type {
                    NAryOperation::Add => 43,
                    NAryOperation::Multiply => 42,
                };
                let mut out: Vec<u8> = Vec::new();
                out.push(40);
                let mut i: usize = 0;
                while i < children.len()
                    invariant
                        i <= children@.len(),
                        printable_in(srep, i as int, vars@),
                        i == 0 ==> out@ =~= seq![40u8],
                        i > 0 ==> out@ =~= seq![40u8] + text_in(opb, srep, i as int, vars@),
                        forall|k: int| 0 <= k < out@.len() ==> #[trigger] out@[k] < 128,
                    decreases children@.len() - i,
                {
                    proof {
                        assert(decreases_to!(*children => children@));
                        assert(decreases_to!(children@ => *children@[i as int]));
                    }
                    if i > 0 {
                        out.push(opb);
                    }
                    proof {
                        if !printable(srep[i as int], vars@) {
                            lemma_printable_bad(srep, srep.len() as int, i as int, vars@);
                        }
                    }
                    let mut ct = match children[i].to_text(vars) {
                        Ok(v) => v,
                        Err(e) => return Err(e),
                    };
                    out.append(&mut ct);
                    proof {
                        assert(out@ =~= seq![40u8] + text_in(opb, srep, i + 1, vars@));
                    }
                    i = i + 1;
                }
                out.push(41);
                proof {
                    assert(out@ =~= text_of(self@, vars@));
                }
                Ok(out)
            }
        }
    }
}

/// The characters of an ASCII byte sequence.
pub open spec fn chars_of(s: Seq<u8>) -> Seq<char> {
    s.map_values(|b: u8| b as char)
}

/// Turns ASCII bytes into a `String`.
///
/// Relies on `String::from_utf8`: ASCII bytes are valid UTF-8 and decode to
/// one character per byte.
#[verifier::external_body]
fn ascii_to_string(v: Vec<u8>) -> (r: String)
    requires
        forall|i: int| 0 <= i < v@.len() ==> v@[i] < 128,
    ensures
        r@ == chars_of(v@),
{
    match String::from_utf8(v) {
        Ok(s) => s,
        Err(_) => String::new(),
    }
}

/// Renders the residual tree as a canonical, re-parsable textual formula,
/// substituting any still-bound variable by its value inline. The slot
/// context does not affect the text: a function input is identified by its
/// own letter. Fails exactly on a tree with a non-finite constant or a
/// malformed node.
pub fn compile_to_string(root: &Node, vars: &VariableTable, expr_idx: usize) -> (r: Result<
    String,
    AppError,
>)
    ensures
        match r {
            Ok(s) => printable(root@, vars@) && s@ == chars_of(text_of(root@, vars@)),
            Err(e) => !printable(root@, vars@) && e is CompileError,
        },
{
    let bytes = match root.to_text(vars) {
        Ok(v) => v,
        Err(e) => return Err(e),
    };
    Ok(ascii_to_string(bytes))
}

/// What the trusted formatter guarantees of every value it prints: the
/// literal is well shaped and reads back to exactly the same bits.
pub open spec fn literal_round_trips(v: u64) -> bool {
    crate::scalar::is_literal_bytes(crate::scalar::literal_of_bits(v))
        && crate::scalar::bits_of_literal(crate::scalar::literal_of_bits(v)) == Some(v)
}

/// The magnitude whose literal the text form of `v` embeds.
pub open spec fn printed_magnitude(v: u64) -> u64 {
    if v >> 63 == 1 {
        v ^ SIGN_BIT
    } else {
        v
    }
}

/// A scan over exactly `n` digits stops right after them.
proof fn lemma_scan_digits_exact(s: Seq<u8>, i: int, n: int)
    requires
        0 <= i,
        0 <= n,
        i + n <= s.len(),
        forall|k: int| 0 <= k < n ==> crate::scalar::is_digit(#[trigger] s[i + k]),
        i + n == s.len() || !crate::scalar::is_digit(s[i + n]),
    ensures
        crate::parser::scan_digits(s, i) == i + n,
    decreases n,
{
    if n > 0 {
        assert(crate::scalar::is_digit(s[i + 0]));
        assert forall|k: int| 0 <= k < n - 1 implies crate::scalar::is_digit(
            #[trigger] s[i + 1 + k],
        ) by {
            assert(s[i + 1 + k] == s[i + (k + 1)]);
        }
        lemma_scan_digits_exact(s, i + 1, n - 1);
    }
}

/// The bytes that may follow a printed token: a closing parenthesis or one
/// of the four operators. None of them can extend a literal.
pub open spec fn is_print_follower(c: u8) -> bool {
    c == 41 || c == 43 || c == 42 || c == 47 || c == 94
}

/// A well-shaped literal embedded in context, followed by a printable
/// follower or the end, is consumed exactly by the literal scanner.
proof fn lemma_literal_munch(s: Seq<u8>, i: int, lit: Seq<u8>)
    requires
        crate::scalar::is_literal_bytes(lit),
        0 <= i,
        i + lit.len() <= s.len(),
        s.subrange(i, i + lit.len()) == lit,
        i + lit.len() == s.len() || is_print_follower(s[i + lit.len()]),
    ensures
        crate::parser::scan_literal_end(s, i) == i + lit.len(),
{
    let (d, f, e) = choose|d: Seq<u8>, f: Seq<u8>, e: Seq<u8>|
        {
            &&& lit == d + f + e
            &&& d.len() >= 1
            &&& crate::scalar::all_digits(d)
            &&& (f.len() == 0 || (f.len() >= 2 && f[0] == 46 && crate::scalar::all_digits(
                f.skip(1),
            )))
            &&& (e.len() == 0 || (e.len() >= 3 && e[0] == 69 && (e[1] == 43 || e[1] == 45)
                && crate::scalar::all_digits(e.skip(2))))
        };
    let ld = d.len() as int;
    let lf = f.len() as int;
    let le = e.len() as int;
    let ll = lit.len() as int;
    assert(ll == ld + lf + le);
    assert forall|k: int| 0 <= k < ll implies s[i + k] == lit[k] by {
        assert(s.subrange(i, i + ll)[k] == s[i + k]);
    }
    assert forall|k: int| 0 <= k < ld implies crate::scalar::is_digit(#[trigger] s[i + k]) by {
        assert(lit[k] == d[k]);
    }
    // After the digit run comes '.', 'E', a follower, or the end.
    if lf > 0 {
        assert(lit[ld] == f[0]);
    } else if le > 0 {
        assert(lit[ld] == e[0]);
    }
    lemma_scan_digits_exact(s, i, ld);
    let dd = i + ld;
    if lf > 0 {
        assert(s[dd] == 46 && crate::scalar::is_digit(s[dd + 1])) by {
            assert(lit[ld + 1] == f[1]);
            assert(f[1] == f.skip(1)[0]);
        }
        assert forall|k: int| 0 <= k < lf - 1 implies crate::scalar::is_digit(
            #[trigger] s[dd + 1 + k],
        ) by {
            assert(lit[ld + 1 + k] == f[1 + k]);
            assert(f[1 + k] == f.skip(1)[k]);
        }
        if le > 0 {
            assert(lit[ld + lf] == e[0]);
        }
        lemma_scan_digits_exact(s, dd + 1, lf - 1);
    }
    let ff = i + ld + lf;
    if le > 0 {
        assert(s[ff] == 69);
        assert(s[ff + 1] == 43 || s[ff + 1] == 45) by {
            assert(lit[ld + lf + 1] == e[1]);
        }
        assert(!crate::scalar::is_digit(s[ff + 1]));
        assert(crate::scalar::is_digit(s[ff + 2])) by {
            assert(lit[ld + lf + 2] == e[2]);
            assert(e[2] == e.skip(2)[0]);
        }
        assert forall|k: int| 0 <= k < le - 2 implies crate::scalar::is_digit(
            #[trigger] s[ff + 2 + k],
        ) by {
            assert(lit[ld + lf + 2 + k] == e[2 + k]);
            assert(e[2 + k] == e.skip(2)[k]);
        }
        lemma_scan_digits_exact(s, ff + 2, le - 2);
    }
}

/// Re-parsing a leaf's printed form yields a tree that evaluates to exactly
/// the same scalar, bit for bit, in any function table and at any inputs.
///
/// This is the leaf fragment of the print-and-re-parse round trip. The
/// `literal_round_trips` hypothesis carries, per value, what the trusted
/// formatter's contract guarantees of every literal it emits.
#[verifier::rlimit(100)]
pub proof fn lemma_leaf_text_round_trip(
    t: NodeView,
    vars: Map<u8, u64>,
    ft: Map<u8, (u8, NodeView)>,
    x: u64,
    y: u64,
)
    requires
        t is Constant || t is Variable || t is Unknown,
        wf(t),
        printable(t, vars),
        t matches NodeView::Constant { value } ==> literal_round_trips(printed_magnitude(value)),
        t matches NodeView::Variable { name } ==> (vars.contains_key(name)
            ==> literal_round_trips(printed_magnitude(vars[name]))),
        t matches NodeView::Variable { name } ==> (vars.contains_key(name)
            || (crate::parser::is_letter(name) && name != LETTER_X && name != LETTER_Y)),
    ensures
        crate::parser::parse_text(text_of(t, vars), ft) matches Some(t2) && crate::ast::eval_node(
            t2,
            vars,
            x,
            y,
        ) == crate::ast::eval_node(t, vars, x, y),
{
    let s = text_of(t, vars);
    match t {
        NodeView::Constant { value } => {
            lemma_value_text_parses(value, vars, ft, x, y);
        }
        NodeView::Variable { name } => {
            if vars.contains_key(name) {
                lemma_value_text_parses(vars[name], vars, ft, x, y);
            } else {
                assert(crate::parser::skip_ws(s, 0) == 0);
                assert(crate::parser::skip_ws(s, 1) == 1);
            }
        }
        NodeView::Unknown { name } => {
            assert(crate::parser::skip_ws(s, 0) == 0);
            assert(crate::parser::skip_ws(s, 1) == 1);
        }
        _ => (),
    }
}

/// The printed form of one finite scalar parses back, alone, to a tree
/// evaluating to exactly that scalar.
/// A well-shaped literal at `i`, with a printable follower or the end,
/// parses as a primary expression to exactly its value.
#[verifier::rlimit(100)]
proof fn lemma_lit_base(s: Seq<u8>, i: int, m: u64, ft: Map<u8, (u8, NodeView)>)
    requires
        literal_round_trips(m),
        0 <= i,
        i + crate::scalar::literal_of_bits(m).len() <= s.len(),
        s.subrange(i, i + crate::scalar::literal_of_bits(m).len() as int)
            == crate::scalar::literal_of_bits(m),
        i + crate::scalar::literal_of_bits(m).len() == s.len() || is_print_follower(
            s[i + crate::scalar::literal_of_bits(m).len()],
        ),
    ensures
        crate::parser::p_base(s, i, ft) == Some(
            (NodeView::Constant { value: m }, i + crate::scalar::literal_of_bits(m).len() as int),
        ),
{
    let lit = crate::scalar::literal_of_bits(m);
    let (dd, ff, ee) = choose|d: Seq<u8>, f: Seq<u8>, e: Seq<u8>|
        {
            &&& lit == d + f + e
            &&& d.len() >= 1
            &&& crate::scalar::all_digits(d)
            &&& (f.len() == 0 || (f.len() >= 2 && f[0] == 46 && crate::scalar::all_digits(
                f.skip(1),
            )))
            &&& (e.len() == 0 || (e.len() >= 3 && e[0] == 69 && (e[1] == 43 || e[1] == 45)
                && crate::scalar::all_digits(e.skip(2))))
        };
    assert(crate::scalar::is_digit(lit[0]) && lit.len() >= 1) by {
        assert(lit[0] == dd[0]);
    }
    assert(s[i] == lit[0]) by {
        assert(s.subrange(i, i + lit.len() as int)[0] == s[i]);
    }
    lemma_literal_munch(s, i, lit);
    assert(crate::scalar::bits_of_literal(s.subrange(i, i + lit.len() as int)) == Some(m));
}

/// The printed form of one finite scalar parses back, alone, to a tree
/// evaluating to exactly that scalar.
#[verifier::rlimit(100)]
proof fn lemma_value_text_parses(
    v: u64,
    vars: Map<u8, u64>,
    ft: Map<u8, (u8, NodeView)>,
    x: u64,
    y: u64,
)
    requires
        literal_round_trips(printed_magnitude(v)),
    ensures
        crate::parser::parse_text(text_of_value(v), ft) matches Some(t2)
            && crate::ast::eval_node(t2, vars, x, y) == v,
{
    let s = text_of_value(v);
    let lit = crate::scalar::literal_of_bits(printed_magnitude(v));
    if v >> 63 == 1 {
        let m = v ^ SIGN_BIT;
        // s = '(' '-' lit ')'
        assert(s == seq![40u8, 45u8] + lit + seq![41u8]);
        assert(s[0] == 40 && s[1] == 45 && s[s.len() as int - 1] == 41);
        assert(crate::parser::skip_ws(s, 1) == 1);
        assert(crate::parser::skip_ws(s, 2) == 2) by {
            assert(s[2] == lit[0]);
            assert(crate::scalar::is_digit(lit[0])) by {
                lemma_shape_first_digit(lit);
            }
        }
        assert(s.subrange(2, 2 + lit.len() as int) =~= lit);
        lemma_lit_base(s, 2, m, ft);
        let end = 2 + lit.len() as int;
        let neg = NodeView::Unary {
            op_type: UnaryOperation::Minus,
            child: Some(Box::new(NodeView::Constant { value: m })),
        };
        assert(crate::parser::skip_ws(s, end) == end);
        assert(s[end] == 41);
        assert(crate::parser::p_power(s, 2, ft) == Some(
            (NodeView::Constant { value: m }, end),
        ));
        assert(crate::parser::p_factor(s, 1, ft) == Some((neg, end)));
        assert(crate::parser::p_term_rest(s, end, neg, ft) == Some((neg, end)));
        assert(crate::parser::p_term(s, 1, ft) == Some((neg, end)));
        assert(crate::parser::p_expr_rest(s, end, neg, ft) == Some((neg, end)));
        assert(crate::parser::p_expr(s, 1, ft) == Some((neg, end)));
        assert(crate::parser::skip_ws(s, 0) == 0);
        assert(crate::parser::p_base(s, 0, ft) == Some((neg, end + 1)));
        assert(crate::parser::skip_ws(s, end + 1) == end + 1);
        assert(crate::parser::p_power(s, 0, ft) == Some((neg, end + 1)));
        assert(crate::parser::p_factor(s, 0, ft) == Some((neg, end + 1)));
        assert(crate::parser::p_term_rest(s, end + 1, neg, ft) == Some((neg, end + 1)));
        assert(crate::parser::p_term(s, 0, ft) == Some((neg, end + 1)));
        assert(crate::parser::p_expr_rest(s, end + 1, neg, ft) == Some((neg, end + 1)));
        assert(crate::parser::p_expr(s, 0, ft) == Some((neg, end + 1)));
        assert(crate::parser::parse_text(s, ft) == Some(neg));
        assert(crate::ast::eval_node(NodeView::Constant { value: m }, vars, x, y) == m);
        assert(crate::ast::eval_node(neg, vars, x, y) == crate::scalar::neg_bits_spec(m));
        assert((v ^ SIGN_BIT) ^ SIGN_BIT == v) by (bit_vector);
    } else {
        assert(s == lit);
        assert(crate::parser::skip_ws(s, 0) == 0) by {
            assert(crate::scalar::is_digit(lit[0])) by {
                lemma_shape_first_digit(lit);
            }
        }
        assert(s.subrange(0, lit.len() as int) =~= lit);
        lemma_lit_base(s, 0, v, ft);
        let end = lit.len() as int;
        let c = NodeView::Constant { value: v };
        assert(crate::parser::skip_ws(s, end) == end);
        assert(crate::parser::p_power(s, 0, ft) == Some((c, end)));
        assert(crate::parser::p_factor(s, 0, ft) == Some((c, end)));
        assert(crate::parser::p_term_rest(s, end, c, ft) == Some((c, end)));
        assert(crate::parser::p_term(s, 0, ft) == Some((c, end)));
        assert(crate::parser::p_expr_rest(s, end, c, ft) == Some((c, end)));
        assert(crate::parser::p_expr(s, 0, ft) == Some((c, end)));
        assert(crate::parser::parse_text(s, ft) == Some(c));
    }
}

/// A well-shaped literal starts with a digit.
proof fn lemma_shape_first_digit(lit: Seq<u8>)
    requires
        crate::scalar::is_literal_bytes(lit),
    ensures
        lit.len() >= 1 && crate::scalar::is_digit(lit[0]),
{
    let (dd, ff, ee) = choose|d: Seq<u8>, f: Seq<u8>, e: Seq<u8>|
        {
            &&& lit == d + f + e
            &&& d.len() >= 1
            &&& crate::scalar::all_digits(d)
            &&& (f.len() == 0 || (f.len() >= 2 && f[0] == 46 && crate::scalar::all_digits(
                f.skip(1),
            )))
            &&& (e.len() == 0 || (e.len() >= 3 && e[0] == 69 && (e[1] == 43 || e[1] == 45)
                && crate::scalar::all_digits(e.skip(2))))
        };
    assert(lit[0] == dd[0]);
}

} // verus!
