//! The bytecode compiler: residual AST to a postfix stack-machine program.
//!
//! `PUSH_CONST` pushes a scalar, `LOAD_INPUT` pushes the value of a logical
//! input register (two registers per slot context, one for each unknown
//! letter), and each operator pops its operands and pushes its result. N-ary
//! nodes lower to a left-to-right fold of repeated binary operations over
//! their ordered children. By the time code generation runs, the simplifier
//! has resolved every bound variable, so only unknowns remain as
//! runtime-supplied values; an unbound variable cannot be lowered and is a
//! compile error. Code generation is deterministic: the program is a function
//! of the tree, the bindings and the slot alone, which is stated by
//! `code_of` and proved by `lemma_bytecode_deterministic`.
use crate::ast::{rep_children, rep_of, lemma_rep_children, BinaryOperation, NAryOperation, Node,
    NodeView, UnaryOperation, LETTER_X};
use crate::error::AppError;
use crate::table::VariableTable;
use vstd::prelude::*;

verus! {

broadcast use vstd::std_specs::vec::group_vec_axioms, vstd::seq::axiom_seq_index_decreases;

/// One step of a stack-machine program.
#[derive(Debug, Clone, Copy, PartialEq, Eq, Structural)]
pub enum Instruction {
    /// Push a literal scalar (the operand is its bit pattern).
    PushConst(u64),
    /// Push the value of a logical input register.
    LoadInput(u64),
    /// Pop two values, push their sum.
    Add,
    /// Pop two values, push their product.
    Multiply,
    /// Pop two values, push the first divided by the second.
    Divide,
    /// Pop two values, push the first raised to the second.
    Power,
    /// Pop one value, push its negation.
    Negate,
}

impl Instruction {
    /// The uniform wire form: an opcode and an operand, the operand zero for
    /// opcodes that take no immediate.
    pub fn to_number_pair(&self) -> (r: (u8, u64))
        ensures
            r == pair_of(*self),
    {
        match self {
            Instruction::PushConst(v) => (0, *v),
            Instruction::LoadInput(slot) => (1, *slot),
            Instruction::Add => (2, 0),
            Instruction::Multiply => (3, 0),
            Instruction::Divide => (4, 0),
            Instruction::Power => (5, 0),
            Instruction::Negate => (6, 0),
        }
    }
}

/// The wire form of an instruction.
pub open spec fn pair_of(i: Instruction) -> (u8, u64) {
    match i {
        Instruction::PushConst(v) => (0u8, v),
        Instruction::LoadInput(slot) => (1u8, slot),
        Instruction::Add => (2u8, 0u64),
        Instruction::Multiply => (3u8, 0u64),
        Instruction::Divide => (4u8, 0u64),
        Instruction::Power => (5u8, 0u64),
        Instruction::Negate => (6u8, 0u64),
    }
}

/// The instruction an operator lowers to.
pub open spec fn nary_instr(op: NAryOperation) -> Instruction {
    match op {
        NAryOperation::Add => Instruction::Add,
        NAryOperation::Multiply => Instruction::Multiply,
    }
}

/// The program of the first `n` children, joined by the operator.
pub open spec fn code_children(
    op: NAryOperation,
    s: Seq<NodeView>,
    n: int,
    vars: Map<u8, u64>,
    x_slot: u64,
    y_slot: u64,
) -> Option<Seq<Instruction>>
    decreases s, n,
{
    if n <= 0 || n > s.len() {
        None
    } else if n == 1 {
        code_of(s[0], vars, x_slot, y_slot)
    } else {
        match (code_children(op, s, n - 1, vars, x_slot, y_slot), code_of(
            s[n - 1],
            vars,
            x_slot,
            y_slot,
        )) {
            (Some(a), Some(b)) => Some(a + b + seq![nary_instr(op)]),
            _ => None,
        }
    }
}

/// The stack-machine program of a tree: a postfix rendering, with bound
/// variables lowered to constants. `None` when the tree holds an unbound
/// variable or a malformed node.
pub open spec fn code_of(t: NodeView, vars: Map<u8, u64>, x_slot: u64, y_slot: u64) -> Option<
    Seq<Instruction>,
>
    decreases t, 1int,
{
    match t {
        NodeView::Constant { value } => Some(seq![Instruction::PushConst(value)]),
        NodeView::Variable { name } => if vars.contains_key(name) {
            Some(seq![Instruction::PushConst(vars[name])])
        } else {
            None
        },
        NodeView::Unknown { name } => Some(
            seq![
                Instruction::LoadInput(
                    if name == LETTER_X {
                        x_slot
                    } else {
                        y_slot
                    },
                ),
            ],
        ),
        NodeView::Unary { op_type, child } => match child {
            Some(c) => match code_of(*c, vars, x_slot, y_slot) {
                Some(a) => Some(a + seq![Instruction::Negate]),
                None => None,
            },
            None => None,
        },
        NodeView::Binary { op_type, lhs, rhs } => match (lhs, rhs) {
            (Some(l), Some(r)) => match (code_of(*l, vars, x_slot, y_slot), code_of(
                *r,
                vars,
                x_slot,
                y_slot,
            )) {
                (Some(a), Some(b)) => Some(
                    a + b + seq![
                        match op_type {
                            BinaryOperation::Division => Instruction::Divide,
                            BinaryOperation::Exponent => Instruction::Power,
                        },
                    ],
                ),
                _ => None,
            },
            _ => None,
        },
        NodeView::NAry { op_type, children } => code_children(
            op_type,
            children,
            children.len() as int,
            vars,
            x_slot,
            y_slot,
        ),
    }
}

/// Code generation is deterministic: two programs compiled from the same
/// residual tree with the same bindings and slot are identical instruction
/// sequences.
pub proof fn lemma_bytecode_deterministic(
    t: NodeView,
    vars: Map<u8, u64>,
    x_slot: u64,
    y_slot: u64,
    c1: Seq<Instruction>,
    c2: Seq<Instruction>,
)
    requires
        code_of(t, vars, x_slot, y_slot) == Some(c1),
        code_of(t, vars, x_slot, y_slot) == Some(c2),
    ensures
        c1 == c2,
{
}

/// A child that cannot be lowered stops the whole list from lowering.
proof fn lemma_code_children_none(
    op: NAryOperation,
    s: Seq<NodeView>,
    n: int,
    i: int,
    vars: Map<u8, u64>,
    x_slot: u64,
    y_slot: u64,
)
    requires
        0 <= i < n <= s.len(),
        code_of(s[i], vars, x_slot, y_slot) is None,
    ensures
        code_children(op, s, n, vars, x_slot, y_slot) is None,
    decreases n,
{
    if i < n - 1 {
        lemma_code_children_none(op, s, n - 1, i, vars, x_slot, y_slot);
    }
}

impl Node {
    /// The tree lowered to instructions, or a compile error on an unbound
    /// variable or a malformed node.
    #[verifier::loop_isolation(false)]
    fn to_code(&self, vars: &VariableTable, x_slot: u64, y_slot: u64) -> (r: Result<
        Vec<Instruction>,
        AppError,
    >)
        ensures
            match r {
                Ok(v) => code_of(self@, vars@, x_slot, y_slot) == Some(v@),
                Err(e) => code_of(self@, vars@, x_slot, y_slot) is None && e is CompileError,
            },
        decreases *self, 0int,
    {
        match self {
            Node::Constant { value } => {
                let mut out: Vec<Instruction> = Vec::new();
                out.push(Instruction::PushConst(*value));
                proof {
                    assert(out@ =~= seq![Instruction::PushConst(self@->Constant_value)]);
                }
                Ok(out)
            }
            Node::Variable { name } => match vars.get(*name) {
                Some(v) => {
                    let mut out: Vec<Instruction> = Vec::new();
                    out.push(Instruction::PushConst(v));
                    proof {
                        assert(out@ =~= seq![Instruction::PushConst(vars@[self@->Variable_name])]);
                    }
                    Ok(out)
                }
                None => Err(
                    AppError::CompileError("unbound variable cannot be lowered".to_owned()),
                ),
            },
            Node::Unknown { name } => {
                let slot = if *name == LETTER_X {
                    x_slot
                } else {
                    y_slot
                };
                let mut out: Vec<Instruction> = Vec::new();
                out.push(Instruction::LoadInput(slot));
                proof {
                    assert(out@ =~= seq![Instruction::LoadInput(slot)]);
                }
                Ok(out)
            }
            Node::Unary { child, .. } => match child {
                Some(c) => {
                    let mut out = match c.code_helper(vars, x_slot, y_slot) {
                        Ok(v) => v,
                        Err(e) => return Err(e),
                    };
                    out.push(Instruction::Negate);
                    proof {
                        assert(code_of(self@, vars@, x_slot, y_slot) == Some(out@));
                    }
                    Ok(out)
                }
                None => Err(AppError::CompileError("operator node missing a child".to_owned())),
            },
            Node::Binary { op_type, lhs, rhs } => match (lhs, rhs) {
                (Some(l), Some(r)) => {
                    let mut out = match l.code_helper(vars, x_slot, y_slot) {
                        Ok(v) => v,
                        Err(e) => return Err(e),
                    };
                    let mut rc = match r.code_helper(vars, x_slot, y_slot) {
                        Ok(v) => v,
                        Err(e) => return Err(e),
                    };
                    out.append(&mut rc);
                    out.push(
                        match op_type {
                            BinaryOperation::Division => Instruction::Divide,
                            BinaryOperation::Exponent => Instruction::Power,
                        },
                    );
                    proof {
                        assert(code_of(self@, vars@, x_slot, y_slot) == Some(out@));
                    }
                    Ok(out)
                }
                _ => Err(AppError::CompileError("operator node missing a child".to_owned())),
            },
            Node::NAry { op_type, children } => {
                let op = *op_type;
                let ghost srep = rep_children(children@, children@.len() as int);
                proof {
                    lemma_rep_children(children@, children@.len() as int);
                }
                if children.len() == 0 {
                    proof {
                        assert(code_children(op, srep, 0, vars@, x_slot, y_slot) is None);
                    }
                    return Err(
                        AppError::CompileError("empty n-ary node cannot be lowered".to_owned()),
                    );
                }
                let opi = match op {
                    NAryOperation::Add => Instruction::Add,
                    NAryOperation::Multiply => Instruction::Multiply,
                };
                let mut out: Vec<Instruction> = Vec::new();
                let mut i: usize = 0;
                while i < children.len()
                    invariant
                        i <= children@.len(),
                        i > 0 ==> code_children(op, srep, i as int, vars@, x_slot, y_slot)
                            == Some(out@),
                    decreases children@.len() - i,
                {
                    proof {
                        assert(decreases_to!(*children => children@));
                        assert(decreases_to!(children@ => *children@[i as int]));
                    }
                    proof {
                        if code_of(srep[i as int], vars@, x_slot, y_slot) is None {
                            lemma_code_children_none(
                                op,
                                srep,
                                srep.len() as int,
                                i as int,
                                vars@,
                                x_slot,
                                y_slot,
                            );
                        }
                    }
                    let mut c = match children[i].code_helper(vars, x_slot, y_slot) {
                        Ok(v) => v,
                        Err(e) => return Err(e),
                    };
                    if i == 0 {
                        out = c;
                        proof {
                            assert(code_children(op, srep, 1, vars@, x_slot, y_slot)
                                == Some(out@));
                        }
                    } else {
                        out.append(&mut c);
                        out.push(opi);
                        proof {
                            assert(code_children(op, srep, i + 1, vars@, x_slot, y_slot)
                                == Some(out@));
                        }
                    }
                    i = i + 1;
                }
                Ok(out)
            }
        }
    }

    /// Method shim so that recursion through boxed children auto-derefs.
    fn code_helper(&self, vars: &VariableTable, x_slot: u64, y_slot: u64) -> (r: Result<
        Vec<Instruction>,
        AppError,
    >)
        ensures
            match r {
                Ok(v) => code_of(self@, vars@, x_slot, y_slot) == Some(v@),
                Err(e) => code_of(self@, vars@, x_slot, y_slot) is None && e is CompileError,
            },
        decreases *self, 1int,
    {
        self.to_code(vars, x_slot, y_slot)
    }
}

/// Bound below which a slot context yields distinct input registers without
/// overflow.
pub const MAX_SLOT_CONTEXT: usize = 0x3FFF_FFFF;

/// Compiles the residual tree to an ordered instruction sequence. The slot
/// context selects the pair of logical input registers (`2 * expr_idx` for
/// the unknown `x`, `2 * expr_idx + 1` for `y`), so concurrently compiled
/// expressions address distinct registers in a shared evaluator.
pub fn compile_to_bytecode(root: &Node, vars: &VariableTable, expr_idx: usize) -> (r: Result<
    Vec<Instruction>,
    AppError,
>)
    requires
        expr_idx <= MAX_SLOT_CONTEXT,
    ensures
        match r {
            Ok(v) => code_of(
                root@,
                vars@,
                (2 * expr_idx) as u64,
                (2 * expr_idx + 1) as u64,
            ) == Some(v@),
            Err(e) => code_of(root@, vars@, (2 * expr_idx) as u64, (2 * expr_idx + 1) as u64) is None
                && e is CompileError,
        },
{
    let x_slot: u64 = 2 * (expr_idx as u64);
    let y_slot: u64 = x_slot + 1;
    root.to_code(vars, x_slot, y_slot)
}

/// One step of the external evaluator: pop operands, push the result, with
/// the engine's own operator semantics. `None` on stack underflow or an
/// unmapped input register.
pub open spec fn step(ins: Instruction, stack: Seq<u64>, inputs: Map<u64, u64>) -> Option<
    Seq<u64>,
> {
    match ins {
        Instruction::PushConst(v) => Some(stack.push(v)),
        Instruction::LoadInput(slot) => if inputs.contains_key(slot) {
            Some(stack.push(inputs[slot]))
        } else {
            None
        },
        Instruction::Negate => if stack.len() >= 1 {
            Some(stack.drop_last().push(crate::scalar::neg_bits_spec(stack.last())))
        } else {
            None
        },
        _ => if stack.len() >= 2 {
            let a = stack[stack.len() - 2];
            let b = stack.last();
            let v = match ins {
                Instruction::Add => crate::scalar::add_bits_spec(a, b),
                Instruction::Multiply => crate::scalar::mul_bits_spec(a, b),
                Instruction::Divide => crate::scalar::div_bits_spec(a, b),
                _ => crate::scalar::pow_sem(a, b),
            };
            Some(stack.drop_last().drop_last().push(v))
        } else {
            None
        },
    }
}

/// Straight-line execution of a program on a value stack.
pub open spec fn run_program(code: Seq<Instruction>, stack: Seq<u64>, inputs: Map<u64, u64>)
    -> Option<Seq<u64>>
    decreases code.len(),
{
    if code.len() == 0 {
        Some(stack)
    } else {
        match step(code[0], stack, inputs) {
            Some(st) => run_program(code.skip(1), st, inputs),
            None => None,
        }
    }
}

/// Running a concatenation runs the two halves in order.
proof fn lemma_run_append(c1: Seq<Instruction>, c2: Seq<Instruction>, stack: Seq<u64>, inputs: Map<
    u64,
    u64,
>)
    ensures
        run_program(c1 + c2, stack, inputs) == match run_program(c1, stack, inputs) {
            Some(st) => run_program(c2, st, inputs),
            None => None,
        },
    decreases c1.len(),
{
    if c1.len() == 0 {
        assert(c1 + c2 =~= c2);
    } else {
        assert((c1 + c2)[0] == c1[0]);
        assert((c1 + c2).skip(1) =~= c1.skip(1) + c2);
        match step(c1[0], stack, inputs) {
            Some(st) => {
                lemma_run_append(c1.skip(1), c2, st, inputs);
            }
            None => (),
        }
    }
}


/// Running a single instruction is one step.
proof fn lemma_run_one(ins: Instruction, stack: Seq<u64>, inputs: Map<u64, u64>)
    ensures
        run_program(seq![ins], stack, inputs) == step(ins, stack, inputs),
{
    assert(seq![ins][0] == ins);
    assert(seq![ins].skip(1) =~= Seq::<Instruction>::empty());
    match step(ins, stack, inputs) {
        Some(st) => {
            assert(run_program(Seq::<Instruction>::empty(), st, inputs) == Some(st));
        }
        None => (),
    }
}

/// The program of the first `n` children pushes their folded value.
proof fn lemma_code_children_run(
    op: NAryOperation,
    s: Seq<NodeView>,
    n: int,
    vars: Map<u8, u64>,
    x_slot: u64,
    y_slot: u64,
    stack: Seq<u64>,
    inputs: Map<u64, u64>,
)
    requires
        1 <= n <= s.len(),
        code_children(op, s, n, vars, x_slot, y_slot) is Some,
        inputs.contains_key(x_slot),
        inputs.contains_key(y_slot),
        forall|i: int| 0 <= i < n ==> code_of(#[trigger] s[i], vars, x_slot, y_slot) is Some,
    ensures
        run_program(code_children(op, s, n, vars, x_slot, y_slot).unwrap(), stack, inputs)
            == Some(
            stack.push(
                crate::ast::eval_children(op, s, n, vars, inputs[x_slot], inputs[y_slot]),
            ),
        ),
    decreases s, n,
{
    let x = inputs[x_slot];
    let y = inputs[y_slot];
    if n == 1 {
        lemma_code_run(s[0], vars, x_slot, y_slot, stack, inputs);
    } else {
        let a = code_children(op, s, n - 1, vars, x_slot, y_slot).unwrap();
        let b = code_of(s[n - 1], vars, x_slot, y_slot).unwrap();
        lemma_code_children_run(op, s, n - 1, vars, x_slot, y_slot, stack, inputs);
        let st1 = stack.push(crate::ast::eval_children(op, s, n - 1, vars, x, y));
        lemma_code_run(s[n - 1], vars, x_slot, y_slot, st1, inputs);
        let st2 = st1.push(crate::ast::eval_node(s[n - 1], vars, x, y));
        lemma_run_append(a, b + seq![nary_instr(op)], stack, inputs);
        lemma_run_append(b, seq![nary_instr(op)], st1, inputs);
        assert(a + b + seq![nary_instr(op)] =~= a + (b + seq![nary_instr(op)]));
        lemma_run_one(nary_instr(op), st2, inputs);
        assert(st2.drop_last() =~= st1);
        assert(st1.drop_last() =~= stack);
        assert(st2[st2.len() - 2] == st1.last());
        assert(step(nary_instr(op), st2, inputs) matches Some(st3) && st3 =~= stack.push(
            crate::ast::eval_children(op, s, n, vars, x, y),
        ));
    }
}

/// Compiler correctness: running the program of a tree pushes exactly the
/// scalar the tree evaluates to, with the unknowns read from the program's
/// two input registers. In particular a whole program run on an empty stack
/// terminates with exactly one value on the stack.
pub proof fn lemma_code_run(
    t: NodeView,
    vars: Map<u8, u64>,
    x_slot: u64,
    y_slot: u64,
    stack: Seq<u64>,
    inputs: Map<u64, u64>,
)
    requires
        code_of(t, vars, x_slot, y_slot) is Some,
        inputs.contains_key(x_slot),
        inputs.contains_key(y_slot),
    ensures
        run_program(code_of(t, vars, x_slot, y_slot).unwrap(), stack, inputs) == Some(
            stack.push(crate::ast::eval_node(t, vars, inputs[x_slot], inputs[y_slot])),
        ),
    decreases t, 1int,
{
    let x = inputs[x_slot];
    let y = inputs[y_slot];
    match t {
        NodeView::Constant { value } => {
            lemma_run_one(Instruction::PushConst(value), stack, inputs);
        }
        NodeView::Variable { name } => {
            lemma_run_one(Instruction::PushConst(vars[name]), stack, inputs);
        }
        NodeView::Unknown { name } => {
            let slot = if name == LETTER_X {
                x_slot
            } else {
                y_slot
            };
            lemma_run_one(Instruction::LoadInput(slot), stack, inputs);
        }
        NodeView::Unary { op_type, child } => {
            let c = *child.unwrap();
            let a = code_of(c, vars, x_slot, y_slot).unwrap();
            lemma_code_run(c, vars, x_slot, y_slot, stack, inputs);
            lemma_run_append(a, seq![Instruction::Negate], stack, inputs);
            let st1 = stack.push(crate::ast::eval_node(c, vars, x, y));
            lemma_run_one(Instruction::Negate, st1, inputs);
            assert(st1.drop_last() =~= stack);
            assert(step(Instruction::Negate, st1, inputs) matches Some(st2) && st2 =~= stack.push(
                crate::ast::eval_node(t, vars, x, y),
            ));
        }
        NodeView::Binary { op_type, lhs, rhs } => {
            let l = *lhs.unwrap();
            let r = *rhs.unwrap();
            let a = code_of(l, vars, x_slot, y_slot).unwrap();
            let b = code_of(r, vars, x_slot, y_slot).unwrap();
            let opi = match op_type {
                BinaryOperation::Division => Instruction::Divide,
                BinaryOperation::Exponent => Instruction::Power,
            };
            lemma_code_run(l, vars, x_slot, y_slot, stack, inputs);
            let st1 = stack.push(crate::ast::eval_node(l, vars, x, y));
            lemma_code_run(r, vars, x_slot, y_slot, st1, inputs);
            let st2 = st1.push(crate::ast::eval_node(r, vars, x, y));
            lemma_run_append(a, b + seq![opi], stack, inputs);
            lemma_run_append(b, seq![opi], st1, inputs);
            assert(a + b + seq![opi] =~= a + (b + seq![opi]));
            lemma_run_one(opi, st2, inputs);
            assert(st2.drop_last() =~= st1);
            assert(st1.drop_last() =~= stack);
            assert(st2[st2.len() - 2] == st1.last());
            assert(step(opi, st2, inputs) matches Some(st3) && st3 =~= stack.push(
                crate::ast::eval_node(t, vars, x, y),
            ));
        }
        NodeView::NAry { op_type, children } => {
            let n = children.len() as int;
            assert forall|i: int| 0 <= i < n implies code_of(
                #[trigger] children[i],
                vars,
                x_slot,
                y_slot,
            ) is Some by {
                if code_of(children[i], vars, x_slot, y_slot) is None {
                    lemma_code_children_none(op_type, children, n, i, vars, x_slot, y_slot);
                }
            }
            lemma_code_children_run(op_type, children, n, vars, x_slot, y_slot, stack, inputs);
        }
    }
}

} // verus!
