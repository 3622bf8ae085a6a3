use mathexpr::parser::parse;
use mathexpr::process;
use mathexpr::simplify::simplify_tree;
use mathexpr::table::{FunctionTable, VariableTable};
use mathexpr::compiler::bytecode::compile_to_bytecode;
use mathexpr::compiler::compile_to_string;

fn run_pairs(prog: &[(u8, u64)], inputs: &[f64]) -> f64 {
    let mut stack: Vec<f64> = Vec::new();
    for &(op, operand) in prog {
        match op {
            0 => stack.push(f64::from_bits(operand)),
            1 => stack.push(inputs[operand as usize]),
            2 => {
                let b = stack.pop().unwrap();
                let a = stack.pop().unwrap();
                stack.push(a + b);
            }
            3 => {
                let b = stack.pop().unwrap();
                let a = stack.pop().unwrap();
                stack.push(a * b);
            }
            4 => {
                let b = stack.pop().unwrap();
                let a = stack.pop().unwrap();
                stack.push(a / b);
            }
            5 => {
                let b = stack.pop().unwrap();
                let a = stack.pop().unwrap();
                if b >= 0.0 && b.fract() == 0.0 && b <= 65535.0 {
                    let mut acc = 1.0f64;
                    for _ in 0..(b as u64) {
                        acc *= a;
                    }
                    stack.push(acc);
                } else {
                    stack.push(f64::NAN);
                }
            }
            6 => {
                let a = stack.pop().unwrap();
                stack.push(-a);
            }
            _ => panic!("unknown opcode {op}"),
        }
    }
    assert_eq!(stack.len(), 1);
    stack[0]
}

#[test]
fn emitted_text_reparses_to_an_equivalent_program() {
    let funcs = FunctionTable::new();
    let mut vars = VariableTable::new();
    mathexpr::add_variable("a", "2", &funcs, &mut vars).unwrap();
    for expr in ["a*x+0.5", "x^2-3", "(x+1)/(x-1)", "2x+3", "-x+a"] {
        let first = process(expr, &funcs, &vars, 0).unwrap();
        assert!(first.num.is_none(), "{expr:?} should stay symbolic");
        let second = process(&first.code, &funcs, &vars, 0).unwrap();
        assert!(second.num.is_none());
        for x in [-2.0, 0.0, 0.5, 3.0, 17.25] {
            let v1 = run_pairs(&first.bytecode, &[x, 0.0]);
            let v2 = run_pairs(&second.bytecode, &[x, 0.0]);
            assert!(
                v1 == v2 || (v1.is_nan() && v2.is_nan()),
                "{expr:?} at {x}: {v1} vs {v2}"
            );
        }
    }
}

#[test]
fn simplifying_twice_changes_nothing() {
    let funcs = FunctionTable::new();
    let vars = VariableTable::new();
    let mut tree = parse("2*3+x*4+1", &funcs).unwrap();
    let first = simplify_tree(&mut tree, &vars);
    assert!(first.is_none());
    let text_once = compile_to_string(&tree, &vars, 0).unwrap();
    let again = simplify_tree(&mut tree, &vars);
    assert!(again.is_none());
    let text_twice = compile_to_string(&tree, &vars, 0).unwrap();
    assert_eq!(text_once, text_twice);
}

#[test]
fn compiling_twice_is_deterministic() {
    let funcs = FunctionTable::new();
    let vars = VariableTable::new();
    let mut tree = parse("x*2+y/4", &funcs).unwrap();
    simplify_tree(&mut tree, &vars);
    let c1 = compile_to_bytecode(&tree, &vars, 7).unwrap();
    let c2 = compile_to_bytecode(&tree, &vars, 7).unwrap();
    let p1: Vec<(u8, u64)> = c1.iter().map(|i| i.to_number_pair()).collect();
    let p2: Vec<(u8, u64)> = c2.iter().map(|i| i.to_number_pair()).collect();
    assert_eq!(p1, p2);
    let s1 = compile_to_string(&tree, &vars, 7).unwrap();
    let s2 = compile_to_string(&tree, &vars, 7).unwrap();
    assert_eq!(s1, s2);
}

#[test]
fn constants_fold_and_order_is_preserved() {
    let funcs = FunctionTable::new();
    let vars = VariableTable::new();
    // The constants fold to one; the non-constant children keep their order.
    let r = process("1+x+2+y", &funcs, &vars, 0).unwrap();
    assert_eq!(r.code, "(3+x+y)");
    // The folded constant and both loads appear in one flat program.
    assert_eq!(
        r.bytecode,
        vec![
            (0u8, 3.0f64.to_bits()),
            (1u8, 0u64),
            (2u8, 0u64),
            (1u8, 1u64),
            (2u8, 0u64),
        ]
    );
}

#[test]
fn identity_constants_disappear() {
    let funcs = FunctionTable::new();
    let vars = VariableTable::new();
    // 0 is the identity of addition: the residual is the lone unknown.
    let r = process("0+x", &funcs, &vars, 0).unwrap();
    assert_eq!(r.code, "x");
    assert_eq!(r.bytecode, vec![(1u8, 0u64)]);
    // 1 is the identity of multiplication.
    let r2 = process("1*x", &funcs, &vars, 0).unwrap();
    assert_eq!(r2.code, "x");
}

#[test]
fn slot_context_separates_input_registers() {
    let funcs = FunctionTable::new();
    let vars = VariableTable::new();
    let r0 = process("x+y", &funcs, &vars, 0).unwrap();
    assert_eq!(r0.bytecode, vec![(1u8, 0u64), (1u8, 1u64), (2u8, 0u64)]);
    let r3 = process("x+y", &funcs, &vars, 3).unwrap();
    assert_eq!(r3.bytecode, vec![(1u8, 6u64), (1u8, 7u64), (2u8, 0u64)]);
}

#[test]
fn fractional_literals_print_and_reparse_exactly() {
    let funcs = FunctionTable::new();
    let vars = VariableTable::new();
    let r = process("0.5*x", &funcs, &vars, 0).unwrap();
    assert_eq!(r.code, "(0.5*x)");
    let r2 = process(&r.code, &funcs, &vars, 0).unwrap();
    assert_eq!(r2.bytecode, r.bytecode);
}

#[test]
fn negative_folded_constants_reparse_to_the_same_value() {
    let funcs = FunctionTable::new();
    let vars = VariableTable::new();
    let r = process("x+1-4", &funcs, &vars, 0).unwrap();
    assert!(r.num.is_none());
    let r2 = process(&r.code, &funcs, &vars, 0).unwrap();
    let v1 = run_pairs(&r.bytecode, &[2.0, 0.0]);
    let v2 = run_pairs(&r2.bytecode, &[2.0, 0.0]);
    assert_eq!(v1, v2);
    assert_eq!(v1, -1.0);
}

#[test]
fn unknowns_never_fold_even_when_bound() {
    let funcs = FunctionTable::new();
    let mut vars = VariableTable::new();
    // A variable named like an unknown letter does not capture the unknown.
    mathexpr::add_variable("x", "7", &funcs, &mut vars).unwrap();
    let r = process("x+1", &funcs, &vars, 0).unwrap();
    assert!(r.num.is_none(), "the unknown stays symbolic");
    assert_eq!(run_pairs(&r.bytecode, &[5.0, 0.0]), 6.0);
}

#[test]
fn tree_dump_is_structural() {
    let funcs = FunctionTable::new();
    let tree = parse("x+1", &funcs).unwrap();
    let dump = String::from_utf8(tree.print_tree()).unwrap();
    assert!(dump.starts_with("-Root\n"));
    assert!(dump.contains("Add"));
    assert!(dump.contains("Unknown x"));
    assert!(dump.contains("Constant"));
}
