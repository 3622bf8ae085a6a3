use mathexpr::compiler::ast_unknowns;
use mathexpr::error::AppError;
use mathexpr::process;
use mathexpr::table::{FunctionTable, VariableTable};
use mathexpr::{add_function, add_variable, delete_function, delete_variable};

/// Runs a wire-form program the way an external evaluator would: a single
/// value stack, straight-line execution, the engine's own domain policy
/// (integer exponents, NaN otherwise).
fn run_bytecode(prog: &[(u8, u64)], inputs: &[f64]) -> f64 {
    let mut stack: Vec<f64> = Vec::new();
    for &(op, operand) in prog {
        match op {
            0 => stack.push(f64::from_bits(operand)),
            1 => stack.push(inputs[operand as usize]),
            2 => {
                let b = stack.pop().unwrap();
                let a = stack.pop().unwrap();
                stack.push(a + b);
            }
            3 => {
                let b = stack.pop().unwrap();
                let a = stack.pop().unwrap();
                stack.push(a * b);
            }
            4 => {
                let b = stack.pop().unwrap();
                let a = stack.pop().unwrap();
                stack.push(a / b);
            }
            5 => {
                let b = stack.pop().unwrap();
                let a = stack.pop().unwrap();
                stack.push(int_pow(a, b));
            }
            6 => {
                let a = stack.pop().unwrap();
                stack.push(-a);
            }
            _ => panic!("unknown opcode {op}"),
        }
    }
    assert_eq!(stack.len(), 1, "a program leaves exactly one value");
    stack[0]
}

/// The engine's exponentiation: non-negative integer exponents by repeated
/// multiplication, anything else NaN.
fn int_pow(a: f64, b: f64) -> f64 {
    if b >= 0.0 && b.fract() == 0.0 && b <= 65535.0 {
        let mut acc = 1.0f64;
        for _ in 0..(b as u64) {
            acc *= a;
        }
        acc
    } else {
        f64::NAN
    }
}

fn num_of(r: mathexpr::Response) -> f64 {
    assert!(r.code.is_empty());
    assert!(r.bytecode.is_empty());
    f64::from_bits(r.num.expect("expected a scalar"))
}

#[test]
fn evaluate_constant_sum() {
    let funcs = FunctionTable::new();
    let vars = VariableTable::new();
    let r = process("2+2", &funcs, &vars, 0).unwrap();
    assert_eq!(num_of(r), 4.0);
}

#[test]
fn define_variable_then_use_it() {
    let funcs = FunctionTable::new();
    let mut vars = VariableTable::new();
    let stored = add_variable("a", "3*4", &funcs, &mut vars).unwrap();
    assert_eq!(f64::from_bits(stored), 12.0);
    let r = process("a+1", &funcs, &vars, 0).unwrap();
    assert_eq!(num_of(r), 13.0);
}

#[test]
fn define_function_unknowns_and_bytecode() {
    let mut funcs = FunctionTable::new();
    let vars = VariableTable::new();
    let r = add_function("fx", "x^2+1", &mut funcs, &vars, 0).unwrap();
    assert!(r.num.is_none());
    let (param, body) = funcs.get(b'f').expect("the function is defined");
    assert_eq!(param, b'x');
    assert_eq!(ast_unknowns(&body).unwrap(), (true, false));
    let out = run_bytecode(&r.bytecode, &[3.0, 0.0]);
    assert_eq!(out, 10.0);
}

#[test]
fn delete_absent_variable_is_a_no_op() {
    let funcs = FunctionTable::new();
    let mut vars = VariableTable::new();
    add_variable("a", "5", &funcs, &mut vars).unwrap();
    delete_variable("nonexistent", &mut vars);
    let r = process("a", &funcs, &vars, 0).unwrap();
    assert_eq!(num_of(r), 5.0);
}

#[test]
fn mismatched_parameter_is_rejected() {
    let mut funcs = FunctionTable::new();
    let vars = VariableTable::new();
    let e = add_function("gy", "x+1", &mut funcs, &vars, 0).unwrap_err();
    assert!(matches!(e, AppError::ParseError(_)));
    assert!(funcs.get(b'g').is_none());
}

#[test]
fn delete_function_removes_it() {
    let mut funcs = FunctionTable::new();
    let vars = VariableTable::new();
    add_function("fx", "x+1", &mut funcs, &vars, 0).unwrap();
    assert!(funcs.get(b'f').is_some());
    delete_function("f", &mut funcs);
    assert!(funcs.get(b'f').is_none());
    let e = process("f(2)", &funcs, &vars, 0).unwrap_err();
    assert!(matches!(e, AppError::ParseError(_)));
}

#[test]
fn function_calls_are_inlined_at_parse_time() {
    let mut funcs = FunctionTable::new();
    let vars = VariableTable::new();
    add_function("fx", "x^2+1", &mut funcs, &vars, 0).unwrap();
    let r = process("f(3)", &funcs, &vars, 0).unwrap();
    assert_eq!(num_of(r), 10.0);
}

#[test]
fn redefinition_never_sees_its_own_old_body() {
    let mut funcs = FunctionTable::new();
    let vars = VariableTable::new();
    add_function("fx", "x+1", &mut funcs, &vars, 0).unwrap();
    // A new body that calls f would need the old f, which is removed first.
    let e = add_function("fx", "f(x)+1", &mut funcs, &vars, 0).unwrap_err();
    assert!(matches!(e, AppError::ParseError(_)));
    // The old definition is still in place.
    let r = process("f(1)", &funcs, &vars, 0).unwrap();
    assert_eq!(num_of(r), 2.0);
}

#[test]
fn variable_definition_cannot_reference_itself() {
    let funcs = FunctionTable::new();
    let mut vars = VariableTable::new();
    add_variable("a", "3", &funcs, &mut vars).unwrap();
    let e = add_variable("a", "a+1", &funcs, &mut vars).unwrap_err();
    assert!(matches!(e, AppError::MathError(_)));
    // The failed definition left the old binding untouched.
    let r = process("a", &funcs, &vars, 0).unwrap();
    assert_eq!(num_of(r), 3.0);
}

#[test]
fn unresolved_variable_cannot_be_compiled() {
    let funcs = FunctionTable::new();
    let vars = VariableTable::new();
    let e = process("b+1", &funcs, &vars, 0).unwrap_err();
    assert!(matches!(e, AppError::CompileError(_)));
}

#[test]
fn malformed_input_is_a_parse_error() {
    let funcs = FunctionTable::new();
    let vars = VariableTable::new();
    for bad in ["", "2+", "(2", "2)", "1..2", "#", "q(2)", "2,3"] {
        let e = process(bad, &funcs, &vars, 0).unwrap_err();
        assert!(matches!(e, AppError::ParseError(_)), "{bad:?} should not parse");
    }
}

#[test]
fn residual_variable_definition_is_a_math_error() {
    let funcs = FunctionTable::new();
    let mut vars = VariableTable::new();
    let e = add_variable("v", "x+1", &funcs, &mut vars).unwrap_err();
    assert!(matches!(e, AppError::MathError(_)));
}

#[test]
fn division_by_zero_propagates_infinity() {
    let funcs = FunctionTable::new();
    let mut vars = VariableTable::new();
    let v = add_variable("d", "1/0", &funcs, &mut vars).unwrap();
    assert!(f64::from_bits(v).is_infinite());
}

#[test]
fn non_integer_exponent_is_nan() {
    let funcs = FunctionTable::new();
    let vars = VariableTable::new();
    let r = process("2^0.5", &funcs, &vars, 0).unwrap();
    assert!(f64::from_bits(r.num.unwrap()).is_nan());
}

#[test]
fn integer_exponent_folds_exactly() {
    let funcs = FunctionTable::new();
    let vars = VariableTable::new();
    let r = process("2^10", &funcs, &vars, 0).unwrap();
    assert_eq!(num_of(r), 1024.0);
}

#[test]
fn grammar_precedence_and_implicit_multiplication() {
    let funcs = FunctionTable::new();
    let vars = VariableTable::new();
    assert_eq!(num_of(process("2+3*4", &funcs, &vars, 0).unwrap()), 14.0);
    assert_eq!(num_of(process("2(3+4)", &funcs, &vars, 0).unwrap()), 14.0);
    assert_eq!(num_of(process("2^3^2", &funcs, &vars, 0).unwrap()), 512.0);
    assert_eq!(num_of(process("-2^2", &funcs, &vars, 0).unwrap()), -4.0);
    assert_eq!(num_of(process("10-2-3", &funcs, &vars, 0).unwrap()), 5.0);
    assert_eq!(num_of(process("12/4/3", &funcs, &vars, 0).unwrap()), 1.0);
    assert_eq!(num_of(process("2.5+2.5", &funcs, &vars, 0).unwrap()), 5.0);
    assert_eq!(num_of(process(" 1 + 2 ", &funcs, &vars, 0).unwrap()), 3.0);
}

#[test]
fn scalar_response_carries_no_compiled_forms() {
    let funcs = FunctionTable::new();
    let vars = VariableTable::new();
    let r = process("1+1", &funcs, &vars, 0).unwrap();
    assert!(r.num.is_some());
    assert!(r.code.is_empty() && r.bytecode.is_empty());
    let r2 = process("x+1", &funcs, &vars, 0).unwrap();
    assert!(r2.num.is_none());
    assert!(!r2.code.is_empty() && !r2.bytecode.is_empty());
}
