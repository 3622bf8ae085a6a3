//! A symbolic math expression engine: parses a textual formula into an AST,
//! folds it to a scalar against a table of bound variables and functions, and
//! compiles any residual symbolic form to a canonical re-parsable text form and
//! to a stack-machine instruction sequence.
//!
//! Scalars are IEEE-754 double-precision values carried as their `u64` bit
//! patterns; arithmetic is performed by a software float implementation so that
//! every fold is deterministic.
pub mod ast;
pub mod compiler;
pub mod error;
pub mod parser;
pub mod scalar;
pub mod simplify;
pub mod table;

use crate::ast::Node;
use vstd::prelude::*;

use crate::ast::{wf, NodeView};
use crate::compiler::bytecode::{code_of, compile_to_bytecode, pair_of, Instruction,
    MAX_SLOT_CONTEXT};
use crate::compiler::{ast_unknowns, chars_of, compile_to_string, mentions_letter, printable,
    text_of};
use crate::ast::{LETTER_X, LETTER_Y};
use crate::error::AppError;
use crate::parser::{parse, parse_text};
use crate::simplify::{fold_node, simplify_tree};
use crate::table::{FunctionTable, VariableTable};
use vstd::string::StringSliceAdditionalSpecFns;

verus! {

/// The result of a compile-or-evaluate request: either a scalar (`num`
/// set, both compiled forms empty), or the two compiled forms of the
/// residual tree (`num` absent). The two outcomes are mutually exclusive.
#[derive(Debug)]
pub struct Response {
    /// The canonical re-parsable text of the residual tree.
    pub code: String,
    /// The stack-machine program of the residual tree, as opcode-operand
    /// pairs.
    pub bytecode: Vec<(u8, u64)>,
    /// The scalar, when the tree reduced completely.
    pub num: Option<u64>,
}

/// What a finished request promises about its response, given the parsed
/// tree `t`, the bindings, and the slot context.
pub open spec fn response_ok(
    resp: Response,
    t: NodeView,
    vars: Map<u8, u64>,
    x_slot: u64,
    y_slot: u64,
) -> bool {
    let folded = fold_node(t, vars);
    match resp.num {
        Some(v) => folded == (NodeView::Constant { value: v }) && resp.code@ == Seq::<
            char,
        >::empty() && resp.bytecode@ == Seq::<(u8, u64)>::empty(),
        None => !(folded is Constant) && resp.code@ == chars_of(text_of(folded, vars))
            && (code_of(folded, vars, x_slot, y_slot) matches Some(c) && resp.bytecode@
            == c.map_values(|ins: Instruction| pair_of(ins))),
    }
}

/// Why a request that parsed cleanly may still fail: the residual tree
/// cannot be rendered or lowered.
pub open spec fn compile_fails(t: NodeView, vars: Map<u8, u64>, x_slot: u64, y_slot: u64) -> bool {
    let folded = fold_node(t, vars);
    !(folded is Constant) && (!printable(folded, vars) || code_of(
        folded,
        vars,
        x_slot,
        y_slot,
    ) is None)
}

/// Simplifies the tree in place and packages the outcome: the scalar when
/// the tree collapsed, otherwise the residual tree's text and bytecode.
fn process_ast(root: &mut Node, variable_map: &VariableTable, expr_idx: usize) -> (r: Result<
    Response,
    AppError,
>)
    requires
        expr_idx <= MAX_SLOT_CONTEXT,
    ensures
        match r {
            Ok(resp) => response_ok(
                resp,
                old(root)@,
                variable_map@,
                (2 * expr_idx) as u64,
                (2 * expr_idx + 1) as u64,
            ),
            Err(e) => compile_fails(
                old(root)@,
                variable_map@,
                (2 * expr_idx) as u64,
                (2 * expr_idx + 1) as u64,
            ) && e is CompileError,
        },
{
    let numeric_value = simplify_tree(root, variable_map);
    match numeric_value {
        Some(n) => Ok(Response { code: String::new(), bytecode: Vec::new(), num: Some(n) }),
        None => {
            let compiled = match compile_to_string(root, variable_map, expr_idx) {
                Ok(s) => s,
                Err(e) => return Err(e),
            };
            let code = match compile_to_bytecode(root, variable_map, expr_idx) {
                Ok(c) => c,
                Err(e) => return Err(e),
            };
            let mut pairs: Vec<(u8, u64)> = Vec::new();
            let mut i: usize = 0;
            while i < code.len()
                invariant
                    i <= code@.len(),
                    pairs@.len() == i as int,
                    forall|k: int| 0 <= k < i as int ==> pairs@[k] == pair_of(#[trigger] code@[k]),
                decreases code@.len() - i,
            {
                pairs.push(code[i].to_number_pair());
                i = i + 1;
            }
            proof {
                assert(pairs@ =~= code@.map_values(|ins: Instruction| pair_of(ins)));
            }
            Ok(Response { bytecode: pairs, code: compiled, num: None })
        }
    }
}

/// Evaluates an expression text against the current tables: parses it,
/// simplifies it, and returns the scalar, or the residual tree compiled to
/// text and bytecode. The slot context selects the input registers of the
/// compiled program.
pub fn process(eq: &str, funcs: &FunctionTable, vars: &VariableTable, expr_idx: usize) -> (r:
    Result<Response, AppError>)
    requires
        expr_idx <= MAX_SLOT_CONTEXT,
    ensures
        match r {
            Ok(resp) => parse_text(eq.spec_bytes(), funcs@) matches Some(t) && response_ok(
                resp,
                t,
                vars@,
                (2 * expr_idx) as u64,
                (2 * expr_idx + 1) as u64,
            ),
            Err(e) => match parse_text(eq.spec_bytes(), funcs@) {
                Some(t) => compile_fails(
                    t,
                    vars@,
                    (2 * expr_idx) as u64,
                    (2 * expr_idx + 1) as u64,
                ) && e is CompileError,
                None => e is ParseError,
            },
        },
{
    let mut root = match parse(eq, funcs) {
        Ok(t) => t,
        Err(e) => return Err(e),
    };
    process_ast(&mut root, vars, expr_idx)
}

/// Defines a variable: the text must simplify to a scalar with the prior
/// binding of the name set aside, so a definition can never reference
/// itself; on success the binding is replaced atomically, and on any
/// failure the table is left exactly as it was.
pub fn add_variable(name: &str, content: &str, funcs: &FunctionTable, vars: &mut VariableTable)
    -> (r: Result<u64, AppError>)
    ensures
        match r {
            Ok(v) => {
                &&& name.spec_bytes().len() == 1
                &&& crate::parser::is_letter(name.spec_bytes()[0])
                &&& parse_text(content.spec_bytes(), funcs@) matches Some(t) && fold_node(
                    t,
                    old(vars)@.remove(name.spec_bytes()[0]),
                ) == (NodeView::Constant { value: v })
                &&& final(vars)@ == old(vars)@.insert(name.spec_bytes()[0], v)
            },
            Err(e) => {
                &&& final(vars)@ == old(vars)@
                &&& (e is ParseError || e is MathError)
                &&& (!(name.spec_bytes().len() == 1 && crate::parser::is_letter(
                    name.spec_bytes()[0],
                )) ==> e is ParseError)
                &&& (name.spec_bytes().len() == 1 && crate::parser::is_letter(
                    name.spec_bytes()[0],
                ) ==> match parse_text(content.spec_bytes(), funcs@) {
                    Some(t) => !(fold_node(
                        t,
                        old(vars)@.remove(name.spec_bytes()[0]),
                    ) is Constant) && e is MathError,
                    None => e is ParseError,
                })
            },
        },
{
    let nb = name.as_bytes();
    if nb.len() != 1 {
        return Err(AppError::ParseError("a variable name is a single letter".to_owned()));
    }
    let key = nb[0];
    if !(65 <= key && key <= 90 || 97 <= key && key <= 122) {
        return Err(AppError::ParseError("a variable name is a single letter".to_owned()));
    }
    let saved = vars.get(key);
    vars.remove(key);
    let mut root = match parse(content, funcs) {
        Ok(t) => t,
        Err(e) => {
            restore_variable(vars, key, saved);
            proof {
                assert(vars@ =~= old(vars)@);
            }
            return Err(e);
        }
    };
    let val = simplify_tree(&mut root, vars);
    match val {
        Some(v) => {
            vars.insert(key, v);
            proof {
                assert(vars@ =~= old(vars)@.insert(key, v));
            }
            Ok(v)
        }
        None => {
            restore_variable(vars, key, saved);
            proof {
                assert(vars@ =~= old(vars)@);
            }
            Err(AppError::MathError("the variable must evaluate to a value".to_owned()))
        }
    }
}

/// Puts a set-aside binding back.
fn restore_variable(vars: &mut VariableTable, key: u8, saved: Option<u64>)
    ensures
        final(vars)@ == match saved {
            Some(v) => old(vars)@.insert(key, v),
            None => old(vars)@,
        },
{
    match saved {
        Some(v) => vars.insert(key, v),
        None => (),
    }
}

/// Puts a set-aside function definition back.
fn restore_function(funcs: &mut FunctionTable, key: u8, saved: Option<(u8, Node)>)
    requires
        saved matches Some(pb) ==> wf(pb.1@),
    ensures
        final(funcs)@ == match saved {
            Some(pb) => old(funcs)@.insert(key, (pb.0, pb.1@)),
            None => old(funcs)@,
        },
{
    match saved {
        Some(pb) => funcs.insert(key, pb.0, pb.1),
        None => (),
    }
}

/// Defines a function. The identifier's first letter names the function and
/// its second declares the single parameter. The prior definition is
/// removed before the body is parsed, so a redefinition may call other
/// functions but never its own previous body; the body's free unknowns must
/// match the declared parameter; and the parsed body is committed only
/// after a working copy has compiled, so a failed request leaves the table
/// exactly as it was.
pub fn add_function(
    name: &str,
    content: &str,
    funcs: &mut FunctionTable,
    vars: &VariableTable,
    expr_idx: usize,
) -> (r: Result<Response, AppError>)
    requires
        expr_idx <= MAX_SLOT_CONTEXT,
    ensures
        match r {
            Ok(resp) => {
                &&& name.spec_bytes().len() >= 2
                &&& parse_text(
                    content.spec_bytes(),
                    old(funcs)@.remove(name.spec_bytes()[0]),
                ) matches Some(t) && {
                    &&& final(funcs)@ == old(funcs)@.insert(
                        name.spec_bytes()[0],
                        (name.spec_bytes()[1], t),
                    )
                    &&& response_ok(
                        resp,
                        t,
                        vars@,
                        (2 * expr_idx) as u64,
                        (2 * expr_idx + 1) as u64,
                    )
                    &&& ((mentions_letter(t, LETTER_X) && name.spec_bytes()[1] == LETTER_X)
                        || (mentions_letter(t, LETTER_Y) && name.spec_bytes()[1] == LETTER_Y))
                }
            },
            Err(e) => {
                &&& final(funcs)@ == old(funcs)@
                &&& (name.spec_bytes().len() < 2 ==> e is ParseError)
                &&& (name.spec_bytes().len() >= 2 ==> match parse_text(
                    content.spec_bytes(),
                    old(funcs)@.remove(name.spec_bytes()[0]),
                ) {
                    None => e is ParseError,
                    Some(t) => if !crate::compiler::letters_ok(t) {
                        e is MathError
                    } else if !((mentions_letter(t, LETTER_X) && name.spec_bytes()[1] == LETTER_X)
                        || (mentions_letter(t, LETTER_Y) && name.spec_bytes()[1] == LETTER_Y)) {
                        e is ParseError
                    } else {
                        compile_fails(
                            t,
                            vars@,
                            (2 * expr_idx) as u64,
                            (2 * expr_idx + 1) as u64,
                        ) && e is CompileError
                    },
                })
            },
        },
{
    let nb = name.as_bytes();
    if nb.len() < 2 {
        return Err(AppError::ParseError("a function needs a name and a parameter".to_owned()));
    }
    let fn_name = nb[0];
    let unknown = nb[1];
    let saved = funcs.get(fn_name);
    funcs.remove(fn_name);
    let root = match parse(content, funcs) {
        Ok(t) => t,
        Err(e) => {
            restore_function(funcs, fn_name, saved);
            proof {
                assert(funcs@ =~= old(funcs)@);
            }
            return Err(e);
        }
    };
    let xy = match ast_unknowns(&root) {
        Ok(v) => v,
        Err(e) => {
            restore_function(funcs, fn_name, saved);
            proof {
                assert(funcs@ =~= old(funcs)@);
            }
            return Err(e);
        }
    };
    if !((xy.0 && unknown == LETTER_X) || (xy.1 && unknown == LETTER_Y)) {
        restore_function(funcs, fn_name, saved);
        proof {
            assert(funcs@ =~= old(funcs)@);
        }
        return Err(
            AppError::ParseError("the function does not match its unknowns".to_owned()),
        );
    }
    let mut work = root.duplicate();
    match process_ast(&mut work, vars, expr_idx) {
        Ok(resp) => {
            funcs.insert(fn_name, unknown, root);
            proof {
                assert(funcs@ =~= old(funcs)@.insert(fn_name, (unknown, root@)));
            }
            Ok(resp)
        }
        Err(e) => {
            restore_function(funcs, fn_name, saved);
            proof {
                assert(funcs@ =~= old(funcs)@);
            }
            Err(e)
        }
    }
}

/// Removes a function definition; deleting an absent name is a no-op and
/// never an error.
pub fn delete_function(name: &str, funcs: &mut FunctionTable)
    ensures
        final(funcs)@ == if name.spec_bytes().len() == 1 {
            old(funcs)@.remove(name.spec_bytes()[0])
        } else {
            old(funcs)@
        },
{
    let nb = name.as_bytes();
    if nb.len() == 1 {
        funcs.remove(nb[0]);
    }
}

/// Removes a variable binding; deleting an absent name is a no-op and never
/// an error.
pub fn delete_variable(name: &str, vars: &mut VariableTable)
    ensures
        final(vars)@ == if name.spec_bytes().len() == 1 {
            old(vars)@.remove(name.spec_bytes()[0])
        } else {
            old(vars)@
        },
{
    let nb = name.as_bytes();
    if nb.len() == 1 {
        vars.remove(nb[0]);
    }
}

} // verus!

