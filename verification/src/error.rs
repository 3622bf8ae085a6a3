//! The engine's error taxonomy.
//!
//! Every public operation returns a typed success-or-failure result; callers
//! can tell "fix your input" (parse, math, definition errors) from "retry or
//! report" (access errors, raised only by the shared-state wrapper around the
//! engine when a lock was poisoned by an abnormal termination).
use vstd::prelude::*;

verus! {

/// Why an operation failed.
#[derive(Debug)]
pub enum AppError {
    /// Malformed input text, a call against an unknown function name, or
    /// unmatched grouping.
    ParseError(String),
    /// Simplification did not produce a required scalar, or a function's
    /// declared parameter does not match its body's free unknowns.
    MathError(String),
    /// The symbol table could not be accessed (a poisoned lock).
    AccessError(String),
    /// Code generation met a tree shape it cannot lower.
    CompileError(String),
}

impl AppError {
    /// A short description of the error class, for display by callers.
    pub fn kind_text(&self) -> (r: &'static str)
        ensures
            (self is ParseError ==> r@ == "parse error"@),
            (self is MathError ==> r@ == "math error"@),
            (self is AccessError ==> r@ == "access error"@),
            (self is CompileError ==> r@ == "compile error"@),
    {
        match self {
            AppError::ParseError(_) => "parse error",
            AppError::MathError(_) => "math error",
            AppError::AccessError(_) => "access error",
            AppError::CompileError(_) => "compile error",
        }
    }

    /// The message carried by the error.
    pub fn message(&self) -> (r: &String)
        ensures
            (self matches AppError::ParseError(m) ==> r@ == m@),
            (self matches AppError::MathError(m) ==> r@ == m@),
            (self matches AppError::AccessError(m) ==> r@ == m@),
            (self matches AppError::CompileError(m) ==> r@ == m@),
    {
        match self {
            AppError::ParseError(m) => m,
            AppError::MathError(m) => m,
            AppError::AccessError(m) => m,
            AppError::CompileError(m) => m,
        }
    }
}

} // verus!
