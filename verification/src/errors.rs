//! The errors an evaluation can surface. Every failure of one evaluated
//! line is recoverable: it aborts that line only and never the host.
use vstd::prelude::*;

verus! {

/// Why the evaluation of one expression failed.
///
/// `ParseFailure` is never produced by the evaluator itself: it stands for
/// an error of the external parser, representable here so a host can handle
/// every per-line failure uniformly.
#[derive(Clone, Copy, Debug, PartialEq, Eq, Structural)]
pub enum EvalError {
    ParseFailure,
    UnboundVariable,
    UnknownFunction,
    UnknownOperator,
    NoEnclosingLambda,
    IndexOutOfRange,
    DivisionByZero,
    ArityMismatch,
}

} // verus!
