//! Operators, operator modifiers, and the scalar-level semantics of each
//! operator.
use vstd::prelude::*;
use crate::errors::EvalError;
use crate::number::Number;
use crate::number::trunc_div;
use crate::number::trunc_mod;
use crate::value::Array;
use crate::value::Val;
use crate::value::Value;

verus! {

/// The independent flags that modify how an operator is applied: `flip`
/// swaps the operands of the scalar operator, `table` forces outer-product
/// broadcasting for array-and-array application.
#[derive(Clone, Copy, Debug, PartialEq, Eq, Structural)]
pub struct Modifier {
    pub flip: bool,
    pub table: bool,
}

impl Default for Modifier {
    /// No modifier set.
    fn default() -> (r: Modifier)
        ensures
            !r.flip,
            !r.table,
    {
        Modifier { flip: false, table: false }
    }
}

/// An operator together with its modifiers.
#[derive(Clone, Copy, Debug, PartialEq, Eq, Structural)]
pub struct Operation {
    pub operator: Operator,
    pub modifier: Modifier,
}

/// The closed set of binary operators.
#[derive(Clone, Copy, Debug, PartialEq, Eq, Structural)]
pub enum Operator {
    Add,
    Sub,
    Div,
    Mul,
    Mod,
    Range,
    Eq,
    Or,
}

/// The operator a glyph denotes, if any.
pub open spec fn op_of_name(s: Seq<char>) -> Option<Operator> {
    if s.len() == 1 && s[0] == '+' {
        Some(Operator::Add)
    } else if s.len() == 1 && s[0] == '-' {
        Some(Operator::Sub)
    } else if s.len() == 1 && s[0] == '*' {
        Some(Operator::Mul)
    } else if s.len() == 1 && s[0] == '/' {
        Some(Operator::Div)
    } else if s.len() == 1 && s[0] == '%' {
        Some(Operator::Mod)
    } else if s.len() == 2 && s[0] == '.' && s[1] == '.' {
        Some(Operator::Range)
    } else if s.len() == 2 && s[0] == '=' && s[1] == '=' {
        Some(Operator::Eq)
    } else if s.len() == 2 && s[0] == '|' && s[1] == '|' {
        Some(Operator::Or)
    } else {
        None
    }
}

impl Operator {
    /// Resolve a textual glyph to its operator; unrecognized glyphs resolve
    /// to nothing.
    pub fn from_str(value: &str) -> (r: Option<Operator>)
        ensures
            r == op_of_name(value@),
    {
        let n = value.unicode_len();
        if n == 1 {
            let c = value.get_char(0);
            if c == '+' {
                Some(Operator::Add)
            } else if c == '-' {
                Some(Operator::Sub)
            } else if c == '*' {
                Some(Operator::Mul)
            } else if c == '/' {
                Some(Operator::Div)
            } else if c == '%' {
                Some(Operator::Mod)
            } else {
                None
            }
        } else if n == 2 {
            let c0 = value.get_char(0);
            let c1 = value.get_char(1);
            if c0 == '.' && c1 == '.' {
                Some(Operator::Range)
            } else if c0 == '=' && c1 == '=' {
                Some(Operator::Eq)
            } else if c0 == '|' && c1 == '|' {
                Some(Operator::Or)
            } else {
                None
            }
        } else {
            None
        }
    }
}

/// The integers from `a` through `b` inclusive, ascending; empty when
/// `a > b`.
pub open spec fn range_vals(a: int, b: int) -> Seq<Val> {
    if a > b {
        Seq::empty()
    } else {
        Seq::new((b - a + 1) as nat, |i: int| Val::Int(a + i))
    }
}

/// Whether the scalar operator succeeds on the given operands: division and
/// modulo need a non-zero divisor, everything else always succeeds.
pub open spec fn soperate_ok(op: Operator, a: int, b: int) -> bool {
    match op {
        Operator::Div => b != 0,
        Operator::Mod => b != 0,
        _ => true,
    }
}

/// The result of a scalar operator on two integers.
pub open spec fn soperate(op: Operator, a: int, b: int) -> Val {
    match op {
        Operator::Add => Val::Int(a + b),
        Operator::Sub => Val::Int(a - b),
        Operator::Mul => Val::Int(a * b),
        Operator::Div => Val::Int(trunc_div(a, b)),
        Operator::Mod => Val::Int(trunc_mod(a, b)),
        Operator::Range => Val::Arr(range_vals(a, b)),
        Operator::Eq => Val::Int(
            if a == b {
                1
            } else {
                0
            },
        ),
        Operator::Or => Val::Int(
            if a != 0 || b != 0 {
                1
            } else {
                0
            },
        ),
    }
}

/// Apply a scalar operator to two numbers. Division or modulo by zero fails
/// with `DivisionByZero`; every other application succeeds.
#[verifier::loop_isolation(false)]
pub fn operate(op: Operator, lhs: Number, rhs: Number) -> (r: Result<Value, EvalError>)
    requires
        lhs.wf(),
        rhs.wf(),
    ensures
        match r {
            Ok(v) => soperate_ok(op, lhs.ival(), rhs.ival()) && v.wf() && v@ == soperate(
                op,
                lhs.ival(),
                rhs.ival(),
            ),
            Err(e) => !soperate_ok(op, lhs.ival(), rhs.ival()) && e == EvalError::DivisionByZero,
        },
{
    match op {
        Operator::Add => Ok(Value::Number(lhs.add(&rhs))),
        Operator::Sub => Ok(Value::Number(lhs.sub(&rhs))),
        Operator::Mul => Ok(Value::Number(lhs.mul(&rhs))),
        Operator::Div => {
            if rhs.is_zero() {
                Err(EvalError::DivisionByZero)
            } else {
                let (q, _m) = lhs.div_mod(&rhs);
                Ok(Value::Number(q))
            }
        },
        Operator::Mod => {
            if rhs.is_zero() {
                Err(EvalError::DivisionByZero)
            } else {
                let (_q, m) = lhs.div_mod(&rhs);
                Ok(Value::Number(m))
            }
        },
        Operator::Range => {
            let one = Number::from_usize(1);
            let mut out: Vec<Value> = Vec::new();
            let mut cur = lhs;
            while cur.le(&rhs)
                invariant
                    cur.wf(),
                    lhs.ival() <= cur.ival(),
                    cur.ival() <= if lhs.ival() <= rhs.ival() {
                        rhs.ival() + 1
                    } else {
                        lhs.ival()
                    },
                    out@.len() == cur.ival() - lhs.ival(),
                    forall|j: int|
                        0 <= j < out@.len() ==> (#[trigger] out@[j])@ == Val::Int(lhs.ival() + j)
                            && out@[j].wf(),
                decreases rhs.ival() + 1 - cur.ival(),
            {
                out.push(Value::Number(cur.duplicate()));
                cur = cur.add(&one);
            }
            let res = Value::Array(Array { value: out });
            proof {
                let a = Array { value: out };
                assert(res@ == Val::Arr(a@));
                assert(a@ =~= range_vals(lhs.ival(), rhs.ival()));
                crate::value::lemma_seq_values_wf(a.value@);
            }
            Ok(res)
        },
        Operator::Eq => {
            if lhs.equals(&rhs) {
                Ok(Value::Number(Number::from_usize(1)))
            } else {
                Ok(Value::Number(Number::from_usize(0)))
            }
        },
        Operator::Or => {
            let lz = lhs.is_zero();
            let rz = rhs.is_zero();
            if !lz || !rz {
                Ok(Value::Number(Number::from_usize(1)))
            } else {
                Ok(Value::Number(Number::from_usize(0)))
            }
        },
    }
}

} // verus!
