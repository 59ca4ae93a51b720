//! The broadcasting evaluator: applying an operation over scalars and
//! arrays, distributing over array elements, zipping or outer-producting
//! array pairs, and folding arrays under unary application.
use vstd::prelude::*;
use crate::errors::EvalError;
use crate::operation::op_of_name;
use crate::operation::Modifier;
use crate::operation::Operator;
use crate::parser::Expr;
use crate::parser::expr_wf;
use crate::parser::exprs_wf;
use crate::parser::lemma_exprs_wf;
use crate::number::Number;
use crate::operation::Operation;
use crate::operation::soperate;
use crate::operation::soperate_ok;
use crate::operation::operate;
use crate::value::Array;
use crate::value::Val;
use crate::value::Value;

verus! {

/// The value of a binary application: an array against a scalar maps the
/// operation over the array's elements; two arrays zip positionally,
/// truncated to the shorter length, unless the table modifier forces the
/// outer product; two scalars apply the operator, with the flip modifier
/// swapping the operands.
pub open spec fn sapply(op: Operation, l: Val, r: Val) -> Val
    decreases l, r,
{
    match (l, r) {
        (Val::Arr(ls), Val::Int(_)) => Val::Arr(
            Seq::new(
                ls.len(),
                |i: int|
                    if 0 <= i < ls.len() {
                        sapply(op, ls[i], r)
                    } else {
                        Val::Int(0)
                    },
            ),
        ),
        (Val::Int(_), Val::Arr(rs)) => Val::Arr(
            Seq::new(
                rs.len(),
                |i: int|
                    if 0 <= i < rs.len() {
                        sapply(op, l, rs[i])
                    } else {
                        Val::Int(0)
                    },
            ),
        ),
        (Val::Arr(ls), Val::Arr(rs)) => {
            if op.modifier.table {
                Val::Arr(
                    Seq::new(
                        ls.len(),
                        |i: int|
                            if 0 <= i < ls.len() {
                                Val::Arr(
                                    Seq::new(
                                        rs.len(),
                                        |j: int|
                                            if 0 <= j < rs.len() {
                                                sapply(op, ls[i], rs[j])
                                            } else {
                                                Val::Int(0)
                                            },
                                    ),
                                )
                            } else {
                                Val::Int(0)
                            },
                    ),
                )
            } else {
                let n = if ls.len() <= rs.len() {
                    ls.len()
                } else {
                    rs.len()
                };
                Val::Arr(
                    Seq::new(
                        n,
                        |i: int|
                            if 0 <= i < n {
                                sapply(op, ls[i], rs[i])
                            } else {
                                Val::Int(0)
                            },
                    ),
                )
            }
        },
        (Val::Int(a), Val::Int(b)) => {
            if op.modifier.flip {
                soperate(op.operator, b, a)
            } else {
                soperate(op.operator, a, b)
            }
        },
    }
}

/// Whether a binary application succeeds on the left array's elements.
pub open spec fn sapply_ok_seq_l(op: Operation, ls: Seq<Val>, r: Val) -> bool
    decreases ls, r, 1int,
{
    if ls.len() == 0 {
        true
    } else {
        sapply_ok(op, ls[0], r) && sapply_ok_seq_l(op, ls.drop_first(), r)
    }
}

/// Whether a binary application succeeds on the right array's elements.
pub open spec fn sapply_ok_seq_r(op: Operation, l: Val, rs: Seq<Val>) -> bool
    decreases l, rs, 1int,
{
    if rs.len() == 0 {
        true
    } else {
        sapply_ok(op, l, rs[0]) && sapply_ok_seq_r(op, l, rs.drop_first())
    }
}

/// Whether a positional zip succeeds on every paired position.
pub open spec fn sapply_ok_zip(op: Operation, ls: Seq<Val>, rs: Seq<Val>) -> bool
    decreases ls, rs, 1int,
{
    if ls.len() == 0 || rs.len() == 0 {
        true
    } else {
        sapply_ok(op, ls[0], rs[0]) && sapply_ok_zip(op, ls.drop_first(), rs.drop_first())
    }
}

/// Whether an outer product succeeds on every pair of elements.
pub open spec fn sapply_ok_table(op: Operation, ls: Seq<Val>, rs: Seq<Val>) -> bool
    decreases ls, rs, 2int,
{
    if ls.len() == 0 {
        true
    } else {
        sapply_ok_seq_r(op, ls[0], rs) && sapply_ok_table(op, ls.drop_first(), rs)
    }
}

/// Whether a binary application succeeds: the only failure anywhere in the
/// broadcast is a scalar division or modulo by zero.
pub open spec fn sapply_ok(op: Operation, l: Val, r: Val) -> bool
    decreases l, r, 0int,
{
    match (l, r) {
        (Val::Arr(ls), Val::Int(_)) => sapply_ok_seq_l(op, ls, r),
        (Val::Int(_), Val::Arr(rs)) => sapply_ok_seq_r(op, l, rs),
        (Val::Arr(ls), Val::Arr(rs)) => {
            if op.modifier.table {
                sapply_ok_table(op, ls, rs)
            } else {
                sapply_ok_zip(op, ls, rs)
            }
        },
        (Val::Int(a), Val::Int(b)) => {
            if op.modifier.flip {
                soperate_ok(op.operator, b, a)
            } else {
                soperate_ok(op.operator, a, b)
            }
        },
    }
}

pub proof fn lemma_ok_seq_l(op: Operation, ls: Seq<Val>, r: Val)
    ensures
        sapply_ok_seq_l(op, ls, r) <==> (forall|i: int|
            0 <= i < ls.len() ==> sapply_ok(op, #[trigger] ls[i], r)),
    decreases ls.len(),
{
    if ls.len() > 0 {
        lemma_ok_seq_l(op, ls.drop_first(), r);
        if sapply_ok_seq_l(op, ls, r) {
            assert forall|i: int| 0 <= i < ls.len() implies sapply_ok(op, #[trigger] ls[i], r) by {
                if i > 0 {
                    assert(sapply_ok(op, ls.drop_first()[i - 1], r));
                }
            }
        }
        if forall|i: int| 0 <= i < ls.len() ==> sapply_ok(op, #[trigger] ls[i], r) {
            assert forall|i: int|
                0 <= i < ls.drop_first().len() implies sapply_ok(
                op,
                #[trigger] ls.drop_first()[i],
                r,
            ) by {
                assert(sapply_ok(op, ls[i + 1], r));
            }
        }
    }
}

pub proof fn lemma_ok_seq_r(op: Operation, l: Val, rs: Seq<Val>)
    ensures
        sapply_ok_seq_r(op, l, rs) <==> (forall|i: int|
            0 <= i < rs.len() ==> sapply_ok(op, l, #[trigger] rs[i])),
    decreases rs.len(),
{
    if rs.len() > 0 {
        lemma_ok_seq_r(op, l, rs.drop_first());
        if sapply_ok_seq_r(op, l, rs) {
            assert forall|i: int| 0 <= i < rs.len() implies sapply_ok(op, l, #[trigger] rs[i]) by {
                if i > 0 {
                    assert(sapply_ok(op, l, rs.drop_first()[i - 1]));
                }
            }
        }
        if forall|i: int| 0 <= i < rs.len() ==> sapply_ok(op, l, #[trigger] rs[i]) {
            assert forall|i: int|
                0 <= i < rs.drop_first().len() implies sapply_ok(
                op,
                l,
                #[trigger] rs.drop_first()[i],
            ) by {
                assert(sapply_ok(op, l, rs[i + 1]));
            }
        }
    }
}

pub proof fn lemma_ok_zip(op: Operation, ls: Seq<Val>, rs: Seq<Val>)
    ensures
        sapply_ok_zip(op, ls, rs) <==> (forall|i: int|
            0 <= i < ls.len() && i < rs.len() ==> sapply_ok(op, #[trigger] ls[i], rs[i])),
    decreases ls.len(),
{
    if ls.len() > 0 && rs.len() > 0 {
        lemma_ok_zip(op, ls.drop_first(), rs.drop_first());
        if sapply_ok_zip(op, ls, rs) {
            assert forall|i: int|
                0 <= i < ls.len() && i < rs.len() implies sapply_ok(
                op,
                #[trigger] ls[i],
                rs[i],
            ) by {
                if i > 0 {
                    assert(sapply_ok(op, ls.drop_first()[i - 1], rs.drop_first()[i - 1]));
                }
            }
        }
        if forall|i: int| 0 <= i < ls.len() && i < rs.len() ==> sapply_ok(op, #[trigger] ls[i], rs[i]) {
            assert forall|i: int|
                0 <= i < ls.drop_first().len() && i < rs.drop_first().len() implies sapply_ok(
                op,
                #[trigger] ls.drop_first()[i],
                rs.drop_first()[i],
            ) by {
                assert(sapply_ok(op, ls[i + 1], rs[i + 1]));
            }
        }
    }
}

pub proof fn lemma_ok_table(op: Operation, ls: Seq<Val>, rs: Seq<Val>)
    ensures
        sapply_ok_table(op, ls, rs) <==> (forall|i: int|
            0 <= i < ls.len() ==> sapply_ok_seq_r(op, #[trigger] ls[i], rs)),
    decreases ls.len(),
{
    if ls.len() > 0 {
        lemma_ok_table(op, ls.drop_first(), rs);
        if sapply_ok_table(op, ls, rs) {
            assert forall|i: int|
                0 <= i < ls.len() implies sapply_ok_seq_r(op, #[trigger] ls[i], rs) by {
                if i > 0 {
                    assert(sapply_ok_seq_r(op, ls.drop_first()[i - 1], rs));
                }
            }
        }
        if forall|i: int| 0 <= i < ls.len() ==> sapply_ok_seq_r(op, #[trigger] ls[i], rs) {
            assert forall|i: int|
                0 <= i < ls.drop_first().len() implies sapply_ok_seq_r(
                op,
                #[trigger] ls.drop_first()[i],
                rs,
            ) by {
                assert(sapply_ok_seq_r(op, ls[i + 1], rs));
            }
        }
    }
}

/// Apply a binary operation to two values, broadcasting over arrays. The
/// only possible failure is a division or modulo by zero somewhere in the
/// broadcast.
#[verifier::loop_isolation(false)]
pub fn apply(op: Operation, lhs: &Value, rhs: &Value) -> (r: Result<Value, EvalError>)
    requires
        lhs.wf(),
        rhs.wf(),
    ensures
        match r {
            Ok(v) => sapply_ok(op, lhs@, rhs@) && v.wf() && v@ == sapply(op, lhs@, rhs@),
            Err(e) => !sapply_ok(op, lhs@, rhs@) && e == EvalError::DivisionByZero,
        },
    decreases lhs, rhs,
{
    match (lhs, rhs) {
        (Value::Array(ls), Value::Number(_)) => {
            proof {
                ls.lemma_wf();
                lemma_ok_seq_l(op, ls@, rhs@);
            }
            let mut out: Vec<Value> = Vec::new();
            let mut i: usize = 0;
            while i < ls.value.len()
                invariant
                    i <= ls.value.len(),
                    out@.len() == i,
                    forall|j: int| 0 <= j < i ==> sapply_ok(op, ls@[j], rhs@),
                    forall|j: int|
                        0 <= j < i ==> (#[trigger] out@[j])@ == sapply(op, ls@[j], rhs@)
                            && out@[j].wf(),
                decreases ls.value.len() - i,
            {
                proof {
                    broadcast use vstd::std_specs::vec::group_vec_axioms;

                    assert(decreases_to!(*lhs => *ls));
                    assert(decreases_to!(*ls => ls.value));
                    assert(decreases_to!(ls.value => ls.value@[i as int]));
                    assert(ls@[i as int] == ls.value@[i as int]@);
                }
                let ev = apply(op, &ls.value[i], rhs)?;
                out.push(ev);
                i = i + 1;
            }
            let res = Value::Array(Array { value: out });
            proof {
                let a = Array { value: out };
                assert(a@ =~= sapply(op, lhs@, rhs@)->Arr_0);
                crate::value::lemma_seq_values_wf(a.value@);
            }
            Ok(res)
        },
        (Value::Number(_), Value::Array(rs)) => {
            proof {
                rs.lemma_wf();
                lemma_ok_seq_r(op, lhs@, rs@);
            }
            let mut out: Vec<Value> = Vec::new();
            let mut i: usize = 0;
            while i < rs.value.len()
                invariant
                    i <= rs.value.len(),
                    out@.len() == i,
                    forall|j: int| 0 <= j < i ==> sapply_ok(op, lhs@, rs@[j]),
                    forall|j: int|
                        0 <= j < i ==> (#[trigger] out@[j])@ == sapply(op, lhs@, rs@[j])
                            && out@[j].wf(),
                decreases rs.value.len() - i,
            {
                proof {
                    broadcast use vstd::std_specs::vec::group_vec_axioms;

                    assert(decreases_to!(*rhs => *rs));
                    assert(decreases_to!(*rs => rs.value));
                    assert(decreases_to!(rs.value => rs.value@[i as int]));
                    assert(rs@[i as int] == rs.value@[i as int]@);
                }
                let ev = apply(op, lhs, &rs.value[i])?;
                out.push(ev);
                i = i + 1;
            }
            let res = Value::Array(Array { value: out });
            proof {
                let a = Array { value: out };
                assert(a@ =~= sapply(op, lhs@, rhs@)->Arr_0);
                crate::value::lemma_seq_values_wf(a.value@);
            }
            Ok(res)
        },
        (Value::Array(ls), Value::Array(rs)) => {
            proof {
                ls.lemma_wf();
                rs.lemma_wf();
            }
            if op.modifier.table {
                proof {
                    lemma_ok_table(op, ls@, rs@);
                }
                let mut out: Vec<Value> = Vec::new();
                let mut i: usize = 0;
                while i < ls.value.len()
                    invariant
                        i <= ls.value.len(),
                        out@.len() == i,
                        forall|j: int| 0 <= j < i ==> sapply_ok_seq_r(op, ls@[j], rs@),
                        forall|j: int|
                            0 <= j < i ==> (#[trigger] out@[j])@ == sapply(op, lhs@, rhs@)->Arr_0[j]
                                && out@[j].wf(),
                    decreases ls.value.len() - i,
                {
                    proof {
                        broadcast use vstd::std_specs::vec::group_vec_axioms;

                        assert(decreases_to!(*lhs => *ls));
                        assert(decreases_to!(*ls => ls.value));
                        assert(decreases_to!(ls.value => ls.value@[i as int]));
                        assert(ls@[i as int] == ls.value@[i as int]@);
                        lemma_ok_seq_r(op, ls@[i as int], rs@);
                    }
                    let mut row: Vec<Value> = Vec::new();
                    let mut j: usize = 0;
                    while j < rs.value.len()
                        invariant
                            0 <= i < ls.value.len(),
                            j <= rs.value.len(),
                            row@.len() == j,
                            forall|k: int| 0 <= k < j ==> sapply_ok(op, ls@[i as int], rs@[k]),
                            forall|k: int|
                                0 <= k < j ==> (#[trigger] row@[k])@ == sapply(
                                    op,
                                    ls@[i as int],
                                    rs@[k],
                                ) && row@[k].wf(),
                        decreases rs.value.len() - j,
                    {
                        proof {
                            broadcast use vstd::std_specs::vec::group_vec_axioms;

                            assert(decreases_to!(*lhs => *ls));
                            assert(decreases_to!(*ls => ls.value));
                            assert(decreases_to!(ls.value => ls.value@[i as int]));
                            assert(decreases_to!(*rhs => *rs));
                            assert(decreases_to!(*rs => rs.value));
                            assert(decreases_to!(rs.value => rs.value@[j as int]));
                            assert(rs@[j as int] == rs.value@[j as int]@);
                        }
                        let ev = apply(op, &ls.value[i], &rs.value[j])?;
                        row.push(ev);
                        j = j + 1;
                    }
                    let rowv = Value::Array(Array { value: row });
                    proof {
                        let a = Array { value: row };
                        let whole = sapply(op, lhs@, rhs@);
                        assert(whole->Arr_0.len() == ls@.len());
                        assert(whole->Arr_0[i as int]->Arr_0.len() == rs@.len());
                        assert forall|k: int|
                            0 <= k < rs@.len() implies whole->Arr_0[i as int]->Arr_0[k] == sapply(
                            op,
                            ls@[i as int],
                            rs@[k],
                        ) by {}
                        assert(a@ =~= whole->Arr_0[i as int]->Arr_0);
                        crate::value::lemma_seq_values_wf(a.value@);
                    }
                    out.push(rowv);
                    i = i + 1;
                }
                let res = Value::Array(Array { value: out });
                proof {
                    let a = Array { value: out };
                    assert(a@.len() == sapply(op, lhs@, rhs@)->Arr_0.len());
                    assert(a@ =~= sapply(op, lhs@, rhs@)->Arr_0);
                    crate::value::lemma_seq_values_wf(a.value@);
                }
                Ok(res)
            } else {
                proof {
                    lemma_ok_zip(op, ls@, rs@);
                }
                let n: usize = if ls.value.len() <= rs.value.len() {
                    ls.value.len()
                } else {
                    rs.value.len()
                };
                let mut out: Vec<Value> = Vec::new();
                let mut i: usize = 0;
                while i < n
                    invariant
                        i <= n,
                        out@.len() == i,
                        forall|j: int| 0 <= j < i ==> sapply_ok(op, ls@[j], rs@[j]),
                        forall|j: int|
                            0 <= j < i ==> (#[trigger] out@[j])@ == sapply(op, ls@[j], rs@[j])
                                && out@[j].wf(),
                    decreases n - i,
                {
                    proof {
                        broadcast use vstd::std_specs::vec::group_vec_axioms;

                        assert(decreases_to!(*lhs => *ls));
                        assert(decreases_to!(*ls => ls.value));
                        assert(decreases_to!(ls.value => ls.value@[i as int]));
                        assert(ls@[i as int] == ls.value@[i as int]@);
                        assert(rs@[i as int] == rs.value@[i as int]@);
                    }
                    let ev = apply(op, &ls.value[i], &rs.value[i])?;
                    out.push(ev);
                    i = i + 1;
                }
                let res = Value::Array(Array { value: out });
                proof {
                    let a = Array { value: out };
                    assert(a@ =~= sapply(op, lhs@, rhs@)->Arr_0);
                    crate::value::lemma_seq_values_wf(a.value@);
                }
                Ok(res)
            }
        },
        (Value::Number(a), Value::Number(b)) => {
            if op.modifier.flip {
                operate(op.operator, b.duplicate(), a.duplicate())
            } else {
                operate(op.operator, a.duplicate(), b.duplicate())
            }
        },
    }
}

/// The value of folding the operation from an accumulator across a sequence
/// of elements, left to right.
pub open spec fn sfold(op: Operation, acc: Val, s: Seq<Val>) -> Val
    decreases s.len(),
{
    if s.len() == 0 {
        acc
    } else {
        sfold(op, sapply(op, acc, s[0]), s.drop_first())
    }
}

/// Whether every step of the fold succeeds.
pub open spec fn sfold_ok(op: Operation, acc: Val, s: Seq<Val>) -> bool
    decreases s.len(),
{
    if s.len() == 0 {
        true
    } else {
        sapply_ok(op, acc, s[0]) && sfold_ok(op, sapply(op, acc, s[0]), s.drop_first())
    }
}

/// The value of a unary application: a scalar is returned unchanged; an
/// array folds its elements with the last element as the seed, walking the
/// remaining elements in their original order.
pub open spec fn sunary(op: Operation, v: Val) -> Val {
    match v {
        Val::Int(_) => v,
        Val::Arr(s) => sfold(op, s.last(), s.drop_last()),
    }
}

/// Whether a unary application succeeds: an empty array has no seed and
/// fails; otherwise only a division or modulo by zero in the fold fails.
pub open spec fn sunary_ok(op: Operation, v: Val) -> bool {
    match v {
        Val::Int(_) => true,
        Val::Arr(s) => s.len() > 0 && sfold_ok(op, s.last(), s.drop_last()),
    }
}

/// The error a failed unary application reports: an empty array is an arity
/// mismatch, anything else a division by zero.
pub open spec fn sunary_err(op: Operation, v: Val) -> EvalError {
    if v is Arr && v->Arr_0.len() == 0 {
        EvalError::ArityMismatch
    } else {
        EvalError::DivisionByZero
    }
}

/// Apply an operation as a unary operator: a scalar passes through; an
/// array is folded, seeded with its last element.
#[verifier::loop_isolation(false)]
pub fn apply_unary(op: Operation, val: &Value) -> (r: Result<Value, EvalError>)
    requires
        val.wf(),
    ensures
        match r {
            Ok(v) => sunary_ok(op, val@) && v.wf() && v@ == sunary(op, val@),
            Err(e) => !sunary_ok(op, val@) && e == sunary_err(op, val@),
        },
{
    match val {
        Value::Number(_) => Ok(val.clone()),
        Value::Array(arr) => {
            proof {
                arr.lemma_wf();
            }
            let n = arr.value.len();
            if n == 0 {
                return Err(EvalError::ArityMismatch);
            }
            let ghost body = arr@.drop_last();
            let mut acc = arr.value[n - 1].clone();
            proof {
                assert(arr@[n - 1] == arr.value@[n - 1]@);
                assert(acc@ == arr@.last());
                assert(body.skip(0) =~= body);
            }
            let mut i: usize = 0;
            while i < n - 1
                invariant
                    i <= n - 1,
                    n == arr.value@.len(),
                    acc.wf(),
                    body == arr@.drop_last(),
                    sfold_ok(op, arr@.last(), body) == sfold_ok(op, acc@, body.skip(i as int)),
                    sfold(op, arr@.last(), body) == sfold(op, acc@, body.skip(i as int)),
                decreases n - 1 - i,
            {
                proof {
                    assert(body.skip(i as int).len() > 0);
                    assert(body.skip(i as int)[0] == body[i as int]);
                    assert(body[i as int] == arr@[i as int]);
                    assert(arr@[i as int] == arr.value@[i as int]@);
                    assert(body.skip(i as int).drop_first() =~= body.skip(i + 1));
                }
                let step = apply(op, &acc, &arr.value[i]);
                match step {
                    Ok(v) => {
                        acc = v;
                    },
                    Err(e) => {
                        proof {
                            assert(!sfold_ok(op, acc@, body.skip(i as int)));
                        }
                        return Err(e);
                    },
                }
                i = i + 1;
            }
            proof {
                assert(body.skip(n - 1) =~= Seq::<Val>::empty());
                assert(sfold(op, acc@, body.skip(n - 1)) == acc@);
            }
            Ok(acc)
        },
    }
}

impl Value {
    /// Coerce a value to an array: an array is itself, a bare scalar
    /// becomes a one-element array.
    pub fn into_array(self) -> (r: Array)
        ensures
            r@ == coerce_arr(self@),
            self.wf() ==> r.wf(),
    {
        match self {
            Value::Array(array) => array,
            _ => {
                let ghost v = self@;
                let ghost w = self.wf();
                let r = Array { value: vec![self] };
                proof {
                    assert(r@ =~= seq![v]);
                    if w {
                        assert(crate::value::seq_values_wf(r.value@)) by {
                            crate::value::lemma_seq_values_wf(r.value@);
                        }
                        r.lemma_wf();
                    }
                }
                r
            },
        }
    }
}

/// The argument sequence a value binds when handed to a lambda: an array's
/// elements, or the single scalar itself.
pub open spec fn coerce_arr(v: Val) -> Seq<Val> {
    match v {
        Val::Arr(s) => s,
        Val::Int(_) => seq![v],
    }
}

/// The environment an association list denotes; later pairs override
/// earlier ones.
pub open spec fn env_map(s: Seq<(String, Value)>) -> Map<Seq<char>, Val>
    decreases s.len(),
{
    if s.len() == 0 {
        Map::empty()
    } else {
        env_map(s.drop_last()).insert(s.last().0@, s.last().1@)
    }
}

/// Every value bound in the list is well-formed.
pub open spec fn env_wf(s: Seq<(String, Value)>) -> bool
    decreases s.len(),
{
    if s.len() == 0 {
        true
    } else {
        s.last().1.wf() && env_wf(s.drop_last())
    }
}

proof fn lemma_env_found(s: Seq<(String, Value)>, i: int, key: Seq<char>)
    requires
        env_wf(s),
        0 <= i < s.len(),
        s[i].0@ == key,
        forall|j: int| i < j < s.len() ==> (#[trigger] s[j]).0@ != key,
    ensures
        env_map(s).contains_key(key),
        env_map(s)[key] == s[i].1@,
        s[i].1.wf(),
    decreases s.len(),
{
    if i == s.len() - 1 {
    } else {
        assert(s.drop_last()[i] == s[i]);
        assert(forall|j: int|
            i < j < s.drop_last().len() ==> (#[trigger] s.drop_last()[j]).0@ != key);
        lemma_env_found(s.drop_last(), i, key);
        assert(s.last().0@ != key);
    }
}

proof fn lemma_env_absent(s: Seq<(String, Value)>, key: Seq<char>)
    requires
        forall|j: int| 0 <= j < s.len() ==> (#[trigger] s[j]).0@ != key,
    ensures
        !env_map(s).contains_key(key),
    decreases s.len(),
{
    if s.len() > 0 {
        assert(forall|j: int|
            0 <= j < s.drop_last().len() ==> (#[trigger] s.drop_last()[j]).0@ != key);
        lemma_env_absent(s.drop_last(), key);
        assert(s.last().0@ != key);
    }
}

/// The variable environment: named bindings, populated by the host and
/// read-only during expression evaluation.
pub struct Runtime {
    variables: Vec<(String, Value)>,
}

impl View for Runtime {
    type V = Map<Seq<char>, Val>;

    closed spec fn view(&self) -> Map<Seq<char>, Val> {
        env_map(self.variables@)
    }
}

impl Runtime {
    /// Every bound value is well-formed.
    pub closed spec fn wf(&self) -> bool {
        env_wf(self.variables@)
    }

    /// An empty environment.
    pub fn new() -> (r: Self)
        ensures
            r@ == Map::<Seq<char>, Val>::empty(),
            r.wf(),
    {
        Self { variables: Vec::new() }
    }

    /// Bind a name to a value; a later binding of the same name overrides
    /// an earlier one.
    pub fn push_var(&mut self, name: &str, val: Value)
        requires
            old(self).wf(),
            val.wf(),
        ensures
            final(self).wf(),
            final(self)@ == old(self)@.insert(name@, val@),
    {
        let key = String::from_str(name);
        let ghost v = val@;
        self.variables.push((key, val));
        proof {
            assert(self.variables@.drop_last() =~= old(self).variables@);
            assert(self.variables@.last().0@ == name@);
            assert(self.variables@.last().1@ == v);
        }
    }

    /// The value bound to a name, if any; the latest binding wins.
    #[verifier::loop_isolation(false)]
    fn lookup(&self, name: &str) -> (r: Option<Value>)
        requires
            self.wf(),
        ensures
            match r {
                Some(v) => self@.contains_key(name@) && v@ == self@[name@] && v.wf(),
                None => !self@.contains_key(name@),
            },
    {
        let mut i: usize = self.variables.len();
        while i > 0
            invariant
                i <= self.variables@.len(),
                forall|j: int|
                    i <= j < self.variables@.len() ==> (#[trigger] self.variables@[j]).0@ != name@,
            decreases i,
        {
            i = i - 1;
            let pair = &self.variables[i];
            if crate::parser::str_equal(pair.0.as_str(), name) {
                proof {
                    lemma_env_found(self.variables@, i as int, name@);
                }
                return Some(pair.1.clone());
            }
        }
        proof {
            lemma_env_absent(self.variables@, name@);
        }
        None
    }
}

/// The model of the lambda argument context an evaluation runs under.
pub open spec fn ctx_view(c: Option<&Array>) -> Option<Seq<Val>> {
    match c {
        Some(a) => Some(a@),
        None => None,
    }
}

/// Whether the evaluation of an expression succeeds.
pub open spec fn seval_ok(e: Expr, env: Map<Seq<char>, Val>, ctx: Option<Seq<Val>>) -> bool
    decreases e, 0int,
{
    match e {
        Expr::Binary(op, l, r) => op_of_name(op.name@) is Some && seval_ok(*l, env, ctx)
            && seval_ok(*r, env, ctx) && sapply_ok(
            Operation { operator: op_of_name(op.name@)->0, modifier: op.modifiers },
            seval_v(*l, env, ctx),
            seval_v(*r, env, ctx),
        ),
        Expr::Unary(op, x) => op_of_name(op.name@) is Some && seval_ok(*x, env, ctx) && sunary_ok(
            Operation { operator: op_of_name(op.name@)->0, modifier: op.modifiers },
            seval_v(*x, env, ctx),
        ),
        Expr::Function(_) => false,
        Expr::Variable(id) => env.contains_key(id.name@),
        Expr::Number(_) => true,
        Expr::Array(es) => seval_ok_list(es@, env, ctx),
        Expr::Lambda(_) => false,
        Expr::Call(f, a) => match *f {
            Expr::Function(id) => seval_ok(*a, env, ctx) && id.name@ == "idx"@,
            Expr::Lambda(lam) => seval_ok(*a, env, ctx) && seval_ok(
                *lam.body,
                env,
                Some(coerce_arr(seval_v(*a, env, ctx))),
            ),
            _ => false,
        },
        Expr::Argument(arg) => ctx is Some && arg.index < ctx->0.len(),
    }
}

/// Whether the evaluation of every expression of a list succeeds.
pub open spec fn seval_ok_list(es: Seq<Expr>, env: Map<Seq<char>, Val>, ctx: Option<Seq<Val>>) -> bool
    decreases es, 1int,
{
    if es.len() == 0 {
        true
    } else {
        seval_ok(es[0], env, ctx) && seval_ok_list(es.drop_first(), env, ctx)
    }
}

/// The value an expression evaluates to, when its evaluation succeeds.
pub open spec fn seval_v(e: Expr, env: Map<Seq<char>, Val>, ctx: Option<Seq<Val>>) -> Val
    decreases e, 0int,
{
    match e {
        Expr::Binary(op, l, r) => sapply(
            Operation { operator: op_of_name(op.name@)->0, modifier: op.modifiers },
            seval_v(*l, env, ctx),
            seval_v(*r, env, ctx),
        ),
        Expr::Unary(op, x) => sunary(
            Operation { operator: op_of_name(op.name@)->0, modifier: op.modifiers },
            seval_v(*x, env, ctx),
        ),
        Expr::Function(_) => Val::Int(0),
        Expr::Variable(id) => env[id.name@],
        Expr::Number(n) => Val::Int(n.value.ival()),
        Expr::Array(es) => Val::Arr(seval_v_list(es@, env, ctx)),
        Expr::Lambda(_) => Val::Int(0),
        Expr::Call(f, a) => match *f {
            Expr::Function(_) => crate::library::sindex(seval_v(*a, env, ctx)),
            Expr::Lambda(lam) => seval_v(
                *lam.body,
                env,
                Some(coerce_arr(seval_v(*a, env, ctx))),
            ),
            _ => Val::Int(0),
        },
        Expr::Argument(arg) => ctx->0[arg.index as int],
    }
}

/// The values a list of expressions evaluates to.
pub open spec fn seval_v_list(es: Seq<Expr>, env: Map<Seq<char>, Val>, ctx: Option<Seq<Val>>) -> Seq<
    Val,
>
    decreases es, 1int,
{
    Seq::new(
        es.len(),
        |i: int|
            if 0 <= i < es.len() {
                seval_v(es[i], env, ctx)
            } else {
                Val::Int(0)
            },
    )
}

/// The error a failed evaluation reports, mirroring the order in which the
/// evaluator works: an unresolvable operator preempts the operands, operands
/// fail left to right, and an argument of a call fails before the call.
pub open spec fn seval_err(e: Expr, env: Map<Seq<char>, Val>, ctx: Option<Seq<Val>>) -> EvalError
    decreases e, 0int,
{
    match e {
        Expr::Binary(op, l, r) => if op_of_name(op.name@) is None {
            EvalError::UnknownOperator
        } else if !seval_ok(*l, env, ctx) {
            seval_err(*l, env, ctx)
        } else if !seval_ok(*r, env, ctx) {
            seval_err(*r, env, ctx)
        } else {
            EvalError::DivisionByZero
        },
        Expr::Unary(op, x) => if op_of_name(op.name@) is None {
            EvalError::UnknownOperator
        } else if !seval_ok(*x, env, ctx) {
            seval_err(*x, env, ctx)
        } else {
            sunary_err(
                Operation { operator: op_of_name(op.name@)->0, modifier: op.modifiers },
                seval_v(*x, env, ctx),
            )
        },
        Expr::Function(_) => EvalError::UnknownFunction,
        Expr::Variable(_) => EvalError::UnboundVariable,
        Expr::Number(_) => EvalError::ParseFailure,
        Expr::Array(es) => seval_err_list(es@, env, ctx),
        Expr::Lambda(_) => EvalError::UnknownFunction,
        Expr::Call(f, a) => match *f {
            Expr::Function(id) => if !seval_ok(*a, env, ctx) {
                seval_err(*a, env, ctx)
            } else {
                EvalError::UnknownFunction
            },
            Expr::Lambda(lam) => if !seval_ok(*a, env, ctx) {
                seval_err(*a, env, ctx)
            } else {
                seval_err(*lam.body, env, Some(coerce_arr(seval_v(*a, env, ctx))))
            },
            _ => EvalError::UnknownFunction,
        },
        Expr::Argument(_) => if ctx is None {
            EvalError::NoEnclosingLambda
        } else {
            EvalError::IndexOutOfRange
        },
    }
}

/// The error of the first failing expression of a list.
pub open spec fn seval_err_list(
    es: Seq<Expr>,
    env: Map<Seq<char>, Val>,
    ctx: Option<Seq<Val>>,
) -> EvalError
    decreases es, 1int,
{
    if es.len() == 0 {
        EvalError::ParseFailure
    } else if !seval_ok(es[0], env, ctx) {
        seval_err(es[0], env, ctx)
    } else {
        seval_err_list(es.drop_first(), env, ctx)
    }
}

proof fn lemma_ok_list(es: Seq<Expr>, env: Map<Seq<char>, Val>, ctx: Option<Seq<Val>>)
    ensures
        seval_ok_list(es, env, ctx) <==> (forall|i: int|
            0 <= i < es.len() ==> seval_ok(#[trigger] es[i], env, ctx)),
    decreases es.len(),
{
    if es.len() > 0 {
        lemma_ok_list(es.drop_first(), env, ctx);
        if seval_ok_list(es, env, ctx) {
            assert forall|i: int| 0 <= i < es.len() implies seval_ok(#[trigger] es[i], env, ctx) by {
                if i > 0 {
                    assert(seval_ok(es.drop_first()[i - 1], env, ctx));
                }
            }
        }
        if forall|i: int| 0 <= i < es.len() ==> seval_ok(#[trigger] es[i], env, ctx) {
            assert forall|i: int|
                0 <= i < es.drop_first().len() implies seval_ok(
                #[trigger] es.drop_first()[i],
                env,
                ctx,
            ) by {
                assert(seval_ok(es[i + 1], env, ctx));
            }
        }
    }
}

proof fn lemma_err_list(es: Seq<Expr>, env: Map<Seq<char>, Val>, ctx: Option<Seq<Val>>, k: int)
    requires
        0 <= k < es.len(),
        forall|j: int| 0 <= j < k ==> seval_ok(#[trigger] es[j], env, ctx),
        !seval_ok(es[k], env, ctx),
    ensures
        seval_err_list(es, env, ctx) == seval_err(es[k], env, ctx),
    decreases k,
{
    if k == 0 {
    } else {
        assert(seval_ok(es[0], env, ctx));
        assert(forall|j: int|
            0 <= j < k - 1 ==> seval_ok(#[trigger] es.drop_first()[j], env, ctx)) by {
            assert(forall|j: int|
                0 <= j < k - 1 ==> #[trigger] es.drop_first()[j] == es[j + 1]);
        }
        assert(es.drop_first()[k - 1] == es[k]);
        lemma_err_list(es.drop_first(), env, ctx, k - 1);
    }
}

impl Runtime {
    /// Evaluate an expression under this environment and an optional lambda
    /// argument context. The environment is read-only during evaluation: a
    /// failure aborts this expression only and cannot change any binding.
    #[verifier::loop_isolation(false)]
    pub fn eval_expr(&self, expr: &Expr, body_args: Option<&Array>) -> (r: Result<
        Value,
        EvalError,
    >)
        requires
            self.wf(),
            expr_wf(*expr),
            match body_args {
                Some(a) => a.wf(),
                None => true,
            },
        ensures
            match r {
                Ok(v) => seval_ok(*expr, self@, ctx_view(body_args)) && v.wf() && v@ == seval_v(
                    *expr,
                    self@,
                    ctx_view(body_args),
                ),
                Err(e) => !seval_ok(*expr, self@, ctx_view(body_args)) && e == seval_err(
                    *expr,
                    self@,
                    ctx_view(body_args),
                ),
            },
        decreases expr,
    {
        let ghost env = self@;
        let ghost ctx = ctx_view(body_args);
        match expr {
            Expr::Binary(op, l, r) => {
                let operator = match Operator::from_str(op.name.as_str()) {
                    Some(o) => o,
                    None => {
                        return Err(EvalError::UnknownOperator);
                    },
                };
                let operation = Operation { operator, modifier: op.modifiers };
                proof {
                    assert(decreases_to!(*expr => expr->Binary_1));
                    assert(decreases_to!(*expr => expr->Binary_2));
                }
                let lhs = self.eval_expr(l, body_args)?;
                let rhs = self.eval_expr(r, body_args)?;
                apply(operation, &lhs, &rhs)
            },
            Expr::Unary(op, x) => {
                let operator = match Operator::from_str(op.name.as_str()) {
                    Some(o) => o,
                    None => {
                        return Err(EvalError::UnknownOperator);
                    },
                };
                let operation = Operation { operator, modifier: op.modifiers };
                proof {
                    assert(decreases_to!(*expr => expr->Unary_1));
                }
                let v = self.eval_expr(x, body_args)?;
                apply_unary(operation, &v)
            },
            Expr::Variable(id) => {
                match self.lookup(id.name.as_str()) {
                    Some(v) => Ok(v),
                    None => Err(EvalError::UnboundVariable),
                }
            },
            Expr::Number(n) => Ok(Value::Number(n.value.duplicate())),
            Expr::Array(es) => {
                proof {
                    lemma_exprs_wf(es@);
                    lemma_ok_list(es@, env, ctx);
                }
                let mut out: Vec<Value> = Vec::new();
                let mut i: usize = 0;
                while i < es.len()
                    invariant
                        i <= es@.len(),
                        out@.len() == i,
                        forall|j: int| 0 <= j < i ==> seval_ok(#[trigger] es@[j], env, ctx),
                        forall|j: int|
                            0 <= j < i ==> (#[trigger] out@[j])@ == seval_v(es@[j], env, ctx)
                                && out@[j].wf(),
                    decreases es@.len() - i,
                {
                    proof {
                        broadcast use vstd::std_specs::vec::group_vec_axioms;

                        assert(decreases_to!(*expr => expr->Array_0));
                        assert(decreases_to!(*es => es@[i as int]));
                    }
                    match self.eval_expr(&es[i], body_args) {
                        Ok(v) => {
                            out.push(v);
                        },
                        Err(e) => {
                            proof {
                                lemma_err_list(es@, env, ctx, i as int);
                            }
                            return Err(e);
                        },
                    }
                    i = i + 1;
                }
                let res = Value::Array(Array { value: out });
                proof {
                    let a = Array { value: out };
                    assert(a@ =~= seval_v_list(es@, env, ctx));
                    crate::value::lemma_seq_values_wf(a.value@);
                }
                Ok(res)
            },
            Expr::Call(f, a) => {
                match &**f {
                    Expr::Function(id) => {
                        proof {
                            assert(decreases_to!(*expr => expr->Call_1));
                        }
                        let argv = self.eval_expr(a, body_args)?;
                        if crate::parser::str_equal(id.name.as_str(), "idx") {
                            Ok(crate::library::index(argv))
                        } else {
                            Err(EvalError::UnknownFunction)
                        }
                    },
                    Expr::Lambda(lam) => {
                        proof {
                            reveal_with_fuel(expr_wf, 3);
                            assert(decreases_to!(*expr => expr->Call_1));
                            assert(decreases_to!(*expr => expr->Call_0));
                            assert(decreases_to!(expr->Call_0 => (*f)->Lambda_0));
                            assert(decreases_to!((*f)->Lambda_0 => *lam.body));
                        }
                        let argv = self.eval_expr(a, body_args)?;
                        let args = argv.into_array();
                        self.eval_expr(&lam.body, Some(&args))
                    },
                    _ => Err(EvalError::UnknownFunction),
                }
            },
            Expr::Argument(arg) => {
                match body_args {
                    Some(arr) => {
                        if arg.index < arr.value.len() {
                            proof {
                                arr.lemma_wf();
                                assert(arr@[arg.index as int] == arr.value@[arg.index as int]@);
                            }
                            Ok(arr.value[arg.index].clone())
                        } else {
                            Err(EvalError::IndexOutOfRange)
                        }
                    },
                    None => Err(EvalError::NoEnclosingLambda),
                }
            },
            Expr::Function(_) => Err(EvalError::UnknownFunction),
            Expr::Lambda(_) => Err(EvalError::UnknownFunction),
        }
    }
}


/// Whether a character separates fields within one row of input.
pub open spec fn is_field_sep(c: char) -> bool {
    c == ' ' || c == '\t' || c == '\r'
}

/// The integer one input field denotes: an optional minus sign followed by
/// at least one decimal digit; anything else is no field.
pub open spec fn field_val(tok: Seq<char>) -> Option<int> {
    if tok.len() == 0 {
        None
    } else if tok[0] == '-' {
        if tok.len() > 1 && crate::number::all_digits(tok.skip(1)) {
            Some(-crate::number::digits_val(tok.skip(1)))
        } else {
            None
        }
    } else if crate::number::all_digits(tok) {
        Some(crate::number::digits_val(tok))
    } else {
        None
    }
}

/// Close the pending field, if any, onto the row.
pub open spec fn flush_field(row: Seq<int>, tok: Seq<char>) -> Option<Seq<int>> {
    if tok.len() == 0 {
        Some(row)
    } else {
        match field_val(tok) {
            None => None,
            Some(v) => Some(row.push(v)),
        }
    }
}

/// The rows of integers the input denotes, reading from position `i` with
/// the pending field, the open row and the finished rows given: a newline
/// closes a row, a blank closes a field, any other character extends the
/// field, and a final non-empty row is kept.
pub open spec fn rows_from(
    s: Seq<char>,
    i: int,
    tok: Seq<char>,
    row: Seq<int>,
    rows: Seq<Seq<int>>,
) -> Option<Seq<Seq<int>>>
    decreases s.len() - i,
{
    if !(0 <= i < s.len()) {
        match flush_field(row, tok) {
            None => None,
            Some(row2) => if row2.len() > 0 {
                Some(rows.push(row2))
            } else {
                Some(rows)
            },
        }
    } else {
        let c = s[i];
        if c == '\n' {
            match flush_field(row, tok) {
                None => None,
                Some(row2) => rows_from(s, i + 1, Seq::empty(), Seq::empty(), rows.push(row2)),
            }
        } else if is_field_sep(c) {
            match flush_field(row, tok) {
                None => None,
                Some(row2) => rows_from(s, i + 1, Seq::empty(), row2, rows),
            }
        } else {
            rows_from(s, i + 1, tok.push(c), row, rows)
        }
    }
}

/// The integers behind a sequence of scalar values.
pub open spec fn int_values(s: Seq<Value>) -> Seq<int> {
    Seq::new(s.len(), |j: int| (if 0 <= j < s.len() { s[j]@->Int_0 } else { 0int }))
}

/// Every value of the sequence is a scalar.
pub open spec fn all_scalars(s: Seq<Value>) -> bool {
    forall|j: int| 0 <= j < s.len() ==> (#[trigger] s[j])@ is Int
}

/// The integer grid behind a sequence of row arrays.
pub open spec fn grid_model(rows: Seq<Value>) -> Seq<Seq<int>> {
    Seq::new(
        rows.len(),
        |k: int|
            (if 0 <= k < rows.len() {
                arr_ints(rows[k]@)
            } else {
                Seq::empty()
            }),
    )
}

/// The integers behind one row array model.
pub open spec fn arr_ints(v: Val) -> Seq<int> {
    Seq::new(
        v->Arr_0.len(),
        |j: int|
            (if 0 <= j < v->Arr_0.len() {
                v->Arr_0[j]->Int_0
            } else {
                0int
            }),
    )
}

/// Every model of the sequence is an array of scalars.
pub open spec fn all_int_rows(rows: Seq<Value>) -> bool {
    forall|k: int|
        0 <= k < rows.len() ==> (#[trigger] rows[k])@ is Arr && (forall|j: int|
            0 <= j < rows[k]@->Arr_0.len() ==> (#[trigger] rows[k]@->Arr_0[j]) is Int)
}

/// The value a grid of integer rows denotes: one array per row, in order,
/// holding that row's integers as scalars, in order.
pub open spec fn rows_val(rows: Seq<Seq<int>>) -> Val {
    Val::Arr(
        Seq::new(
            rows.len(),
            |k: int|
                (if 0 <= k < rows.len() {
                    Val::Arr(
                        Seq::new(
                            rows[k].len(),
                            |j: int|
                                (if 0 <= j < rows[k].len() {
                                    Val::Int(rows[k][j])
                                } else {
                                    Val::Int(0)
                                }),
                        ),
                    )
                } else {
                    Val::Int(0)
                }),
        ),
    )
}

/// Read whitespace-separated decimal integers, one line per row, into a
/// nested array value: an array of one array per input line. A token that
/// is not an optionally negated string of digits fails with `ParseFailure`.
#[verifier::loop_isolation(false)]
pub fn parse_list(input: &str) -> (r: Result<Value, EvalError>)
    ensures
        match r {
            Ok(v) => rows_from(input@, 0, Seq::empty(), Seq::empty(), Seq::empty()) is Some && v.wf()
                && v@ == rows_val(rows_from(input@, 0, Seq::empty(), Seq::empty(), Seq::empty())->0),
            Err(e) => rows_from(input@, 0, Seq::empty(), Seq::empty(), Seq::empty()) is None && e
                == EvalError::ParseFailure,
        },
{
    let ghost s0 = input@;
    let n = input.unicode_len();
    let mut rows: Vec<Value> = Vec::new();
    let mut row: Vec<Value> = Vec::new();
    let mut token: Vec<char> = Vec::new();
    let mut i: usize = 0;
    proof {
        assert(int_values(row@) =~= Seq::<int>::empty());
        assert(grid_model(rows@) =~= Seq::<Seq<int>>::empty());
        assert(token@ =~= Seq::<char>::empty());
    }
    while i < n
        invariant
            i <= n,
            n == s0.len(),
            crate::value::seq_values_wf(rows@),
            all_int_rows(rows@),
            crate::value::seq_values_wf(row@),
            all_scalars(row@),
            rows_from(s0, 0, Seq::empty(), Seq::empty(), Seq::empty()) == rows_from(
                s0,
                i as int,
                token@,
                int_values(row@),
                grid_model(rows@),
            ),
        decreases n - i,
    {
        let c = input.get_char(i);
        if c == '\n' {
            match flush_token(&mut row, &mut token) {
                Ok(_) => {},
                Err(e) => {
                    return Err(e);
                },
            }
            push_row(&mut rows, &mut row);
            proof {
                assert(token@ =~= Seq::<char>::empty());
                assert(int_values(row@) =~= Seq::<int>::empty());
            }
        } else if c == ' ' || c == '\t' || c == '\r' {
            match flush_token(&mut row, &mut token) {
                Ok(_) => {},
                Err(e) => {
                    return Err(e);
                },
            }
            proof {
                assert(token@ =~= Seq::<char>::empty());
            }
        } else {
            token.push(c);
        }
        i = i + 1;
    }
    match flush_token(&mut row, &mut token) {
        Ok(_) => {},
        Err(e) => {
            return Err(e);
        },
    }
    if row.len() > 0 {
        push_row(&mut rows, &mut row);
    }
    let res = Value::Array(Array { value: rows });
    proof {
        crate::value::lemma_seq_values_wf(rows@);
        let a = Array { value: rows };
        assert(forall|k: int| 0 <= k < a@.len() ==> a@[k] == a.value@[k]@);
        let grid = rows_from(s0, 0, Seq::empty(), Seq::empty(), Seq::empty())->0;
        assert(grid == grid_model(rows@));
        assert forall|k: int| 0 <= k < a@.len() implies a@[k] == rows_val(grid)->Arr_0[k] by {
            assert(a@[k] is Arr);
            assert(a@[k]->Arr_0 =~= rows_val(grid)->Arr_0[k]->Arr_0);
        }
        assert(res@->Arr_0 =~= rows_val(grid)->Arr_0);
    }
    Ok(res)
}

/// Close the current row: it becomes one nested array element.
fn push_row(rows: &mut Vec<Value>, row: &mut Vec<Value>)
    requires
        crate::value::seq_values_wf(old(rows)@),
        crate::value::seq_values_wf(old(row)@),
        all_int_rows(old(rows)@),
        all_scalars(old(row)@),
    ensures
        crate::value::seq_values_wf(final(rows)@),
        all_int_rows(final(rows)@),
        final(row)@.len() == 0,
        grid_model(final(rows)@) == grid_model(old(rows)@).push(int_values(old(row)@)),
{
    let mut done: Vec<Value> = Vec::new();
    core::mem::swap(row, &mut done);
    let ghost doneview = done@;
    let arr = Value::Array(Array { value: done });
    proof {
        crate::value::lemma_seq_values_wf(doneview);
        crate::value::lemma_seq_values_wf(old(row)@);
        let a = Array { value: done };
        a.lemma_wf();
        assert(arr.wf());
        crate::value::lemma_seq_values_wf(old(rows)@);
        assert(forall|j: int| 0 <= j < a@.len() ==> a@[j] == a.value@[j]@);
        assert(arr_ints(arr@) =~= int_values(doneview));
    }
    rows.push(arr);
    proof {
        crate::value::lemma_seq_values_wf(rows@);
        assert(grid_model(rows@) =~= grid_model(old(rows)@).push(int_values(old(row)@)));
    }
}

/// Close the current token, if any: it must be an optionally negated string
/// of decimal digits, and its value becomes one scalar of the current row.
#[verifier::loop_isolation(false)]
fn flush_token(row: &mut Vec<Value>, token: &mut Vec<char>) -> (r: Result<(), EvalError>)
    requires
        crate::value::seq_values_wf(old(row)@),
        all_scalars(old(row)@),
    ensures
        crate::value::seq_values_wf(final(row)@),
        all_scalars(final(row)@),
        final(token)@.len() == 0,
        match r {
            Ok(_) => flush_field(int_values(old(row)@), old(token)@) == Some(
                int_values(final(row)@),
            ),
            Err(e) => flush_field(int_values(old(row)@), old(token)@) is None && e
                == EvalError::ParseFailure && final(row)@ == old(row)@,
        },
{
    if token.len() == 0 {
        return Ok(());
    }
    let negative = token[0] == '-';
    let start: usize = if negative {
        1
    } else {
        0
    };
    if start >= token.len() {
        proof {
            assert(old(token)@.len() == 1 && old(token)@[0] == '-');
            assert(field_val(old(token)@) is None);
        }
        token.clear();
        return Err(EvalError::ParseFailure);
    }
    let mut digits: Vec<char> = Vec::new();
    let mut k: usize = start;
    while k < token.len()
        invariant
            token@ == old(token)@,
            start < token@.len(),
            start <= k <= token@.len(),
            digits@ == token@.subrange(start as int, k as int),
            crate::number::all_digits(digits@),
        decreases token@.len() - k,
    {
        let c = token[k];
        let is_digit = c == '0' || c == '1' || c == '2' || c == '3' || c == '4' || c == '5' || c
            == '6' || c == '7' || c == '8' || c == '9';
        if !is_digit {
            proof {
                assert(!crate::number::is_digit_char(token@[k as int]));
                if negative {
                    assert(token@.skip(1)[k - 1] == token@[k as int]);
                    assert(!crate::number::all_digits(token@.skip(1)));
                } else {
                    assert(!crate::number::all_digits(token@));
                }
            }
            token.clear();
            return Err(EvalError::ParseFailure);
        }
        digits.push(c);
        proof {
            assert(token@.subrange(start as int, k + 1) =~= token@.subrange(
                start as int,
                k as int,
            ).push(token@[k as int]));
        }
        k = k + 1;
    }
    proof {
        assert(k == token@.len());
        assert(digits@.len() > 0);
        if negative {
            assert(digits@ =~= token@.skip(1));
        } else {
            assert(digits@ =~= token@);
        }
    }
    token.clear();
    let text = crate::text::string_from_chars(&digits);
    proof {
        assert(text@ == digits@);
        assert(text@.len() > 0);
        assert(crate::number::all_digits(text@));
    }
    let magnitude = crate::number::Number::from_decimal(text.as_str());
    let num = if negative {
        magnitude.neg()
    } else {
        magnitude
    };
    proof {
        crate::value::lemma_seq_values_wf(old(row)@);
    }
    row.push(Value::Number(num));
    proof {
        crate::value::lemma_seq_values_wf(row@);
        assert(field_val(old(token)@) == Some(num.ival()));
        assert(int_values(row@) =~= int_values(old(row)@).push(num.ival()));
    }
    Ok(())
}

} // verus!
