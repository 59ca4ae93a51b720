//! The built-in function library: a fixed registry of pure value
//! transforms.
use vstd::prelude::*;
use crate::number::Number;
use crate::value::Array;
use crate::value::Val;
use crate::value::Value;

verus! {

/// The model of self-indexing one element: a non-zero scalar at top-level
/// position `i` becomes the scalar `i`, a zero scalar stays, and a nested
/// array is self-indexed recursively.
pub open spec fn sindex_at(v: Val, i: int) -> Val
    decreases v, 1int,
{
    match v {
        Val::Int(n) => if n == 0 {
            Val::Int(0)
        } else {
            Val::Int(i)
        },
        Val::Arr(s) => Val::Arr(sindex_seq(s)),
    }
}

/// The model of self-indexing every element of an array by its position.
pub open spec fn sindex_seq(s: Seq<Val>) -> Seq<Val>
    decreases s, 0int,
{
    Seq::new(
        s.len(),
        |i: int|
            if 0 <= i < s.len() {
                sindex_at(s[i], i)
            } else {
                Val::Int(0)
            },
    )
}

/// The model of the self-index transform on a whole value: an array is
/// self-indexed, a bare scalar passes through unchanged.
pub open spec fn sindex(v: Val) -> Val {
    match v {
        Val::Int(_) => v,
        Val::Arr(s) => Val::Arr(sindex_seq(s)),
    }
}

/// Self-index an array: replace each non-zero scalar by its top-level
/// position, leave zero scalars, and recurse into nested arrays.
#[verifier::loop_isolation(false)]
fn index_arr(arg: &Array) -> (r: Array)
    requires
        arg.wf(),
    ensures
        r@ == sindex_seq(arg@),
        r.wf(),
    decreases arg,
{
    proof {
        arg.lemma_wf();
    }
    let mut out: Vec<Value> = Vec::new();
    let mut i: usize = 0;
    while i < arg.value.len()
        invariant
            i <= arg.value.len(),
            out@.len() == i,
            forall|j: int|
                0 <= j < i ==> (#[trigger] out@[j])@ == sindex_at(arg@[j], j) && out@[j].wf(),
        decreases arg.value.len() - i,
    {
        proof {
            broadcast use vstd::std_specs::vec::group_vec_axioms;

            assert(decreases_to!(*arg => arg.value));
            assert(decreases_to!(arg.value => arg.value@[i as int]));
            assert(arg@[i as int] == arg.value@[i as int]@);
            assert(arg.value@[i as int].wf());
        }
        let elem = &arg.value[i];
        let replaced: Value = match elem {
            Value::Array(inner) => {
                proof {
                    assert(decreases_to!(arg.value@[i as int] => *inner));
                }
                Value::Array(index_arr(inner))
            },
            Value::Number(num) => {
                if num.is_zero() {
                    Value::Number(num.duplicate())
                } else {
                    Value::Number(Number::from_usize(i))
                }
            },
        };
        out.push(replaced);
        i = i + 1;
    }
    let r = Array { value: out };
    proof {
        assert(r@ =~= sindex_seq(arg@));
        crate::value::lemma_seq_values_wf(r.value@);
        r.lemma_wf();
    }
    r
}

/// The self-index library function: for an array, replace every non-zero
/// scalar element at top-level position `i` by the scalar `i`, recursing
/// into nested arrays; a bare scalar passes through unchanged.
pub fn index(arg: Value) -> (r: Value)
    requires
        arg.wf(),
    ensures
        r@ == sindex(arg@),
        r.wf(),
{
    if let Value::Array(arr) = arg {
        Value::Array(index_arr(&arr))
    } else {
        arg
    }
}

} // verus!
