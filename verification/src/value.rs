//! The runtime value model: a scalar wrapping an arbitrary-precision
//! integer, or an array of values nested to any depth.
use vstd::prelude::*;
use crate::number::Number;
use crate::number::decimal_rep;
use crate::number::lemma_decimal_unique;

verus! {

/// Mathematical model of a value: an integer, or a sequence of models.
pub enum Val {
    Int(int),
    Arr(Seq<Val>),
}

/// An ordered sequence of values.
#[derive(Debug)]
pub struct Array {
    pub value: Vec<Value>,
}

/// A runtime value: a nested array or a scalar number.
#[derive(Debug)]
pub enum Value {
    Array(Array),
    Number(Number),
}

impl View for Array {
    type V = Seq<Val>;

    open spec fn view(&self) -> Seq<Val>
        decreases self,
    {
        Seq::new(
            self.value@.len(),
            |i: int|
                if 0 <= i < self.value@.len() {
                    self.value@[i].view()
                } else {
                    Val::Int(0)
                },
        )
    }
}

impl View for Value {
    type V = Val;

    open spec fn view(&self) -> Val
        decreases self,
    {
        match self {
            Value::Number(n) => Val::Int(n.ival()),
            Value::Array(a) => Val::Arr(a.view()),
        }
    }
}

/// Every number inside each value of the sequence is well-formed.
pub open spec fn seq_values_wf(s: Seq<Value>) -> bool
    decreases s, 2int,
{
    if s.len() == 0 {
        true
    } else {
        s[0].wf() && seq_values_wf(s.drop_first())
    }
}

/// Well-formedness of a sequence is well-formedness of every element.
pub proof fn lemma_seq_values_wf(s: Seq<Value>)
    ensures
        seq_values_wf(s) <==> (forall|i: int| 0 <= i < s.len() ==> #[trigger] s[i].wf()),
    decreases s.len(),
{
    if s.len() > 0 {
        lemma_seq_values_wf(s.drop_first());
        if s[0].wf() && seq_values_wf(s.drop_first()) {
            assert forall|i: int| 0 <= i < s.len() implies #[trigger] s[i].wf() by {
                if i > 0 {
                    assert(s.drop_first()[i - 1].wf());
                }
            }
        }
        if forall|i: int| 0 <= i < s.len() ==> #[trigger] s[i].wf() {
            assert forall|i: int|
                0 <= i < s.drop_first().len() implies #[trigger] s.drop_first()[i].wf() by {
                assert(s[i + 1].wf());
            }
        }
    }
}

impl Array {
    /// Every number inside is well-formed.
    pub open spec fn wf(&self) -> bool
        decreases self, 1int,
    {
        seq_values_wf(self.value@)
    }

    /// Well-formedness of the array is well-formedness of every element.
    pub proof fn lemma_wf(&self)
        ensures
            self.wf() <==> (forall|i: int|
                0 <= i < self.value@.len() ==> #[trigger] self.value@[i].wf()),
    {
        lemma_seq_values_wf(self.value@);
    }
}

impl Value {
    /// Every number inside the value is well-formed.
    pub open spec fn wf(&self) -> bool
        decreases self, 0int,
    {
        match self {
            Value::Number(n) => n.wf(),
            Value::Array(a) => a.wf(),
        }
    }
}

impl Clone for Array {
    /// A deep copy: the same model value, well-formedness preserved.
    fn clone(&self) -> (res: Array)
        ensures
            res@ == self@,
            self.wf() ==> res.wf(),
        decreases self,
    {
        let mut out: Vec<Value> = Vec::new();
        let mut i: usize = 0;
        while i < self.value.len()
            invariant
                i <= self.value.len(),
                out@.len() == i,
                forall|j: int| 0 <= j < i ==> (#[trigger] out@[j])@ == self.value@[j]@,
                forall|j: int| 0 <= j < i ==> self.value@[j].wf() ==> #[trigger] out@[j].wf(),
            decreases self.value.len() - i,
        {
            proof {
                broadcast use vstd::std_specs::vec::group_vec_axioms;

                assert(decreases_to!(*self => self.value));
                assert(decreases_to!(self.value => self.value@[i as int]));
            }
            out.push(self.value[i].clone());
            i = i + 1;
        }
        let res = Array { value: out };
        proof {
            assert(res@ =~= self@);
            self.lemma_wf();
            res.lemma_wf();
        }
        res
    }
}

impl Clone for Value {
    /// A deep copy: the same model value, well-formedness preserved.
    fn clone(&self) -> (res: Value)
        ensures
            res@ == self@,
            self.wf() ==> res.wf(),
        decreases self,
    {
        match self {
            Value::Number(n) => Value::Number(n.duplicate()),
            Value::Array(a) => {
                proof {
                    assert(decreases_to!(*self => *a));
                }
                Value::Array(a.clone())
            },
        }
    }
}








/// Whether every number inside the value is well-formed.
#[verifier::loop_isolation(false)]
pub fn check_wf(v: &Value) -> (r: bool)
    ensures
        r == v.wf(),
    decreases v,
{
    match v {
        Value::Number(n) => {
            let mut ok: bool = true;
            // normalized magnitude: no trailing zero limb
            if n.value.len() > 0 && *n.value.last().unwrap() == 0 {
                ok = false;
            }
            // canonical zero carries the non-negative sign
            if n.value.len() == 0 && !n.sign {
                ok = false;
            }
            ok
        },
        Value::Array(a) => {
            let mut i: usize = 0;
            while i < a.value.len()
                invariant
                    i <= a.value.len(),
                    forall|j: int| 0 <= j < i ==> a.value@[j].wf(),
                decreases a.value.len() - i,
            {
                proof {
                    broadcast use vstd::std_specs::vec::group_vec_axioms;

                    assert(decreases_to!(*v => *a));
                    assert(decreases_to!(*a => a.value));
                    assert(decreases_to!(a.value => a.value@[i as int]));
                }
                if !check_wf(&a.value[i]) {
                    proof {
                        a.lemma_wf();
                        assert(!a.value@[i as int].wf());
                        assert(!v.wf());
                    }
                    return false;
                }
                i = i + 1;
            }
            proof {
                a.lemma_wf();
            }
            true
        },
    }
}

/// The decimal rendering of a model value: a scalar as its decimal digits,
/// an array as its elements space-separated inside one pair of brackets.
pub open spec fn render_str(v: Val) -> Seq<char>
    decreases v,
{
    match v {
        Val::Int(n) => crate::number::dec_str(n),
        Val::Arr(s) => seq!['['] + render_join(s) + seq![']'],
    }
}

/// The renderings of a sequence of values, separated by single spaces.
pub open spec fn render_join(s: Seq<Val>) -> Seq<char>
    decreases s,
{
    if s.len() == 0 {
        Seq::empty()
    } else if s.len() == 1 {
        render_str(s[0])
    } else {
        render_str(s[0]) + seq![' '] + render_join(s.drop_first())
    }
}

/// Append the characters of `src` to `dst`.
fn append_chars(dst: &mut Vec<char>, src: &Vec<char>)
    ensures
        final(dst)@ == old(dst)@ + src@,
{
    let mut k: usize = 0;
    while k < src.len()
        invariant
            k <= src@.len(),
            dst@ == old(dst)@ + src@.take(k as int),
        decreases src@.len() - k,
    {
        dst.push(src[k]);
        proof {
            assert(old(dst)@ + src@.take(k + 1) =~= (old(dst)@ + src@.take(k as int)).push(
                src@[k as int],
            ));
        }
        k = k + 1;
    }
    proof {
        assert(src@.take(src@.len() as int) =~= src@);
    }
}

/// The space-separated renderings of the first `i` elements.
pub open spec fn render_prefix(s: Seq<Val>, i: int) -> Seq<char>
    decreases i,
{
    if i <= 0 {
        Seq::empty()
    } else if i == 1 {
        render_str(s[0])
    } else {
        render_prefix(s, i - 1) + seq![' '] + render_str(s[i - 1])
    }
}

proof fn lemma_render_prefix_full(s: Seq<Val>)
    ensures
        render_prefix(s, s.len() as int) == render_join(s),
    decreases s.len(),
{
    if s.len() <= 1 {
    } else {
        lemma_render_prefix_full(s.drop_first());
        lemma_render_join_shift(s, s.len() as int);
    }
}

/// A prefix of the renderings of `s`, read off the tail sequence.
proof fn lemma_render_join_shift(s: Seq<Val>, i: int)
    requires
        2 <= i <= s.len(),
    ensures
        render_prefix(s, i) == render_str(s[0]) + seq![' '] + render_prefix(s.drop_first(), i - 1),
    decreases i,
{
    if i == 2 {
        assert(s.drop_first()[0] == s[1]);
        assert(render_prefix(s, 2) == render_prefix(s, 1) + seq![' '] + render_str(s[1]));
        assert(render_prefix(s.drop_first(), 1) == render_str(s[1]));
    } else {
        lemma_render_join_shift(s, i - 1);
        assert(s.drop_first()[i - 2] == s[i - 1]);
        assert((render_str(s[0]) + seq![' '] + render_prefix(s.drop_first(), i - 2)) + seq![' ']
            + render_str(s[i - 1]) =~= render_str(s[0]) + seq![' '] + (render_prefix(
            s.drop_first(),
            i - 2,
        ) + seq![' '] + render_str(s[i - 1])));
    }
}

/// The rendering of a value, as characters.
#[verifier::loop_isolation(false)]
fn render_chars(v: &Value) -> (r: Vec<char>)
    requires
        v.wf(),
    ensures
        r@ == render_str(v@),
    decreases v,
{
    match v {
        Value::Number(n) => {
            let s = n.to_decimal_chars();
            proof {
                crate::number::lemma_dec_str_correct(n.ival());
                lemma_decimal_unique(s@, crate::number::dec_str(n.ival()), n.ival());
            }
            s
        },
        Value::Array(a) => {
            let mut out: Vec<char> = Vec::new();
            out.push('[');
            let n = a.value.len();
            let mut i: usize = 0;
            while i < n
                invariant
                    i <= n,
                    out@ == seq!['['] + render_prefix(a@, i as int),
                decreases n - i,
            {
                proof {
                    broadcast use vstd::std_specs::vec::group_vec_axioms;

                    assert(decreases_to!(*v => *a));
                    assert(decreases_to!(*a => a.value));
                    assert(decreases_to!(a.value => a.value@[i as int]));
                    a.lemma_wf();
                    assert(a.value@[i as int].wf());
                }
                if i > 0 {
                    out.push(' ');
                }
                let piece = render_chars(&a.value[i]);
                append_chars(&mut out, &piece);
                proof {
                    assert(a@[i as int] == a.value@[i as int]@);
                    if i > 0 {
                        assert(out@ =~= seq!['['] + render_prefix(a@, i + 1));
                    } else {
                        assert(out@ =~= seq!['['] + render_prefix(a@, 1));
                    }
                }
                i = i + 1;
            }
            out.push(']');
            proof {
                lemma_render_prefix_full(a@);
                assert(a@.len() == n);
                assert(out@ =~= seq!['['] + render_join(a@) + seq![']']);
            }
            out
        },
    }
}

/// The decimal rendering of a value: a scalar as its decimal digits, an
/// array as its elements space-separated inside one pair of brackets.
pub fn render(v: &Value) -> (r: String)
    requires
        v.wf(),
    ensures
        r@ == render_str(v@),
{
    let chars = render_chars(v);
    crate::text::string_from_chars(&chars)
}

} // verus!
