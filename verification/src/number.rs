//! Arbitrary-precision signed integers in sign-magnitude form.
//!
//! A magnitude is a sequence of machine-word limbs, least significant first;
//! the numeric value of a magnitude is the sum of `limb[i] * BASE^i` where
//! `BASE` is one more than the largest limb. A well-formed number keeps its
//! magnitude normalized (no trailing zero limb) and represents zero as an
//! empty magnitude with a non-negative sign, so equal values have equal
//! representations.
use vstd::prelude::*;
use vstd::arithmetic::power::pow;
use vstd::arithmetic::power::lemma_pow_positive;
use vstd::arithmetic::power::lemma_pow_strictly_increases;
use vstd::arithmetic::power::lemma_pow_adds;
use vstd::arithmetic::power::lemma_pow0;
use vstd::arithmetic::power::lemma_pow1;

verus! {

broadcast use vstd::arithmetic::mul::group_mul_basics;

/// One more than the largest limb: the radix of the magnitude representation.
pub open spec fn base_n() -> nat {
    usize::MAX as nat + 1
}

/// Numeric value of a magnitude, least-significant limb first.
pub open spec fn mag(s: Seq<usize>) -> nat
    decreases s.len(),
{
    if s.len() == 0 {
        0
    } else {
        (s[0] + base_n() * mag(s.drop_first())) as nat
    }
}

/// A normalized magnitude has no trailing (most-significant) zero limb.
pub open spec fn normalized(s: Seq<usize>) -> bool {
    s.len() == 0 || s[s.len() - 1] != 0
}

/// The sign convention: `true` means the number is non-negative.
#[derive(Debug, Clone, PartialEq, Eq)]
pub struct Number {
    pub sign: bool,
    pub value: Vec<usize>,
}

impl Number {
    /// Well-formed: magnitude normalized, and zero carries the non-negative sign.
    pub open spec fn wf(&self) -> bool {
        normalized(self.value@) && (self.value@.len() == 0 ==> self.sign)
    }

    /// The mathematical value of the number.
    pub open spec fn ival(&self) -> int {
        if self.sign {
            mag(self.value@) as int
        } else {
            -(mag(self.value@) as int)
        }
    }
}

proof fn lemma_pow01(b: int)
    ensures
        pow(b, 0) == 1,
        pow(b, 1) == b,
{
    lemma_pow0(b);
    lemma_pow1(b);
}

proof fn lemma_base_bounds()
    ensures
        0x100000000 <= base_n() <= 0x10000000000000000,
{
}

/// The value of a magnitude extended by one limb.
proof fn lemma_mag_push(s: Seq<usize>, x: usize)
    ensures
        mag(s.push(x)) == mag(s) + x * pow(base_n() as int, s.len()),
    decreases s.len(),
{
    lemma_pow_positive(base_n() as int, s.len());
    lemma_pow01(base_n() as int);
    if s.len() == 0 {
        assert(s.push(x) =~= seq![x]);
        assert(mag(seq![x].drop_first()) == 0) by {
            assert(seq![x].drop_first() =~= Seq::<usize>::empty());
        }
    } else {
        assert(s.push(x).drop_first() =~= s.drop_first().push(x));
        lemma_mag_push(s.drop_first(), x);
        lemma_pow_adds(base_n() as int, 1, (s.len() - 1) as nat);
        assert(base_n() * (mag(s.drop_first()) + x * pow(base_n() as int, (s.len() - 1) as nat))
            == base_n() * mag(s.drop_first()) + x * (base_n() * pow(
            base_n() as int,
            (s.len() - 1) as nat,
        ))) by (nonlinear_arith);
    }
}

/// A magnitude of `n` limbs is below `BASE^n`.
proof fn lemma_mag_bound(s: Seq<usize>)
    ensures
        mag(s) < pow(base_n() as int, s.len()),
    decreases s.len(),
{
    lemma_pow_positive(base_n() as int, s.len());
    lemma_pow01(base_n() as int);
    if s.len() == 0 {
    } else {
        lemma_mag_bound(s.drop_first());
        lemma_pow_adds(base_n() as int, 1, (s.len() - 1) as nat);
        assert(mag(s.drop_first()) + 1 <= pow(base_n() as int, (s.len() - 1) as nat));
        assert(base_n() * (mag(s.drop_first()) + 1) <= base_n() * pow(
            base_n() as int,
            (s.len() - 1) as nat,
        )) by (nonlinear_arith)
            requires
                mag(s.drop_first()) + 1 <= pow(base_n() as int, (s.len() - 1) as nat),
                base_n() > 0,
        ;
        assert(s[0] < base_n());
    }
}

/// A normalized, non-empty magnitude of `n` limbs is at least `BASE^(n-1)`.
proof fn lemma_mag_lower(s: Seq<usize>)
    requires
        normalized(s),
        s.len() > 0,
    ensures
        mag(s) >= pow(base_n() as int, (s.len() - 1) as nat),
        mag(s) > 0,
    decreases s.len(),
{
    lemma_pow_positive(base_n() as int, (s.len() - 1) as nat);
    lemma_pow01(base_n() as int);
    if s.len() == 1 {
        assert(mag(s) == (s[0] + base_n() * mag(s.drop_first())) as nat);
    } else {
        assert(normalized(s.drop_first()));
        lemma_mag_lower(s.drop_first());
        lemma_pow_adds(base_n() as int, 1, (s.len() - 2) as nat);
        assert(base_n() * mag(s.drop_first()) >= base_n() * pow(
            base_n() as int,
            (s.len() - 2) as nat,
        )) by (nonlinear_arith)
            requires
                mag(s.drop_first()) >= pow(base_n() as int, (s.len() - 2) as nat),
                base_n() > 0,
        ;
    }
}

/// The value of a one-limb magnitude.
proof fn lemma_mag_single(x: usize)
    ensures
        mag(seq![x]) == x,
{
    reveal_with_fuel(mag, 2);
    assert(seq![x].drop_first() =~= Seq::<usize>::empty());
}

/// Dropping a trailing zero limb keeps the value.
proof fn lemma_mag_drop_last_zero(s: Seq<usize>)
    requires
        s.len() > 0,
        s[s.len() - 1] == 0,
    ensures
        mag(s.drop_last()) == mag(s),
{
    assert(s =~= s.drop_last().push(0usize));
    lemma_mag_push(s.drop_last(), 0usize);
}

/// Value of a prefix: the first `i` limbs of `s`, or all of `s` if it is shorter.
pub open spec fn prefix_mag(s: Seq<usize>, i: int) -> nat {
    if i < s.len() {
        mag(s.take(i))
    } else {
        mag(s)
    }
}

/// The limb at position `i`, reading zero past the end.
pub open spec fn limb_at(s: Seq<usize>, i: int) -> usize {
    if 0 <= i < s.len() {
        s[i]
    } else {
        0
    }
}

proof fn lemma_prefix_mag_step(s: Seq<usize>, i: int)
    requires
        0 <= i,
    ensures
        prefix_mag(s, i + 1) == prefix_mag(s, i) + limb_at(s, i) * pow(base_n() as int, i as nat),
{
    if i < s.len() {
        assert(s.take(i + 1) =~= s.take(i).push(s[i]));
        lemma_mag_push(s.take(i), s[i]);
        if i + 1 < s.len() {
        } else {
            assert(s.take(i + 1) =~= s);
        }
    } else {
        assert(limb_at(s, i) == 0);
    }
}

proof fn lemma_prefix_mag_full(s: Seq<usize>, i: int)
    requires
        i >= s.len(),
    ensures
        prefix_mag(s, i) == mag(s),
{
}

/// Splitting a magnitude at position `i`: low limbs plus shifted high limbs.
proof fn lemma_mag_split(s: Seq<usize>, i: int)
    requires
        0 <= i <= s.len(),
    ensures
        mag(s) == mag(s.take(i)) + pow(base_n() as int, i as nat) * mag(s.skip(i)),
    decreases i,
{
    lemma_pow01(base_n() as int);
    if i == 0 {
        assert(s.take(0) =~= Seq::<usize>::empty());
        assert(s.skip(0) =~= s);
    } else {
        lemma_mag_split(s, i - 1);
        // mag(s) == mag(s.take(i-1)) + B^(i-1) * mag(s.skip(i-1))
        let b = base_n() as int;
        let hi = s.skip(i - 1);
        if (i - 1) < s.len() {
            assert(hi.len() > 0);
            assert(hi[0] == s[i - 1]);
            assert(hi.drop_first() =~= s.skip(i));
            assert(mag(hi) == s[i - 1] + base_n() * mag(s.skip(i)));
            assert(s.take(i) =~= s.take(i - 1).push(s[i - 1]));
            lemma_mag_push(s.take(i - 1), s[i - 1]);
            lemma_pow_adds(b, (i - 1) as nat, 1);
            let p = pow(b, (i - 1) as nat);
            let x = s[i - 1] as int;
            let y = mag(s.skip(i)) as int;
            assert(p * (x + b * y) == x * p + (p * b) * y) by (nonlinear_arith);
            assert(pow(b, i as nat) == p * b);
        } else {
            assert(i == s.len());
            assert(s.take(i) =~= s);
            assert(s.skip(i) =~= Seq::<usize>::empty());
            assert(hi =~= Seq::<usize>::empty());
            lemma_pow_positive(b, i as nat);
        }
    }
}

/// Pointwise-equal magnitudes have equal values.
proof fn lemma_mag_congruence(a: Seq<usize>, b: Seq<usize>)
    requires
        a.len() == b.len(),
        forall|j: int| 0 <= j < a.len() ==> a[j] == b[j],
    ensures
        mag(a) == mag(b),
{
    assert(a =~= b);
}

/// Among normalized magnitudes, a strictly shorter one has a strictly
/// smaller value.
proof fn lemma_mag_shorter(a: Seq<usize>, b: Seq<usize>)
    requires
        normalized(a),
        normalized(b),
        a.len() < b.len(),
    ensures
        mag(a) < mag(b),
{
    lemma_mag_bound(a);
    lemma_mag_lower(b);
    if a.len() < (b.len() - 1) as nat {
        lemma_pow_strictly_increases(base_n(), a.len(), (b.len() - 1) as nat);
    }
}

/// For equal-length magnitudes agreeing above position `i`, the limb at `i`
/// decides the order.
proof fn lemma_mag_lex(a: Seq<usize>, b: Seq<usize>, i: int)
    requires
        a.len() == b.len(),
        0 <= i < a.len(),
        forall|j: int| i < j < a.len() ==> a[j] == b[j],
        a[i] < b[i],
    ensures
        mag(a) < mag(b),
{
    let bb = base_n() as int;
    lemma_mag_split(a, i);
    lemma_mag_split(b, i);
    assert(a.skip(i).drop_first() =~= a.skip(i + 1));
    assert(b.skip(i).drop_first() =~= b.skip(i + 1));
    assert(a.skip(i + 1) =~= b.skip(i + 1));
    assert(mag(a.skip(i)) == a[i] + base_n() * mag(a.skip(i + 1)));
    assert(mag(b.skip(i)) == b[i] + base_n() * mag(b.skip(i + 1)));
    assert(mag(a.skip(i)) < mag(b.skip(i)));
    lemma_mag_bound(a.take(i));
    lemma_mag_bound(b.take(i));
    assert(a.take(i).len() == i);
    let p = pow(bb, i as nat);
    lemma_pow_positive(bb, i as nat);
    assert(mag(a) < p + p * mag(a.skip(i)));
    assert(p + p * mag(a.skip(i)) == p * (1 + mag(a.skip(i)))) by (nonlinear_arith);
    assert(p * (1 + mag(a.skip(i))) <= p * mag(b.skip(i))) by (nonlinear_arith)
        requires
            p > 0,
            1 + mag(a.skip(i)) <= mag(b.skip(i)),
    ;
    assert(p * mag(b.skip(i)) <= mag(b));
}

/// Normalized magnitudes with equal values are identical.
proof fn lemma_mag_injective(a: Seq<usize>, b: Seq<usize>)
    requires
        normalized(a),
        normalized(b),
        mag(a) == mag(b),
    ensures
        a == b,
    decreases a.len(),
{
    if a.len() != b.len() {
        if a.len() < b.len() {
            lemma_mag_shorter(a, b);
        } else {
            lemma_mag_shorter(b, a);
        }
        assert(false);
    } else if a.len() == 0 {
        assert(a =~= b);
    } else {
        // equal low limb: both are mag % BASE
        let bb = base_n();
        assert(mag(a) == (a[0] + bb * mag(a.drop_first())) as nat);
        assert(mag(b) == (b[0] + bb * mag(b.drop_first())) as nat);
        assert(a[0] == b[0] && mag(a.drop_first()) == mag(b.drop_first())) by (nonlinear_arith)
            requires
                a[0] + bb * mag(a.drop_first()) == b[0] + bb * mag(b.drop_first()),
                a[0] < bb,
                b[0] < bb,
        ;
        if a.len() == 1 {
            assert(a =~= b);
        } else {
            let a1 = a.drop_first();
            let b1 = b.drop_first();
            assert(normalized(a1) && normalized(b1));
            lemma_mag_injective(a1, b1);
            assert(a =~= b) by {
                assert(forall|j: int| 1 <= j < a.len() ==> a[j] == a1[j - 1] && b[j] == b1[j - 1]);
            }
        }
    }
}

/// Two well-formed numbers with the same value are identical.
pub proof fn lemma_number_injective(a: Number, b: Number)
    requires
        a.wf(),
        b.wf(),
        a.ival() == b.ival(),
    ensures
        a.value@ == b.value@,
        a.sign == b.sign,
{
    if a.ival() == 0 {
        if a.value@.len() > 0 {
            lemma_mag_lower(a.value@);
        }
        if b.value@.len() > 0 {
            lemma_mag_lower(b.value@);
        }
        assert(a.value@ =~= b.value@);
    } else {
        if a.value@.len() > 0 {
            lemma_mag_lower(a.value@);
        }
        if b.value@.len() > 0 {
            lemma_mag_lower(b.value@);
        }
        assert(a.sign == b.sign);
        lemma_mag_injective(a.value@, b.value@);
    }
}

/// Copy of a limb vector.
fn copy_limbs(v: &Vec<usize>) -> (r: Vec<usize>)
    ensures
        r@ == v@,
{
    let mut r: Vec<usize> = Vec::new();
    let mut i: usize = 0;
    while i < v.len()
        invariant
            i <= v.len(),
            r@ == v@.take(i as int),
        decreases v.len() - i,
    {
        r.push(v[i]);
        proof {
            assert(v@.take(i + 1) =~= v@.take(i as int).push(v@[i as int]));
        }
        i = i + 1;
    }
    proof {
        assert(v@.take(v@.len() as int) =~= v@);
    }
    r
}

/// Limb-wise addition of two magnitudes with carry propagation.
#[verifier::loop_isolation(false)]
#[verifier::rlimit(60)]
#[verifier::spinoff_prover]
fn mag_add(a: &Vec<usize>, b: &Vec<usize>) -> (r: Vec<usize>)
    ensures
        mag(r@) == mag(a@) + mag(b@),
{
    let mut r: Vec<usize> = Vec::new();
    let mut carry: u128 = 0;
    let mut i: usize = 0;
    let n: usize = if a.len() >= b.len() {
        a.len()
    } else {
        b.len()
    };
    let base: u128 = usize::MAX as u128 + 1;
    proof {
        lemma_pow01(base_n() as int);
    }
    while i < n
        invariant
            i <= n,
            carry <= 1,
            r@.len() == i,
            mag(r@) + carry * pow(base_n() as int, i as nat) == prefix_mag(a@, i as int)
                + prefix_mag(b@, i as int),
        decreases n - i,
    {
        let av: u128 = if i < a.len() {
            a[i] as u128
        } else {
            0
        };
        let bv: u128 = if i < b.len() {
            b[i] as u128
        } else {
            0
        };
        let t: u128 = av + bv + carry;
        let limb: usize = (t % base) as usize;
        let new_carry: u128 = t / base;
        proof {
            let p = pow(base_n() as int, i as nat);
            let bb = base_n() as int;
            lemma_pow_positive(bb, i as nat);
            lemma_mag_push(r@, limb);
            lemma_prefix_mag_step(a@, i as int);
            lemma_prefix_mag_step(b@, i as int);
            lemma_pow_adds(bb, i as nat, 1);
            assert(t == new_carry * bb + limb) by (nonlinear_arith)
                requires
                    t < bb * bb,
                    bb > 1,
                    limb == (t as int) % bb,
                    new_carry == (t as int) / bb,
            ;
            assert(new_carry <= 1) by (nonlinear_arith)
                requires
                    t < 2 * bb,
                    bb > 1,
                    new_carry == (t as int) / bb,
            ;
            // multiply t == carry' * B + limb by B^i and regroup
            assert((new_carry * bb + limb) * p == new_carry * (bb * p) + limb * p)
                by (nonlinear_arith);
            assert((av + bv + carry) * p == av * p + bv * p + carry * p) by (nonlinear_arith);
        }
        r.push(limb);
        carry = new_carry;
        i = i + 1;
    }
    proof {
        lemma_prefix_mag_full(a@, n as int);
        lemma_prefix_mag_full(b@, n as int);
        assert(i == n);
        assert(mag(r@) + carry * pow(base_n() as int, n as nat) == mag(a@) + mag(b@));
    }
    if carry > 0 {
        proof {
            assert(carry == 1);
            lemma_mag_push(r@, 1usize);
            assert(r@.len() == n as nat);
            assert(mag(r@.push(1usize)) == mag(r@) + 1 * pow(base_n() as int, n as nat));
        }
        r.push(1);
        proof {
            assert(mag(r@) == mag(a@) + mag(b@));
        }
    } else {
        proof {
            assert(carry * pow(base_n() as int, n as nat) == 0) by (nonlinear_arith)
                requires
                    carry == 0,
            ;
            assert(mag(r@) == mag(a@) + mag(b@));
        }
    }
    r
}

/// Limb-wise subtraction of a smaller magnitude from a larger one, with
/// borrow propagation; the result is normalized.
#[verifier::loop_isolation(false)]
#[verifier::rlimit(60)]
#[verifier::spinoff_prover]
fn mag_sub(a: &Vec<usize>, b: &Vec<usize>) -> (r: Vec<usize>)
    requires
        normalized(a@),
        normalized(b@),
        mag(b@) <= mag(a@),
    ensures
        mag(r@) == mag(a@) - mag(b@),
        normalized(r@),
{
    proof {
        if a@.len() < b@.len() {
            lemma_mag_shorter(a@, b@);
        }
        lemma_pow01(base_n() as int);
    }
    let mut r: Vec<usize> = Vec::new();
    let mut borrow: u128 = 0;
    let mut i: usize = 0;
    let n: usize = a.len();
    let base: u128 = usize::MAX as u128 + 1;
    while i < n
        invariant
            i <= n,
            borrow <= 1,
            r@.len() == i,
            mag(r@) == prefix_mag(a@, i as int) - prefix_mag(b@, i as int) + borrow * pow(
                base_n() as int,
                i as nat,
            ),
        decreases n - i,
    {
        let av: u128 = a[i] as u128;
        let bv: u128 = if i < b.len() {
            b[i] as u128
        } else {
            0
        };
        let t: u128 = av + base - bv - borrow;
        let limb: usize = (t % base) as usize;
        let q: u128 = t / base;
        let new_borrow: u128 = 1 - q;
        proof {
            let p = pow(base_n() as int, i as nat);
            let bb = base_n() as int;
            lemma_pow_positive(bb, i as nat);
            lemma_mag_push(r@, limb);
            lemma_prefix_mag_step(a@, i as int);
            lemma_prefix_mag_step(b@, i as int);
            lemma_pow_adds(bb, i as nat, 1);
            assert((t as int) / bb <= 1 && t == ((t as int) / bb) * bb + limb)
                by (nonlinear_arith)
                requires
                    t < 2 * bb,
                    bb > 1,
                    limb == (t as int) % bb,
            ;
            // av - bv - borrow == limb - new_borrow * B, then multiply by B^i
            assert(av - bv - borrow == limb - new_borrow * bb) by (nonlinear_arith)
                requires
                    t == av + bb - bv - borrow,
                    t == q * bb + limb,
                    new_borrow == 1 - q,
            ;
            assert((av - bv - borrow) * p == av * p - bv * p - borrow * p) by (nonlinear_arith);
            assert((limb - new_borrow * bb) * p == limb * p - new_borrow * (bb * p))
                by (nonlinear_arith);
            assert((av - bv - borrow) * p == (limb - new_borrow * bb) * p);
        }
        r.push(limb);
        borrow = new_borrow;
        i = i + 1;
    }
    proof {
        lemma_prefix_mag_full(a@, n as int);
        lemma_prefix_mag_full(b@, n as int);
        assert(i == n);
        if borrow == 1 {
            lemma_mag_bound(r@);
            assert(r@.len() == n as nat);
            assert(mag(r@) < pow(base_n() as int, n as nat));
            assert(borrow * pow(base_n() as int, n as nat) == pow(base_n() as int, n as nat))
                by (nonlinear_arith)
                requires
                    borrow == 1,
            ;
            assert(false);
        } else {
            assert(borrow * pow(base_n() as int, n as nat) == 0) by (nonlinear_arith)
                requires
                    borrow == 0,
            ;
        }
        assert(mag(r@) == mag(a@) - mag(b@));
    }
    normalize_limbs(&mut r);
    r
}

/// Order of two magnitude values.
pub enum MagOrder {
    Less,
    Equal,
    Greater,
}

/// Compare two normalized magnitudes: by length first, then limb by limb
/// from the most significant end down.
#[verifier::loop_isolation(false)]
fn mag_cmp(a: &Vec<usize>, b: &Vec<usize>) -> (r: MagOrder)
    requires
        normalized(a@),
        normalized(b@),
    ensures
        r is Less <==> mag(a@) < mag(b@),
        r is Equal <==> mag(a@) == mag(b@),
        r is Greater <==> mag(a@) > mag(b@),
{
    if a.len() < b.len() {
        proof {
            lemma_mag_shorter(a@, b@);
        }
        return MagOrder::Less;
    }
    if b.len() < a.len() {
        proof {
            lemma_mag_shorter(b@, a@);
        }
        return MagOrder::Greater;
    }
    let mut i: usize = a.len();
    while i > 0
        invariant
            i <= a.len(),
            forall|j: int| i <= j < a@.len() ==> a@[j] == b@[j],
        decreases i,
    {
        i = i - 1;
        if a[i] < b[i] {
            proof {
                lemma_mag_lex(a@, b@, i as int);
            }
            return MagOrder::Less;
        }
        if b[i] < a[i] {
            proof {
                lemma_mag_lex(b@, a@, i as int);
            }
            return MagOrder::Greater;
        }
    }
    proof {
        lemma_mag_congruence(a@, b@);
    }
    MagOrder::Equal
}

/// Whether the first magnitude value is strictly below the second.
fn mag_lt(a: &Vec<usize>, b: &Vec<usize>) -> (r: bool)
    requires
        normalized(a@),
        normalized(b@),
    ensures
        r == (mag(a@) < mag(b@)),
{
    match mag_cmp(a, b) {
        MagOrder::Less => true,
        MagOrder::Equal => false,
        MagOrder::Greater => false,
    }
}

/// A one-limb magnitude holding 1.
fn mag_one() -> (r: Vec<usize>)
    ensures
        mag(r@) == 1,
        normalized(r@),
        r@.len() == 1,
{
    let mut one: Vec<usize> = Vec::new();
    one.push(1);
    proof {
        assert(one@ =~= seq![1usize]);
        lemma_mag_single(1usize);
    }
    one
}

/// Magnitude product by repeated addition, counting the right operand down.
#[verifier::loop_isolation(false)]
fn mag_mul(a: &Vec<usize>, b: &Vec<usize>) -> (r: Vec<usize>)
    requires
        normalized(b@),
    ensures
        mag(r@) == mag(a@) * mag(b@),
{
    let mut result: Vec<usize> = Vec::new();
    let mut counter = copy_limbs(b);
    let one = mag_one();
    while counter.len() > 0
        invariant
            normalized(counter@),
            mag(result@) + mag(a@) * mag(counter@) == mag(a@) * mag(b@),
        decreases mag(counter@),
    {
        proof {
            lemma_mag_lower(counter@);
            assert(mag(a@) * mag(counter@) == mag(a@) * (mag(counter@) - 1) + mag(a@))
                by (nonlinear_arith);
        }
        counter = mag_sub(&counter, &one);
        result = mag_add(&result, a);
    }
    proof {
        assert(mag(a@) * mag(counter@) == 0) by (nonlinear_arith)
            requires
                mag(counter@) == 0,
        ;
    }
    result
}

/// Magnitude quotient and remainder by repeated subtraction.
#[verifier::loop_isolation(false)]
fn mag_divmod(a: &Vec<usize>, d: &Vec<usize>) -> (res: (Vec<usize>, Vec<usize>))
    requires
        normalized(a@),
        normalized(d@),
        mag(d@) > 0,
    ensures
        mag(res.0@) * mag(d@) + mag(res.1@) == mag(a@),
        mag(res.1@) < mag(d@),
        normalized(res.0@),
        normalized(res.1@),
{
    let mut q: Vec<usize> = Vec::new();
    let mut rem = copy_limbs(a);
    let one = mag_one();
    while !mag_lt(&rem, d)
        invariant
            normalized(rem@),
            mag(q@) * mag(d@) + mag(rem@) == mag(a@),
        decreases mag(rem@),
    {
        proof {
            assert((mag(q@) + 1) * mag(d@) == mag(q@) * mag(d@) + mag(d@)) by (nonlinear_arith);
        }
        rem = mag_sub(&rem, d);
        q = mag_add(&q, &one);
    }
    proof {
        assert(mag(q@) * mag(d@) + mag(rem@) == mag(a@));
    }
    let mut qn = q;
    normalize_limbs(&mut qn);
    (qn, rem)
}


/// Whether a character is a decimal digit.
pub open spec fn is_digit_char(c: char) -> bool {
    '0' <= c && c <= '9'
}

/// The numeric value of a digit character.
pub open spec fn digit_val(c: char) -> int {
    c as int - '0' as int
}

/// Whether every character of a sequence is a decimal digit.
pub open spec fn all_digits(s: Seq<char>) -> bool {
    forall|i: int| 0 <= i < s.len() ==> is_digit_char(s[i])
}

/// The number denoted by a sequence of digit characters, most significant
/// digit first.
pub open spec fn digits_val(s: Seq<char>) -> int
    decreases s.len(),
{
    if s.len() == 0 {
        0
    } else {
        digits_val(s.drop_last()) * 10 + digit_val(s.last())
    }
}

/// The canonical decimal form of a non-negative number: digits only, and no
/// leading zero except for the single digit zero itself.
pub open spec fn canonical_digits(s: Seq<char>) -> bool {
    all_digits(s) && s.len() > 0 && (s.len() > 1 ==> s[0] != '0')
}

/// Whether `s` is the decimal rendering of the integer `v`: canonical
/// digits, preceded by a minus sign exactly when `v` is negative.
pub open spec fn decimal_rep(s: Seq<char>, v: int) -> bool {
    if v >= 0 {
        canonical_digits(s) && digits_val(s) == v
    } else {
        s.len() > 0 && s[0] == '-' && canonical_digits(s.skip(1)) && digits_val(s.skip(1)) == -v
    }
}

proof fn lemma_digits_val_nonneg(s: Seq<char>)
    requires
        all_digits(s),
    ensures
        digits_val(s) >= 0,
    decreases s.len(),
{
    if s.len() > 0 {
        assert(all_digits(s.drop_last()));
        lemma_digits_val_nonneg(s.drop_last());
        assert(digits_val(s.drop_last()) * 10 >= 0) by (nonlinear_arith)
            requires
                digits_val(s.drop_last()) >= 0,
        ;
    }
}

proof fn lemma_digits_val_bound(s: Seq<char>)
    requires
        all_digits(s),
    ensures
        digits_val(s) < pow(10, s.len()),
    decreases s.len(),
{
    lemma_pow01(10);
    if s.len() > 0 {
        assert(all_digits(s.drop_last()));
        lemma_digits_val_bound(s.drop_last());
        lemma_pow_adds(10, (s.len() - 1) as nat, 1);
        assert(digits_val(s.drop_last()) * 10 <= (pow(10, (s.len() - 1) as nat) - 1) * 10)
            by (nonlinear_arith)
            requires
                digits_val(s.drop_last()) <= pow(10, (s.len() - 1) as nat) - 1,
        ;
        assert(digit_val(s.last()) <= 9);
    }
}

proof fn lemma_digits_val_lower(s: Seq<char>)
    requires
        all_digits(s),
        s.len() > 0,
        s[0] != '0',
    ensures
        digits_val(s) >= pow(10, (s.len() - 1) as nat),
    decreases s.len(),
{
    lemma_pow01(10);
    if s.len() == 1 {
        assert(digits_val(s.drop_last()) == 0) by {
            assert(s.drop_last().len() == 0);
        }
        assert(digit_val(s[0]) >= 1);
    } else {
        assert(all_digits(s.drop_last()));
        assert(s.drop_last()[0] == s[0]);
        lemma_digits_val_lower(s.drop_last());
        lemma_pow_adds(10, (s.len() - 2) as nat, 1);
        lemma_digits_val_nonneg(s);
        assert(digits_val(s.drop_last()) * 10 >= pow(10, (s.len() - 2) as nat) * 10)
            by (nonlinear_arith)
            requires
                digits_val(s.drop_last()) >= pow(10, (s.len() - 2) as nat),
        ;
        assert(digit_val(s.last()) >= 0);
    }
}

proof fn lemma_canonical_unique(s1: Seq<char>, s2: Seq<char>)
    requires
        canonical_digits(s1),
        canonical_digits(s2),
        digits_val(s1) == digits_val(s2),
    ensures
        s1 == s2,
    decreases s1.len(),
{
    lemma_pow01(10);
    if s1.len() < s2.len() {
        lemma_digits_val_bound(s1);
        lemma_digits_val_lower(s2);
        if s1.len() < (s2.len() - 1) as nat {
            lemma_pow_strictly_increases(10, s1.len(), (s2.len() - 1) as nat);
        }
        assert(false);
    } else if s2.len() < s1.len() {
        lemma_digits_val_bound(s2);
        lemma_digits_val_lower(s1);
        if s2.len() < (s1.len() - 1) as nat {
            lemma_pow_strictly_increases(10, s2.len(), (s1.len() - 1) as nat);
        }
        assert(false);
    } else if s1.len() == 0 {
        assert(false);
    } else {
        let d1 = s1.drop_last();
        let d2 = s2.drop_last();
        assert(all_digits(d1) && all_digits(d2));
        lemma_digits_val_nonneg(d1);
        lemma_digits_val_nonneg(d2);
        assert(digit_val(s1.last()) == digit_val(s2.last()) && digits_val(d1) == digits_val(d2))
            by (nonlinear_arith)
            requires
                digits_val(d1) * 10 + digit_val(s1.last()) == digits_val(d2) * 10 + digit_val(
                    s2.last(),
                ),
                0 <= digit_val(s1.last()) < 10,
                0 <= digit_val(s2.last()) < 10,
                digits_val(d1) >= 0,
                digits_val(d2) >= 0,
        ;
        assert(s1.last() == s2.last());
        if s1.len() == 1 {
            assert(s1 =~= s2);
        } else {
            assert(d1[0] == s1[0] && d2[0] == s2[0]);
            lemma_canonical_unique(d1, d2);
            assert(s1 =~= s2) by {
                assert(forall|j: int|
                    0 <= j < s1.len() - 1 ==> s1[j] == d1[j] && s2[j] == d2[j]);
            }
        }
    }
}

/// The decimal rendering of a value is unique: two sequences that both
/// render the same integer are the same sequence.
pub proof fn lemma_decimal_unique(s1: Seq<char>, s2: Seq<char>, v: int)
    requires
        decimal_rep(s1, v),
        decimal_rep(s2, v),
    ensures
        s1 == s2,
{
    if v >= 0 {
        lemma_canonical_unique(s1, s2);
    } else {
        lemma_canonical_unique(s1.skip(1), s2.skip(1));
        assert(s1 =~= s2) by {
            assert(s1.len() == s2.len());
            assert(forall|j: int|
                1 <= j < s1.len() ==> s1[j] == s1.skip(1)[j - 1] && s2[j] == s2.skip(1)[j - 1]);
        }
    }
}

/// A digit as a character.
fn digit_to_char(d: usize) -> (c: char)
    requires
        d < 10,
    ensures
        is_digit_char(c),
        digit_val(c) == d,
{
    if d == 0 {
        '0'
    } else if d == 1 {
        '1'
    } else if d == 2 {
        '2'
    } else if d == 3 {
        '3'
    } else if d == 4 {
        '4'
    } else if d == 5 {
        '5'
    } else if d == 6 {
        '6'
    } else if d == 7 {
        '7'
    } else if d == 8 {
        '8'
    } else {
        '9'
    }
}

/// A digit character as a number.
fn char_to_digit(c: char) -> (d: usize)
    requires
        is_digit_char(c),
    ensures
        d < 10,
        d == digit_val(c),
{
    if c == '0' {
        0
    } else if c == '1' {
        1
    } else if c == '2' {
        2
    } else if c == '3' {
        3
    } else if c == '4' {
        4
    } else if c == '5' {
        5
    } else if c == '6' {
        6
    } else if c == '7' {
        7
    } else if c == '8' {
        8
    } else {
        9
    }
}

/// A vector with the elements in reverse order.
fn reverse_vec<T: Copy>(v: &Vec<T>) -> (r: Vec<T>)
    ensures
        r@ == v@.reverse(),
{
    let mut r: Vec<T> = Vec::new();
    let mut k: usize = 0;
    while k < v.len()
        invariant
            k <= v.len(),
            r@.len() == k,
            forall|j: int| 0 <= j < k ==> r@[j] == v@[v@.len() - 1 - j],
        decreases v.len() - k,
    {
        r.push(v[v.len() - 1 - k]);
        k = k + 1;
    }
    proof {
        assert(r@ =~= v@.reverse());
    }
    r
}

/// Divide a magnitude by a small constant, yielding quotient and remainder;
/// limbs are processed from the most significant end down.
#[verifier::loop_isolation(false)]
#[verifier::rlimit(60)]
#[verifier::spinoff_prover]
fn mag_divmod_small(a: &Vec<usize>, d: usize) -> (res: (Vec<usize>, usize))
    requires
        1 <= d <= 0x10000,
    ensures
        mag(res.0@) * d + res.1 == mag(a@),
        res.1 < d,
        normalized(res.0@),
{
    let base: u128 = usize::MAX as u128 + 1;
    let mut q_rev: Vec<usize> = Vec::new();
    let mut rem: usize = 0;
    let mut i: usize = a.len();
    while i > 0
        invariant
            i <= a.len(),
            rem < d,
            q_rev@.len() == a@.len() - i,
            mag(q_rev@.reverse()) * d + rem == mag(a@.skip(i as int)),
        decreases i,
    {
        let remc: u128 = rem as u128;
        let av: u128 = a[i - 1] as u128;
        proof {
            lemma_base_bounds();
            assert(remc * base <= 0x10000 * 0x10000000000000000) by (nonlinear_arith)
                requires
                    remc <= 0x10000,
                    base <= 0x10000000000000000,
            ;
        }
        let cur: u128 = remc * base + av;
        let qdw: u128 = cur / (d as u128);
        let remw: u128 = cur % (d as u128);
        proof {
            let bb = base_n() as int;
            assert(cur < d * bb) by (nonlinear_arith)
                requires
                    cur == remc * bb + av,
                    remc < d,
                    av < bb,
            ;
            assert(qdw < bb && cur == qdw * d + remw) by (nonlinear_arith)
                requires
                    cur < d * (bb as int),
                    1 <= d,
                    qdw == (cur as int) / (d as int),
                    remw == (cur as int) % (d as int),
                    bb > 1,
            ;
        }
        let qd: usize = qdw as usize;
        let new_rem: usize = remw as usize;
        proof {
            let bb = base_n() as int;
            let qq = mag(q_rev@.reverse()) as int;
            // the next suffix of `a` in terms of the current one
            assert(a@.skip(i - 1).drop_first() =~= a@.skip(i as int));
            assert(a@.skip(i - 1)[0] == a@[i - 1]);
            // the new quotient suffix in terms of the current one
            assert(q_rev@.push(qd).reverse() =~= seq![qd] + q_rev@.reverse());
            assert((seq![qd] + q_rev@.reverse()).drop_first() =~= q_rev@.reverse());
            assert(mag(seq![qd] + q_rev@.reverse()) == qd + base_n() * qq);
            assert((qd + bb * qq) * d + new_rem == a@[i - 1] + bb * (qq * d + rem))
                by (nonlinear_arith)
                requires
                    cur == rem * bb + a@[i - 1],
                    cur == qd * d + new_rem,
            ;
            assert(new_rem < d);
            assert(mag(a@.skip(i - 1)) == a@[i - 1] + bb * mag(a@.skip(i as int)));
        }
        q_rev.push(qd);
        rem = new_rem;
        i = i - 1;
    }
    proof {
        assert(a@.skip(0) =~= a@);
    }
    let mut q = reverse_vec(&q_rev);
    proof {
        assert(q_rev@.reverse() == q@);
    }
    normalize_limbs(&mut q);
    (q, rem)
}

/// Multiply a magnitude by a small constant and add a small constant, limb
/// by limb with carry.
#[verifier::loop_isolation(false)]
#[verifier::rlimit(60)]
#[verifier::spinoff_prover]
fn mag_scale_add(a: &Vec<usize>, m: usize, add: usize) -> (r: Vec<usize>)
    requires
        m <= 0x10000,
        add <= 0x10000,
    ensures
        mag(r@) == mag(a@) * m + add,
{
    let base: u128 = usize::MAX as u128 + 1;
    let mut r: Vec<usize> = Vec::new();
    let mut carry: u128 = add as u128;
    let mut i: usize = 0;
    proof {
        lemma_pow01(base_n() as int);
        assert(mag(a@.take(0)) * m == 0) by (nonlinear_arith)
            requires
                mag(a@.take(0)) == 0,
        ;
        assert(a@.take(0) =~= Seq::<usize>::empty());
    }
    while i < a.len()
        invariant
            i <= a.len(),
            carry <= 0x20000,
            r@.len() == i,
            mag(r@) + carry * pow(base_n() as int, i as nat) == mag(a@.take(i as int)) * m + add,
        decreases a.len() - i,
    {
        let ai: u128 = a[i] as u128;
        let mm: u128 = m as u128;
        proof {
            lemma_base_bounds();
            assert(ai * mm <= 0xffffffffffffffff * 0x10000) by (nonlinear_arith)
                requires
                    ai <= 0xffffffffffffffff,
                    mm <= 0x10000,
            ;
        }
        let cur: u128 = ai * mm + carry;
        let limb: usize = (cur % base) as usize;
        let new_carry: u128 = cur / base;
        proof {
            let bb = base_n() as int;
            let p = pow(bb, i as nat);
            lemma_pow_positive(bb, i as nat);
            lemma_mag_push(r@, limb);
            lemma_pow_adds(bb, i as nat, 1);
            lemma_pow01(bb);
            assert(cur == new_carry * bb + limb && new_carry <= 0x20000) by (nonlinear_arith)
                requires
                    cur == ai * mm + carry,
                    ai == a@[i as int],
                    mm == m,
                    a@[i as int] < bb,
                    m <= 0x10000,
                    carry <= 0x20000,
                    0x100000000 <= bb,
                    limb == (cur as int) % bb,
                    new_carry == (cur as int) / bb,
            ;
            assert(a@.take(i + 1) =~= a@.take(i as int).push(a@[i as int]));
            lemma_mag_push(a@.take(i as int), a@[i as int]);
            assert(mag(a@.take(i + 1)) * m == mag(a@.take(i as int)) * m + (a@[i as int] * p) * m)
                by (nonlinear_arith)
                requires
                    mag(a@.take(i + 1)) == mag(a@.take(i as int)) + a@[i as int] * p,
            ;
            assert((new_carry * bb + limb) * p == new_carry * (bb * p) + limb * p)
                by (nonlinear_arith);
            assert((a@[i as int] * m + carry) * p == (a@[i as int] * p) * m + carry * p)
                by (nonlinear_arith);
        }
        r.push(limb);
        carry = new_carry;
        i = i + 1;
    }
    proof {
        assert(a@.take(a@.len() as int) =~= a@);
        lemma_base_bounds();
    }
    while carry > 0
        invariant
            carry <= 0x20000,
            mag(r@) + carry * pow(base_n() as int, r@.len()) == mag(a@) * m + add,
        decreases carry,
    {
        let limb: usize = (carry % base) as usize;
        proof {
            let bb = base_n() as int;
            lemma_pow_positive(bb, r@.len());
            lemma_mag_push(r@, limb);
            lemma_pow_adds(bb, r@.len(), 1);
            lemma_pow01(bb);
            assert((carry as int) / bb == 0 && limb == carry) by (nonlinear_arith)
                requires
                    carry <= 0x20000,
                    0x100000000 <= bb,
                    limb == (carry as int) % bb,
            ;
        }
        r.push(limb);
        carry = 0;
    }
    proof {
        assert(carry * pow(base_n() as int, r@.len()) == 0) by (nonlinear_arith)
            requires
                carry == 0,
        ;
    }
    r
}

/// Drop trailing zero limbs.
fn normalize_limbs(v: &mut Vec<usize>)
    ensures
        mag(final(v)@) == mag(old(v)@),
        normalized(final(v)@),
{
    while v.len() > 0 && *v.last().unwrap() == 0
        invariant
            mag(v@) == mag(old(v)@),
        decreases v.len(),
    {
        proof {
            lemma_mag_drop_last_zero(v@);
        }
        v.pop();
    }
}


/// The number denoted by a sequence of digit characters, least significant
/// digit first.
pub open spec fn digits_val_lsb(s: Seq<char>) -> int
    decreases s.len(),
{
    if s.len() == 0 {
        0
    } else {
        digit_val(s[0]) + 10 * digits_val_lsb(s.drop_first())
    }
}

proof fn lemma_lsb_push(s: Seq<char>, c: char)
    ensures
        digits_val_lsb(s.push(c)) == digits_val_lsb(s) + digit_val(c) * pow(10, s.len()),
    decreases s.len(),
{
    lemma_pow01(10);
    if s.len() == 0 {
        reveal_with_fuel(digits_val_lsb, 2);
        assert(s.push(c) =~= seq![c]);
        assert(seq![c].drop_first() =~= Seq::<char>::empty());
    } else {
        assert(s.push(c).drop_first() =~= s.drop_first().push(c));
        lemma_lsb_push(s.drop_first(), c);
        lemma_pow_adds(10, 1, (s.len() - 1) as nat);
        assert(10 * (digits_val_lsb(s.drop_first()) + digit_val(c) * pow(
            10,
            (s.len() - 1) as nat,
        )) == 10 * digits_val_lsb(s.drop_first()) + digit_val(c) * (10 * pow(
            10,
            (s.len() - 1) as nat,
        ))) by (nonlinear_arith);
    }
}

proof fn lemma_digits_rev(s: Seq<char>)
    ensures
        digits_val(s.reverse()) == digits_val_lsb(s),
    decreases s.len(),
{
    if s.len() == 0 {
        assert(s.reverse() =~= Seq::<char>::empty());
    } else {
        assert(s.reverse().last() == s[0]);
        assert(s.reverse().drop_last() =~= s.drop_first().reverse());
        lemma_digits_rev(s.drop_first());
        assert(digits_val_lsb(s.drop_first()) * 10 == 10 * digits_val_lsb(s.drop_first()))
            by (nonlinear_arith);
    }
}



/// A prefix of a digit string never denotes more than the whole string.
pub proof fn lemma_digits_prefix_le(s: Seq<char>, j: int)
    requires
        all_digits(s),
        0 <= j <= s.len(),
    ensures
        digits_val(s.take(j)) <= digits_val(s),
    decreases s.len() - j,
{
    if j == s.len() {
        assert(s.take(j) =~= s);
    } else {
        assert(s.take(j + 1).drop_last() =~= s.take(j));
        assert(s.take(j + 1).last() == s[j]);
        assert(all_digits(s.take(j)));
        lemma_digits_val_nonneg(s.take(j));
        assert(digits_val(s.take(j)) <= digits_val(s.take(j)) * 10 + digit_val(s[j]));
        lemma_digits_prefix_le(s, j + 1);
    }
}

/// The character for a digit value.
pub open spec fn digit_char_of(d: int) -> char {
    if d == 0 {
        '0'
    } else if d == 1 {
        '1'
    } else if d == 2 {
        '2'
    } else if d == 3 {
        '3'
    } else if d == 4 {
        '4'
    } else if d == 5 {
        '5'
    } else if d == 6 {
        '6'
    } else if d == 7 {
        '7'
    } else if d == 8 {
        '8'
    } else {
        '9'
    }
}

/// The decimal digits of a natural number, most significant first.
pub open spec fn nat_digits(n: nat) -> Seq<char>
    decreases n,
{
    if n < 10 {
        seq![digit_char_of(n as int)]
    } else {
        nat_digits(n / 10).push(digit_char_of((n % 10) as int))
    }
}

/// The decimal rendering of an integer: its digits, with a minus sign in
/// front when it is negative.
pub open spec fn dec_str(v: int) -> Seq<char> {
    if v >= 0 {
        nat_digits(v as nat)
    } else {
        seq!['-'] + nat_digits((-v) as nat)
    }
}

proof fn lemma_nat_digits(n: nat)
    ensures
        canonical_digits(nat_digits(n)),
        digits_val(nat_digits(n)) == n,
        n >= 1 ==> nat_digits(n)[0] != '0',
    decreases n,
{
    if n < 10 {
        let s = seq![digit_char_of(n as int)];
        assert(s.drop_last() =~= Seq::<char>::empty());
        assert(digits_val(s) == digit_val(s.last())) by {
            reveal_with_fuel(digits_val, 2);
        }
    } else {
        lemma_nat_digits(n / 10);
        let pre = nat_digits(n / 10);
        let c = digit_char_of((n % 10) as int);
        let s = pre.push(c);
        assert(s.drop_last() =~= pre);
        assert(s.last() == c);
        assert(digit_val(c) == n % 10);
        assert(digits_val(s) == digits_val(pre) * 10 + n % 10);
        assert((n / 10) * 10 + n % 10 == n) by (nonlinear_arith);
        assert(s[0] == pre[0]);
        assert(n / 10 >= 1);
    }
}

/// The rendering `dec_str` is a decimal representation, and by uniqueness
/// the only one.
pub proof fn lemma_dec_str_correct(v: int)
    ensures
        decimal_rep(dec_str(v), v),
{
    if v >= 0 {
        lemma_nat_digits(v as nat);
    } else {
        lemma_nat_digits((-v) as nat);
        let s = seq!['-'] + nat_digits((-v) as nat);
        assert(s.skip(1) =~= nat_digits((-v) as nat));
        assert(s[0] == '-');
    }
}

impl Number {
    /// The decimal rendering of the number, as a string.
    pub fn to_decimal(&self) -> (r: String)
        requires
            self.wf(),
        ensures
            decimal_rep(r@, self.ival()),
    {
        let chars = self.to_decimal_chars();
        crate::text::string_from_chars(&chars)
    }

    /// The decimal rendering of the number: canonical digits with a minus
    /// sign for negative values.
    #[verifier::loop_isolation(false)]
    pub fn to_decimal_chars(&self) -> (r: Vec<char>)
        requires
            self.wf(),
        ensures
            decimal_rep(r@, self.ival()),
    {
        proof {
            lemma_pow01(10);
        }
        if self.value.len() == 0 {
            let mut v: Vec<char> = Vec::new();
            v.push('0');
            proof {
                assert(v@ =~= seq!['0']);
                assert(seq!['0'].drop_last() =~= Seq::<char>::empty());
                assert(digits_val(seq!['0']) == 0) by {
                    reveal_with_fuel(digits_val, 2);
                    assert(seq!['0'].drop_last() =~= Seq::<char>::empty());
                }
            }
            return v;
        }
        proof {
            lemma_mag_lower(self.value@);
        }
        let mut m = copy_limbs(&self.value);
        let mut digs: Vec<char> = Vec::new();
        while m.len() > 0
            invariant
                normalized(m@),
                forall|j: int| 0 <= j < digs@.len() ==> is_digit_char(digs@[j]),
                mag(m@) * pow(10, digs@.len()) + digits_val_lsb(digs@) == mag(self.value@),
                mag(m@) == 0 && digs@.len() > 0 ==> digit_val(digs@.last()) != 0,
            decreases mag(m@),
        {
            proof {
                lemma_mag_lower(m@);
            }
            let (q, dd) = mag_divmod_small(&m, 10);
            let c = digit_to_char(dd);
            proof {
                lemma_lsb_push(digs@, c);
                lemma_pow_adds(10, digs@.len(), 1);
                lemma_pow_positive(10, digs@.len());
                let p = pow(10, digs@.len());
                assert(mag(q@) < mag(m@) && (mag(q@) * 10 + dd) * p == mag(q@) * (p * 10) + dd
                    * p) by (nonlinear_arith)
                    requires
                        mag(q@) * 10 + dd == mag(m@),
                        mag(m@) >= 1,
                        dd < 10,
                        p >= 1,
                ;
            }
            digs.push(c);
            m = q;
        }
        proof {
            assert(mag(m@) * pow(10, digs@.len()) == 0) by (nonlinear_arith)
                requires
                    mag(m@) == 0,
            ;
            assert(digits_val_lsb(digs@) == mag(self.value@));
            assert(digs@.len() > 0);
        }
        let rev = reverse_vec(&digs);
        proof {
            lemma_digits_rev(digs@);
            assert(rev@[0] == digs@.last());
            assert(forall|j: int| 0 <= j < rev@.len() ==> rev@[j] == digs@[digs@.len() - 1 - j]);
            assert(canonical_digits(rev@));
        }
        if self.sign {
            rev
        } else {
            let mut out: Vec<char> = Vec::new();
            out.push('-');
            let mut k: usize = 0;
            while k < rev.len()
                invariant
                    k <= rev@.len(),
                    out@ == seq!['-'] + rev@.take(k as int),
                decreases rev@.len() - k,
            {
                out.push(rev[k]);
                proof {
                    assert(out@ =~= seq!['-'] + rev@.take(k + 1));
                }
                k = k + 1;
            }
            proof {
                assert(rev@.take(rev@.len() as int) =~= rev@);
                assert(out@.skip(1) =~= rev@);
            }
            out
        }
    }

    /// The number denoted by a non-empty string of decimal digits.
    #[verifier::loop_isolation(false)]
    pub fn from_decimal(digits: &str) -> (r: Number)
        requires
            all_digits(digits@),
            digits@.len() > 0,
        ensures
            r.wf(),
            r.ival() == digits_val(digits@),
    {
        let n = digits.unicode_len();
        let mut m: Vec<usize> = Vec::new();
        let mut i: usize = 0;
        proof {
            assert(digits@.take(0) =~= Seq::<char>::empty());
        }
        while i < n
            invariant
                i <= n,
                mag(m@) == digits_val(digits@.take(i as int)),
            decreases n - i,
        {
            let c = digits.get_char(i);
            let d = char_to_digit(c);
            proof {
                assert(all_digits(digits@.take(i as int)));
                lemma_digits_val_nonneg(digits@.take(i as int));
            }
            let m2 = mag_scale_add(&m, 10, d);
            proof {
                assert(digits@.take(i + 1).drop_last() =~= digits@.take(i as int));
                assert(digits@.take(i + 1).last() == digits@[i as int]);
                assert(mag(m@) * 10 == digits_val(digits@.take(i as int)) * 10);
            }
            m = m2;
            i = i + 1;
        }
        proof {
            assert(digits@.take(n as int) =~= digits@);
            lemma_digits_val_nonneg(digits@);
        }
        let mut mm = m;
        normalize_limbs(&mut mm);
        Number { sign: true, value: mm }
    }
}


/// Truncating integer division: magnitudes divide, the sign is positive
/// exactly when the operand signs agree.
pub open spec fn trunc_div(a: int, b: int) -> int {
    let q = vstd::math::abs(a) / vstd::math::abs(b);
    if (a >= 0) == (b >= 0) {
        q as int
    } else {
        -(q as int)
    }
}

/// Remainder of truncating division: the sign follows the dividend.
pub open spec fn trunc_mod(a: int, b: int) -> int {
    let m = vstd::math::abs(a) % vstd::math::abs(b);
    if a >= 0 {
        m as int
    } else {
        -(m as int)
    }
}

impl Number {
    /// Build a number from a sign and raw limbs, normalizing the magnitude
    /// and canonicalizing the sign of zero.
    pub fn from_raw(sign: bool, value: Vec<usize>) -> (r: Number)
        ensures
            r.wf(),
            r.ival() == if sign {
                mag(value@) as int
            } else {
                -(mag(value@) as int)
            },
    {
        let mut v = value;
        normalize_limbs(&mut v);
        let s = if v.len() == 0 {
            true
        } else {
            sign
        };
        Number { sign: s, value: v }
    }

    /// The number zero.
    pub fn zero() -> (r: Number)
        ensures
            r.wf(),
            r.ival() == 0,
    {
        Number { sign: true, value: Vec::new() }
    }

    /// A number from a machine word.
    pub fn from_usize(n: usize) -> (r: Number)
        ensures
            r.wf(),
            r.ival() == n,
    {
        let mut v: Vec<usize> = Vec::new();
        if n > 0 {
            v.push(n);
            proof {
                assert(v@ =~= seq![n]);
                lemma_mag_single(n);
            }
        }
        Number { sign: true, value: v }
    }

    /// An identical copy: same sign, same limbs.
    pub fn duplicate(&self) -> (r: Number)
        ensures
            r.sign == self.sign,
            r.value@ == self.value@,
            r.wf() == self.wf(),
            r.ival() == self.ival(),
    {
        let r = Number { sign: self.sign, value: copy_limbs(&self.value) };
        proof {
            assert(r.value@ == self.value@);
        }
        r
    }

    /// The negation; zero stays the canonical non-negative zero.
    pub fn neg(&self) -> (r: Number)
        requires
            self.wf(),
        ensures
            r.wf(),
            r.ival() == -self.ival(),
    {
        Number::from_raw(!self.sign, copy_limbs(&self.value))
    }

    /// Sum of two numbers.
    pub fn add(&self, rhs: &Number) -> (r: Number)
        requires
            self.wf(),
            rhs.wf(),
        ensures
            r.wf(),
            r.ival() == self.ival() + rhs.ival(),
    {
        if self.sign == rhs.sign {
            Number::from_raw(self.sign, mag_add(&self.value, &rhs.value))
        } else {
            match mag_cmp(&self.value, &rhs.value) {
                MagOrder::Less => Number::from_raw(rhs.sign, mag_sub(&rhs.value, &self.value)),
                _ => Number::from_raw(self.sign, mag_sub(&self.value, &rhs.value)),
            }
        }
    }

    /// Difference of two numbers: the sum with the negated subtrahend.
    pub fn sub(&self, rhs: &Number) -> (r: Number)
        requires
            self.wf(),
            rhs.wf(),
        ensures
            r.wf(),
            r.ival() == self.ival() - rhs.ival(),
    {
        self.add(&rhs.neg())
    }

    /// Product of two numbers; the sign is positive exactly when the operand
    /// signs agree.
    pub fn mul(&self, rhs: &Number) -> (r: Number)
        requires
            self.wf(),
            rhs.wf(),
        ensures
            r.wf(),
            r.ival() == self.ival() * rhs.ival(),
    {
        let m = mag_mul(&self.value, &rhs.value);
        let r = Number::from_raw(self.sign == rhs.sign, m);
        proof {
            let ma = mag(self.value@) as int;
            let mb = mag(rhs.value@) as int;
            assert(ma * mb == (-ma) * (-mb) && -(ma * mb) == (-ma) * mb && -(ma * mb) == ma * (
            -mb)) by (nonlinear_arith);
        }
        r
    }

    /// Truncating quotient and remainder; the divisor must be non-zero.
    pub fn div_mod(&self, rhs: &Number) -> (res: (Number, Number))
        requires
            self.wf(),
            rhs.wf(),
            rhs.ival() != 0,
        ensures
            res.0.wf(),
            res.1.wf(),
            res.0.ival() == trunc_div(self.ival(), rhs.ival()),
            res.1.ival() == trunc_mod(self.ival(), rhs.ival()),
    {
        proof {
            if rhs.value@.len() == 0 {
                assert(rhs.ival() == 0);
            }
            lemma_mag_lower(rhs.value@);
        }
        let (qm, rm) = mag_divmod(&self.value, &rhs.value);
        let q = Number::from_raw(self.sign == rhs.sign, qm);
        let r = Number::from_raw(self.sign, rm);
        proof {
            let ma = mag(self.value@) as int;
            let mb = mag(rhs.value@) as int;
            vstd::arithmetic::div_mod::lemma_fundamental_div_mod_converse(
                ma,
                mb,
                mag(qm@) as int,
                mag(rm@) as int,
            );
            assert(vstd::math::abs(self.ival()) == ma);
            assert(vstd::math::abs(rhs.ival()) == mb);
        }
        (q, r)
    }

    /// Whether the value is zero.
    pub fn is_zero(&self) -> (r: bool)
        requires
            self.wf(),
        ensures
            r == (self.ival() == 0),
    {
        proof {
            if self.value@.len() > 0 {
                lemma_mag_lower(self.value@);
            }
        }
        self.value.len() == 0
    }

    /// Whether two numbers have the same value.
    pub fn equals(&self, rhs: &Number) -> (r: bool)
        requires
            self.wf(),
            rhs.wf(),
        ensures
            r == (self.ival() == rhs.ival()),
    {
        proof {
            if self.value@.len() > 0 {
                lemma_mag_lower(self.value@);
            }
            if rhs.value@.len() > 0 {
                lemma_mag_lower(rhs.value@);
            }
        }
        if self.sign != rhs.sign {
            false
        } else {
            match mag_cmp(&self.value, &rhs.value) {
                MagOrder::Equal => true,
                _ => false,
            }
        }
    }

    /// Whether this number is strictly below the other.
    pub fn lt(&self, rhs: &Number) -> (r: bool)
        requires
            self.wf(),
            rhs.wf(),
        ensures
            r == (self.ival() < rhs.ival()),
    {
        proof {
            if self.value@.len() > 0 {
                lemma_mag_lower(self.value@);
            }
            if rhs.value@.len() > 0 {
                lemma_mag_lower(rhs.value@);
            }
        }
        if self.sign != rhs.sign {
            !self.sign
        } else if self.sign {
            mag_lt(&self.value, &rhs.value)
        } else {
            mag_lt(&rhs.value, &self.value)
        }
    }

    /// Whether this number is at most the other.
    pub fn le(&self, rhs: &Number) -> (r: bool)
        requires
            self.wf(),
            rhs.wf(),
        ensures
            r == (self.ival() <= rhs.ival()),
    {
        !rhs.lt(self)
    }
}

/// The decimal rendering of an integer is canonical: any sequence that
/// renders a value is that value's one rendering.
pub proof fn lemma_decimal_canonical(v: int, s: Seq<char>)
    requires
        decimal_rep(s, v),
    ensures
        s == dec_str(v),
{
    lemma_dec_str_correct(v);
    lemma_decimal_unique(s, dec_str(v), v);
}

/// Addition is commutative: results of adding two numbers either way round
/// are the same number, limb for limb.
pub proof fn lemma_add_commutative(a: Number, b: Number, r1: Number, r2: Number)
    requires
        a.wf(),
        b.wf(),
        r1.wf(),
        r2.wf(),
        r1.ival() == a.ival() + b.ival(),
        r2.ival() == b.ival() + a.ival(),
    ensures
        r1.sign == r2.sign,
        r1.value@ == r2.value@,
{
    lemma_number_injective(r1, r2);
}

/// Subtraction is anti-commutative: the difference one way round is the
/// negation of the difference the other way round.
pub proof fn lemma_sub_anticommutative(a: Number, b: Number, r1: Number, r2: Number)
    requires
        a.wf(),
        b.wf(),
        r1.wf(),
        r2.wf(),
        r1.ival() == a.ival() - b.ival(),
        r2.ival() == b.ival() - a.ival(),
    ensures
        r1.ival() == -r2.ival(),
        r1.value@ == r2.value@,
        r1.ival() != 0 ==> r1.sign == !r2.sign,
{
    let neg2 = Number { sign: if r2.ival() == 0 { true } else { !r2.sign }, value: r2.value };
    assert(neg2.wf());
    assert(neg2.ival() == -r2.ival());
    lemma_number_injective(r1, neg2);
}

} // verus!
