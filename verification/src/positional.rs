//! Positional notation: the value of a digit sequence, most significant digit first.
//!
//! Every fixed-point number, balanced operand and convolution in the crate is read through
//! [`horner`], so the lemmas here are shared by all of them.

use vstd::arithmetic::power::*;
use vstd::prelude::*;

verus! {

/// Value of `s` read in base `b`, most significant digit first (Horner's rule).
pub open spec fn horner(s: Seq<int>, b: int) -> int
    decreases s.len(),
{
    if s.len() == 0 {
        0
    } else {
        horner(s.drop_last(), b) * b + s.last()
    }
}

/// Unsigned 32-bit digits as integers.
pub open spec fn u32_ints(s: Seq<u32>) -> Seq<int> {
    s.map_values(|x: u32| x as int)
}

/// Signed 32-bit digits as integers.
pub open spec fn i32_ints(s: Seq<i32>) -> Seq<int> {
    s.map_values(|x: i32| x as int)
}

/// Signed 64-bit digits as integers.
pub open spec fn i64_ints(s: Seq<i64>) -> Seq<int> {
    s.map_values(|x: i64| x as int)
}

/// `true` when every digit lies in `[0, b)`.
pub open spec fn digits_below(s: Seq<int>, b: int) -> bool {
    forall|i: int| 0 <= i < s.len() ==> 0 <= #[trigger] s[i] < b
}

/// `true` when every digit is zero.
pub open spec fn all_zero(s: Seq<int>) -> bool {
    forall|i: int| 0 <= i < s.len() ==> #[trigger] s[i] == 0
}

/// Splitting a numeral after its first `k` digits.
pub proof fn lemma_horner_split(s: Seq<int>, b: int, k: int)
    requires
        0 <= k <= s.len(),
    ensures
        horner(s, b) == horner(s.take(k), b) * pow(b, (s.len() - k) as nat) + horner(
            s.skip(k),
            b,
        ),
    decreases s.len(),
{
    let n = s.len() as int;
    if k == n {
        assert(s.take(k) =~= s);
        assert(s.skip(k) =~= Seq::<int>::empty());
        assert(pow(b, 0) == 1) by {
            reveal(pow);
        }
        assert(horner(s.skip(k), b) == 0);
    } else {
        let dl = s.drop_last();
        lemma_horner_split(dl, b, k);
        assert(dl.take(k) =~= s.take(k));
        assert(s.skip(k).drop_last() =~= dl.skip(k));
        assert(s.skip(k).last() == s.last());
        let t = horner(s.take(k), b);
        let r = horner(dl.skip(k), b);
        let p = pow(b, (n - 1 - k) as nat);
        assert(pow(b, (n - k) as nat) == b * p) by {
            reveal(pow);
        }
        assert((t * p + r) * b + s.last() == t * (b * p) + (r * b + s.last()))
            by (nonlinear_arith);
    }
}

/// Peeling off the leading digit.
pub proof fn lemma_horner_first(s: Seq<int>, b: int)
    requires
        s.len() >= 1,
    ensures
        horner(s, b) == s[0] * pow(b, (s.len() - 1) as nat) + horner(s.skip(1), b),
{
    lemma_horner_split(s, b, 1);
    assert(s.take(1).drop_last() =~= Seq::<int>::empty());
    assert(horner(s.take(1).drop_last(), b) == 0);
    assert(0 * b == 0) by (nonlinear_arith);
    assert(horner(s.take(1), b) == s[0]);
}

/// The digit at position `k` followed by the rest of the numeral.
pub proof fn lemma_horner_skip_step(s: Seq<int>, b: int, k: int)
    requires
        0 <= k < s.len(),
    ensures
        horner(s.skip(k), b) == s[k] * pow(b, (s.len() - k - 1) as nat) + horner(
            s.skip(k + 1),
            b,
        ),
{
    lemma_horner_first(s.skip(k), b);
    assert(s.skip(k).skip(1) =~= s.skip(k + 1));
}

/// Appending one digit.
pub proof fn lemma_horner_take_step(s: Seq<int>, b: int, k: int)
    requires
        0 <= k < s.len(),
    ensures
        horner(s.take(k + 1), b) == horner(s.take(k), b) * b + s[k],
{
    assert(s.take(k + 1).drop_last() =~= s.take(k));
}

/// A numeral with digits in `[0, b)` is below `b^len`.
pub proof fn lemma_horner_bounds(s: Seq<int>, b: int)
    requires
        b > 0,
        digits_below(s, b),
    ensures
        0 <= horner(s, b) < pow(b, s.len() as nat),
    decreases s.len(),
{
    reveal(pow);
    if s.len() > 0 {
        let dl = s.drop_last();
        lemma_horner_bounds(dl, b);
        let h = horner(dl, b);
        let p = pow(b, dl.len() as nat);
        let l = s.last();
        assert(0 <= h * b + l < p * b) by (nonlinear_arith)
            requires
                0 <= h < p,
                0 <= l < b,
        ;
        assert(pow(b, s.len() as nat) == b * pow(b, dl.len() as nat));
    }
}

/// All-zero numerals are worth zero.
pub proof fn lemma_horner_zero(s: Seq<int>, b: int)
    requires
        all_zero(s),
    ensures
        horner(s, b) == 0,
    decreases s.len(),
{
    if s.len() > 0 {
        lemma_horner_zero(s.drop_last(), b);
    }
}

/// A zero-valued numeral with digits in `[0, b)` has only zero digits.
pub proof fn lemma_horner_zero_converse(s: Seq<int>, b: int)
    requires
        b > 0,
        digits_below(s, b),
        horner(s, b) == 0,
    ensures
        all_zero(s),
    decreases s.len(),
{
    if s.len() > 0 {
        let dl = s.drop_last();
        lemma_horner_bounds(dl, b);
        let h = horner(dl, b);
        assert(h == 0 && s.last() == 0) by (nonlinear_arith)
            requires
                h >= 0,
                b > 0,
                0 <= s.last(),
                h * b + s.last() == 0,
        ;
        lemma_horner_zero_converse(dl, b);
        assert forall|i: int| 0 <= i < s.len() implies #[trigger] s[i] == 0 by {
            if i < dl.len() {
                assert(dl[i] == s[i]);
            }
        }
    }
}

/// Leading zero digits do not change the value.
pub proof fn lemma_horner_leading_zeros(s: Seq<int>, b: int, k: int)
    requires
        0 <= k <= s.len(),
        all_zero(s.take(k)),
    ensures
        horner(s, b) == horner(s.skip(k), b),
{
    lemma_horner_split(s, b, k);
    lemma_horner_zero(s.take(k), b);
}

/// Trailing zero digits scale the value by a power of the base.
pub proof fn lemma_horner_trailing_zeros(s: Seq<int>, b: int, k: int)
    requires
        0 <= k <= s.len(),
        all_zero(s.skip(k)),
    ensures
        horner(s, b) == horner(s.take(k), b) * pow(b, (s.len() - k) as nat),
{
    lemma_horner_split(s, b, k);
    lemma_horner_zero(s.skip(k), b);
}

/// Powers of a positive base are positive.
pub proof fn lemma_pow_pos(b: int, e: nat)
    requires
        b > 0,
    ensures
        pow(b, e) > 0,
{
    lemma_pow_positive(b, e);
}

/// `b^(e+1) == b^e * b`.
pub proof fn lemma_pow_succ(b: int, e: nat)
    ensures
        pow(b, e + 1) == pow(b, e) * b,
{
    reveal(pow);
    assert(pow(b, e + 1) == b * pow(b, e));
    assert(b * pow(b, e) == pow(b, e) * b) by (nonlinear_arith);
}

} // verus!
