//! Balanced digits and the carry pass that turns a convolution back into limbs.
//!
//! Before a convolution each operand is rewritten with digits in `[−BASE/2, BASE/2)`: the terms
//! of the convolution then cancel instead of piling up, which keeps the rounding error of a
//! floating-point transform far below its limit. After the transform the rounded coefficients
//! are carried back into limbs in `[0, BASE)` and placed at the right weight.

use vstd::arithmetic::div_mod::*;
use vstd::arithmetic::power::*;
use vstd::prelude::*;

use crate::bignum::fixed::{at_least_one, limbs_value, scale, Fixed, BASE};
use crate::error::Error;
use crate::positional::{
    all_zero, digits_below, horner, i32_ints, i64_ints, lemma_horner_bounds, lemma_horner_first,
    lemma_horner_leading_zeros, lemma_horner_skip_step, lemma_horner_split,
    lemma_horner_trailing_zeros, lemma_horner_zero, lemma_horner_zero_converse, lemma_pow_pos,
    lemma_pow_succ, u32_ints,
};

verus! {

/// Operand in balanced digits: every digit lies in `[−BASE/2, BASE/2)` and the number is
/// `Σ digits[i] · BASE^−(offset + i)`. Leading and trailing zero digits are removed, so a
/// non-zero operand starts and ends with a non-zero digit.
#[derive(Clone, Debug)]
pub struct Operand {
    /// Balanced digits, most significant first.
    pub digits: Vec<i32>,
    /// Weight of the first digit: it counts `BASE^−offset`.
    pub offset: isize,
}

/// Number of limbs of `limbs` that take part when truncating to `len`.
pub open spec fn used_limbs(limbs: Seq<u32>, len: usize) -> nat {
    if len <= limbs.len() {
        len as nat
    } else {
        limbs.len()
    }
}

/// `true` when `op` writes the number whose first `m` limbs (integer limb first) are `limbs`.
pub open spec fn represents(digits: Seq<i32>, offset: int, limbs: Seq<u32>, m: nat) -> bool {
    &&& -1 <= offset
    &&& offset + digits.len() <= m
    &&& horner(i32_ints(digits), 10000) * scale((m - offset - digits.len()) as nat) == limbs_value(
        limbs.take(m as int),
    )
}

impl Operand {
    /// Truncates to `len` limbs, balances, and removes leading and trailing zero digits.
    pub fn balanced(limbs: &[u32], len: usize) -> (r: Operand)
        requires
            forall|i: int| 0 <= i < limbs@.len() ==> #[trigger] limbs@[i] < BASE,
            limbs@.len() <= isize::MAX / 4,
        ensures
            forall|i: int| 0 <= i < r.digits@.len() ==> -5000 <= #[trigger] r.digits@[i] < 5000,
            (r.digits@.len() == 0) == (limbs_value(limbs@.take(used_limbs(limbs@, len) as int))
                == 0),
            r.digits@.len() == 0 ==> r.offset == 0,
            r.digits@.len() > 0 ==> {
                &&& r.digits@[0] != 0
                &&& r.digits@.last() != 0
                &&& represents(r.digits@, r.offset as int, limbs@, used_limbs(limbs@, len))
            },
    {
        let m = if len <= limbs.len() {
            len
        } else {
            limbs.len()
        };
        let ghost slice = u32_ints(limbs@.take(m as int));
        let mut extended = vec![0i32; m + 1];
        let mut carry: i32 = 0;
        let mut i = m;
        proof {
            assert(i32_ints(extended@).skip(m + 1) =~= Seq::<int>::empty());
            assert(slice.skip(m as int) =~= Seq::<int>::empty());
            assert(scale(0) == 1) by {
                reveal(pow);
            }
        }
        while i > 0
            invariant
                extended@.len() == m + 1,
                m <= limbs@.len(),
                slice == u32_ints(limbs@.take(m as int)),
                forall|j: int| 0 <= j < limbs@.len() ==> #[trigger] limbs@[j] < BASE,
                i <= m,
                0 <= carry <= 1,
                forall|j: int| i + 1 <= j < m + 1 ==> -5000 <= #[trigger] extended@[j] < 5000,
                horner(i32_ints(extended@).skip(i + 1), 10000) + carry * scale((m - i) as nat)
                    == horner(slice.skip(i as int), 10000),
                all_zero(slice.skip(i as int)) ==> carry == 0 && all_zero(
                    i32_ints(extended@).skip(i + 1),
                ),
            decreases i,
        {
            i -= 1;
            let ghost before = i32_ints(extended@);
            let ghost old_carry = carry;
            let mut d = limbs[i] as i32 + carry;
            if d >= 5000 {
                d -= 10000;
                carry = 1;
            } else {
                carry = 0;
            }
            extended.set(i + 1, d);
            proof {
                let after = i32_ints(extended@);
                assert(after.skip(i + 2) =~= before.skip(i + 2));
                lemma_horner_skip_step(after, 10000, i + 1);
                lemma_horner_skip_step(slice, 10000, i as int);
                lemma_pow_succ(10000, (m - i - 1) as nat);
                let p = scale((m - i - 1) as nat);
                assert(slice[i as int] == limbs@[i as int]);
                assert(after[i + 1] == d);
                let li = limbs@[i as int] as int;
                assert(d * p + carry * (p * 10000) == li * p + old_carry * p)
                    by (nonlinear_arith)
                    requires
                        d + carry * 10000 == li + old_carry,
                ;
                if all_zero(slice.skip(i as int)) {
                    assert(slice.skip(i as int)[0] == 0);
                    assert(all_zero(slice.skip(i + 1))) by {
                        assert forall|j: int| 0 <= j < slice.skip(i + 1).len() implies #[trigger] slice.skip(
                            i + 1,
                        )[j] == 0 by {
                            assert(slice.skip(i + 1)[j] == slice.skip(i as int)[j + 1]);
                        }
                    }
                    assert(all_zero(after.skip(i + 1))) by {
                        assert forall|j: int| 0 <= j < after.skip(i + 1).len() implies #[trigger] after.skip(
                            i + 1,
                        )[j] == 0 by {
                            if j > 0 {
                                assert(after.skip(i + 1)[j] == before.skip(i + 2)[j - 1]);
                            }
                        }
                    }
                }
            }
        }
        let ghost pre = i32_ints(extended@);
        extended.set(0, carry);
        let ghost ext = i32_ints(extended@);
        proof {
            assert(slice.skip(0) =~= slice);
            lemma_horner_first(ext, 10000);
            assert(ext.skip(1) =~= pre.skip(1));
            assert(ext[0] == carry);
            assert(used_limbs(limbs@, len) == m);
            assert(limbs_value(limbs@.take(m as int)) == horner(slice, 10000));
            assert(horner(ext, 10000) == limbs_value(limbs@.take(m as int)));
        }
        let total = m + 1;
        let mut leading: usize = 0;
        while leading < total && extended[leading] == 0
            invariant
                total == extended@.len(),
                leading <= total,
                forall|j: int| 0 <= j < leading ==> #[trigger] extended@[j] == 0,
            decreases total - leading,
        {
            leading += 1;
        }
        if leading == total {
            proof {
                assert(all_zero(ext));
                lemma_horner_zero(ext, 10000);
            }
            return Operand { digits: Vec::new(), offset: 0 };
        }
        let mut trailing: usize = 0;
        while extended[total - 1 - trailing] == 0
            invariant
                total == extended@.len(),
                leading < total,
                extended@[leading as int] != 0,
                trailing <= total - 1 - leading,
                forall|j: int| total - trailing <= j < total ==> #[trigger] extended@[j] == 0,
            decreases total - trailing,
        {
            trailing += 1;
        }
        let end = total - trailing;
        let mut digits: Vec<i32> = Vec::new();
        let mut k = leading;
        while k < end
            invariant
                leading <= k <= end,
                end <= total,
                total == extended@.len(),
                digits@ == extended@.subrange(leading as int, k as int),
            decreases end - k,
        {
            digits.push(extended[k]);
            k += 1;
        }
        proof {
            let d = i32_ints(digits@);
            assert(all_zero(ext.take(leading as int)));
            lemma_horner_leading_zeros(ext, 10000, leading as int);
            let tail = ext.skip(leading as int);
            assert(all_zero(tail.skip((end - leading) as int)));
            lemma_horner_trailing_zeros(tail, 10000, (end - leading) as int);
            assert(tail.take((end - leading) as int) =~= d);
            assert(digits@[0] == extended@[leading as int]);
            assert(digits@.last() == extended@[end - 1]);
            assert(forall|j: int| 0 <= j < digits@.len() ==> #[trigger] digits@[j] == extended@[leading + j]);
            if limbs_value(limbs@.take(used_limbs(limbs@, len) as int)) == 0 {
                assert(digits_below(slice, 10000));
                lemma_horner_zero_converse(slice, 10000);
                assert(all_zero(ext)) by {
                    assert forall|j: int| 0 <= j < ext.len() implies #[trigger] ext[j] == 0 by {
                        if j > 0 {
                            assert(ext[j] == pre.skip(1)[j - 1]);
                            assert(pre.skip(1)[j - 1] == pre[j]);
                        }
                    }
                }
                assert(ext[leading as int] == 0);
            }
        }
        Operand { digits, offset: leading as isize - 1 }
    }
}

/// Base-[`BASE`] digits of `c` on exactly `n` positions, most significant first.
pub open spec fn base_digits(c: int, n: nat) -> Seq<int> {
    Seq::new(n, |i: int| (c / pow(10000, (n - 1 - i) as nat)) % 10000)
}

/// The limbs of the carried product once `shift` is applied: `out[m]` lands on limb `shift + m`.
pub open spec fn placed(out: Seq<int>, shift: int, len: nat) -> Seq<u32> {
    Seq::new(
        len,
        |j: int|
            if 0 <= j - shift < out.len() {
                out[j - shift] as u32
            } else {
                0u32
            },
    )
}

/// `true` when some non-zero digit of `out` would land before the integer limb.
pub open spec fn spills_over(out: Seq<int>, shift: int) -> bool {
    exists|m: int| 0 <= m < out.len() && shift + m < 0 && #[trigger] out[m] != 0
}

/// Message of the error for a carried product outside `[0, BASE^(n+1))`.
pub open spec fn overflow_message() -> Seq<char> {
    "desbordamiento en la multiplicación"@
}

/// Message of the error for a product whose integer part does not fit in one limb.
pub open spec fn integer_overflow_message() -> Seq<char> {
    "la parte entera del producto no cabe en un limb"@
}

/// Carries rounded convolution coefficients into limbs and places them at their weight.
///
/// `coefficients[k]` weighs `BASE^−(shift + 1 + k)` with `shift = a_offset + b_offset − 1`,
/// the weights of the two balanced operands. The result keeps `len` limbs (at least one).
pub fn normalize_product(coefficients: &[i64], a_offset: isize, b_offset: isize, len: usize) -> (r:
    Result<Fixed, Error>)
    requires
        forall|k: int|
            0 <= k < coefficients@.len() ==> -0x4000_0000_0000_0000 <= #[trigger] coefficients@[k]
                <= 0x4000_0000_0000_0000,
        -0x1000_0000 <= a_offset <= 0x1000_0000,
        -0x1000_0000 <= b_offset <= 0x1000_0000,
        coefficients@.len() < 0x1000_0000,
    ensures
        ({
            let n = coefficients@.len();
            let c = horner(i64_ints(coefficients@), 10000);
            let out = base_digits(c, n + 1);
            let shift = a_offset + b_offset - 1;
            &&& (c < 0 || c >= pow(10000, n + 1)) ==> (r matches Err(Error::Internal(msg))
                && msg@ == overflow_message())
            &&& (0 <= c < pow(10000, n + 1) && spills_over(out, shift)) ==> (r matches Err(
                Error::Internal(msg),
            ) && msg@ == integer_overflow_message())
            &&& (0 <= c < pow(10000, n + 1) && !spills_over(out, shift)) ==> (r matches Ok(f) && f@
                == placed(out, shift, at_least_one(len)))
        }),
{
    let n = coefficients.len();
    let ghost c = horner(i64_ints(coefficients@), 10000);
    let mut out = vec![0u32; n + 1];
    let mut carry: i64 = 0;
    let mut k = n;
    proof {
        assert(i64_ints(coefficients@).skip(n as int) =~= Seq::<int>::empty());
        assert(u32_ints(out@).skip(n + 1) =~= Seq::<int>::empty());
        assert(scale(0) == 1) by {
            reveal(pow);
        }
    }
    while k > 0
        invariant
            out@.len() == n + 1,
            n == coefficients@.len(),
            n < 0x1000_0000,
            forall|j: int|
                0 <= j < coefficients@.len() ==> -0x4000_0000_0000_0000 <= #[trigger] coefficients@[j]
                    <= 0x4000_0000_0000_0000,
            k <= n,
            -0x1_0000_0000_0000_0000 <= carry * 10000 <= 0x1_0000_0000_0000_0000,
            forall|j: int| k + 1 <= j < n + 1 ==> #[trigger] out@[j] < BASE,
            horner(u32_ints(out@).skip(k + 1), 10000) + carry * scale((n - k) as nat) == horner(
                i64_ints(coefficients@).skip(k as int),
                10000,
            ),
        decreases k,
    {
        k -= 1;
        let ghost before = u32_ints(out@);
        let ghost old_carry = carry;
        let value = coefficients[k] + carry;
        let mut digit = value % 10000;
        let mut next = value / 10000;
        if digit < 0 {
            digit += 10000;
            next -= 1;
        }
        assert(value == next * 10000 + digit);
        out.set(k + 1, digit as u32);
        carry = next;
        proof {
            let after = u32_ints(out@);
            assert(after.skip(k + 2) =~= before.skip(k + 2));
            lemma_horner_skip_step(after, 10000, k + 1);
            lemma_horner_skip_step(i64_ints(coefficients@), 10000, k as int);
            lemma_pow_succ(10000, (n - k - 1) as nat);
            let p = scale((n - k - 1) as nat);
            assert(after[k + 1] == digit);
            assert(i64_ints(coefficients@)[k as int] == coefficients@[k as int]);
            let ck = coefficients@[k as int] as int;
            assert(digit * p + carry * (p * 10000) == ck * p + old_carry * p)
                by (nonlinear_arith)
                requires
                    digit + carry * 10000 == ck + old_carry,
            ;
        }
    }
    proof {
        assert(i64_ints(coefficients@).skip(0) =~= i64_ints(coefficients@));
        let tail = u32_ints(out@).skip(1);
        assert(digits_below(tail, 10000));
        lemma_horner_bounds(tail, 10000);
        lemma_pow_pos(10000, n as nat);
        lemma_pow_succ(10000, n as nat);
        lemma_carry_range(c, carry as int, horner(tail, 10000), scale(n as nat));
    }
    if carry < 0 || carry >= 10000 {
        return Err(Error::Internal(String::from_str("desbordamiento en la multiplicación")));
    }
    let ghost pre = u32_ints(out@);
    out.set(0, carry as u32);
    proof {
        let o = u32_ints(out@);
        lemma_horner_first(o, 10000);
        assert(o.skip(1) =~= pre.skip(1));
        assert(o[0] == carry);
        assert(digits_below(o, 10000));
        lemma_base_digits_unique(o, c);
        lemma_pow_succ(10000, n as nat);
    }
    let shift: isize = a_offset + b_offset - 1;
    let size = if len == 0 {
        1
    } else {
        len
    };
    let mut limbs = vec![0u32; size];
    let total = n + 1;
    let mut m: usize = 0;
    while m < total
        invariant
            total == out@.len(),
            m <= total,
            limbs@.len() == size,
            shift == a_offset + b_offset - 1,
            -0x3000_0000 <= shift <= 0x3000_0000,
            total <= 0x1000_0000,
            total == coefficients@.len() + 1,
            u32_ints(out@) =~= base_digits(c, total as nat),
            0 <= c < pow(10000, total as nat),
            c == horner(i64_ints(coefficients@), 10000),
            forall|j: int| 0 <= j < total ==> #[trigger] out@[j] < BASE,
            forall|j: int| 0 <= j < m ==> shift + j >= 0 || #[trigger] out@[j] == 0,
            forall|j: int|
                0 <= j < size ==> #[trigger] limbs@[j] == (if 0 <= j - shift < m {
                    out@[j - shift]
                } else {
                    0u32
                }),
        decreases total - m,
    {
        let j = shift + m as isize;
        if j < 0 {
            if out[m] != 0 {
                proof {
                    assert(spills_over(u32_ints(out@), shift as int)) by {
                        assert(u32_ints(out@)[m as int] != 0);
                    }
                    assert(spills_over(base_digits(c, total as nat), shift as int));
                }
                return Err(
                    Error::Internal(String::from_str("la parte entera del producto no cabe en un limb")),
                );
            }
        } else if (j as usize) < size {
            limbs.set(j as usize, out[m]);
        }
        m += 1;
    }
    proof {
        let o = u32_ints(out@);
        assert(!spills_over(o, shift as int)) by {
            assert forall|j: int| 0 <= j < o.len() && shift + j < 0 implies #[trigger] o[j] == 0 by {
                assert(out@[j] == 0);
            }
        }
        let pl = placed(o, shift as int, at_least_one(len));
        assert(limbs@.len() == pl.len());
        assert forall|j: int| 0 <= j < limbs@.len() implies limbs@[j] == pl[j] by {
            if 0 <= j - shift < o.len() {
                assert(o[j - shift] == out@[j - shift]);
            }
        }
        assert(limbs@ =~= pl);
    }
    Ok(Fixed::from_limbs(limbs))
}

proof fn lemma_carry_range(c: int, carry: int, low: int, p: int)
    requires
        p > 0,
        0 <= low < p,
        low + carry * p == c,
    ensures
        (carry < 0 || carry >= 10000) == (c < 0 || c >= p * 10000),
{
    if carry < 0 {
        assert(carry * p <= -p) by (nonlinear_arith)
            requires
                carry < 0,
                p > 0,
        ;
    } else if carry >= 10000 {
        assert(carry * p >= 10000 * p) by (nonlinear_arith)
            requires
                carry >= 10000,
                p > 0,
        ;
    } else {
        assert(carry * p <= 9999 * p) by (nonlinear_arith)
            requires
                carry <= 9999,
                p > 0,
        ;
        assert(carry * p >= 0) by (nonlinear_arith)
            requires
                carry >= 0,
                p > 0,
        ;
    }
}

/// A numeral with digits in `[0, BASE)` lists the base-`BASE` digits of its value.
proof fn lemma_base_digits_unique(o: Seq<int>, c: int)
    requires
        digits_below(o, 10000),
        horner(o, 10000) == c,
    ensures
        o =~= base_digits(c, o.len()),
{
    let n = o.len();
    assert forall|i: int| 0 <= i < n implies #[trigger] o[i] == base_digits(c, n)[i] by {
        lemma_horner_split(o, 10000, i + 1);
        let hi = horner(o.take(i + 1), 10000);
        let lo = horner(o.skip(i + 1), 10000);
        let p = pow(10000, (n - 1 - i) as nat);
        assert(digits_below(o.skip(i + 1), 10000));
        lemma_horner_bounds(o.skip(i + 1), 10000);
        lemma_pow_pos(10000, (n - 1 - i) as nat);
        lemma_fundamental_div_mod_converse_div(c, p, hi, lo);
        assert(o.take(i + 1).drop_last() =~= o.take(i));
        assert(hi == horner(o.take(i), 10000) * 10000 + o[i]);
        assert(0 <= o[i] < 10000);
        lemma_fundamental_div_mod_converse_mod(hi, 10000, horner(o.take(i), 10000), o[i]);
    }
}

} // verus!
