//! Non-negative fixed-point number in base 10^4.
//!
//! `limbs[0]` is the integer part (below [`BASE`]) and `limbs[1..]` the fractional limbs, most
//! significant first: the value is `Σ limbs[i] · BASE^(−i)`. Scaled by `BASE^(len−1)` that is the
//! integer [`limbs_value`], which is what the contracts speak of. All operations are total:
//! operands of different lengths are extended with zeros, and subtraction returns the absolute
//! difference together with the order.

use std::cmp::Ordering;

use vstd::arithmetic::div_mod::*;
use vstd::arithmetic::power::*;
use vstd::prelude::*;

use crate::positional::{
    all_zero, digits_below, horner, lemma_horner_bounds, lemma_horner_first,
    lemma_horner_skip_step, lemma_horner_split, lemma_horner_take_step, lemma_horner_trailing_zeros,
    lemma_horner_zero, lemma_horner_zero_converse, lemma_pow_pos, lemma_pow_succ, u32_ints,
};
use crate::text::{push_char, spec_digit_char};

verus! {

/// Base of the limbs: each limb stores four decimal digits.
pub const BASE: u32 = 10_000;

/// Decimal digits per limb.
pub const LIMB_DIGITS: usize = 4;

/// A limb sequence is well formed when it has the integer limb and every limb is below [`BASE`].
pub open spec fn limbs_ok(s: Seq<u32>) -> bool {
    &&& s.len() >= 1
    &&& forall|i: int| 0 <= i < s.len() ==> #[trigger] s[i] < BASE
}

/// The limbs read as one integer in base [`BASE`] (the number scaled by `BASE^(len−1)`).
pub open spec fn limbs_value(s: Seq<u32>) -> int {
    horner(u32_ints(s), 10000)
}

/// `s` cut or extended with zero limbs to exactly `n` limbs.
pub open spec fn extend(s: Seq<u32>, n: nat) -> Seq<u32> {
    Seq::new(n, |i: int| if i < s.len() { s[i] } else { 0u32 })
}

/// Value of `s` at a precision of `n` limbs.
pub open spec fn value_at(s: Seq<u32>, n: nat) -> int {
    limbs_value(extend(s, n))
}

/// Length of the longer of two limb sequences.
pub open spec fn common_len(a: Seq<u32>, b: Seq<u32>) -> nat {
    if a.len() >= b.len() {
        a.len()
    } else {
        b.len()
    }
}

/// `n`, or 1 when `n` is zero: every number keeps its integer limb.
pub open spec fn at_least_one(n: usize) -> nat {
    if n == 0 {
        1
    } else {
        n as nat
    }
}

/// `BASE^n`.
pub open spec fn scale(n: nat) -> int {
    pow(10000, n)
}

/// Decimal digit number `k` (from 0) after the point: digit `k % 4` of fractional limb `k / 4`.
pub open spec fn fraction_digit(s: Seq<u32>, k: int) -> int {
    let limb_index = 1 + k / 4;
    if limb_index < s.len() {
        (s[limb_index] / pow(10, (3 - k % 4) as nat) as u32) as int % 10
    } else {
        0
    }
}

/// Non-negative fixed-point number in base 10^4.
#[derive(Debug, PartialEq, Eq)]
pub struct Fixed {
    limbs: Vec<u32>,
}

impl View for Fixed {
    type V = Seq<u32>;

    closed spec fn view(&self) -> Seq<u32> {
        self.limbs@
    }
}

/// The value of a well-formed sequence is below `BASE^len`.
pub proof fn lemma_limbs_value_bounds(s: Seq<u32>)
    requires
        forall|i: int| 0 <= i < s.len() ==> #[trigger] s[i] < BASE,
    ensures
        0 <= limbs_value(s) < scale(s.len()),
{
    assert(digits_below(u32_ints(s), 10000));
    lemma_horner_bounds(u32_ints(s), 10000);
}

/// Extending with zero limbs multiplies the scaled value by a power of the base: the number
/// itself does not change.
pub proof fn lemma_extend_keeps_value(s: Seq<u32>, n: nat)
    requires
        n >= s.len(),
    ensures
        value_at(s, n) == limbs_value(s) * scale((n - s.len()) as nat),
{
    let e = u32_ints(extend(s, n));
    assert(e.take(s.len() as int) =~= u32_ints(s));
    assert(all_zero(e.skip(s.len() as int)));
    lemma_horner_trailing_zeros(e, 10000, s.len() as int);
}

impl Clone for Fixed {
    fn clone(&self) -> (r: Self)
        ensures
            r@ == self@,
    {
        proof {
            use_type_invariant(self);
        }
        Fixed { limbs: self.limbs.clone() }
    }
}

impl Fixed {
    #[verifier::type_invariant]
    spec fn well_formed(&self) -> bool {
        limbs_ok(self.limbs@)
    }

    /// Builds a number from limbs, most significant first. An empty vector becomes zero and
    /// out-of-range limbs are reduced modulo [`BASE`] to keep the invariant.
    pub fn from_limbs(limbs: Vec<u32>) -> (r: Fixed)
        ensures
            r@ == (if limbs@.len() == 0 {
                seq![0u32]
            } else {
                limbs@.map_values(|x: u32| (x % BASE) as u32)
            }),
            limbs_ok(r@),
    {
        let mut limbs = limbs;
        let ghost given = limbs@;
        if limbs.len() == 0 {
            limbs.push(0);
        }
        let ghost start = limbs@;
        let n = limbs.len();
        let mut i: usize = 0;
        while i < n
            invariant
                n == limbs.len(),
                start.len() == n,
                i <= n,
                forall|j: int| 0 <= j < i ==> limbs@[j] == start[j] % BASE,
                forall|j: int| i <= j < n ==> limbs@[j] == start[j],
            decreases n - i,
        {
            let v = limbs[i] % BASE;
            limbs.set(i, v);
            i += 1;
        }
        proof {
            if given.len() == 0 {
                assert(limbs@ =~= seq![0u32]);
            } else {
                assert(limbs@ =~= given.map_values(|x: u32| (x % BASE) as u32));
            }
        }
        Fixed { limbs }
    }

    /// Zero with `len` limbs (at least one).
    pub fn zero(len: usize) -> (r: Fixed)
        ensures
            r@ == Seq::new(at_least_one(len), |i: int| 0u32),
            limbs_ok(r@),
            limbs_value(r@) == 0,
    {
        let n = if len == 0 {
            1
        } else {
            len
        };
        let limbs = vec![0u32; n];
        proof {
            assert(limbs@ =~= Seq::new(at_least_one(len), |i: int| 0u32));
            assert(all_zero(u32_ints(limbs@)));
            lemma_horner_zero(u32_ints(limbs@), 10000);
        }
        Fixed { limbs }
    }

    /// The small integer `value % BASE` with `len` limbs (at least one).
    pub fn from_u32(value: u32, len: usize) -> (r: Fixed)
        ensures
            r@ == Seq::new(at_least_one(len), |i: int| if i == 0 { value % BASE } else { 0u32 }),
            limbs_ok(r@),
            limbs_value(r@) == (value % BASE) as int * scale((at_least_one(len) - 1) as nat),
    {
        let n = if len == 0 {
            1
        } else {
            len
        };
        let mut limbs = vec![0u32; n];
        limbs.set(0, value % BASE);
        proof {
            let s = limbs@;
            assert(s =~= Seq::new(at_least_one(len), |i: int| if i == 0 { value % BASE } else { 0u32 }));
            lemma_horner_first(u32_ints(s), 10000);
            assert(all_zero(u32_ints(s).skip(1)));
            lemma_horner_zero(u32_ints(s).skip(1), 10000);
        }
        Fixed { limbs }
    }

    /// Limbs, most significant first.
    pub fn limbs(&self) -> (r: &[u32])
        ensures
            r@ == self@,
    {
        self.limbs.as_slice()
    }

    /// Number of limbs (the integer limb and the fractional ones).
    pub fn len(&self) -> (r: usize)
        ensures
            r == self@.len(),
            r >= 1,
    {
        proof {
            use_type_invariant(self);
        }
        self.limbs.len()
    }

    /// Never true: there is always the integer limb.
    pub fn is_empty(&self) -> (r: bool)
        ensures
            r == (self@.len() == 0),
            !r,
    {
        proof {
            use_type_invariant(self);
        }
        false
    }

    /// `true` if every limb is zero, that is, if the number is zero.
    pub fn is_zero(&self) -> (r: bool)
        ensures
            r == (forall|i: int| 0 <= i < self@.len() ==> self@[i] == 0),
            r == (limbs_value(self@) == 0),
    {
        proof {
            use_type_invariant(self);
        }
        let n = self.limbs.len();
        let mut i: usize = 0;
        while i < n
            invariant
                n == self.limbs@.len(),
                limbs_ok(self.limbs@),
                i <= n,
                forall|j: int| 0 <= j < i ==> self.limbs@[j] == 0,
            decreases n - i,
        {
            if self.limbs[i] != 0 {
                proof {
                    assert(self@[i as int] != 0);
                    self.lemma_zero_value(false);
                }
                return false;
            }
            i += 1;
        }
        proof {
            self.lemma_zero_value(true);
        }
        true
    }

    proof fn lemma_zero_value(&self, all: bool)
        requires
            limbs_ok(self.limbs@),
            all == (forall|i: int| 0 <= i < self.limbs@.len() ==> self.limbs@[i] == 0),
        ensures
            all == (limbs_value(self.limbs@) == 0),
    {
        let s = u32_ints(self.limbs@);
        if all {
            assert(all_zero(s));
            lemma_horner_zero(s, 10000);
        } else {
            if limbs_value(self.limbs@) == 0 {
                assert(digits_below(s, 10000));
                lemma_horner_zero_converse(s, 10000);
                assert(forall|i: int| 0 <= i < self.limbs@.len() ==> self.limbs@[i] == 0) by {
                    assert forall|i: int| 0 <= i < self.limbs@.len() implies self.limbs@[i] == 0 by {
                        assert(s[i] == 0);
                    }
                }
            }
        }
    }

    /// Copy with exactly `len` limbs (at least one): truncates or extends with zeros.
    pub fn resized(&self, len: usize) -> (r: Fixed)
        ensures
            r@ == extend(self@, at_least_one(len)),
            limbs_ok(r@),
    {
        proof {
            use_type_invariant(self);
        }
        let n = if len == 0 {
            1
        } else {
            len
        };
        let mut limbs = self.limbs.clone();
        limbs.resize(n, 0u32);
        proof {
            assert(limbs@ =~= extend(self@, at_least_one(len)));
        }
        Fixed { limbs }
    }

    /// Integer part.
    pub fn integer_part(&self) -> (r: u32)
        ensures
            r == self@[0],
            r < BASE,
    {
        proof {
            use_type_invariant(self);
        }
        self.limbs[0]
    }

    /// Number of zero limbs at the start (the integer limb included).
    pub fn leading_zero_limbs(&self) -> (r: usize)
        ensures
            r <= self@.len(),
            forall|i: int| 0 <= i < r ==> self@[i] == 0,
            r < self@.len() ==> self@[r as int] != 0,
    {
        let n = self.limbs.len();
        let mut i: usize = 0;
        while i < n && self.limbs[i] == 0
            invariant
                n == self.limbs@.len(),
                i <= n,
                forall|j: int| 0 <= j < i ==> self.limbs@[j] == 0,
            decreases n - i,
        {
            i += 1;
        }
        i
    }

    /// Limb `i`, or zero past the end.
    pub fn limb_at(&self, i: usize) -> (r: u32)
        ensures
            r == (if i < self@.len() { self@[i as int] } else { 0u32 }),
            r < BASE,
    {
        proof {
            use_type_invariant(self);
        }
        if i < self.limbs.len() {
            self.limbs[i]
        } else {
            0
        }
    }

    /// Sum. The result has the length of the longer operand; an overflow of the integer part is
    /// lost modulo [`BASE`] (it cannot happen with values below 5000).
    pub fn add(&self, other: &Self) -> (r: Fixed)
        ensures
            r@.len() == common_len(self@, other@),
            limbs_ok(r@),
            limbs_value(r@) == (value_at(self@, common_len(self@, other@)) + value_at(
                other@,
                common_len(self@, other@),
            )) % scale(common_len(self@, other@)),
    {
        proof {
            use_type_invariant(self);
            use_type_invariant(other);
        }
        let len = if self.limbs.len() >= other.limbs.len() {
            self.limbs.len()
        } else {
            other.limbs.len()
        };
        let ghost big = len as nat;
        let ghost a = u32_ints(extend(self@, big));
        let ghost b = u32_ints(extend(other@, big));
        let mut limbs = vec![0u32; len];
        let mut carry: u32 = 0;
        let mut i = len;
        proof {
            assert(u32_ints(limbs@).skip(len as int) =~= Seq::<int>::empty());
            assert(a.skip(len as int) =~= Seq::<int>::empty());
            assert(b.skip(len as int) =~= Seq::<int>::empty());
            assert(scale(0) == 1) by {
                reveal(pow);
            }
        }
        while i > 0
            invariant
                limbs@.len() == len,
                a.len() == len,
                b.len() == len,
                a == u32_ints(extend(self@, big)),
                b == u32_ints(extend(other@, big)),
                big == len,
                i <= len,
                len >= 1,
                limbs_ok(self@),
                limbs_ok(other@),
                carry <= 1,
                forall|j: int| i <= j < len ==> #[trigger] limbs@[j] < BASE,
                horner(u32_ints(limbs@).skip(i as int), 10000) + carry * scale((len - i) as nat)
                    == horner(a.skip(i as int), 10000) + horner(b.skip(i as int), 10000),
            decreases i,
        {
            i -= 1;
            let x = self.limb_at(i);
            let y = other.limb_at(i);
            let sum = x + y + carry;
            let ghost before = u32_ints(limbs@);
            limbs.set(i, sum % BASE);
            let ghost old_carry = carry;
            carry = sum / BASE;
            proof {
                let after = u32_ints(limbs@);
                assert(after.skip(i + 1) =~= before.skip(i + 1));
                lemma_horner_skip_step(after, 10000, i as int);
                lemma_horner_skip_step(a, 10000, i as int);
                lemma_horner_skip_step(b, 10000, i as int);
                let p = scale((len - i - 1) as nat);
                lemma_pow_succ(10000, (len - i - 1) as nat);
                assert(a[i as int] == x);
                assert(b[i as int] == y);
                assert(after[i as int] == sum % BASE);
                let s = sum as int;
                assert(s == (s % 10000) + (s / 10000) * 10000) by {
                    lemma_fundamental_div_mod(s, 10000);
                }
                assert((s % 10000) * p + (s / 10000) * (p * 10000) == s * p) by (nonlinear_arith)
                    requires
                        s == (s % 10000) + (s / 10000) * 10000,
                ;
                assert(s * p == x * p + y * p + old_carry * p) by (nonlinear_arith)
                    requires
                        s == x + y + old_carry,
                ;
            }
        }
        proof {
            let r = u32_ints(limbs@);
            assert(r.skip(0) =~= r);
            assert(a.skip(0) =~= a);
            assert(b.skip(0) =~= b);
            lemma_limbs_value_bounds(limbs@);
            lemma_fundamental_div_mod_converse_mod(
                horner(a, 10000) + horner(b, 10000),
                scale(big),
                carry as int,
                horner(r, 10000),
            );
        }
        Fixed { limbs }
    }

    /// Compares numeric values, whatever the lengths.
    pub fn cmp_value(&self, other: &Self) -> (r: Ordering)
        ensures
            (r == Ordering::Less) == (value_at(self@, common_len(self@, other@)) < value_at(
                other@,
                common_len(self@, other@),
            )),
            (r == Ordering::Equal) == (value_at(self@, common_len(self@, other@)) == value_at(
                other@,
                common_len(self@, other@),
            )),
            (r == Ordering::Greater) == (value_at(self@, common_len(self@, other@)) > value_at(
                other@,
                common_len(self@, other@),
            )),
    {
        proof {
            use_type_invariant(self);
            use_type_invariant(other);
        }
        let len = if self.limbs.len() >= other.limbs.len() {
            self.limbs.len()
        } else {
            other.limbs.len()
        };
        let ghost big = common_len(self@, other@);
        let mut i: usize = 0;
        while i < len
            invariant
                len == big,
                big == common_len(self@, other@),
                i <= len,
                limbs_ok(self@),
                limbs_ok(other@),
                forall|j: int|
                    0 <= j < i ==> #[trigger] extend(self@, big)[j] == extend(other@, big)[j],
            decreases len - i,
        {
            let x = self.limb_at(i);
            let y = other.limb_at(i);
            if x < y {
                proof {
                    lemma_first_difference(extend(self@, big), extend(other@, big), i);
                }
                return Ordering::Less;
            }
            if x > y {
                proof {
                    lemma_first_difference(extend(other@, big), extend(self@, big), i);
                }
                return Ordering::Greater;
            }
            i += 1;
        }
        proof {
            assert(extend(self@, big) =~= extend(other@, big));
        }
        Ordering::Equal
    }

    /// Absolute difference and order of `self` with respect to `other`.
    pub fn abs_diff(&self, other: &Self) -> (r: (Fixed, Ordering))
        ensures
            r.0@.len() == common_len(self@, other@),
            limbs_ok(r.0@),
            (r.1 == Ordering::Less) == (value_at(self@, common_len(self@, other@)) < value_at(
                other@,
                common_len(self@, other@),
            )),
            (r.1 == Ordering::Equal) == (value_at(self@, common_len(self@, other@)) == value_at(
                other@,
                common_len(self@, other@),
            )),
            (r.1 == Ordering::Greater) == (value_at(self@, common_len(self@, other@)) > value_at(
                other@,
                common_len(self@, other@),
            )),
            r.1 == Ordering::Less ==> limbs_value(r.0@) == value_at(
                other@,
                common_len(self@, other@),
            ) - value_at(self@, common_len(self@, other@)),
            r.1 != Ordering::Less ==> limbs_value(r.0@) == value_at(
                self@,
                common_len(self@, other@),
            ) - value_at(other@, common_len(self@, other@)),
    {
        proof {
            use_type_invariant(self);
            use_type_invariant(other);
        }
        match self.cmp_value(other) {
            Ordering::Less => (other.sub_smaller(self), Ordering::Less),
            Ordering::Equal => {
                let len = if self.limbs.len() >= other.limbs.len() {
                    self.limbs.len()
                } else {
                    other.limbs.len()
                };
                (Self::zero(len), Ordering::Equal)
            },
            Ordering::Greater => (self.sub_smaller(other), Ordering::Greater),
        }
    }

    /// Half (integer division by 2 at the last position; the remainder is dropped).
    pub fn half(&self) -> (r: Fixed)
        ensures
            r@.len() == self@.len(),
            limbs_ok(r@),
            limbs_value(r@) == limbs_value(self@) / 2,
    {
        self.div_small(2)
    }

    /// Division by a small integer (zero counts as one), truncating.
    pub fn div_small(&self, divisor: u32) -> (r: Fixed)
        ensures
            r@.len() == self@.len(),
            limbs_ok(r@),
            limbs_value(r@) == limbs_value(self@) / (if divisor == 0 { 1 } else { divisor as int }),
    {
        proof {
            use_type_invariant(self);
        }
        let d: u64 = if divisor == 0 {
            1
        } else {
            divisor as u64
        };
        let n = self.limbs.len();
        let ghost s = u32_ints(self@);
        let mut limbs = vec![0u32; n];
        let mut rem: u64 = 0;
        let mut i: usize = 0;
        proof {
            assert(s.take(0) =~= Seq::<int>::empty());
            assert(u32_ints(limbs@).take(0) =~= Seq::<int>::empty());
        }
        while i < n
            invariant
                n == self@.len(),
                limbs@.len() == n,
                s == u32_ints(self@),
                limbs_ok(self@),
                1 <= d <= u32::MAX,
                i <= n,
                rem < d,
                forall|j: int| 0 <= j < i ==> #[trigger] limbs@[j] < BASE,
                horner(s.take(i as int), 10000) == horner(u32_ints(limbs@).take(i as int), 10000)
                    * d + rem,
            decreases n - i,
        {
            let limb = self.limbs[i];
            assert(rem * 10000 + limb < d * 10000) by (nonlinear_arith)
                requires
                    rem < d,
                    limb < 10000,
            ;
            assert(d * 10000 <= u32::MAX as int * 10000) by (nonlinear_arith)
                requires
                    d <= u32::MAX,
            ;
            let cur = rem * (BASE as u64) + (limb as u64);
            let q = cur / d;
            assert(q < 10000) by (nonlinear_arith)
                requires
                    q == cur / d,
                    cur < d * 10000,
                    d >= 1,
            ;
            let ghost before = u32_ints(limbs@);
            let ghost old_rem = rem;
            limbs.set(i, q as u32);
            rem = cur % d;
            proof {
                let after = u32_ints(limbs@);
                assert(after.take(i as int) =~= before.take(i as int));
                lemma_horner_take_step(after, 10000, i as int);
                lemma_horner_take_step(s, 10000, i as int);
                let h = horner(before.take(i as int), 10000);
                let c = cur as int;
                assert(c == (c / d as int) * d + c % d as int) by {
                    lemma_fundamental_div_mod(c, d as int);
                }
                assert((h * d + old_rem) * 10000 + limb == (h * 10000 + q) * d + rem)
                    by (nonlinear_arith)
                    requires
                        c == old_rem * 10000 + limb,
                        c == q * d + rem,
                ;
            }
            i += 1;
        }
        proof {
            let r = u32_ints(limbs@);
            assert(s.take(n as int) =~= s);
            assert(r.take(n as int) =~= r);
            lemma_fundamental_div_mod_converse_div(
                horner(s, 10000),
                d as int,
                horner(r, 10000),
                rem as int,
            );
        }
        Fixed { limbs }
    }

    /// Product by an integer. The integer part of the product must fit in one limb; otherwise it
    /// is lost modulo [`BASE`].
    pub fn mul_small(&self, factor: u32) -> (r: Fixed)
        ensures
            r@.len() == self@.len(),
            limbs_ok(r@),
            limbs_value(r@) == (limbs_value(self@) * factor) % scale(self@.len()),
    {
        proof {
            use_type_invariant(self);
        }
        let f = factor as u64;
        let n = self.limbs.len();
        let ghost s = u32_ints(self@);
        let mut limbs = vec![0u32; n];
        let mut carry: u64 = 0;
        let mut i = n;
        proof {
            assert(u32_ints(limbs@).skip(n as int) =~= Seq::<int>::empty());
            assert(s.skip(n as int) =~= Seq::<int>::empty());
            assert(scale(0) == 1) by {
                reveal(pow);
            }
        }
        while i > 0
            invariant
                n == self@.len(),
                limbs@.len() == n,
                s == u32_ints(self@),
                limbs_ok(self@),
                f == factor,
                i <= n,
                carry <= f,
                forall|j: int| i <= j < n ==> #[trigger] limbs@[j] < BASE,
                horner(u32_ints(limbs@).skip(i as int), 10000) + carry * scale((n - i) as nat)
                    == horner(s.skip(i as int), 10000) * f,
            decreases i,
        {
            i -= 1;
            let limb = self.limbs[i] as u64;
            assert(limb * f + carry <= 9999 * f + f) by (nonlinear_arith)
                requires
                    limb <= 9999,
                    carry <= f,
            ;
            assert(9999 * f + f <= 10000 * (u32::MAX as int)) by (nonlinear_arith)
                requires
                    f <= u32::MAX,
            ;
            let cur = limb * f + carry;
            let ghost before = u32_ints(limbs@);
            let ghost old_carry = carry;
            limbs.set(i, (cur % (BASE as u64)) as u32);
            carry = cur / (BASE as u64);
            assert(carry <= f) by (nonlinear_arith)
                requires
                    carry == cur / 10000,
                    cur <= 9999 * f + f,
            ;
            proof {
                let after = u32_ints(limbs@);
                assert(after.skip(i + 1) =~= before.skip(i + 1));
                lemma_horner_skip_step(after, 10000, i as int);
                lemma_horner_skip_step(s, 10000, i as int);
                let p = scale((n - i - 1) as nat);
                lemma_pow_succ(10000, (n - i - 1) as nat);
                let c = cur as int;
                assert(c == (c % 10000) + (c / 10000) * 10000) by {
                    lemma_fundamental_div_mod(c, 10000);
                }
                let h = horner(s.skip(i + 1), 10000);
                assert((c % 10000) * p + (c / 10000) * (p * 10000) == c * p) by (nonlinear_arith)
                    requires
                        c == (c % 10000) + (c / 10000) * 10000,
                ;
                assert(c * p == (limb * p + h) * f - h * f + old_carry * p) by (nonlinear_arith)
                    requires
                        c == limb * f + old_carry,
                ;
            }
        }
        proof {
            let r = u32_ints(limbs@);
            assert(r.skip(0) =~= r);
            assert(s.skip(0) =~= s);
            lemma_limbs_value_bounds(limbs@);
            lemma_fundamental_div_mod_converse_mod(
                horner(s, 10000) * factor,
                scale(n as nat),
                carry as int,
                horner(r, 10000),
            );
        }
        Fixed { limbs }
    }

    /// `self − other`, knowing that `self ≥ other`.
    pub fn sub_smaller(&self, other: &Self) -> (r: Fixed)
        requires
            value_at(self@, common_len(self@, other@)) >= value_at(
                other@,
                common_len(self@, other@),
            ),
        ensures
            r@.len() == common_len(self@, other@),
            limbs_ok(r@),
            limbs_value(r@) == value_at(self@, common_len(self@, other@)) - value_at(
                other@,
                common_len(self@, other@),
            ),
    {
        proof {
            use_type_invariant(self);
            use_type_invariant(other);
        }
        let len = if self.limbs.len() >= other.limbs.len() {
            self.limbs.len()
        } else {
            other.limbs.len()
        };
        let ghost big = len as nat;
        let ghost a = u32_ints(extend(self@, big));
        let ghost b = u32_ints(extend(other@, big));
        let mut limbs = vec![0u32; len];
        let mut borrow: u32 = 0;
        let mut i = len;
        proof {
            assert(u32_ints(limbs@).skip(len as int) =~= Seq::<int>::empty());
            assert(a.skip(len as int) =~= Seq::<int>::empty());
            assert(b.skip(len as int) =~= Seq::<int>::empty());
            assert(scale(0) == 1) by {
                reveal(pow);
            }
        }
        while i > 0
            invariant
                limbs@.len() == len,
                a == u32_ints(extend(self@, big)),
                b == u32_ints(extend(other@, big)),
                big == len,
                big == common_len(self@, other@),
                i <= len,
                limbs_ok(self@),
                limbs_ok(other@),
                borrow <= 1,
                forall|j: int| i <= j < len ==> #[trigger] limbs@[j] < BASE,
                horner(u32_ints(limbs@).skip(i as int), 10000) - borrow * scale((len - i) as nat)
                    == horner(a.skip(i as int), 10000) - horner(b.skip(i as int), 10000),
            decreases i,
        {
            i -= 1;
            let x = self.limb_at(i);
            let y = other.limb_at(i) + borrow;
            let ghost before = u32_ints(limbs@);
            let ghost old_borrow = borrow;
            let digit;
            if x >= y {
                digit = x - y;
                borrow = 0;
            } else {
                digit = x + BASE - y;
                borrow = 1;
            }
            limbs.set(i, digit);
            proof {
                let after = u32_ints(limbs@);
                assert(after.skip(i + 1) =~= before.skip(i + 1));
                lemma_horner_skip_step(after, 10000, i as int);
                lemma_horner_skip_step(a, 10000, i as int);
                lemma_horner_skip_step(b, 10000, i as int);
                let p = scale((len - i - 1) as nat);
                lemma_pow_succ(10000, (len - i - 1) as nat);
                assert(a[i as int] == x);
                assert(b[i as int] + old_borrow == y);
                assert(after[i as int] == digit);
                let bi = b[i as int];
                assert((x - y) * p == x * p - bi * p - old_borrow * p) by (nonlinear_arith)
                    requires
                        y == bi + old_borrow,
                ;
                assert(digit * p - borrow * (p * 10000) == (x - y) * p) by (nonlinear_arith)
                    requires
                        digit - borrow * 10000 == x - y,
                ;
            }
        }
        proof {
            let r = u32_ints(limbs@);
            assert(r.skip(0) =~= r);
            assert(a.skip(0) =~= a);
            assert(b.skip(0) =~= b);
            lemma_limbs_value_bounds(limbs@);
            lemma_pow_pos(10000, big);
            if borrow == 1 {
                assert(false);
            }
        }
        Fixed { limbs }
    }

    /// The first `digits` decimals as ASCII text, padded with zeros when the number has fewer.
    pub fn fraction_digits(&self, digits: usize) -> (r: String)
        ensures
            r@ == Seq::new(digits as nat, |k: int| spec_digit_char(fraction_digit(self@, k))),
    {
        proof {
            use_type_invariant(self);
        }
        let mut out = String::new();
        let mut k: usize = 0;
        let n = self.limbs.len();
        while k < digits
            invariant
                n == self@.len(),
                limbs_ok(self@),
                k <= digits,
                out@ == Seq::new(k as nat, |j: int| spec_digit_char(fraction_digit(self@, j))),
            decreases digits - k,
        {
            let limb_index = 1 + k / 4;
            let digit: u32 = if limb_index < n {
                let limb = self.limbs[limb_index];
                let position = k % 4;
                let divisor: u32 = if position == 0 {
                    1000
                } else if position == 1 {
                    100
                } else if position == 2 {
                    10
                } else {
                    1
                };
                proof {
                    reveal_with_fuel(pow, 4);
                    assert(pow(10, (3 - k as int % 4) as nat) == divisor);
                }
                (limb / divisor) % 10
            } else {
                0
            };
            push_char(&mut out, crate::text::digit_char(digit));
            proof {
                assert(out@ =~= Seq::new(
                    (k + 1) as nat,
                    |j: int| spec_digit_char(fraction_digit(self@, j)),
                ));
            }
            k += 1;
        }
        out
    }
}

/// If two numerals of equal length agree before position `i` and `a[i] < b[i]`, then `a < b`.
proof fn lemma_first_difference(a: Seq<u32>, b: Seq<u32>, k: usize)
    requires
        k < a.len(),
        forall|j: int| 0 <= j < k ==> #[trigger] a[j] == b[j],
        a[k as int] < b[k as int],
        a.len() == b.len(),
        forall|j: int| 0 <= j < a.len() ==> #[trigger] a[j] < BASE,
        forall|j: int| 0 <= j < b.len() ==> #[trigger] b[j] < BASE,
    ensures
        limbs_value(a) < limbs_value(b),
{
    let i = k as int;
    let sa = u32_ints(a);
    let sb = u32_ints(b);
    let n = a.len();
    lemma_horner_split(sa, 10000, i + 1);
    lemma_horner_split(sb, 10000, i + 1);
    assert(sa.take(i) =~= sb.take(i));
    lemma_horner_take_step(sa, 10000, i);
    lemma_horner_take_step(sb, 10000, i);
    assert(digits_below(sa.skip(i + 1), 10000));
    assert(digits_below(sb.skip(i + 1), 10000));
    lemma_horner_bounds(sa.skip(i + 1), 10000);
    lemma_horner_bounds(sb.skip(i + 1), 10000);
    assert(sa.skip(i + 1).len() == n - i - 1);
    let p = pow(10000, (n - i - 1) as nat);
    let ta = horner(sa.take(i + 1), 10000);
    let tb = horner(sb.take(i + 1), 10000);
    assert(ta + 1 <= tb);
    let ra = horner(sa.skip(i + 1), 10000);
    let rb = horner(sb.skip(i + 1), 10000);
    assert(ta * p + ra < tb * p + rb) by (nonlinear_arith)
        requires
            ta + 1 <= tb,
            0 <= ra < p,
            0 <= rb,
    ;
}

} // verus!
