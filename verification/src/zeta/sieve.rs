//! Segmented sieve of Eratosthenes with a modulo-30 wheel.
//!
//! Each byte of a segment stands for 30 consecutive numbers; bit `j` is the number
//! `30·byte + WHEEL[j]`. The multiples of each sieving prime advance with a cycle of eight byte
//! increments and eight masks computed once per prime, so the inner loop never divides.

use vstd::arithmetic::div_mod::*;
use vstd::prelude::*;

use crate::score::ZETA_SEGMENT_BYTES;
use crate::zeta::primes::{
    is_prime, lemma_between_nonneg, lemma_between_split, lemma_least_factor,
    lemma_not_prime_with_factor, prime_count_between, prime_sum_between, small_primes,
};
use crate::zeta::wheel::{
    lemma_on_wheel_iff, lemma_prime_on_wheel, lemma_wheel_gap, lemma_wheel_next, lemma_wheel_product,
    lemma_wheel_quotient, lemma_wheel_slots, lemma_wheel_within_six, next_wheel_value, on_wheel,
    wheel_at, wheel_index, wheel_slot, wheel_value,
};
use crate::zeta::segment::{
    bit_set, count_segment, lemma_marks_are_primes, lemma_number_at, marked, marked_sum,
    number_at, off_wheel_count, off_wheel_prime, off_wheel_sum,
};
use crate::zeta::SieveTotals;

verus! {

/// Numbers covered by one segment.
pub const SEGMENT_NUMBERS: u64 = 983_040;

/// Largest limit the sieve accepts, 2^64 − 2^36: the multiple that places the cursor of a
/// sieving prime lies up to 2^36 beyond the start of a stretch, and must still fit in 64 bits.
pub const MAX_LIMIT: u64 = 0xFFFF_FFF0_0000_0000;

/// A sieving prime with its cycle of eight byte increments and eight masks.
#[derive(Clone, Copy, Debug)]
struct SievingPrime {
    prime: u64,
    /// Byte increment from multiplier `WHEEL[j]` to the next one.
    byte_step: [u32; 8],
    /// Mask (bit cleared) of the multiple with multiplier `WHEEL[j]`.
    mask: [u8; 8],
}

/// Bit of the multiple `p · WHEEL[j]` inside its byte.
spec fn mask_bit(p: int, j: int) -> int {
    wheel_slot((p * wheel_value(j)) % 30)
}

spec fn sieving_ok(sp: SievingPrime) -> bool {
    let p = sp.prime as int;
    &&& is_prime(p)
    &&& 7 <= p < 0x1_0000_0000
    &&& forall|j: int|
        0 <= j < 8 ==> #[trigger] sp.byte_step[j] == (p * next_wheel_value(j)) / 30 - (p
            * wheel_value(j)) / 30
    &&& forall|j: int|
        0 <= j < 8 ==> mask_bit(p, j) < 8 && #[trigger] sp.mask[j] == !(1u8 << (mask_bit(
            p,
            j,
        ) as u8))
}

fn step_for(p: u64, j: usize) -> (s: u32)
    requires
        7 <= p < 0x1_0000_0000,
        j < 8,
    ensures
        s == (p * next_wheel_value(j as int)) / 30 - (p * wheel_value(j as int)) / 30,
{
    proof {
        lemma_wheel_slots();
    }
    let w = wheel_at(j);
    let nw: u64 = if j == 7 {
        31
    } else {
        wheel_at(j + 1)
    };
    assert(w < 30 && nw <= 31);
    assert(p * nw < 0x20_0000_0000 && p * w <= p * nw) by (nonlinear_arith)
        requires
            p < 0x1_0000_0000,
            w < nw <= 31,
    ;
    let product = p * w;
    let next = p * nw;
    proof {
        assert(product <= next) by (nonlinear_arith)
            requires
                product == p * w,
                next == p * nw,
                w < nw,
        ;
        lemma_div_is_ordered(product as int, next as int, 30);
        assert(next / 30 - product / 30 <= p) by (nonlinear_arith)
            requires
                product == p * w,
                next == p * nw,
                nw - w <= 6,
                w < nw,
                p > 0,
        ;
    }
    ((next / 30) - (product / 30)) as u32
}

fn mask_for(p: u64, j: usize) -> (m: u8)
    requires
        7 <= p < 0x1_0000_0000,
        on_wheel(p as int),
        j < 8,
    ensures
        mask_bit(p as int, j as int) < 8,
        m == !(1u8 << (mask_bit(p as int, j as int) as u8)),
{
    let w = wheel_at(j);
    proof {
        lemma_wheel_slots();
        assert(on_wheel(w as int));
        lemma_wheel_product(p as int, w as int);
        assert(p * w < 0x20_0000_0000) by (nonlinear_arith)
            requires
                p < 0x1_0000_0000,
                w < 30,
        ;
    }
    let bit = wheel_index((p * w) % 30);
    !(1u8 << bit)
}

impl SievingPrime {
    fn new(prime: u64) -> (r: SievingPrime)
        requires
            is_prime(prime as int),
            7 <= prime < 0x1_0000_0000,
        ensures
            r.prime == prime,
            sieving_ok(r),
    {
        proof {
            lemma_prime_on_wheel(prime as int);
        }
        let byte_step = [
            step_for(prime, 0),
            step_for(prime, 1),
            step_for(prime, 2),
            step_for(prime, 3),
            step_for(prime, 4),
            step_for(prime, 5),
            step_for(prime, 6),
            step_for(prime, 7),
        ];
        let mask = [
            mask_for(prime, 0),
            mask_for(prime, 1),
            mask_for(prime, 2),
            mask_for(prime, 3),
            mask_for(prime, 4),
            mask_for(prime, 5),
            mask_for(prime, 6),
            mask_for(prime, 7),
        ];
        let r = SievingPrime { prime, byte_step, mask };
        proof {
            assert forall|j: int| 0 <= j < 8 implies #[trigger] r.byte_step[j] == (prime
                * next_wheel_value(j)) / 30 - (prime * wheel_value(j)) / 30 by {
                if j == 0 {
                } else if j == 1 {
                } else if j == 2 {
                } else if j == 3 {
                } else if j == 4 {
                } else if j == 5 {
                } else if j == 6 {
                } else {
                }
            }
            assert forall|j: int|
                0 <= j < 8 implies mask_bit(prime as int, j) < 8 && #[trigger] r.mask[j] == !(1u8
                << (mask_bit(prime as int, j) as u8)) by {
                if j == 0 {
                } else if j == 1 {
                } else if j == 2 {
                } else if j == 3 {
                } else if j == 4 {
                } else if j == 5 {
                } else if j == 6 {
                } else {
                }
            }
        }
        r
    }
}

/// `r` is the integer square root of `n`: the largest `r ≥ 0` with `r² ≤ n`.
pub open spec fn is_isqrt(n: int, r: int) -> bool {
    r >= 0 && r * r <= n < (r + 1) * (r + 1)
}

/// Integer square root: the largest `r` with `r² ≤ n`.
pub fn isqrt(n: u64) -> (r: u64)
    ensures
        is_isqrt(n as int, r as int),
        r * r <= n < (r + 1) * (r + 1),
        r < 0x1_0000_0000,
{
    let mut lo: u64 = 0;
    let mut hi: u64 = 0x1_0000_0000;
    assert(n < hi * hi) by (nonlinear_arith)
        requires
            hi == 0x1_0000_0000,
            n <= u64::MAX,
    ;
    while hi - lo > 1
        invariant
            lo < hi <= 0x1_0000_0000,
            lo * lo <= n < hi * hi,
        decreases hi - lo,
    {
        let mid = lo + (hi - lo) / 2;
        assert(mid < 0x1_0000_0000);
        assert(mid * mid < 0x1_0000_0000_0000_0000) by (nonlinear_arith)
            requires
                mid < 0x1_0000_0000,
        ;
        if mid * mid <= n {
            lo = mid;
        } else {
            hi = mid;
        }
    }
    lo
}

/// The least multiplier `q ≥ p` on the wheel with `p·q ≥ t`.
pub open spec fn next_multiplier(p: int, t: int, q: int) -> bool {
    &&& q >= p
    &&& on_wheel(q)
    &&& p * q >= t
    &&& forall|x: int| p <= x < q && #[trigger] on_wheel(x) ==> p * x < t
}

/// A cursor `(byte, slot)` of prime `p` for a stretch starting at byte `start`: it points at the
/// first multiple `p·q` to cross out from there.
pub open spec fn cursor_at(p: int, start: int, pos: u64, slot: u8, q: int) -> bool {
    &&& next_multiplier(p, 30 * start, q)
    &&& slot < 8
    &&& q % 30 == wheel_value(slot as int)
    &&& pos == (p * q) / 30 - start
}

/// The product `a·b`.
pub open spec fn product(a: int, b: int) -> int {
    a * b
}

/// `n` is struck out by `p`: it is a multiple `p·x` with `x ≥ p` on the wheel.
pub open spec fn struck_by(p: int, n: int) -> bool {
    exists|x: int| x >= p && on_wheel(x) && #[trigger] product(p, x) == n
}

/// `n` is a multiple `p·x` with `a ≤ x < b` and `x` on the wheel.
spec fn hit_between(p: int, a: int, b: int, n: int) -> bool {
    exists|x: int| a <= x < b && on_wheel(x) && #[trigger] product(p, x) == n
}

/// Clearing bit `b` leaves the other bits as they were.
proof fn lemma_clear_bit(x: u8, b: int, k: int)
    requires
        0 <= b < 8,
        0 <= k < 8,
    ensures
        bit_set(x & !(1u8 << (b as u8)), k) == (bit_set(x, k) && k != b),
{
    let bb = b as u8;
    let kk = k as u8;
    assert(((x & !(1u8 << bb)) >> kk) & 1u8 == 1u8 <==> (((x >> kk) & 1u8 == 1u8) && kk != bb))
        by (bit_vector)
        requires
            bb < 8,
            kk < 8,
    ;
}

/// Where the multiple `p·q` of a wheel multiplier `q` with residue `j` falls, and where the
/// next one, with the next multiplier, falls.
proof fn lemma_multiple_position(p: int, q: int, j: int)
    requires
        p > 0,
        q >= 0,
        0 <= j < 8,
        q % 30 == wheel_value(j),
        mask_bit(p, j) < 8,
    ensures
        (p * q) / 30 == p * (q / 30) + (p * wheel_value(j)) / 30,
        (p * q) % 30 == wheel_value(mask_bit(p, j)),
        (p * (q - wheel_value(j) + next_wheel_value(j))) / 30 == p * (q / 30) + (p
            * next_wheel_value(j)) / 30,
{
    let t = q / 30;
    let w = wheel_value(j);
    let nw = next_wheel_value(j);
    lemma_fundamental_div_mod(q, 30);
    assert(q == 30 * t + w);
    let c = p * w;
    let c2 = p * nw;
    assert(c >= 0 && c2 >= 0) by (nonlinear_arith)
        requires
            p > 0,
            w >= 1,
            nw >= 1,
            c == p * w,
            c2 == p * nw,
    ;
    lemma_fundamental_div_mod(c, 30);
    lemma_fundamental_div_mod(c2, 30);
    assert(p * q == (p * t + c / 30) * 30 + c % 30) by (nonlinear_arith)
        requires
            q == 30 * t + w,
            c == p * w,
            c == 30 * (c / 30) + c % 30,
    ;
    assert(p * (q - w + nw) == (p * t + c2 / 30) * 30 + c2 % 30) by (nonlinear_arith)
        requires
            q == 30 * t + w,
            c2 == p * nw,
            c2 == 30 * (c2 / 30) + c2 % 30,
    ;
    lemma_mod_bound(c, 30);
    lemma_mod_bound(c2, 30);
    lemma_fundamental_div_mod_converse(p * q, 30, p * t + c / 30, c % 30);
    lemma_fundamental_div_mod_converse(p * (q - w + nw), 30, p * t + c2 / 30, c2 % 30);
    lemma_wheel_slots();
    assert(wheel_slot(c % 30) < 8);
}

/// Within a stretch, the multiples met from multiplier `q0` up to `q` are exactly the numbers
/// that `p` strikes out.
proof fn lemma_hits_are_strikes(p: int, start: int, len: int, q0: int, q: int, n: int)
    requires
        p > 0,
        next_multiplier(p, 30 * start, q0),
        q0 <= q,
        p * q >= 30 * (start + len),
        30 * start <= n < 30 * (start + len),
    ensures
        hit_between(p, q0, q, n) == struck_by(p, n),
{
    if struck_by(p, n) {
        let x = choose|x: int| x >= p && on_wheel(x) && #[trigger] product(p, x) == n;
        if x < q0 {
            assert(p * x < 30 * start);
        }
        if x >= q {
            assert(p * x >= p * q) by (nonlinear_arith)
                requires
                    x >= q,
                    p > 0,
            ;
        }
        assert(hit_between(p, q0, q, n));
    }
    if hit_between(p, q0, q, n) {
        let x = choose|x: int| q0 <= x < q && on_wheel(x) && #[trigger] product(p, x) == n;
        assert(struck_by(p, n));
    }
}

/// Crosses out in the first `len` bytes of `seg`, which stand for the numbers from `30·start`
/// on, the multiples of `sp.prime` from its cursor on; returns the cursor for the stretch that
/// follows.
fn cross_out(
    seg: &mut Vec<u8>,
    sp: &SievingPrime,
    cursor: (u64, u8),
    len: usize,
    Ghost(start): Ghost<int>,
) -> (r: (u64, u8))
    requires
        sieving_ok(*sp),
        len <= old(seg)@.len(),
        len <= ZETA_SEGMENT_BYTES,
        0 <= start,
        cursor_ok(sp.prime as int, start, cursor),
    ensures
        final(seg)@.len() == old(seg)@.len(),
        forall|i: int| len <= i < old(seg)@.len() ==> final(seg)@[i] == old(seg)@[i],
        forall|i: int, k: int|
            0 <= i < len && 0 <= k < 8 ==> #[trigger] bit_set(final(seg)@[i], k) == (bit_set(
                old(seg)@[i],
                k,
            ) && !struck_by(sp.prime as int, number_at(start + i, k))),
        cursor_ok(sp.prime as int, start + len, r),
{
    let ghost p = sp.prime as int;
    let ghost q0 = choose|q: int| cursor_at(p, start, cursor.0, cursor.1, q);
    let ghost mut q = q0;
    let mut pos = cursor.0;
    let mut j = cursor.1 as usize;
    while pos < len as u64
        invariant
            sieving_ok(*sp),
            p == sp.prime,
            len <= seg@.len(),
            seg@.len() == old(seg)@.len(),
            len <= ZETA_SEGMENT_BYTES,
            0 <= start,
            next_multiplier(p, 30 * start, q0),
            q0 <= q,
            on_wheel(q),
            j < 8,
            q % 30 == wheel_value(j as int),
            pos == (p * q) / 30 - start,
            forall|x: int| p <= x < q && #[trigger] on_wheel(x) ==> p * x < 30 * (start + len),
            forall|i: int| len <= i < seg@.len() ==> seg@[i] == old(seg)@[i],
            forall|i: int, k: int|
                0 <= i < len && 0 <= k < 8 ==> #[trigger] bit_set(seg@[i], k) == (bit_set(
                    old(seg)@[i],
                    k,
                ) && !hit_between(p, q0, q, number_at(start + i, k))),
        decreases 30 * (start + len) + 6 * p - p * q,
    {
        let ghost b = mask_bit(p, j as int);
        let ghost old_seg = seg@;
        let ghost qn = q - wheel_value(j as int) + next_wheel_value(j as int);
        let ghost at = pos as int;
        proof {
            assert(sp.mask[j as int] == !(1u8 << (mask_bit(p, j as int) as u8)));
            assert(mask_bit(p, j as int) < 8);
            lemma_multiple_position(p, q, j as int);
            lemma_fundamental_div_mod(p * q, 30);
            assert(number_at(start + pos, b) == p * q);
            assert(p * q < 30 * (start + len));
            assert(sp.byte_step[j as int] == (p * next_wheel_value(j as int)) / 30 - (p
                * wheel_value(j as int)) / 30);
            lemma_wheel_next(q, j as int);
            assert(wheel_value(j as int) + 2 <= next_wheel_value(j as int) <= wheel_value(j as int) + 6);
            assert(p * q + 2 <= p * qn <= p * q + 6 * p) by (nonlinear_arith)
                requires
                    q + 2 <= qn <= q + 6,
                    p >= 1,
            ;
        }
        let byte = seg[pos as usize];
        seg.set(pos as usize, byte & sp.mask[j]);
        pos = pos + sp.byte_step[j] as u64;
        proof {
            assert(((j + 1) as usize) & 7 == ((j + 1) as usize) % 8) by (bit_vector)
                requires
                    j < 8,
            ;
            assert forall|x: int| p <= x < qn && #[trigger] on_wheel(x) implies p * x < 30 * (start
                + len) by {
                if q < x {
                    lemma_wheel_gap(q, j as int, x);
                }
            }
            assert forall|i: int, k: int| 0 <= i < len && 0 <= k < 8 implies #[trigger] bit_set(
                seg@[i],
                k,
            ) == (bit_set(old(seg)@[i], k) && !hit_between(p, q0, qn, number_at(start + i, k))) by {
                let n = number_at(start + i, k);
                lemma_number_at(start + i, k);
                lemma_number_at(start + at, b);
                assert(bit_set(old_seg[i], k) == (bit_set(old(seg)@[i], k) && !hit_between(
                    p,
                    q0,
                    q,
                    n,
                )));
                if i == at {
                    lemma_clear_bit(old_seg[i], b, k);
                    assert(seg@[i] == old_seg[i] & !(1u8 << (b as u8)));
                    assert(bit_set(seg@[i], k) == (bit_set(old_seg[i], k) && k != b));
                    assert((k == b) == (n == p * q));
                } else {
                    assert(seg@[i] == old_seg[i]);
                    assert(n != p * q);
                }
                if hit_between(p, q0, qn, n) {
                    let x = choose|x: int| q0 <= x < qn && on_wheel(x) && #[trigger] product(p, x) == n;
                    if x > q {
                        lemma_wheel_gap(q, j as int, x);
                    }
                    if x < q {
                        assert(hit_between(p, q0, q, n));
                    }
                }
                if hit_between(p, q0, q, n) {
                    let x = choose|x: int| q0 <= x < q && on_wheel(x) && #[trigger] product(p, x) == n;
                    assert(hit_between(p, q0, qn, n));
                }
                if n == p * q {
                    assert(product(p, q) == n);
                    assert(hit_between(p, q0, qn, n));
                }
                assert(hit_between(p, q0, qn, n) == (hit_between(p, q0, q, n) || n == p * q));
            }
            q = qn;
        }
        j = (j + 1) & 7;
    }
    proof {
        assert(p * q >= 30 * (start + len)) by {
            lemma_fundamental_div_mod(p * q, 30);
        }
        assert forall|i: int, k: int| 0 <= i < len && 0 <= k < 8 implies #[trigger] bit_set(
            seg@[i],
            k,
        ) == (bit_set(old(seg)@[i], k) && !struck_by(p, number_at(start + i, k))) by {
            lemma_hits_are_strikes(p, start, len as int, q0, q, number_at(start + i, k));
        }
    }
    let r = (pos - len as u64, j as u8);
    proof {
        assert(cursor_at(p, start + len, r.0, r.1, q));
    }
    r
}

/// `n` is struck out by one of the first `k` primes of `primes`.
spec fn struck_upto(primes: Seq<SievingPrime>, k: int, n: int) -> bool
    decreases k,
{
    if k <= 0 {
        false
    } else {
        struck_upto(primes, k - 1, n) || struck_by(primes[k - 1].prime as int, n)
    }
}

/// A number struck out by the first `k` primes is struck out by one of them.
proof fn lemma_struck_by_one(primes: Seq<SievingPrime>, k: int, n: int) -> (t: int)
    requires
        struck_upto(primes, k, n),
    ensures
        0 <= t < k,
        struck_by(primes[t].prime as int, n),
    decreases k,
{
    if struck_upto(primes, k - 1, n) {
        lemma_struck_by_one(primes, k - 1, n)
    } else {
        k - 1
    }
}

/// A number struck out by one of the first `k` primes is struck out by the first `k`.
proof fn lemma_struck_by_any(primes: Seq<SievingPrime>, k: int, t: int, n: int)
    requires
        0 <= t < k,
        struck_by(primes[t].prime as int, n),
    ensures
        struck_upto(primes, k, n),
    decreases k,
{
    if t < k - 1 {
        lemma_struck_by_any(primes, k - 1, t, n);
    }
}

/// Past 1, a number on the wheel up to the limit is struck out exactly when it is composite.
proof fn lemma_struck_iff_composite(primes: Seq<SievingPrime>, limit: int, n: int)
    requires
        sieving_list(limit, primes),
        2 <= n <= limit,
        on_wheel(n),
    ensures
        struck_upto(primes, primes.len() as int, n) == !is_prime(n),
{
    lemma_on_wheel_iff(n);
    if struck_upto(primes, primes.len() as int, n) {
        let t = lemma_struck_by_one(primes, primes.len() as int, n);
        let p = primes[t].prime as int;
        assert(sieving_ok(primes[t]));
        let x = choose|x: int| x >= p && on_wheel(x) && #[trigger] product(p, x) == n;
        assert(p < n) by (nonlinear_arith)
            requires
                n == p * x,
                x >= p,
                p >= 7,
        ;
        lemma_mod_multiples_basic(x, p);
        assert(x * p == n) by (nonlinear_arith)
            requires
                n == p * x,
        ;
        lemma_not_prime_with_factor(n, p);
    }
    if !is_prime(n) {
        let p = lemma_least_factor(n);
        if p < 7 {
            assert(p == 2 || p == 3 || p == 5) by {
                if p == 4 {
                    assert(p % 2 == 0);
                }
                if p == 6 {
                    assert(p % 2 == 0);
                }
            }
        }
        assert(listed(primes, p));
        let t = choose|t: int| 0 <= t < primes.len() && #[trigger] primes[t].prime == p;
        let x = n / p;
        lemma_fundamental_div_mod(n, p);
        assert(n == p * x);
        assert(x >= p) by (nonlinear_arith)
            requires
                n == p * x,
                p * p <= n,
                p > 0,
        ;
        lemma_wheel_quotient(n, p);
        assert(product(p, x) == n);
        assert(struck_by(p, n));
        lemma_struck_by_any(primes, primes.len() as int, t, n);
    }
}

/// Off the wheel, the only primes are 2, 3 and 5.
proof fn lemma_off_wheel_primes(n: int)
    requires
        n >= 0,
        !on_wheel(n),
    ensures
        is_prime(n) == off_wheel_prime(n),
{
    lemma_on_wheel_iff(n);
    if n == 3 {
        assert forall|d: int| 2 <= d < 3 implies #[trigger] (3int % d) != 0 by {
            assert(d == 2);
        }
    }
    if n == 5 {
        assert forall|d: int| 2 <= d < 5 implies #[trigger] (5int % d) != 0 by {
            assert(d == 2 || d == 3 || d == 4);
        }
    }
    if !off_wheel_prime(n) && n >= 2 {
        if n % 2 == 0 {
            assert(n % 2 == 0);
        } else if n % 3 == 0 {
            assert(n % 3 == 0);
        } else {
            assert(n % 5 == 0);
        }
    }
}

/// Once every prime has crossed out its multiples and 1 is cleared, the marks of a segment are
/// its primes on the wheel.
proof fn lemma_segment_primes(
    primes: Seq<SievingPrime>,
    limit: int,
    seg: Seq<u8>,
    byte: int,
    len: int,
    last: int,
)
    requires
        sieving_list(limit, primes),
        0 <= byte,
        last <= limit,
        30 * byte <= last < 30 * (byte + len),
        len <= seg.len(),
        forall|i: int, k: int|
            0 <= i < len && 0 <= k < 8 ==> #[trigger] bit_set(seg[i], k) == (!struck_upto(
                primes,
                primes.len() as int,
                number_at(byte + i, k),
            ) && !(byte == 0 && i == 0 && k == 0)),
    ensures
        forall|n: int|
            30 * byte <= n <= last ==> (is_prime(n) <==> (#[trigger] marked(seg, byte, n)
                || off_wheel_prime(n))),
{
    assert forall|n: int| 30 * byte <= n <= last implies (is_prime(n) <==> (#[trigger] marked(
        seg,
        byte,
        n,
    ) || off_wheel_prime(n))) by {
        if on_wheel(n) {
            lemma_wheel_slots();
            lemma_fundamental_div_mod(n, 30);
            let i = n / 30 - byte;
            let k = wheel_slot(n % 30);
            assert(number_at(byte + i, k) == n);
            assert(i < len) by {
                lemma_div_is_ordered(n, 30 * (byte + len) - 1, 30);
                lemma_fundamental_div_mod_converse(30 * (byte + len) - 1, 30, byte + len - 1, 29);
            }
            assert(0 <= i) by {
                lemma_div_is_ordered(30 * byte, n, 30);
                lemma_fundamental_div_mod_converse(30 * byte, 30, byte, 0);
            }
            assert(bit_set(seg[i], k) == (!struck_upto(primes, primes.len() as int, n) && !(byte
                == 0 && i == 0 && k == 0)));
            if n >= 2 {
                lemma_struck_iff_composite(primes, limit, n);
                if byte == 0 && i == 0 && k == 0 {
                    assert(n == 1);
                }
            } else {
                assert(n == 1);
                assert(byte == 0 && i == 0 && k == 0);
            }
        } else {
            lemma_off_wheel_primes(n);
        }
    }
}

/// The stretch up to the end of the bytes before `byte`, cut at `high`.
spec fn covered(byte: int, high: int) -> int {
    if 30 * byte - 1 < high {
        30 * byte - 1
    } else {
        high
    }
}

/// Every bit of a full byte is set.
proof fn lemma_full_byte(k: int)
    requires
        0 <= k < 8,
    ensures
        bit_set(0xFFu8, k),
{
    let kk = k as u8;
    assert((0xFFu8 >> kk) & 1u8 == 1u8) by (bit_vector)
        requires
            kk < 8,
    ;
}

/// Per-thread state: the position of the next multiple of each prime in the current stretch.
#[derive(Clone, Debug)]
pub struct Workspace {
    segment: Vec<u8>,
    /// Per prime: (byte of the next multiple relative to the start of the stretch, wheel slot).
    cursors: Vec<(u64, u8)>,
}

/// Sieve for a fixed limit, with the sieving primes up to √N computed once.
#[derive(Debug)]
pub struct Sieve {
    limit: u64,
    primes: Vec<SievingPrime>,
}

impl Clone for Sieve {
    fn clone(&self) -> (r: Self)
        ensures
            r.spec_limit() == self.spec_limit(),
    {
        proof {
            use_type_invariant(self);
        }
        let mut primes: Vec<SievingPrime> = Vec::new();
        let mut i: usize = 0;
        while i < self.primes.len()
            invariant
                i <= self.primes@.len(),
                primes@ == self.primes@.take(i as int),
            decreases self.primes@.len() - i,
        {
            primes.push(self.primes[i]);
            i += 1;
            assert(primes@ == self.primes@.take(i as int));
        }
        assert(primes@ == self.primes@);
        assert(sieving_list(self.limit as int, primes@));
        Sieve { limit: self.limit, primes }
    }
}

/// `p` is one of the sieving primes of `primes`.
spec fn listed(primes: Seq<SievingPrime>, p: int) -> bool {
    exists|i: int| 0 <= i < primes.len() && #[trigger] primes[i].prime == p
}

/// `primes` holds valid sieving primes no larger than `√limit + 1`, among them every prime
/// `p ≥ 7` with `p² ≤ limit`.
spec fn sieving_list(limit: int, primes: Seq<SievingPrime>) -> bool {
    &&& forall|i: int| 0 <= i < primes.len() ==> sieving_ok(#[trigger] primes[i])
    &&& forall|i: int|
        0 <= i < primes.len() ==> (#[trigger] primes[i].prime - 1) * (primes[i].prime - 1)
            <= limit
    &&& forall|p: int|
        #![trigger listed(primes, p)]
        7 <= p && p * p <= limit && is_prime(p) ==> listed(primes, p)
}

/// The cursor `c` of prime `p` is placed for a stretch starting at byte `start`.
pub open spec fn cursor_ok(p: int, start: int, c: (u64, u8)) -> bool {
    exists|q: int| #[trigger] cursor_at(p, start, c.0, c.1, q)
}

impl Sieve {
    #[verifier::type_invariant]
    spec fn well_formed(&self) -> bool {
        &&& self.limit <= MAX_LIMIT
        &&& sieving_list(self.limit as int, self.primes@)
    }

    /// Upper limit (inclusive).
    pub closed spec fn spec_limit(&self) -> u64 {
        self.limit
    }

    /// `true` when `ws` was made for this sieve.
    pub closed spec fn fits(&self, ws: &Workspace) -> bool {
        &&& ws.segment@.len() == ZETA_SEGMENT_BYTES
        &&& ws.cursors@.len() == self.primes@.len()
    }

    /// Prepares the sieve to count the primes in `[0, limit]`.
    pub fn new(limit: u64) -> (r: Sieve)
        requires
            limit <= MAX_LIMIT,
        ensures
            r.spec_limit() == limit,
    {
        let root = isqrt(limit) + 1;
        proof {
            assert(root <= 0xFFFF_FFFE) by (nonlinear_arith)
                requires
                    (root - 1) * (root - 1) <= limit,
                    limit <= 0xFFFF_FFF0_0000_0000,
                    root >= 1,
            ;
        }
        let small = small_primes(root);
        let mut primes: Vec<SievingPrime> = Vec::new();
        let mut i: usize = 0;
        while i < small.len()
            invariant
                i <= small@.len(),
                root <= 0xFFFF_FFFE,
                (root - 1) * (root - 1) <= limit,
                forall|k: int| 0 <= k < small@.len() ==> is_prime(#[trigger] small@[k] as int)
                    && small@[k] <= root,
                forall|k: int| 0 <= k < primes@.len() ==> sieving_ok(#[trigger] primes@[k]),
                forall|k: int|
                    0 <= k < primes@.len() ==> (#[trigger] primes@[k].prime - 1) * (
                    primes@[k].prime - 1) <= limit,
                forall|k: int|
                    0 <= k < i && small@[k] >= 7 ==> listed(primes@, #[trigger] small@[k] as int),
            decreases small@.len() - i,
        {
            let p = small[i];
            if p >= 7 {
                let ghost before = primes@;
                primes.push(SievingPrime::new(p));
                proof {
                    assert(primes@[before.len() as int].prime == p);
                    assert((p - 1) * (p - 1) <= (root - 1) * (root - 1)) by (nonlinear_arith)
                        requires
                            7 <= p <= root,
                    ;
                    assert forall|k: int| 0 <= k < primes@.len() implies (
                    #[trigger] primes@[k].prime - 1) * (primes@[k].prime - 1) <= limit by {
                        if k < before.len() {
                            assert(primes@[k] == before[k]);
                        }
                    }
                    assert forall|k: int|
                        0 <= k < i + 1 && small@[k] >= 7 implies listed(
                        primes@,
                        #[trigger] small@[k] as int,
                    ) by {
                        if k < i {
                            assert(listed(before, small@[k] as int));
                            let t = choose|t: int|
                                0 <= t < before.len() && #[trigger] before[t].prime == small@[k];
                            assert(primes@[t] == before[t]);
                        } else {
                            assert(primes@[before.len() as int].prime == small@[k]);
                        }
                    }
                }
            }
            i += 1;
        }
        proof {
            assert forall|p: int|
                7 <= p && p * p <= limit && is_prime(p) implies #[trigger] listed(primes@, p) by {
                assert(p <= root) by (nonlinear_arith)
                    requires
                        p * p <= limit,
                        limit < root * root,
                        p >= 0,
                        root >= 0,
                ;
                assert(small@.contains(p as u64));
                let k = choose|k: int| 0 <= k < small@.len() && small@[k] == p as u64;
                assert(small@[k] >= 7);
                assert(listed(primes@, small@[k] as int));
            }
            assert(sieving_list(limit as int, primes@));
        }
        Sieve { limit, primes }
    }

    /// Upper limit (inclusive).
    pub fn limit(&self) -> (r: u64)
        ensures
            r == self.spec_limit(),
    {
        self.limit
    }

    /// Workspace for one thread.
    pub fn workspace(&self) -> (r: Workspace)
        ensures
            self.fits(&r),
    {
        Workspace {
            segment: vec![0xFFu8; ZETA_SEGMENT_BYTES],
            cursors: vec![(0u64, 0u8); self.primes.len()],
        }
    }

    /// Places each prime on its first multiple `≥ max(p², 30·low_byte)` whose multiplier is on
    /// the wheel, as a byte relative to `low_byte`.
    fn position_cursors(&self, ws: &mut Workspace, low_byte: u64)
        requires
            self.fits(&*old(ws)),
            low_byte <= MAX_LIMIT / 30 + 1,
        ensures
            self.fits(&*final(ws)),
            final(ws).segment@ == old(ws).segment@,
            forall|i: int|
                0 <= i < self.primes@.len() ==> cursor_ok(
                    self.primes@[i].prime as int,
                    low_byte as int,
                    #[trigger] final(ws).cursors@[i],
                ),
    {
        proof {
            use_type_invariant(self);
        }
        let low = low_byte * 30;
        let n = self.primes.len();
        let mut i: usize = 0;
        while i < n
            invariant
                n == self.primes@.len(),
                forall|k: int| 0 <= k < self.primes@.len() ==> sieving_ok(#[trigger] self.primes@[k]),
                self.fits(&*ws),
                ws.segment@ == old(ws).segment@,
                low == 30 * low_byte,
                low_byte <= MAX_LIMIT / 30 + 1,
                self.limit <= MAX_LIMIT,
                forall|k: int|
                    0 <= k < self.primes@.len() ==> (#[trigger] self.primes@[k].prime - 1) * (
                    self.primes@[k].prime - 1) <= self.limit,
                i <= n,
                forall|k: int|
                    0 <= k < i ==> cursor_ok(
                        self.primes@[k].prime as int,
                        low_byte as int,
                        #[trigger] ws.cursors@[k],
                    ),
            decreases n - i,
        {
            let p = self.primes[i].prime;
            proof {
                assert(sieving_ok(self.primes@[i as int]));
                assert((p - 1) * (p - 1) <= self.limit);
            }
            let up = (low + p - 1) / p;
            let mut q = if up > p {
                up
            } else {
                p
            };
            let ghost start = q;
            proof {
                lemma_wheel_within_six(start as int);
                lemma_fundamental_div_mod((low + p - 1) as int, p as int);
                assert(p * up <= low + p - 1) by (nonlinear_arith)
                    requires
                        low + p - 1 == p * up + (low + p - 1) % (p as int),
                        (low + p - 1) % (p as int) >= 0,
                ;
                assert(up < 0x2500_0000_0000_0000) by (nonlinear_arith)
                    requires
                        p * up <= low + p - 1,
                        p >= 7,
                        low <= 0xFFFF_FFF0_0000_001E,
                        p < 0x1_0000_0000,
                ;
                if start == up {
                    assert(p * start <= 0xFFFF_FFF2_0000_001E);
                } else {
                    assert(p * start <= 0xFFFF_FFF2_0000_001E) by (nonlinear_arith)
                        requires
                            start == p,
                            (p - 1) * (p - 1) <= 0xFFFF_FFF0_0000_0000,
                            p < 0x1_0000_0000,
                    ;
                }
            }
            let mut j = wheel_index(q % 30);
            while j == 255
                invariant
                    start <= q <= start + 6,
                    start < 0x2500_0000_0000_0000,
                    j == wheel_slot(q as int % 30),
                    forall|x: int| start <= x < q ==> !#[trigger] on_wheel(x),
                    exists|d: int| 0 <= d <= 6 && #[trigger] on_wheel(start + d),
                decreases start + 6 - q,
            {
                proof {
                    assert(!on_wheel(q as int));
                    if q == start + 6 {
                        let d = choose|d: int| 0 <= d <= 6 && #[trigger] on_wheel(start + d);
                        assert(!on_wheel(start + d));
                    }
                }
                q += 1;
                j = wheel_index(q % 30);
            }
            proof {
                assert(p * q <= 0xFFFF_FFF8_0000_001E) by (nonlinear_arith)
                    requires
                        q <= start + 6,
                        p * start <= 0xFFFF_FFF2_0000_001E,
                        p < 0x1_0000_0000,
                ;
            }
            let multiple = p * q;
            proof {
                lemma_wheel_slots();
                assert(on_wheel(q as int));
                assert(p * up >= low) by (nonlinear_arith)
                    requires
                        low + p - 1 == p * up + (low + p - 1) % (p as int),
                        (low + p - 1) % (p as int) < p,
                ;
                assert(p * q >= p * up) by (nonlinear_arith)
                    requires
                        q >= up,
                        p >= 0,
                ;
                assert forall|x: int| p <= x < q && #[trigger] on_wheel(x) implies p * x < low by {
                    assert(x < start);
                    assert(x < up);
                    assert(p * x <= p * (up - 1)) by (nonlinear_arith)
                        requires
                            x <= up - 1,
                            p >= 0,
                    ;
                    assert(p * (up - 1) < low) by (nonlinear_arith)
                        requires
                            low + p - 1 == p * up + (low + p - 1) % (p as int),
                            0 <= (low + p - 1) % (p as int),
                    ;
                }
                lemma_div_is_ordered(low as int, multiple as int, 30);
                assert(low / 30 == low_byte);
            }
            let ghost before = ws.cursors@;
            ws.cursors.set(i, (multiple / 30 - low_byte, j));
            proof {
                assert(cursor_at(p as int, low_byte as int, ws.cursors@[i as int].0, ws.cursors@[i as int].1, q as int));
                assert forall|k: int| 0 <= k < i + 1 implies cursor_ok(
                    self.primes@[k].prime as int,
                    low_byte as int,
                    #[trigger] ws.cursors@[k],
                ) by {
                    if k < i {
                        assert(ws.cursors@[k] == before[k]);
                    }
                }
            }
            i += 1;
        }
    }

    /// Crosses out, in the first `len` bytes of the segment, the multiples of every sieving
    /// prime, and moves each cursor on to the stretch that follows.
    fn cross_out_all(&self, ws: &mut Workspace, len: usize, Ghost(start): Ghost<int>)
        requires
            self.fits(&*old(ws)),
            len <= ZETA_SEGMENT_BYTES,
            0 <= start,
            forall|k: int|
                0 <= k < self.primes@.len() ==> cursor_ok(
                    self.primes@[k].prime as int,
                    start,
                    #[trigger] old(ws).cursors@[k],
                ),
        ensures
            self.fits(&*final(ws)),
            forall|k: int|
                0 <= k < self.primes@.len() ==> cursor_ok(
                    self.primes@[k].prime as int,
                    start + len,
                    #[trigger] final(ws).cursors@[k],
                ),
            forall|i: int, k: int|
                0 <= i < len && 0 <= k < 8 ==> #[trigger] bit_set(final(ws).segment@[i], k) == (
                bit_set(old(ws).segment@[i], k) && !struck_upto(
                    self.primes@,
                    self.primes@.len() as int,
                    number_at(start + i, k),
                )),
    {
        proof {
            use_type_invariant(self);
        }
        let n = self.primes.len();
        let mut t: usize = 0;
        while t < n
            invariant
                n == self.primes@.len(),
                forall|k: int| 0 <= k < self.primes@.len() ==> sieving_ok(#[trigger] self.primes@[k]),
                self.fits(&*ws),
                len <= ZETA_SEGMENT_BYTES,
                0 <= start,
                t <= n,
                forall|k: int|
                    0 <= k < t ==> cursor_ok(
                        self.primes@[k].prime as int,
                        start + len,
                        #[trigger] ws.cursors@[k],
                    ),
                forall|k: int| t <= k < n ==> #[trigger] ws.cursors@[k] == old(ws).cursors@[k],
                forall|k: int|
                    0 <= k < self.primes@.len() ==> cursor_ok(
                        self.primes@[k].prime as int,
                        start,
                        #[trigger] old(ws).cursors@[k],
                    ),
                forall|i: int, k: int|
                    0 <= i < len && 0 <= k < 8 ==> #[trigger] bit_set(ws.segment@[i], k) == (
                    bit_set(old(ws).segment@[i], k) && !struck_upto(
                        self.primes@,
                        t as int,
                        number_at(start + i, k),
                    )),
            decreases n - t,
        {
            let cursor = ws.cursors[t];
            proof {
                assert(cursor_ok(self.primes@[t as int].prime as int, start, old(ws).cursors@[t as int]));
                assert(sieving_ok(self.primes@[t as int]));
            }
            let ghost mid = ws.segment@;
            let next = cross_out(&mut ws.segment, &self.primes[t], cursor, len, Ghost(start));
            let ghost before = ws.cursors@;
            ws.cursors.set(t, next);
            proof {
                assert forall|k: int| 0 <= k < t + 1 implies cursor_ok(
                    self.primes@[k].prime as int,
                    start + len,
                    #[trigger] ws.cursors@[k],
                ) by {
                    if k < t {
                        assert(ws.cursors@[k] == before[k]);
                    }
                }
                assert forall|k: int| t + 1 <= k < n implies #[trigger] ws.cursors@[k]
                    == old(ws).cursors@[k] by {
                    assert(ws.cursors@[k] == before[k]);
                }
                assert forall|i: int, k: int| 0 <= i < len && 0 <= k < 8 implies #[trigger] bit_set(
                    ws.segment@[i],
                    k,
                ) == (bit_set(old(ws).segment@[i], k) && !struck_upto(
                    self.primes@,
                    t + 1,
                    number_at(start + i, k),
                )) by {
                    assert(bit_set(mid[i], k) == (bit_set(old(ws).segment@[i], k) && !struck_upto(
                        self.primes@,
                        t as int,
                        number_at(start + i, k),
                    )));
                }
            }
            t += 1;
        }
    }

    /// Sieves the stretch `[low, high]` (both included, `low` a multiple of 30) and returns how
    /// many primes it holds and their sum.
    pub fn sieve_range(&self, ws: &mut Workspace, low: u64, high: u64) -> (r: SieveTotals)
        requires
            self.fits(&*old(ws)),
            low % 30 == 0,
            low <= MAX_LIMIT,
            high <= self.spec_limit(),
        ensures
            self.fits(&*final(ws)),
            r.count == prime_count_between(low as int, high as int),
            r.sum_mod_2_64 == prime_sum_between(low as int, high as int) % 0x1_0000_0000_0000_0000,
    {
        proof {
            use_type_invariant(self);
        }
        let mut totals = SieveTotals { count: 0, sum_mod_2_64: 0 };
        if low == 0 {
            // 2, 3 and 5 are not on the wheel.
            if 2 <= high {
                totals.count = totals.count + 1;
                totals.sum_mod_2_64 = totals.sum_mod_2_64 + 2;
            }
            if 3 <= high {
                totals.count = totals.count + 1;
                totals.sum_mod_2_64 = totals.sum_mod_2_64 + 3;
            }
            if 5 <= high {
                totals.count = totals.count + 1;
                totals.sum_mod_2_64 = totals.sum_mod_2_64 + 5;
            }
        }
        let low_byte = low / 30;
        let high_byte = high / 30;
        self.position_cursors(ws, low_byte);
        let ghost lo = low as int;
        let ghost hi = high as int;
        let mut byte = low_byte;
        while byte <= high_byte
            invariant
                self.fits(&*ws),
                sieving_list(self.limit as int, self.primes@),
                self.limit <= MAX_LIMIT,
                lo == low,
                hi == high,
                high <= self.limit,
                low_byte == low / 30,
                high_byte == high / 30,
                low % 30 == 0,
                low_byte <= byte,
                byte > low_byte ==> byte <= high_byte + 1,
                forall|k: int|
                    0 <= k < self.primes@.len() ==> cursor_ok(
                        self.primes@[k].prime as int,
                        byte as int,
                        #[trigger] ws.cursors@[k],
                    ),
                totals.count == prime_count_between(lo, covered(byte as int, hi)) + if byte
                    == low_byte {
                    off_wheel_count(lo, hi)
                } else {
                    0
                },
                totals.sum_mod_2_64 == (prime_sum_between(lo, covered(byte as int, hi)) + if byte
                    == low_byte {
                    off_wheel_sum(lo, hi)
                } else {
                    0
                }) % 0x1_0000_0000_0000_0000,
            decreases high_byte + 1 - byte,
        {
            let remaining = high_byte - byte + 1;
            let len: usize = if remaining < ZETA_SEGMENT_BYTES as u64 {
                remaining as usize
            } else {
                ZETA_SEGMENT_BYTES
            };
            let ghost cursors_before = ws.cursors@;
            let mut f: usize = 0;
            while f < len
                invariant
                    self.fits(&*ws),
                    len <= ZETA_SEGMENT_BYTES,
                    f <= len,
                    ws.cursors@ == cursors_before,
                    forall|i: int| 0 <= i < f ==> ws.segment@[i] == 0xFFu8,
                decreases len - f,
            {
                ws.segment.set(f, 0xFF);
                f += 1;
            }
            let ghost filled = ws.segment@;
            self.cross_out_all(ws, len, Ghost(byte as int));
            let ghost crossed = ws.segment@;
            if byte == 0 {
                let first = ws.segment[0];
                ws.segment.set(0, first & !1u8);
            }
            let end = (byte + len as u64) * 30 - 1;
            let last = if high < end {
                high
            } else {
                end
            };
            let part = count_segment(&ws.segment, len, byte, last);
            proof {
                let seg = ws.segment@;
                assert forall|i: int, k: int| 0 <= i < len && 0 <= k < 8 implies #[trigger] bit_set(
                    seg[i],
                    k,
                ) == (!struck_upto(self.primes@, self.primes@.len() as int, number_at(byte + i, k))
                    && !(byte == 0 && i == 0 && k == 0)) by {
                    lemma_full_byte(k);
                    assert(filled[i] == 0xFFu8);
                    if byte == 0 && i == 0 {
                        lemma_clear_bit(crossed[0], 0, k);
                        assert((1u8 << 0u8) == 1u8) by (bit_vector);
                    }
                }
                lemma_segment_primes(self.primes@, self.limit as int, seg, byte as int, len as int, last as int);
                lemma_marks_are_primes(seg, byte as int, 30 * byte, last as int);
                lemma_between_split(lo, 30 * byte, last as int);
                lemma_between_nonneg(lo, last as int);
                lemma_between_nonneg(30 * byte, last as int);
                assert(covered((byte + len) as int, hi) == last);
                if byte == low_byte {
                    assert(30 * byte == lo);
                    assert(prime_count_between(lo, lo - 1) == 0);
                    assert(prime_sum_between(lo, lo - 1) == 0);
                    assert(off_wheel_count(lo, hi) == off_wheel_count(30 * byte, last as int));
                    assert(off_wheel_sum(lo, hi) == off_wheel_sum(30 * byte, last as int));
                } else {
                    assert(covered(byte as int, hi) == 30 * byte - 1);
                }
                lemma_add_mod_noop(
                    prime_sum_between(lo, covered(byte as int, hi)) + if byte == low_byte {
                        off_wheel_sum(lo, hi)
                    } else {
                        0
                    },
                    marked_sum(seg, byte as int, 30 * byte, last as int),
                    0x1_0000_0000_0000_0000,
                );
            }
            totals = totals.merge(part);
            byte += len as u64;
        }
        proof {
            assert(covered(byte as int, hi) == hi);
            if byte == low_byte {
                assert(hi < lo);
                assert(prime_count_between(lo, hi) == 0);
                assert(prime_sum_between(lo, hi) == 0);
            }
        }
        totals
    }
}

/// Counts and sums the primes up to `limit` on one thread.
pub fn count_primes(limit: u64) -> (r: SieveTotals)
    requires
        limit <= MAX_LIMIT,
    ensures
        r.count == prime_count_between(0, limit as int),
        r.sum_mod_2_64 == prime_sum_between(0, limit as int) % 0x1_0000_0000_0000_0000,
{
    let sieve = Sieve::new(limit);
    let mut ws = sieve.workspace();
    sieve.sieve_range(&mut ws, 0, limit)
}

/// Stretches compose: sieving `[low, split − 1]` and `[split, high]` and merging the totals
/// gives the totals of `[low, high]`, whatever the split.
pub proof fn lemma_ranges_compose(low: int, split: int, high: int)
    requires
        0 <= low <= split <= high + 1,
    ensures
        prime_count_between(low, high) == prime_count_between(low, split - 1)
            + prime_count_between(split, high),
        prime_sum_between(low, high) % 0x1_0000_0000_0000_0000 == (prime_sum_between(low, split - 1)
            % 0x1_0000_0000_0000_0000 + prime_sum_between(split, high) % 0x1_0000_0000_0000_0000)
            % 0x1_0000_0000_0000_0000,
{
    lemma_between_split(low, split, high);
    lemma_add_mod_noop(
        prime_sum_between(low, split - 1),
        prime_sum_between(split, high),
        0x1_0000_0000_0000_0000,
    );
}

} // verus!
