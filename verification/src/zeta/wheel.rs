//! The modulo-30 wheel: the eight residues coprime with 2, 3 and 5, one bit each per byte.

use vstd::arithmetic::div_mod::*;
use vstd::prelude::*;

use crate::zeta::primes::is_prime;

verus! {

/// Residues modulo 30 coprime with 2, 3 and 5.
pub const WHEEL: [u64; 8] = [1, 7, 11, 13, 17, 19, 23, 29];

/// Residue `j` of the wheel.
pub open spec fn wheel_value(j: int) -> int {
    if j == 0 {
        1
    } else if j == 1 {
        7
    } else if j == 2 {
        11
    } else if j == 3 {
        13
    } else if j == 4 {
        17
    } else if j == 5 {
        19
    } else if j == 6 {
        23
    } else {
        29
    }
}

/// The wheel residue after residue `j`, counting the next turn (31 after 29).
pub open spec fn next_wheel_value(j: int) -> int {
    if j == 7 {
        31
    } else {
        wheel_value(j + 1)
    }
}

/// Position of residue `r` on the wheel, or 255 when `r` is not coprime with 30.
pub open spec fn wheel_slot(r: int) -> int {
    if r == 1 {
        0
    } else if r == 7 {
        1
    } else if r == 11 {
        2
    } else if r == 13 {
        3
    } else if r == 17 {
        4
    } else if r == 19 {
        5
    } else if r == 23 {
        6
    } else if r == 29 {
        7
    } else {
        255
    }
}

/// `n` is coprime with 30, that is, its residue is on the wheel.
pub open spec fn on_wheel(n: int) -> bool {
    wheel_slot(n % 30) < 8
}

/// Residue `j` of the wheel.
pub fn wheel_at(j: usize) -> (r: u64)
    requires
        j < 8,
    ensures
        r == wheel_value(j as int),
{
    if j == 0 {
        1
    } else if j == 1 {
        7
    } else if j == 2 {
        11
    } else if j == 3 {
        13
    } else if j == 4 {
        17
    } else if j == 5 {
        19
    } else if j == 6 {
        23
    } else {
        29
    }
}

/// Position of residue `r` on the wheel, or 255.
pub fn wheel_index(r: u64) -> (s: u8)
    ensures
        s == wheel_slot(r as int),
{
    if r == 1 {
        0
    } else if r == 7 {
        1
    } else if r == 11 {
        2
    } else if r == 13 {
        3
    } else if r == 17 {
        4
    } else if r == 19 {
        5
    } else if r == 23 {
        6
    } else if r == 29 {
        7
    } else {
        255
    }
}

/// Slots and residues are inverse to each other.
pub proof fn lemma_wheel_slots()
    ensures
        forall|j: int| 0 <= j < 8 ==> wheel_slot(#[trigger] wheel_value(j)) == j,
        forall|r: int| 0 <= r < 30 && #[trigger] wheel_slot(r) < 8 ==> wheel_value(wheel_slot(r)) == r,
        forall|j: int| 0 <= j < 8 ==> 1 <= #[trigger] wheel_value(j) < 30,
{
}

/// A number is on the wheel exactly when 2, 3 and 5 do not divide it.
pub proof fn lemma_on_wheel_iff(n: int)
    requires
        n >= 0,
    ensures
        on_wheel(n) <==> (n % 2 != 0 && n % 3 != 0 && n % 5 != 0),
{
    let r = n % 30;
    lemma_fundamental_div_mod(n, 30);
    let q = n / 30;
    assert(n == 30 * q + r);
    assert(n % 2 == r % 2) by {
        lemma_mod_multiples_vanish(15 * q, r, 2);
        assert(30 * q == 2 * (15 * q));
    }
    assert(n % 3 == r % 3) by {
        lemma_mod_multiples_vanish(10 * q, r, 3);
        assert(30 * q == 3 * (10 * q));
    }
    assert(n % 5 == r % 5) by {
        lemma_mod_multiples_vanish(6 * q, r, 5);
        assert(30 * q == 5 * (6 * q));
    }
}

/// Primes from 7 on are on the wheel.
pub proof fn lemma_prime_on_wheel(p: int)
    requires
        is_prime(p),
        p >= 7,
    ensures
        on_wheel(p),
{
    assert(p % 2 != 0);
    assert(p % 3 != 0);
    assert(p % 5 != 0);
    lemma_on_wheel_iff(p);
}

/// The product of two numbers on the wheel is on the wheel.
pub proof fn lemma_wheel_product(a: int, b: int)
    requires
        a >= 0,
        b >= 0,
        on_wheel(a),
        on_wheel(b),
    ensures
        on_wheel(a * b),
{
    lemma_mul_mod_noop(a, b, 30);
    let x = a % 30;
    let y = b % 30;
    lemma_mod_bound(a, 30);
    lemma_mod_bound(b, 30);
    assert(on_wheel(x * y)) by {
        assert(wheel_slot(x) < 8 && wheel_slot(y) < 8);
        assert(x == 1 || x == 7 || x == 11 || x == 13 || x == 17 || x == 19 || x == 23 || x == 29);
        assert(y == 1 || y == 7 || y == 11 || y == 13 || y == 17 || y == 19 || y == 23 || y == 29);
        assert(wheel_slot((x * y) % 30) < 8) by (nonlinear_arith)
            requires
                x == 1 || x == 7 || x == 11 || x == 13 || x == 17 || x == 19 || x == 23 || x == 29,
                y == 1 || y == 7 || y == 11 || y == 13 || y == 17 || y == 19 || y == 23 || y == 29,
        ;
    }
    assert((x * y) % 30 == (a * b) % 30);
}

/// The quotient of a number on the wheel by a divisor is on the wheel.
pub proof fn lemma_wheel_quotient(n: int, p: int)
    requires
        n >= 0,
        p > 0,
        n % p == 0,
        on_wheel(n),
    ensures
        on_wheel(n / p),
{
    let q = n / p;
    lemma_fundamental_div_mod(n, p);
    lemma_on_wheel_iff(n);
    lemma_div_pos_is_pos(n, p);
    lemma_on_wheel_iff(q);
    if q == 0 {
        assert(n == 0);
        assert(false);
    }
    assert(n % q == 0) by {
        lemma_mod_multiples_basic(p, q);
        assert(p * q == q * p) by (nonlinear_arith);
    }
    if q % 2 == 0 {
        crate::zeta::primes::lemma_mod_factor_transfers(n, q, 2);
    }
    if q % 3 == 0 {
        crate::zeta::primes::lemma_mod_factor_transfers(n, q, 3);
    }
    if q % 5 == 0 {
        crate::zeta::primes::lemma_mod_factor_transfers(n, q, 5);
    }
}

/// Between a number on the wheel and the next one there is nothing on the wheel.
pub proof fn lemma_wheel_gap(q: int, j: int, x: int)
    requires
        q >= 0,
        0 <= j < 8,
        q % 30 == wheel_value(j),
        q < x < q - wheel_value(j) + next_wheel_value(j),
    ensures
        !on_wheel(x),
{
    let t = q / 30;
    lemma_fundamental_div_mod(q, 30);
    let d = x - 30 * t;
    assert(wheel_value(j) < d < next_wheel_value(j));
    if d < 30 {
        lemma_fundamental_div_mod_converse(x, 30, t, d);
    } else {
        lemma_fundamental_div_mod_converse(x, 30, t + 1, d - 30);
    }
}

/// The next wheel number after `q` (residue `j`) is on the wheel, with residue `j + 1`.
pub proof fn lemma_wheel_next(q: int, j: int)
    requires
        q >= 0,
        0 <= j < 8,
        q % 30 == wheel_value(j),
    ensures
        ({
            let n = q - wheel_value(j) + next_wheel_value(j);
            &&& n % 30 == wheel_value((j + 1) % 8)
            &&& on_wheel(n)
        }),
{
    let t = q / 30;
    lemma_fundamental_div_mod(q, 30);
    let n = q - wheel_value(j) + next_wheel_value(j);
    if j == 7 {
        lemma_fundamental_div_mod_converse(n, 30, t + 1, 1);
    } else {
        lemma_fundamental_div_mod_converse(n, 30, t, wheel_value(j + 1));
    }
}

/// Among any seven consecutive numbers one is on the wheel.
pub proof fn lemma_wheel_within_six(x: int)
    requires
        x >= 0,
    ensures
        exists|d: int| 0 <= d <= 6 && #[trigger] on_wheel(x + d),
{
    let r = x % 30;
    lemma_fundamental_div_mod(x, 30);
    let t = x / 30;
    lemma_mod_bound(x, 30);
    let d = if r <= 1 {
        1 - r
    } else if r <= 7 {
        7 - r
    } else if r <= 11 {
        11 - r
    } else if r <= 13 {
        13 - r
    } else if r <= 17 {
        17 - r
    } else if r <= 19 {
        19 - r
    } else if r <= 23 {
        23 - r
    } else if r <= 29 {
        29 - r
    } else {
        0
    };
    lemma_fundamental_div_mod_converse(x + d, 30, t, r + d);
    assert(on_wheel(x + d));
}

} // verus!
