//! Segments of the sieve: which number each bit stands for, and how the marked bits of a
//! segment add up to the count and the sum of the primes of a stretch.

use vstd::arithmetic::div_mod::*;
use vstd::prelude::*;

use crate::zeta::primes::{is_prime, prime_count_between, prime_sum_between};
use crate::zeta::wheel::{
    lemma_wheel_gap, lemma_wheel_slots, next_wheel_value, on_wheel, wheel_at, wheel_slot,
    wheel_value,
};
use crate::zeta::SieveTotals;

verus! {

/// Bit `b` of `x`.
pub open spec fn bit_set(x: u8, b: int) -> bool {
    ((x >> (b as u8)) & 1u8) == 1u8
}

/// The number that bit `j` of byte `byte` stands for.
pub open spec fn number_at(byte: int, j: int) -> int {
    30 * byte + wheel_value(j)
}

/// `n` is marked in `seg`, whose first byte stands for the numbers from `30·first` on.
pub open spec fn marked(seg: Seq<u8>, first: int, n: int) -> bool {
    &&& on_wheel(n)
    &&& 30 * first <= n
    &&& n / 30 - first < seg.len()
    &&& bit_set(seg[n / 30 - first], wheel_slot(n % 30))
}

/// Number of marked `n` with `lo ≤ n ≤ hi`.
pub open spec fn marked_count(seg: Seq<u8>, first: int, lo: int, hi: int) -> nat
    decreases hi - lo + 1,
{
    if hi < lo {
        0
    } else {
        marked_count(seg, first, lo, hi - 1) + if marked(seg, first, hi) {
            1nat
        } else {
            0nat
        }
    }
}

/// Sum of the marked `n` with `lo ≤ n ≤ hi`.
pub open spec fn marked_sum(seg: Seq<u8>, first: int, lo: int, hi: int) -> int
    decreases hi - lo + 1,
{
    if hi < lo {
        0
    } else {
        marked_sum(seg, first, lo, hi - 1) + if marked(seg, first, hi) {
            hi
        } else {
            0
        }
    }
}

/// The primes that the wheel leaves out.
pub open spec fn off_wheel_prime(n: int) -> bool {
    n == 2 || n == 3 || n == 5
}

/// How many of 2, 3 and 5 lie in `[lo, hi]`.
pub open spec fn off_wheel_count(lo: int, hi: int) -> nat {
    (if lo <= 2 <= hi {
        1nat
    } else {
        0nat
    }) + (if lo <= 3 <= hi {
        1nat
    } else {
        0nat
    }) + (if lo <= 5 <= hi {
        1nat
    } else {
        0nat
    })
}

/// Sum of those of 2, 3 and 5 that lie in `[lo, hi]`.
pub open spec fn off_wheel_sum(lo: int, hi: int) -> int {
    (if lo <= 2 <= hi {
        2int
    } else {
        0int
    }) + (if lo <= 3 <= hi {
        3int
    } else {
        0int
    }) + (if lo <= 5 <= hi {
        5int
    } else {
        0int
    })
}

/// Where the marks are the primes on the wheel, the marked numbers with 2, 3 and 5 make up all
/// the primes of the stretch.
pub proof fn lemma_marks_are_primes(seg: Seq<u8>, first: int, lo: int, hi: int)
    requires
        forall|n: int|
            lo <= n <= hi ==> (is_prime(n) <==> (#[trigger] marked(seg, first, n)
                || off_wheel_prime(n))),
    ensures
        prime_count_between(lo, hi) == marked_count(seg, first, lo, hi) + off_wheel_count(lo, hi),
        prime_sum_between(lo, hi) == marked_sum(seg, first, lo, hi) + off_wheel_sum(lo, hi),
    decreases hi - lo + 1,
{
    if hi >= lo {
        lemma_marks_are_primes(seg, first, lo, hi - 1);
        assert(is_prime(hi) <==> (marked(seg, first, hi) || off_wheel_prime(hi)));
        if off_wheel_prime(hi) {
            assert(!on_wheel(hi));
        }
    }
}

/// Numbers off the wheel add nothing to the marked count.
pub proof fn lemma_marks_skip(seg: Seq<u8>, first: int, lo: int, a: int, b: int)
    requires
        lo - 1 <= a <= b,
        forall|x: int| a < x <= b ==> !#[trigger] on_wheel(x),
    ensures
        marked_count(seg, first, lo, b) == marked_count(seg, first, lo, a),
        marked_sum(seg, first, lo, b) == marked_sum(seg, first, lo, a),
    decreases b - a,
{
    if b > a {
        assert(!on_wheel(b));
        lemma_marks_skip(seg, first, lo, a, b - 1);
    }
}

/// Bit `j` of byte `byte` is the only bit of the number it stands for.
pub proof fn lemma_number_at(byte: int, j: int)
    requires
        0 <= j < 8,
    ensures
        number_at(byte, j) / 30 == byte,
        number_at(byte, j) % 30 == wheel_value(j),
        wheel_slot(number_at(byte, j) % 30) == j,
        on_wheel(number_at(byte, j)),
{
    lemma_wheel_slots();
    lemma_fundamental_div_mod_converse(number_at(byte, j), 30, byte, wheel_value(j));
}

/// Counts and sums the marked numbers of the first `len` bytes of `segment`, whose first byte
/// stands for `30·first_byte`, leaving out the numbers above `last`.
pub fn count_segment(segment: &Vec<u8>, len: usize, first_byte: u64, last: u64) -> (r:
    SieveTotals)
    requires
        len <= segment@.len(),
        30 * first_byte <= last < 30 * (first_byte + len),
        30 * (first_byte + len) <= 0x1_0000_0000_0000_0000,
    ensures
        r.count == marked_count(segment@, first_byte as int, 30 * first_byte, last as int),
        r.sum_mod_2_64 == marked_sum(segment@, first_byte as int, 30 * first_byte, last as int)
            % 0x1_0000_0000_0000_0000,
{
    let ghost seg = segment@;
    let ghost first = first_byte as int;
    let ghost lo = 30 * first;
    let mut count: u64 = 0;
    let mut sum: u64 = 0;
    proof {
        lemma_mod_multiples_basic(first, 30);
        assert(lo % 30 == 0);
        assert(!on_wheel(lo));
        assert(marked_count(seg, first, lo, lo - 1) == 0);
        assert(marked_sum(seg, first, lo, lo - 1) == 0);
        assert(marked_count(seg, first, lo, lo) == 0);
        assert(marked_sum(seg, first, lo, lo) == 0);
    }
    let mut i: usize = 0;
    while i < len
        invariant
            seg == segment@,
            first == first_byte,
            lo == 30 * first,
            len <= seg.len(),
            30 * first_byte <= last < 30 * (first_byte + len),
            30 * (first_byte + len) <= 0x1_0000_0000_0000_0000,
            i <= len,
            count <= 8 * i,
            count == marked_count(seg, first, lo, if 30 * (first + i) < last {
                30 * (first + i)
            } else {
                last as int
            }),
            sum == marked_sum(seg, first, lo, if 30 * (first + i) < last {
                30 * (first + i)
            } else {
                last as int
            }) % 0x1_0000_0000_0000_0000,
        decreases len - i,
    {
        let byte = segment[i];
        let base = (first_byte + i as u64) * 30;
        let mut j: usize = 0;
        while j < 8
            invariant
                seg == segment@,
                first == first_byte,
                lo == 30 * first,
                len <= seg.len(),
                30 * first_byte <= last < 30 * (first_byte + len),
                30 * (first_byte + len) <= 0x1_0000_0000_0000_0000,
                i < len,
                byte == seg[i as int],
                base == 30 * (first + i),
                j <= 8,
                count <= 8 * i + j,
                count == marked_count(seg, first, lo, if base + upto(j as int) < last {
                    base + upto(j as int)
                } else {
                    last as int
                }),
                sum == marked_sum(seg, first, lo, if base + upto(j as int) < last {
                    base + upto(j as int)
                } else {
                    last as int
                }) % 0x1_0000_0000_0000_0000,
            decreases 8 - j,
        {
            let n = base + wheel_at(j);
            let ghost before_count = count;
            let ghost before_sum = sum;
            proof {
                lemma_number_at(first + i, j as int);
                assert(n == number_at(first + i, j as int));
                assert(n / 30 - first == i);
            }
            if n <= last && (byte >> (j as u8)) & 1 == 1 {
                count += 1;
                sum = sum.wrapping_add(n);
            }
            proof {
                let next = base + upto(j + 1);
                assert(upto(j + 1) == next_wheel_value(j as int) - 1);
                if n <= last {
                    assert(marked(seg, first, n as int) == bit_set(byte, j as int));
                    assert(marked_count(seg, first, lo, n as int) == marked_count(
                        seg,
                        first,
                        lo,
                        n - 1,
                    ) + if marked(seg, first, n as int) {
                        1nat
                    } else {
                        0nat
                    });
                    let h1 = if next < last {
                        next
                    } else {
                        last as int
                    };
                    assert forall|x: int| n < x <= h1 implies !#[trigger] on_wheel(x) by {
                        lemma_wheel_gap(n as int, j as int, x);
                    }
                    lemma_marks_skip(seg, first, lo, n as int, h1);
                    lemma_add_mod_noop(
                        marked_sum(seg, first, lo, n - 1),
                        n as int,
                        0x1_0000_0000_0000_0000,
                    );
                    lemma_mod_twice(
                        marked_sum(seg, first, lo, n - 1),
                        0x1_0000_0000_0000_0000,
                    );
                }
            }
            j += 1;
        }
        i += 1;
    }
    SieveTotals { count, sum_mod_2_64: sum }
}

/// Where the bits of the byte after residue `j` begin: just below the next residue.
spec fn upto(j: int) -> int {
    if j < 8 {
        wheel_value(j) - 1
    } else {
        30
    }
}

} // verus!
