//! Embedded reference table: π(N) and the sum of the primes up to N (modulo 2^64) per size.
//!
//! The values were computed with an independent odd-number sieve and agree with OEIS A006880
//! (π(10^k)) and A046731 (sum of the primes below 10^k).

use vstd::prelude::*;
use vstd::arithmetic::power::pow;

use crate::config::{lemma_official_values, official_labels, official_values, size_spec, Module};
use crate::text::{decimal, decimal_value, hex16, lemma_decimal_reads_back};

verus! {

/// One entry of the table.
#[derive(Clone, Debug, PartialEq, Eq)]
pub struct Entry {
    /// Limit N.
    pub n: u64,
    /// π(N).
    pub prime_count: u64,
    /// Exact sum of the primes up to N, in decimal.
    pub prime_sum: String,
    /// That sum modulo 2^64, as sixteen hexadecimal digits.
    pub prime_sum_mod_2_64: String,
}

/// The table: `(N, π(N), sum in decimal, sum modulo 2^64 in hexadecimal)`.
pub open spec fn reference_table() -> Seq<(u64, u64, Seq<char>, Seq<char>)> {
    seq![
        (100_000_000u64, 5_761_455u64, "279209790387276"@, "0000fdf0985fb44c"@),
        (1_000_000_000u64, 50_847_534u64, "24739512092254535"@, "0057e474862ce147"@),
        (10_000_000_000u64, 455_052_511u64, "2220822432581729238"@, "1ed1f23c6b40bbd6"@),
        (100_000_000_000u64, 4_118_054_813u64, "201467077743744681014"@, "ebead7ca23e88436"@),
    ]
}

/// `true` when `e` holds row `i` of the table.
pub open spec fn entry_is_row(e: Entry, i: int) -> bool {
    &&& 0 <= i < reference_table().len()
    &&& e.n == reference_table()[i].0
    &&& e.prime_count == reference_table()[i].1
    &&& e.prime_sum@ == reference_table()[i].2
    &&& e.prime_sum_mod_2_64@ == reference_table()[i].3
}

fn entry(n: u64, prime_count: u64, prime_sum: &str, hex: &str) -> (r: Entry)
    ensures
        r.n == n,
        r.prime_count == prime_count,
        r.prime_sum@ == prime_sum@,
        r.prime_sum_mod_2_64@ == hex@,
{
    Entry {
        n,
        prime_count,
        prime_sum: String::from_str(prime_sum),
        prime_sum_mod_2_64: String::from_str(hex),
    }
}

/// All entries, in increasing order of N.
pub fn entries() -> (r: Vec<Entry>)
    ensures
        r@.len() == reference_table().len(),
        forall|i: int| 0 <= i < r@.len() ==> entry_is_row(#[trigger] r@[i], i),
{
    let mut v: Vec<Entry> = Vec::new();
    v.push(entry(100_000_000, 5_761_455, "279209790387276", "0000fdf0985fb44c"));
    v.push(entry(1_000_000_000, 50_847_534, "24739512092254535", "0057e474862ce147"));
    v.push(entry(10_000_000_000, 455_052_511, "2220822432581729238", "1ed1f23c6b40bbd6"));
    v.push(entry(100_000_000_000, 4_118_054_813, "201467077743744681014", "ebead7ca23e88436"));
    v
}

/// Reference entry for `n`, if the table has one.
pub fn entry_for(n: u64) -> (r: Option<Entry>)
    ensures
        r is Some <==> exists|i: int| 0 <= i < reference_table().len() && reference_table()[i].0 == n,
        r matches Some(e) ==> e.n == n && exists|i: int| entry_is_row(e, i),
{
    let table = entries();
    let mut i: usize = 0;
    while i < table.len()
        invariant
            i <= table@.len(),
            table@.len() == reference_table().len(),
            forall|j: int| 0 <= j < table@.len() ==> entry_is_row(#[trigger] table@[j], j),
            forall|j: int| 0 <= j < i ==> reference_table()[j].0 != n,
        decreases table@.len() - i,
    {
        if table[i].n == n {
            proof {
                assert(entry_is_row(table@[i as int], i as int));
            }
            let e = entry(
                table[i].n,
                table[i].prime_count,
                table[i].prime_sum.as_str(),
                table[i].prime_sum_mod_2_64.as_str(),
            );
            proof {
                assert(entry_is_row(e, i as int));
            }
            return Some(e);
        }
        i += 1;
    }
    None
}

/// Every official size of Zeta has a row in the table for the limit that the size stands for,
/// so [`entry_for`] finds π(N) and the sum of the primes for each.
pub proof fn lemma_table_covers_official_sizes()
    ensures
        forall|i: int|
            0 <= i < official_labels(Module::Zeta).len() ==> (#[trigger] size_spec(
                Module::Zeta,
                official_labels(Module::Zeta)[i],
            ) matches Some((label, v, official)) && exists|j: int|
                0 <= j < reference_table().len() && reference_table()[j].0 == v),
{
    lemma_official_values(Module::Zeta);
    assert forall|i: int| 0 <= i < official_labels(Module::Zeta).len() implies (#[trigger] size_spec(
        Module::Zeta,
        official_labels(Module::Zeta)[i],
    ) matches Some((label, v, official)) && exists|j: int|
        0 <= j < reference_table().len() && reference_table()[j].0 == v) by {
        if i == 0 {
        } else {
        }
        assert(reference_table()[i + 1].0 == official_values(Module::Zeta)[i]);
    }
}

/// The powers of 16 that [`hex16`] divides by.
proof fn lemma_powers_of_16()
    ensures
        pow(16, 0) == 1,
        pow(16, 1) == 16,
        pow(16, 2) == 256,
        pow(16, 3) == 4096,
        pow(16, 4) == 65536,
        pow(16, 5) == 1048576,
        pow(16, 6) == 16777216,
        pow(16, 7) == 268435456,
        pow(16, 8) == 4294967296,
        pow(16, 9) == 68719476736,
        pow(16, 10) == 1099511627776,
        pow(16, 11) == 17592186044416,
        pow(16, 12) == 281474976710656,
        pow(16, 13) == 4503599627370496,
        pow(16, 14) == 72057594037927936,
        pow(16, 15) == 1152921504606846976,
{
    reveal_with_fuel(pow, 17);
}

/// A row whose decimal column is the notation of `sum` and whose hexadecimal column is that of
/// `sum` modulo 2^64 has the two columns in agreement.
proof fn lemma_columns_agree(sum: nat, dec: Seq<char>, hex: Seq<char>)
    requires
        dec == decimal(sum),
        hex == hex16((sum % 0x1_0000_0000_0000_0000) as u64),
    ensures
        hex == hex16((decimal_value(dec) % 0x1_0000_0000_0000_0000) as u64),
{
    lemma_decimal_reads_back(sum);
}

/// The decimal column of row 0 is the notation of its sum.
proof fn lemma_row_0_decimal()
    ensures
        "279209790387276"@ == decimal(279209790387276nat),
{
    reveal_strlit("279209790387276");
    let dec = "279209790387276"@;
    assert(decimal(2nat) =~= dec.take(1));
    assert(decimal(27nat) =~= dec.take(2));
    assert(decimal(279nat) =~= dec.take(3));
    assert(decimal(2792nat) =~= dec.take(4));
    assert(decimal(27920nat) =~= dec.take(5));
    assert(decimal(279209nat) =~= dec.take(6));
    assert(decimal(2792097nat) =~= dec.take(7));
    assert(decimal(27920979nat) =~= dec.take(8));
    assert(decimal(279209790nat) =~= dec.take(9));
    assert(decimal(2792097903nat) =~= dec.take(10));
    assert(decimal(27920979038nat) =~= dec.take(11));
    assert(decimal(279209790387nat) =~= dec.take(12));
    assert(decimal(2792097903872nat) =~= dec.take(13));
    assert(decimal(27920979038727nat) =~= dec.take(14));
    assert(decimal(279209790387276nat) =~= dec.take(15));
    assert(dec.take(15) =~= dec);
}

/// The hexadecimal column of row 0 is its sum modulo 2^64 in sixteen hexadecimal digits.
proof fn lemma_row_0_hex()
    ensures
        "0000fdf0985fb44c"@ == hex16((279209790387276nat % 0x1_0000_0000_0000_0000) as u64),
{
    lemma_powers_of_16();
    reveal_strlit("0000fdf0985fb44c");
    let hex = "0000fdf0985fb44c"@;
    let n: u64 = (279209790387276nat % 0x1_0000_0000_0000_0000) as u64;
    assert(n == 279209790387276u64);
    assert(hex16(n)[0] == hex[0]) by {
        assert(n as int / pow(16, 15) % 16 == 0);
    }
    assert(hex16(n)[1] == hex[1]) by {
        assert(n as int / pow(16, 14) % 16 == 0);
    }
    assert(hex16(n)[2] == hex[2]) by {
        assert(n as int / pow(16, 13) % 16 == 0);
    }
    assert(hex16(n)[3] == hex[3]) by {
        assert(n as int / pow(16, 12) % 16 == 0);
    }
    assert(hex16(n)[4] == hex[4]) by {
        assert(n as int / pow(16, 11) % 16 == 15);
    }
    assert(hex16(n)[5] == hex[5]) by {
        assert(n as int / pow(16, 10) % 16 == 13);
    }
    assert(hex16(n)[6] == hex[6]) by {
        assert(n as int / pow(16, 9) % 16 == 15);
    }
    assert(hex16(n)[7] == hex[7]) by {
        assert(n as int / pow(16, 8) % 16 == 0);
    }
    assert(hex16(n)[8] == hex[8]) by {
        assert(n as int / pow(16, 7) % 16 == 9);
    }
    assert(hex16(n)[9] == hex[9]) by {
        assert(n as int / pow(16, 6) % 16 == 8);
    }
    assert(hex16(n)[10] == hex[10]) by {
        assert(n as int / pow(16, 5) % 16 == 5);
    }
    assert(hex16(n)[11] == hex[11]) by {
        assert(n as int / pow(16, 4) % 16 == 15);
    }
    assert(hex16(n)[12] == hex[12]) by {
        assert(n as int / pow(16, 3) % 16 == 11);
    }
    assert(hex16(n)[13] == hex[13]) by {
        assert(n as int / pow(16, 2) % 16 == 4);
    }
    assert(hex16(n)[14] == hex[14]) by {
        assert(n as int / pow(16, 1) % 16 == 4);
    }
    assert(hex16(n)[15] == hex[15]) by {
        assert(n as int / pow(16, 0) % 16 == 12);
    }
    assert(hex =~= hex16(n));
}

/// Row 0 of the table has its two sum columns in agreement.
proof fn lemma_row_0_columns_agree()
    ensures
        reference_table()[0].3 == hex16(
            (decimal_value(reference_table()[0].2) % 0x1_0000_0000_0000_0000) as u64,
        ),
{
    lemma_row_0_decimal();
    lemma_row_0_hex();
    lemma_columns_agree(279209790387276nat, "279209790387276"@, "0000fdf0985fb44c"@);
}

/// The decimal column of row 1 is the notation of its sum.
proof fn lemma_row_1_decimal()
    ensures
        "24739512092254535"@ == decimal(24739512092254535nat),
{
    reveal_strlit("24739512092254535");
    let dec = "24739512092254535"@;
    assert(decimal(2nat) =~= dec.take(1));
    assert(decimal(24nat) =~= dec.take(2));
    assert(decimal(247nat) =~= dec.take(3));
    assert(decimal(2473nat) =~= dec.take(4));
    assert(decimal(24739nat) =~= dec.take(5));
    assert(decimal(247395nat) =~= dec.take(6));
    assert(decimal(2473951nat) =~= dec.take(7));
    assert(decimal(24739512nat) =~= dec.take(8));
    assert(decimal(247395120nat) =~= dec.take(9));
    assert(decimal(2473951209nat) =~= dec.take(10));
    assert(decimal(24739512092nat) =~= dec.take(11));
    assert(decimal(247395120922nat) =~= dec.take(12));
    assert(decimal(2473951209225nat) =~= dec.take(13));
    assert(decimal(24739512092254nat) =~= dec.take(14));
    assert(decimal(247395120922545nat) =~= dec.take(15));
    assert(decimal(2473951209225453nat) =~= dec.take(16));
    assert(decimal(24739512092254535nat) =~= dec.take(17));
    assert(dec.take(17) =~= dec);
}

/// The hexadecimal column of row 1 is its sum modulo 2^64 in sixteen hexadecimal digits.
proof fn lemma_row_1_hex()
    ensures
        "0057e474862ce147"@ == hex16((24739512092254535nat % 0x1_0000_0000_0000_0000) as u64),
{
    lemma_powers_of_16();
    reveal_strlit("0057e474862ce147");
    let hex = "0057e474862ce147"@;
    let n: u64 = (24739512092254535nat % 0x1_0000_0000_0000_0000) as u64;
    assert(n == 24739512092254535u64);
    assert(hex16(n)[0] == hex[0]) by {
        assert(n as int / pow(16, 15) % 16 == 0);
    }
    assert(hex16(n)[1] == hex[1]) by {
        assert(n as int / pow(16, 14) % 16 == 0);
    }
    assert(hex16(n)[2] == hex[2]) by {
        assert(n as int / pow(16, 13) % 16 == 5);
    }
    assert(hex16(n)[3] == hex[3]) by {
        assert(n as int / pow(16, 12) % 16 == 7);
    }
    assert(hex16(n)[4] == hex[4]) by {
        assert(n as int / pow(16, 11) % 16 == 14);
    }
    assert(hex16(n)[5] == hex[5]) by {
        assert(n as int / pow(16, 10) % 16 == 4);
    }
    assert(hex16(n)[6] == hex[6]) by {
        assert(n as int / pow(16, 9) % 16 == 7);
    }
    assert(hex16(n)[7] == hex[7]) by {
        assert(n as int / pow(16, 8) % 16 == 4);
    }
    assert(hex16(n)[8] == hex[8]) by {
        assert(n as int / pow(16, 7) % 16 == 8);
    }
    assert(hex16(n)[9] == hex[9]) by {
        assert(n as int / pow(16, 6) % 16 == 6);
    }
    assert(hex16(n)[10] == hex[10]) by {
        assert(n as int / pow(16, 5) % 16 == 2);
    }
    assert(hex16(n)[11] == hex[11]) by {
        assert(n as int / pow(16, 4) % 16 == 12);
    }
    assert(hex16(n)[12] == hex[12]) by {
        assert(n as int / pow(16, 3) % 16 == 14);
    }
    assert(hex16(n)[13] == hex[13]) by {
        assert(n as int / pow(16, 2) % 16 == 1);
    }
    assert(hex16(n)[14] == hex[14]) by {
        assert(n as int / pow(16, 1) % 16 == 4);
    }
    assert(hex16(n)[15] == hex[15]) by {
        assert(n as int / pow(16, 0) % 16 == 7);
    }
    assert(hex =~= hex16(n));
}

/// Row 1 of the table has its two sum columns in agreement.
proof fn lemma_row_1_columns_agree()
    ensures
        reference_table()[1].3 == hex16(
            (decimal_value(reference_table()[1].2) % 0x1_0000_0000_0000_0000) as u64,
        ),
{
    lemma_row_1_decimal();
    lemma_row_1_hex();
    lemma_columns_agree(24739512092254535nat, "24739512092254535"@, "0057e474862ce147"@);
}

/// The decimal column of row 2 is the notation of its sum.
proof fn lemma_row_2_decimal()
    ensures
        "2220822432581729238"@ == decimal(2220822432581729238nat),
{
    reveal_strlit("2220822432581729238");
    let dec = "2220822432581729238"@;
    assert(decimal(2nat) =~= dec.take(1));
    assert(decimal(22nat) =~= dec.take(2));
    assert(decimal(222nat) =~= dec.take(3));
    assert(decimal(2220nat) =~= dec.take(4));
    assert(decimal(22208nat) =~= dec.take(5));
    assert(decimal(222082nat) =~= dec.take(6));
    assert(decimal(2220822nat) =~= dec.take(7));
    assert(decimal(22208224nat) =~= dec.take(8));
    assert(decimal(222082243nat) =~= dec.take(9));
    assert(decimal(2220822432nat) =~= dec.take(10));
    assert(decimal(22208224325nat) =~= dec.take(11));
    assert(decimal(222082243258nat) =~= dec.take(12));
    assert(decimal(2220822432581nat) =~= dec.take(13));
    assert(decimal(22208224325817nat) =~= dec.take(14));
    assert(decimal(222082243258172nat) =~= dec.take(15));
    assert(decimal(2220822432581729nat) =~= dec.take(16));
    assert(decimal(22208224325817292nat) =~= dec.take(17));
    assert(decimal(222082243258172923nat) =~= dec.take(18));
    assert(decimal(2220822432581729238nat) =~= dec.take(19));
    assert(dec.take(19) =~= dec);
}

/// The hexadecimal column of row 2 is its sum modulo 2^64 in sixteen hexadecimal digits.
proof fn lemma_row_2_hex()
    ensures
        "1ed1f23c6b40bbd6"@ == hex16((2220822432581729238nat % 0x1_0000_0000_0000_0000) as u64),
{
    lemma_powers_of_16();
    reveal_strlit("1ed1f23c6b40bbd6");
    let hex = "1ed1f23c6b40bbd6"@;
    let n: u64 = (2220822432581729238nat % 0x1_0000_0000_0000_0000) as u64;
    assert(n == 2220822432581729238u64);
    assert(hex16(n)[0] == hex[0]) by {
        assert(n as int / pow(16, 15) % 16 == 1);
    }
    assert(hex16(n)[1] == hex[1]) by {
        assert(n as int / pow(16, 14) % 16 == 14);
    }
    assert(hex16(n)[2] == hex[2]) by {
        assert(n as int / pow(16, 13) % 16 == 13);
    }
    assert(hex16(n)[3] == hex[3]) by {
        assert(n as int / pow(16, 12) % 16 == 1);
    }
    assert(hex16(n)[4] == hex[4]) by {
        assert(n as int / pow(16, 11) % 16 == 15);
    }
    assert(hex16(n)[5] == hex[5]) by {
        assert(n as int / pow(16, 10) % 16 == 2);
    }
    assert(hex16(n)[6] == hex[6]) by {
        assert(n as int / pow(16, 9) % 16 == 3);
    }
    assert(hex16(n)[7] == hex[7]) by {
        assert(n as int / pow(16, 8) % 16 == 12);
    }
    assert(hex16(n)[8] == hex[8]) by {
        assert(n as int / pow(16, 7) % 16 == 6);
    }
    assert(hex16(n)[9] == hex[9]) by {
        assert(n as int / pow(16, 6) % 16 == 11);
    }
    assert(hex16(n)[10] == hex[10]) by {
        assert(n as int / pow(16, 5) % 16 == 4);
    }
    assert(hex16(n)[11] == hex[11]) by {
        assert(n as int / pow(16, 4) % 16 == 0);
    }
    assert(hex16(n)[12] == hex[12]) by {
        assert(n as int / pow(16, 3) % 16 == 11);
    }
    assert(hex16(n)[13] == hex[13]) by {
        assert(n as int / pow(16, 2) % 16 == 11);
    }
    assert(hex16(n)[14] == hex[14]) by {
        assert(n as int / pow(16, 1) % 16 == 13);
    }
    assert(hex16(n)[15] == hex[15]) by {
        assert(n as int / pow(16, 0) % 16 == 6);
    }
    assert(hex =~= hex16(n));
}

/// Row 2 of the table has its two sum columns in agreement.
proof fn lemma_row_2_columns_agree()
    ensures
        reference_table()[2].3 == hex16(
            (decimal_value(reference_table()[2].2) % 0x1_0000_0000_0000_0000) as u64,
        ),
{
    lemma_row_2_decimal();
    lemma_row_2_hex();
    lemma_columns_agree(2220822432581729238nat, "2220822432581729238"@, "1ed1f23c6b40bbd6"@);
}

/// The decimal column of row 3 is the notation of its sum.
proof fn lemma_row_3_decimal()
    ensures
        "201467077743744681014"@ == decimal(201467077743744681014nat),
{
    reveal_strlit("201467077743744681014");
    let dec = "201467077743744681014"@;
    assert(decimal(2nat) =~= dec.take(1));
    assert(decimal(20nat) =~= dec.take(2));
    assert(decimal(201nat) =~= dec.take(3));
    assert(decimal(2014nat) =~= dec.take(4));
    assert(decimal(20146nat) =~= dec.take(5));
    assert(decimal(201467nat) =~= dec.take(6));
    assert(decimal(2014670nat) =~= dec.take(7));
    assert(decimal(20146707nat) =~= dec.take(8));
    assert(decimal(201467077nat) =~= dec.take(9));
    assert(decimal(2014670777nat) =~= dec.take(10));
    assert(decimal(20146707774nat) =~= dec.take(11));
    assert(decimal(201467077743nat) =~= dec.take(12));
    assert(decimal(2014670777437nat) =~= dec.take(13));
    assert(decimal(20146707774374nat) =~= dec.take(14));
    assert(decimal(201467077743744nat) =~= dec.take(15));
    assert(decimal(2014670777437446nat) =~= dec.take(16));
    assert(decimal(20146707774374468nat) =~= dec.take(17));
    assert(decimal(201467077743744681nat) =~= dec.take(18));
    assert(decimal(2014670777437446810nat) =~= dec.take(19));
    assert(decimal(20146707774374468101nat) =~= dec.take(20));
    assert(decimal(201467077743744681014nat) =~= dec.take(21));
    assert(dec.take(21) =~= dec);
}

/// The hexadecimal column of row 3 is its sum modulo 2^64 in sixteen hexadecimal digits.
proof fn lemma_row_3_hex()
    ensures
        "ebead7ca23e88436"@ == hex16((201467077743744681014nat % 0x1_0000_0000_0000_0000) as u64),
{
    lemma_powers_of_16();
    reveal_strlit("ebead7ca23e88436");
    let hex = "ebead7ca23e88436"@;
    let n: u64 = (201467077743744681014nat % 0x1_0000_0000_0000_0000) as u64;
    assert(n == 16999637006649164854u64);
    assert(hex16(n)[0] == hex[0]) by {
        assert(n as int / pow(16, 15) % 16 == 14);
    }
    assert(hex16(n)[1] == hex[1]) by {
        assert(n as int / pow(16, 14) % 16 == 11);
    }
    assert(hex16(n)[2] == hex[2]) by {
        assert(n as int / pow(16, 13) % 16 == 14);
    }
    assert(hex16(n)[3] == hex[3]) by {
        assert(n as int / pow(16, 12) % 16 == 10);
    }
    assert(hex16(n)[4] == hex[4]) by {
        assert(n as int / pow(16, 11) % 16 == 13);
    }
    assert(hex16(n)[5] == hex[5]) by {
        assert(n as int / pow(16, 10) % 16 == 7);
    }
    assert(hex16(n)[6] == hex[6]) by {
        assert(n as int / pow(16, 9) % 16 == 12);
    }
    assert(hex16(n)[7] == hex[7]) by {
        assert(n as int / pow(16, 8) % 16 == 10);
    }
    assert(hex16(n)[8] == hex[8]) by {
        assert(n as int / pow(16, 7) % 16 == 2);
    }
    assert(hex16(n)[9] == hex[9]) by {
        assert(n as int / pow(16, 6) % 16 == 3);
    }
    assert(hex16(n)[10] == hex[10]) by {
        assert(n as int / pow(16, 5) % 16 == 14);
    }
    assert(hex16(n)[11] == hex[11]) by {
        assert(n as int / pow(16, 4) % 16 == 8);
    }
    assert(hex16(n)[12] == hex[12]) by {
        assert(n as int / pow(16, 3) % 16 == 8);
    }
    assert(hex16(n)[13] == hex[13]) by {
        assert(n as int / pow(16, 2) % 16 == 4);
    }
    assert(hex16(n)[14] == hex[14]) by {
        assert(n as int / pow(16, 1) % 16 == 3);
    }
    assert(hex16(n)[15] == hex[15]) by {
        assert(n as int / pow(16, 0) % 16 == 6);
    }
    assert(hex =~= hex16(n));
}

/// Row 3 of the table has its two sum columns in agreement.
proof fn lemma_row_3_columns_agree()
    ensures
        reference_table()[3].3 == hex16(
            (decimal_value(reference_table()[3].2) % 0x1_0000_0000_0000_0000) as u64,
        ),
{
    lemma_row_3_decimal();
    lemma_row_3_hex();
    lemma_columns_agree(201467077743744681014nat, "201467077743744681014"@, "ebead7ca23e88436"@);
}

/// In every row, the hexadecimal column that [`crate::zeta::verify`] compares with is the exact
/// sum of the primes in the decimal column, reduced modulo 2^64 and written as [`hex16`] writes
/// it: the two columns cannot drift apart.
pub proof fn lemma_hex_column_matches_sum()
    ensures
        forall|i: int|
            0 <= i < reference_table().len() ==> #[trigger] reference_table()[i].3 == hex16(
                (decimal_value(reference_table()[i].2) % 0x1_0000_0000_0000_0000) as u64,
            ),
{
    lemma_row_0_columns_agree();
    lemma_row_1_columns_agree();
    lemma_row_2_columns_agree();
    lemma_row_3_columns_agree();
    assert forall|i: int| 0 <= i < reference_table().len() implies #[trigger] reference_table()[i].3
        == hex16((decimal_value(reference_table()[i].2) % 0x1_0000_0000_0000_0000) as u64) by {
        if i == 0 {
        } else if i == 1 {
        } else if i == 2 {
        } else {
        }
    }
}

} // verus!
