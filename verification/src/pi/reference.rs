//! Embedded reference table: SHA-256 of the first D decimals of Pi per size.
//!
//! The digests were computed with an independent Chudnovsky series on arbitrary-precision
//! decimals, which shares nothing with the FFT of the Pi module.

use vstd::prelude::*;

use crate::config::{lemma_official_values, official_labels, official_values, size_spec, Module};

verus! {

/// One entry of the table.
#[derive(Clone, Debug, PartialEq, Eq)]
pub struct Entry {
    /// Label (`1M`).
    pub label: String,
    /// Number of decimals.
    pub digits: u64,
    /// Hexadecimal SHA-256 of the first `digits` decimals in ASCII.
    pub sha256: String,
    /// Last 20 decimals, to compare by eye.
    pub last_digits: String,
}

/// The table: `(label, decimals, SHA-256 of the decimals, last 20 decimals)`.
pub open spec fn reference_table() -> Seq<(Seq<char>, u64, Seq<char>, Seq<char>)> {
    seq![
        ("16K"@, 16_384u64, "7e0fbde2cdea91d86396eb8d585cd07267460ca7b22871d2985dc0568e3cbd9b"@, "31002797665935838758"@),
        ("32K"@, 32_768u64, "ef215fb31d300d51ba7817735f8b614897313d16b7253a242072e39336fbec0b"@, "53471885372293096161"@),
        ("64K"@, 65_536u64, "1654e3aaf15083b22841608f39ce0533724f5afc57b3332cc0f40c6c13274044"@, "54302210909472721073"@),
        ("128K"@, 131_072u64, "adb3261f4cdd37f5c0074920e64a3fc9d1675280c05a11c097eab256ec94d1ed"@, "27594750178122678581"@),
        ("256K"@, 262_144u64, "0fe92c3203bc1a034ae1f1a169ad3585020438d26dd4e5ae4750021eb2dae865"@, "74841548524687471869"@),
        ("512K"@, 524_288u64, "b2f02b62d35d62d05eba866342eab6fff0860abb37467fcc26efd911355a9fe1"@, "69678446051551761653"@),
        ("1M"@, 1_048_576u64, "f09ba8137bd6aa789764f666c119b58db5cd7d313ed8be7967af230cb1bd44b1"@, "33170994591637429204"@),
        ("2M"@, 2_097_152u64, "255c1ccf090905850d107cd57438f3d1e362b5c5b55043aa54ce45f3fc47c96b"@, "63207750323664312379"@),
        ("4M"@, 4_194_304u64, "e346ccbe066c59a70aa0f9d1b1f65e0d1a0b6a896d19e41fa73630c8009175ed"@, "80258565140638311120"@),
        ("8M"@, 8_388_608u64, "96fdc3cd30fa04b038b5e30adfd6353c58b7cb19dc771bb0c2656e471ab49534"@, "17423342216340425119"@),
        ("16M"@, 16_777_216u64, "65ca4431b92e284febbd187790f0ccb03287ba43bf8c76b3cc0fa736b52424fb"@, "28229791155273188571"@),
        ("32M"@, 33_554_432u64, "3ed4c8bbd858967342e3d883e2037165280ec2a62e81395a0f3af666d89c103e"@, "49255830905226097306"@),
    ]
}

/// `true` when `e` holds row `i` of the table.
pub open spec fn entry_is_row(e: Entry, i: int) -> bool {
    &&& 0 <= i < reference_table().len()
    &&& e.label@ == reference_table()[i].0
    &&& e.digits == reference_table()[i].1
    &&& e.sha256@ == reference_table()[i].2
    &&& e.last_digits@ == reference_table()[i].3
}

fn entry(label: &str, digits: u64, sha256: &str, last_digits: &str) -> (r: Entry)
    ensures
        r.label@ == label@,
        r.digits == digits,
        r.sha256@ == sha256@,
        r.last_digits@ == last_digits@,
{
    Entry {
        label: String::from_str(label),
        digits,
        sha256: String::from_str(sha256),
        last_digits: String::from_str(last_digits),
    }
}

/// All entries, in increasing order of size.
pub fn entries() -> (r: Vec<Entry>)
    ensures
        r@.len() == reference_table().len(),
        forall|i: int| 0 <= i < r@.len() ==> entry_is_row(#[trigger] r@[i], i),
{
    let mut v: Vec<Entry> = Vec::new();
    v.push(entry("16K", 16_384, "7e0fbde2cdea91d86396eb8d585cd07267460ca7b22871d2985dc0568e3cbd9b", "31002797665935838758"));
    v.push(entry("32K", 32_768, "ef215fb31d300d51ba7817735f8b614897313d16b7253a242072e39336fbec0b", "53471885372293096161"));
    v.push(entry("64K", 65_536, "1654e3aaf15083b22841608f39ce0533724f5afc57b3332cc0f40c6c13274044", "54302210909472721073"));
    v.push(entry("128K", 131_072, "adb3261f4cdd37f5c0074920e64a3fc9d1675280c05a11c097eab256ec94d1ed", "27594750178122678581"));
    v.push(entry("256K", 262_144, "0fe92c3203bc1a034ae1f1a169ad3585020438d26dd4e5ae4750021eb2dae865", "74841548524687471869"));
    v.push(entry("512K", 524_288, "b2f02b62d35d62d05eba866342eab6fff0860abb37467fcc26efd911355a9fe1", "69678446051551761653"));
    v.push(entry("1M", 1_048_576, "f09ba8137bd6aa789764f666c119b58db5cd7d313ed8be7967af230cb1bd44b1", "33170994591637429204"));
    v.push(entry("2M", 2_097_152, "255c1ccf090905850d107cd57438f3d1e362b5c5b55043aa54ce45f3fc47c96b", "63207750323664312379"));
    v.push(entry("4M", 4_194_304, "e346ccbe066c59a70aa0f9d1b1f65e0d1a0b6a896d19e41fa73630c8009175ed", "80258565140638311120"));
    v.push(entry("8M", 8_388_608, "96fdc3cd30fa04b038b5e30adfd6353c58b7cb19dc771bb0c2656e471ab49534", "17423342216340425119"));
    v.push(entry("16M", 16_777_216, "65ca4431b92e284febbd187790f0ccb03287ba43bf8c76b3cc0fa736b52424fb", "28229791155273188571"));
    v.push(entry("32M", 33_554_432, "3ed4c8bbd858967342e3d883e2037165280ec2a62e81395a0f3af666d89c103e", "49255830905226097306"));
    v
}

/// Expected SHA-256 for `digits` decimals, if the table has it.
pub fn sha256_for(digits: u64) -> (r: Option<String>)
    ensures
        r is Some <==> exists|i: int| 0 <= i < reference_table().len() && reference_table()[i].1 == digits,
        r matches Some(s) ==> exists|i: int|
            0 <= i < reference_table().len() && reference_table()[i].1 == digits && s@
                == reference_table()[i].2,
{
    let table = entries();
    let mut i: usize = 0;
    while i < table.len()
        invariant
            i <= table@.len(),
            table@.len() == reference_table().len(),
            forall|j: int| 0 <= j < table@.len() ==> entry_is_row(#[trigger] table@[j], j),
            forall|j: int| 0 <= j < i ==> reference_table()[j].1 != digits,
        decreases table@.len() - i,
    {
        if table[i].digits == digits {
            proof {
                assert(entry_is_row(table@[i as int], i as int));
            }
            return Some(String::from_str(table[i].sha256.as_str()));
        }
        i += 1;
    }
    None
}

/// Every official size of Pi has a row in the table, under its own label and with the number
/// of decimals that the size stands for, so [`sha256_for`] finds a digest for each.
pub proof fn lemma_table_covers_official_sizes()
    ensures
        forall|i: int|
            0 <= i < official_labels(Module::Pi).len() ==> (#[trigger] size_spec(
                Module::Pi,
                official_labels(Module::Pi)[i],
            ) matches Some((label, v, official)) && exists|j: int|
                0 <= j < reference_table().len() && reference_table()[j].0 == label
                    && reference_table()[j].1 == v),
{
    lemma_official_values(Module::Pi);
    assert forall|i: int| 0 <= i < official_labels(Module::Pi).len() implies (#[trigger] size_spec(
        Module::Pi,
        official_labels(Module::Pi)[i],
    ) matches Some((label, v, official)) && exists|j: int|
        0 <= j < reference_table().len() && reference_table()[j].0 == label
            && reference_table()[j].1 == v) by {
        if i == 0 {
        } else if i == 1 {
        } else if i == 2 {
        } else if i == 3 {
        } else if i == 4 {
        } else if i == 5 {
        } else if i == 6 {
        } else if i == 7 {
        } else if i == 8 {
        } else if i == 9 {
        } else if i == 10 {
        } else {
        }
        assert(reference_table()[i].0 == official_labels(Module::Pi)[i]);
        assert(reference_table()[i].1 == official_values(Module::Pi)[i]);
    }
}

} // verus!
