//! Text helpers: characters of a string, trimming, ASCII case, decimal and hexadecimal numbers.
//!
//! Everything that the configuration parser and the report formatters need is specified here
//! over `Seq<char>`.

use vstd::arithmetic::power::*;
use vstd::prelude::*;
use vstd::string::StrSliceExecFns;

use crate::positional::{horner, lemma_horner_take_step};

verus! {

/// Appends one character; `String::push` has no specification in vstd.
#[verifier::external_body]
pub(crate) fn push_char(s: &mut String, c: char)
    ensures
        final(s)@ == old(s)@.push(c),
{
    s.push(c);
}

/// The ASCII character of decimal digit `d`.
pub open spec fn spec_digit_char(d: int) -> char {
    (48 + d) as char
}

/// The ASCII character of decimal digit `d`.
pub fn digit_char(d: u32) -> (c: char)
    requires
        d < 10,
    ensures
        c == spec_digit_char(d as int),
{
    ((48u8 + d as u8) as char)
}

/// The characters of `s`, one by one.
pub fn chars_of(s: &str) -> (r: Vec<char>)
    ensures
        r@ == s@,
{
    let n = s.unicode_len();
    let mut out: Vec<char> = Vec::new();
    let mut i: usize = 0;
    while i < n
        invariant
            n == s@.len(),
            i <= n,
            out@ == s@.take(i as int),
        decreases n - i,
    {
        out.push(s.get_char(i));
        i += 1;
        proof {
            assert(out@ =~= s@.take(i as int));
        }
    }
    proof {
        assert(s@.take(n as int) =~= s@);
    }
    out
}

/// A string holding exactly the characters of `chars`.
pub fn string_of(chars: &Vec<char>) -> (r: String)
    ensures
        r@ == chars@,
{
    let mut out = String::new();
    let mut i: usize = 0;
    while i < chars.len()
        invariant
            i <= chars@.len(),
            out@ == chars@.take(i as int),
        decreases chars@.len() - i,
    {
        push_char(&mut out, chars[i]);
        i += 1;
        proof {
            assert(out@ =~= chars@.take(i as int));
        }
    }
    proof {
        assert(chars@.take(chars@.len() as int) =~= chars@);
    }
    out
}

/// Appends the characters of `s`.
pub fn push_str(out: &mut String, s: &str)
    ensures
        final(out)@ == old(out)@ + s@,
{
    let chars = chars_of(s);
    let mut i: usize = 0;
    let ghost start = out@;
    while i < chars.len()
        invariant
            i <= chars@.len(),
            chars@ == s@,
            out@ == start + chars@.take(i as int),
        decreases chars@.len() - i,
    {
        push_char(out, chars[i]);
        i += 1;
        proof {
            assert(out@ =~= start + chars@.take(i as int));
        }
    }
    proof {
        assert(chars@.take(chars@.len() as int) =~= chars@);
    }
}

/// Unicode `White_Space`, the set that `str::trim` removes.
pub open spec fn is_white(c: char) -> bool {
    let x = c as int;
    ||| 9 <= x <= 13
    ||| x == 32
    ||| x == 0x85
    ||| x == 0xA0
    ||| x == 0x1680
    ||| 0x2000 <= x <= 0x200A
    ||| x == 0x2028
    ||| x == 0x2029
    ||| x == 0x202F
    ||| x == 0x205F
    ||| x == 0x3000
}

/// Unicode `White_Space`.
pub fn white(c: char) -> (r: bool)
    ensures
        r == is_white(c),
{
    let x = c as u32;
    (9 <= x && x <= 13) || x == 32 || x == 0x85 || x == 0xA0 || x == 0x1680 || (0x2000 <= x && x
        <= 0x200A) || x == 0x2028 || x == 0x2029 || x == 0x202F || x == 0x205F || x == 0x3000
}

/// `s` without its leading white space.
pub open spec fn trim_start(s: Seq<char>) -> Seq<char>
    decreases s.len(),
{
    if s.len() > 0 && is_white(s[0]) {
        trim_start(s.skip(1))
    } else {
        s
    }
}

/// `s` without its trailing white space.
pub open spec fn trim_end(s: Seq<char>) -> Seq<char>
    decreases s.len(),
{
    if s.len() > 0 && is_white(s.last()) {
        trim_end(s.drop_last())
    } else {
        s
    }
}

/// `s` without leading or trailing white space, as `str::trim`.
pub open spec fn trim(s: Seq<char>) -> Seq<char> {
    trim_end(trim_start(s))
}

proof fn lemma_trim_start(s: Seq<char>, i: int)
    requires
        0 <= i <= s.len(),
        forall|k: int| 0 <= k < i ==> is_white(#[trigger] s[k]),
        i == s.len() || !is_white(s[i]),
    ensures
        trim_start(s) == s.skip(i),
    decreases i,
{
    if i == 0 {
        assert(s.skip(0) =~= s);
    } else {
        let t = s.skip(1);
        assert forall|k: int| 0 <= k < i - 1 implies is_white(#[trigger] t[k]) by {
            assert(t[k] == s[k + 1]);
        }
        lemma_trim_start(t, i - 1);
        assert(t.skip(i - 1) =~= s.skip(i));
    }
}

proof fn lemma_trim_end(s: Seq<char>, j: int)
    requires
        0 <= j <= s.len(),
        forall|k: int| j <= k < s.len() ==> is_white(#[trigger] s[k]),
        j == 0 || !is_white(s[j - 1]),
    ensures
        trim_end(s) == s.take(j),
    decreases s.len() - j,
{
    if j == s.len() {
        assert(s.take(j) =~= s);
    } else {
        let t = s.drop_last();
        assert forall|k: int| j <= k < t.len() implies is_white(#[trigger] t[k]) by {
            assert(t[k] == s[k]);
        }
        lemma_trim_end(t, j);
        assert(t.take(j) =~= s.take(j));
    }
}

/// The characters of `s` without leading or trailing white space.
pub fn trim_chars(s: &Vec<char>) -> (r: Vec<char>)
    ensures
        r@ == trim(s@),
{
    let n = s.len();
    let mut i: usize = 0;
    while i < n && white(s[i])
        invariant
            n == s@.len(),
            i <= n,
            forall|k: int| 0 <= k < i ==> is_white(#[trigger] s@[k]),
        decreases n - i,
    {
        i += 1;
    }
    let mut j: usize = n;
    while j > i && white(s[j - 1])
        invariant
            n == s@.len(),
            i <= j <= n,
            forall|k: int| j <= k < n ==> is_white(#[trigger] s@[k]),
        decreases j,
    {
        j -= 1;
    }
    let mut out: Vec<char> = Vec::new();
    let mut k = i;
    while k < j
        invariant
            i <= k <= j,
            j <= n,
            n == s@.len(),
            out@ == s@.subrange(i as int, k as int),
        decreases j - k,
    {
        out.push(s[k]);
        k += 1;
        proof {
            assert(out@ =~= s@.subrange(i as int, k as int));
        }
    }
    proof {
        lemma_trim_start(s@, i as int);
        let t = s@.skip(i as int);
        assert forall|k: int| j - i <= k < t.len() implies is_white(#[trigger] t[k]) by {
            assert(t[k] == s@[k + i]);
        }
        if j > i {
            assert(t[j - i - 1] == s@[j - 1]);
        }
        lemma_trim_end(t, j - i);
        assert(t.take(j - i) =~= s@.subrange(i as int, j as int));
    }
    out
}

/// ASCII upper case of one character.
pub open spec fn upper_char(c: char) -> char {
    if 97 <= c as int <= 122 {
        (c as int - 32) as char
    } else {
        c
    }
}

/// ASCII lower case of one character.
pub open spec fn lower_char(c: char) -> char {
    if 65 <= c as int <= 90 {
        (c as int + 32) as char
    } else {
        c
    }
}

/// `s` in ASCII upper case, as `str::to_ascii_uppercase`.
pub open spec fn ascii_upper(s: Seq<char>) -> Seq<char> {
    s.map_values(|c: char| upper_char(c))
}

/// `s` in ASCII lower case, as `str::to_ascii_lowercase`.
pub open spec fn ascii_lower(s: Seq<char>) -> Seq<char> {
    s.map_values(|c: char| lower_char(c))
}

/// ASCII upper case of every character.
pub fn upper_chars(s: &Vec<char>) -> (r: Vec<char>)
    ensures
        r@ == ascii_upper(s@),
{
    let mut out: Vec<char> = Vec::new();
    let mut i: usize = 0;
    while i < s.len()
        invariant
            i <= s@.len(),
            out@ == ascii_upper(s@.take(i as int)),
        decreases s@.len() - i,
    {
        let c = s[i];
        let x = c as u32;
        let u = if 97 <= x && x <= 122 {
            ((x - 32) as u8) as char
        } else {
            c
        };
        out.push(u);
        i += 1;
        proof {
            assert(out@ =~= ascii_upper(s@.take(i as int)));
        }
    }
    proof {
        assert(s@.take(s@.len() as int) =~= s@);
    }
    out
}

/// ASCII lower case of every character.
pub fn lower_chars(s: &Vec<char>) -> (r: Vec<char>)
    ensures
        r@ == ascii_lower(s@),
{
    let mut out: Vec<char> = Vec::new();
    let mut i: usize = 0;
    while i < s.len()
        invariant
            i <= s@.len(),
            out@ == ascii_lower(s@.take(i as int)),
        decreases s@.len() - i,
    {
        let c = s[i];
        let x = c as u32;
        let u = if 65 <= x && x <= 90 {
            ((x + 32) as u8) as char
        } else {
            c
        };
        out.push(u);
        i += 1;
        proof {
            assert(out@ =~= ascii_lower(s@.take(i as int)));
        }
    }
    proof {
        assert(s@.take(s@.len() as int) =~= s@);
    }
    out
}

/// Code point of a character.
pub fn char_code(c: char) -> (r: u32)
    ensures
        r == c as int,
{
    c as u32
}

/// `true` for the ASCII digits `0`–`9`.
pub open spec fn is_digit(c: char) -> bool {
    48 <= c as int <= 57
}

/// Value of a decimal digit character.
pub open spec fn digit_value(c: char) -> int {
    c as int - 48
}

/// Value of a string of decimal digits.
pub open spec fn decimal_value(s: Seq<char>) -> int {
    horner(s.map_values(|c: char| digit_value(c)), 10)
}

/// The digits that `u64::from_str` reads: an optional leading `+` is skipped.
pub open spec fn unsigned_digits(s: Seq<char>) -> Seq<char> {
    if s.len() > 0 && s[0] == '+' {
        s.skip(1)
    } else {
        s
    }
}

/// What `u64::from_str` accepts: an optional `+`, at least one ASCII digit and nothing else,
/// with a value that fits in 64 bits.
pub open spec fn parse_u64_spec(s: Seq<char>) -> Option<u64> {
    let d = unsigned_digits(s);
    if d.len() > 0 && (forall|i: int| 0 <= i < d.len() ==> is_digit(#[trigger] d[i]))
        && decimal_value(d) <= u64::MAX {
        Some(decimal_value(d) as u64)
    } else {
        None
    }
}

proof fn lemma_decimal_prefix_grows(d: Seq<char>, k: int)
    requires
        0 <= k <= d.len(),
        forall|i: int| 0 <= i < d.len() ==> is_digit(#[trigger] d[i]),
    ensures
        decimal_value(d.take(k)) <= decimal_value(d),
        decimal_value(d.take(k)) >= 0,
    decreases d.len() - k,
{
    let v = d.map_values(|c: char| digit_value(c));
    if k == d.len() {
        assert(d.take(k) =~= d);
        lemma_decimal_nonneg(d);
    } else {
        lemma_decimal_prefix_grows(d, k + 1);
        lemma_horner_take_step(v, 10, k);
        assert(d.take(k + 1).map_values(|c: char| digit_value(c)) =~= v.take(k + 1));
        assert(d.take(k).map_values(|c: char| digit_value(c)) =~= v.take(k));
        lemma_decimal_nonneg(d.take(k));
    }
}

proof fn lemma_decimal_nonneg(d: Seq<char>)
    requires
        forall|i: int| 0 <= i < d.len() ==> is_digit(#[trigger] d[i]),
    ensures
        decimal_value(d) >= 0,
    decreases d.len(),
{
    if d.len() > 0 {
        let t = d.drop_last();
        assert(d.map_values(|c: char| digit_value(c)).drop_last() =~= t.map_values(
            |c: char| digit_value(c),
        ));
        lemma_decimal_nonneg(t);
    }
}

/// Parses an unsigned 64-bit integer exactly as `u64::from_str` does; `None` on any error.
pub fn parse_u64(s: &Vec<char>) -> (r: Option<u64>)
    ensures
        r == parse_u64_spec(s@),
{
    let n = s.len();
    let start: usize = if n > 0 && s[0] == '+' {
        1
    } else {
        0
    };
    let ghost d = unsigned_digits(s@);
    proof {
        assert(d =~= s@.skip(start as int));
    }
    if start >= n {
        return None;
    }
    let mut i = start;
    while i < n
        invariant
            start <= i <= n,
            n == s@.len(),
            d == s@.skip(start as int),
            d == unsigned_digits(s@),
            forall|k: int| 0 <= k < i - start ==> is_digit(#[trigger] d[k]),
        decreases n - i,
    {
        let x = char_code(s[i]);
        proof {
            assert(d[i - start] == s@[i as int]);
        }
        if !(48 <= x && x <= 57) {
            proof {
                assert(!is_digit(d[i - start]));
            }
            return None;
        }
        i += 1;
    }
    let mut value: u64 = 0;
    let mut k = start;
    let ghost v = d.map_values(|c: char| digit_value(c));
    proof {
        assert(d.take(0).map_values(|c: char| digit_value(c)) =~= Seq::<int>::empty());
    }
    while k < n
        invariant
            start <= k <= n,
            n == s@.len(),
            d == s@.skip(start as int),
            d == unsigned_digits(s@),
            d.len() == n - start,
            v == d.map_values(|c: char| digit_value(c)),
            forall|j: int| 0 <= j < d.len() ==> is_digit(#[trigger] d[j]),
            value == decimal_value(d.take(k - start)),
        decreases n - k,
    {
        proof {
            assert(d[k - start] == s@[k as int]);
            assert(is_digit(d[k - start]));
        }
        let digit = (char_code(s[k]) - 48) as u64;
        proof {
            lemma_horner_take_step(v, 10, k - start);
            assert(d.take(k - start + 1).map_values(|c: char| digit_value(c)) =~= v.take(
                k - start + 1,
            ));
            assert(d.take(k - start).map_values(|c: char| digit_value(c)) =~= v.take(k - start));
            assert(d[k - start] == s@[k as int]);
            lemma_decimal_prefix_grows(d, k - start + 1);
        }
        match value.checked_mul(10) {
            Some(t) => match t.checked_add(digit) {
                Some(u) => {
                    value = u;
                },
                None => {
                    return None;
                },
            },
            None => {
                return None;
            },
        }
        k += 1;
    }
    proof {
        assert(d.take(n - start) =~= d);
    }
    Some(value)
}

/// Decimal notation of `n`, without leading zeros.
pub open spec fn decimal(n: nat) -> Seq<char>
    decreases n,
{
    if n < 10 {
        seq![spec_digit_char(n as int)]
    } else {
        decimal(n / 10).push(spec_digit_char((n % 10) as int))
    }
}

/// Appends the decimal notation of `n`.
pub fn push_decimal(out: &mut String, n: u64)
    ensures
        final(out)@ == old(out)@ + decimal(n as nat),
    decreases n,
{
    if n >= 10 {
        push_decimal(out, n / 10);
    }
    push_char(out, digit_char((n % 10) as u32));
    proof {
        if n >= 10 {
            assert(old(out)@ + decimal(n as nat) =~= old(out)@ + decimal((n / 10) as nat) + seq![
                spec_digit_char((n % 10) as int),
            ]);
        } else {
            assert(old(out)@ + decimal(n as nat) =~= old(out)@ + seq![spec_digit_char(n as int)]);
        }
    }
}

/// Decimal notation of `n`, as `u64::to_string`.
pub fn decimal_text(n: u64) -> (r: String)
    ensures
        r@ == decimal(n as nat),
{
    let mut out = String::new();
    push_decimal(&mut out, n);
    proof {
        assert(out@ =~= decimal(n as nat));
    }
    out
}

/// Decimal notation of `n`, padded on the left with zeros to at least `width` characters.
pub open spec fn padded_decimal(n: nat, width: nat) -> Seq<char> {
    let d = decimal(n);
    if d.len() < width {
        Seq::new((width - d.len()) as nat, |i: int| '0') + d
    } else {
        d
    }
}

/// Number of characters of `decimal(n)`.
pub fn decimal_len(n: u64) -> (r: usize)
    ensures
        r == decimal(n as nat).len(),
    decreases n,
{
    proof {
        assert(u64::MAX < pow(10, 20)) by {
            reveal_with_fuel(pow, 21);
        }
        lemma_decimal_len(n as nat, 20);
    }
    if n < 10 {
        1
    } else {
        proof {
            assert(pow(10, 20) == 10 * pow(10, 19)) by {
                reveal(pow);
            }
            lemma_decimal_len((n / 10) as nat, 19);
        }
        decimal_len(n / 10) + 1
    }
}

proof fn lemma_decimal_len(n: nat, k: nat)
    requires
        k >= 1,
        n < pow(10, k),
    ensures
        decimal(n).len() <= k,
    decreases n,
{
    if n >= 10 {
        reveal(pow);
        assert(pow(10, k) == 10 * pow(10, (k - 1) as nat));
        if k == 1 {
            assert(pow(10, 0) == 1);
        } else {
            lemma_decimal_len(n / 10, (k - 1) as nat);
        }
    }
}

/// Appends `n` in decimal, zero-padded to `width` characters, as `format!("{n:0width$}")`.
pub fn push_padded_decimal(out: &mut String, n: u64, width: usize)
    ensures
        final(out)@ == old(out)@ + padded_decimal(n as nat, width as nat),
{
    let len = decimal_len(n);
    let ghost start = out@;
    if len < width {
        let mut i: usize = 0;
        while i < width - len
            invariant
                len < width,
                i <= width - len,
                out@ == start + Seq::new(i as nat, |k: int| '0'),
            decreases width - len - i,
        {
            push_char(out, '0');
            i += 1;
            proof {
                assert(out@ =~= start + Seq::new(i as nat, |k: int| '0'));
            }
        }
    }
    let ghost mid = out@;
    push_decimal(out, n);
    proof {
        assert(out@ =~= start + padded_decimal(n as nat, width as nat));
    }
}

/// Lower-case hexadecimal digit character.
pub open spec fn hex_char(d: int) -> char {
    if d < 10 {
        (48 + d) as char
    } else {
        (87 + d) as char
    }
}

/// Sixteen lower-case hexadecimal digits of `n`, as `format!("{n:016x}")`.
pub open spec fn hex16(n: u64) -> Seq<char> {
    Seq::new(16, |i: int| hex_char((n as int / pow(16, (15 - i) as nat)) % 16))
}

/// Two lower-case hexadecimal digits of a byte, as `format!("{b:02x}")`.
pub open spec fn hex2(b: u8) -> Seq<char> {
    seq![hex_char(b as int / 16), hex_char(b as int % 16)]
}

fn hex_digit(d: u64) -> (c: char)
    requires
        d < 16,
    ensures
        c == hex_char(d as int),
{
    if d < 10 {
        ((48u8 + d as u8) as char)
    } else {
        ((87u8 + d as u8) as char)
    }
}

/// Appends the two hexadecimal digits of a byte.
pub fn push_hex_byte(out: &mut String, b: u8)
    ensures
        final(out)@ == old(out)@ + hex2(b),
{
    push_char(out, hex_digit((b / 16) as u64));
    push_char(out, hex_digit((b % 16) as u64));
    proof {
        assert(out@ =~= old(out)@ + hex2(b));
    }
}

/// Sixteen lower-case hexadecimal digits of `n`.
pub fn hex16_text(n: u64) -> (r: String)
    ensures
        r@ == hex16(n),
{
    let mut out = String::new();
    let mut i: usize = 0;
    let mut divisor: u64 = 0x1000_0000_0000_0000;
    proof {
        reveal(pow);
        assert(pow(16, 15) == 0x1000_0000_0000_0000) by {
            reveal_with_fuel(pow, 16);
        }
    }
    while i < 16
        invariant
            i <= 16,
            out@ == hex16(n).take(i as int),
            i < 16 ==> divisor == pow(16, (15 - i) as nat),
            i < 16 ==> divisor >= 1,
        decreases 16 - i,
    {
        let d = (n / divisor) % 16;
        push_char(&mut out, hex_digit(d));
        proof {
            assert(out@ =~= hex16(n).take(i + 1));
        }
        if i < 15 {
            proof {
                lemma_pow_positive(16, (14 - i) as nat);
                reveal(pow);
                assert(pow(16, (15 - i) as nat) == 16 * pow(16, (14 - i) as nat));
            }
            divisor = divisor / 16;
        }
        i += 1;
    }
    proof {
        assert(hex16(n).take(16) =~= hex16(n));
    }
    out
}

/// The decimal notation of `n` is made of digits and reads back as `n`.
pub proof fn lemma_decimal_reads_back(n: nat)
    ensures
        decimal(n).len() >= 1,
        forall|i: int| 0 <= i < decimal(n).len() ==> is_digit(#[trigger] decimal(n)[i]),
        decimal_value(decimal(n)) == n,
    decreases n,
{
    assert(forall|d: int| 0 <= d < 10 ==> #[trigger] digit_value(spec_digit_char(d)) == d && is_digit(
        spec_digit_char(d),
    ));
    if n >= 10 {
        lemma_decimal_reads_back(n / 10);
        let p = decimal(n / 10);
        let c = spec_digit_char((n % 10) as int);
        assert(decimal(n) == p.push(c));
        assert(digit_value(c) == n % 10);
        let m = decimal(n).map_values(|c: char| digit_value(c));
        assert(m.drop_last() =~= p.map_values(|c: char| digit_value(c)));
        assert(m.last() == n % 10);
        assert(horner(m, 10) == horner(m.drop_last(), 10) * 10 + m.last());
        assert(horner(m.drop_last(), 10) == n / 10);
        vstd::arithmetic::div_mod::lemma_fundamental_div_mod(n as int, 10);
    } else {
        let m = decimal(n).map_values(|c: char| digit_value(c));
        assert(digit_value(spec_digit_char(n as int)) == n);
        assert(m.drop_last() =~= Seq::<int>::empty());
        assert(m.last() == n);
        assert(horner(m, 10) == horner(m.drop_last(), 10) * 10 + m.last());
    }
}

/// A string without white space at its ends is its own trim.
pub proof fn lemma_trim_keeps(s: Seq<char>)
    requires
        forall|i: int| 0 <= i < s.len() ==> !is_white(#[trigger] s[i]),
    ensures
        trim(s) == s,
{
    lemma_trim_start(s, 0);
    assert(s.skip(0) =~= s);
    lemma_trim_end(s, s.len() as int);
    assert(s.take(s.len() as int) =~= s);
}

/// Digits are untouched by white-space trimming and by ASCII lower case, and the decimal
/// notation of a number parses back to it.
pub proof fn lemma_decimal_word(n: nat)
    requires
        n <= u64::MAX,
    ensures
        ascii_lower(trim(decimal(n))) == decimal(n),
        parse_u64_spec(decimal(n)) == Some(n as u64),
{
    lemma_decimal_reads_back(n);
    let d = decimal(n);
    lemma_trim_keeps(d);
    assert(ascii_lower(d) =~= d);
    assert(unsigned_digits(d) == d);
}

} // verus!
