//! Text of the reports: grouped thousands, CSV rows, cut labels and verification labels.

use vstd::prelude::*;

use crate::config::{mode_name, module_name, RunConfig};
use crate::result::VerificationStatus;
use crate::text::{chars_of, decimal, decimal_text, push_str, string_of};

verus! {

/// The narrow no-break space that groups thousands.
pub open spec fn thousands_separator() -> char {
    '\u{202f}'
}

/// The first `i` digits of `digits`, with a separator before each digit (but the first) that
/// has a multiple of three digits after it.
pub open spec fn grouped(digits: Seq<char>, i: int) -> Seq<char>
    decreases i,
{
    if i <= 0 {
        Seq::empty()
    } else {
        grouped(digits, i - 1) + (if i - 1 > 0 && (digits.len() - (i - 1)) % 3 == 0 {
            seq![thousands_separator()]
        } else {
            Seq::empty()
        }) + seq![digits[i - 1]]
    }
}

/// `value` in decimal with its thousands grouped by narrow no-break spaces.
pub fn format_thousands(value: u64) -> (r: String)
    ensures
        r@ == grouped(decimal(value as nat), decimal(value as nat).len() as int),
{
    let text = decimal_text(value);
    let digits = chars_of(text.as_str());
    let n = digits.len();
    let mut out: Vec<char> = Vec::new();
    let mut i: usize = 0;
    while i < n
        invariant
            n == digits@.len(),
            i <= n,
            out@ == grouped(digits@, i as int),
        decreases n - i,
    {
        if i > 0 && (n - i) % 3 == 0 {
            out.push('\u{202f}');
        }
        out.push(digits[i]);
        proof {
            assert(out@ =~= grouped(digits@, i + 1));
        }
        i += 1;
    }
    string_of(&out)
}

/// `true` when a CSV field has to be quoted: it holds a comma, a quote or a line break.
pub open spec fn needs_quotes(f: Seq<char>) -> bool {
    exists|i: int| 0 <= i < f.len() && (f[i] == ',' || f[i] == '"' || f[i] == '\n')
}

/// `f` with every quote doubled.
pub open spec fn doubled_quotes(f: Seq<char>) -> Seq<char>
    decreases f.len(),
{
    if f.len() == 0 {
        Seq::empty()
    } else {
        doubled_quotes(f.drop_last()) + if f.last() == '"' {
            seq!['"', '"']
        } else {
            seq![f.last()]
        }
    }
}

/// A CSV field as written in a row.
pub open spec fn csv_field(f: Seq<char>) -> Seq<char> {
    if needs_quotes(f) {
        seq!['"'] + doubled_quotes(f) + seq!['"']
    } else {
        f
    }
}

/// The first `k` fields written and separated by commas.
pub open spec fn csv_fields(fields: Seq<Seq<char>>, k: int) -> Seq<char>
    decreases k,
{
    if k <= 0 {
        Seq::empty()
    } else if k == 1 {
        csv_field(fields[0])
    } else {
        csv_fields(fields, k - 1) + seq![','] + csv_field(fields[k - 1])
    }
}

/// One CSV row: the fields, quoted where they need it, separated by commas and ended by a line
/// break.
pub fn csv_row(fields: &Vec<&str>) -> (r: String)
    ensures
        r@ == csv_fields(fields@.map_values(|f: &str| f@), fields@.len() as int) + seq!['\n'],
{
    let ghost views = fields@.map_values(|f: &str| f@);
    let mut row: Vec<char> = Vec::new();
    let mut i: usize = 0;
    while i < fields.len()
        invariant
            i <= fields@.len(),
            views == fields@.map_values(|f: &str| f@),
            row@ == csv_fields(views, i as int),
        decreases fields@.len() - i,
    {
        let ghost before = row@;
        if i > 0 {
            row.push(',');
        }
        let field = chars_of(fields[i]);
        let mut quoted = false;
        let mut k: usize = 0;
        while k < field.len()
            invariant
                k <= field@.len(),
                quoted == exists|t: int|
                    0 <= t < k && (field@[t] == ',' || field@[t] == '"' || field@[t] == '\n'),
            decreases field@.len() - k,
        {
            if field[k] == ',' || field[k] == '"' || field[k] == '\n' {
                quoted = true;
            }
            k += 1;
        }
        proof {
            assert(field@ == views[i as int]);
        }
        if quoted {
            row.push('"');
            let ghost opened = row@;
            let mut k: usize = 0;
            while k < field.len()
                invariant
                    k <= field@.len(),
                    row@ == opened + doubled_quotes(field@.take(k as int)),
                decreases field@.len() - k,
            {
                if field[k] == '"' {
                    row.push('"');
                    row.push('"');
                } else {
                    row.push(field[k]);
                }
                proof {
                    assert(field@.take(k + 1).drop_last() =~= field@.take(k as int));
                    assert(row@ =~= opened + doubled_quotes(field@.take(k + 1)));
                }
                k += 1;
            }
            row.push('"');
            proof {
                assert(field@.take(field@.len() as int) =~= field@);
            }
        } else {
            let mut k: usize = 0;
            while k < field.len()
                invariant
                    k <= field@.len(),
                    row@ == before + (if i > 0 {
                        seq![',']
                    } else {
                        Seq::empty()
                    }) + field@.take(k as int),
                decreases field@.len() - k,
            {
                row.push(field[k]);
                proof {
                    assert(row@ =~= before + (if i > 0 {
                        seq![',']
                    } else {
                        Seq::empty()
                    }) + field@.take(k + 1));
                }
                k += 1;
            }
            proof {
                assert(field@.take(field@.len() as int) =~= field@);
            }
        }
        proof {
            assert(quoted == needs_quotes(field@));
            assert(row@ =~= before + (if i > 0 {
                seq![',']
            } else {
                Seq::empty()
            }) + csv_field(views[i as int]));
            assert(row@ =~= csv_fields(views, i + 1));
        }
        i += 1;
    }
    row.push('\n');
    string_of(&row)
}

/// `text` cut to `max` characters: when it is longer, its first `max − 1` characters and `…`.
pub fn truncate(text: &str, max: usize) -> (r: String)
    ensures
        text@.len() <= max ==> r@ == text@,
        text@.len() > max ==> r@ == text@.take(if max >= 1 {
            max - 1
        } else {
            0
        }) + seq!['…'],
{
    let chars = chars_of(text);
    if chars.len() <= max {
        return string_of(&chars);
    }
    let keep: usize = if max >= 1 {
        max - 1
    } else {
        0
    };
    let mut cut: Vec<char> = Vec::new();
    let mut i: usize = 0;
    while i < keep
        invariant
            keep < chars@.len(),
            i <= keep,
            cut@ == chars@.take(i as int),
        decreases keep - i,
    {
        cut.push(chars[i]);
        proof {
            assert(cut@ =~= chars@.take(i + 1));
        }
        i += 1;
    }
    cut.push('…');
    string_of(&cut)
}

/// Label of a verification status in the tables.
pub fn status_label(status: VerificationStatus) -> (r: &'static str)
    ensures
        status == VerificationStatus::Passed ==> r@ == "correcta"@,
        status == VerificationStatus::Failed ==> r@ == "FALLIDA"@,
        status == VerificationStatus::Unverified ==> r@ == "sin ref."@,
{
    match status {
        VerificationStatus::Passed => "correcta",
        VerificationStatus::Failed => "FALLIDA",
        VerificationStatus::Unverified => "sin ref.",
    }
}

/// `stamp` without its `:` and `-`: the compact time stamp of a results directory.
pub open spec fn compact_stamp(stamp: Seq<char>) -> Seq<char>
    decreases stamp.len(),
{
    if stamp.len() == 0 {
        Seq::empty()
    } else {
        compact_stamp(stamp.drop_last()) + if stamp.last() == ':' || stamp.last() == '-' {
            Seq::empty()
        } else {
            seq![stamp.last()]
        }
    }
}

/// The name of the directory of a suite run: `<suite>-<stamp without : and ->`.
pub fn suite_dir_name(suite: &str, stamp: &str) -> (r: String)
    ensures
        r@ == suite@ + seq!['-'] + compact_stamp(stamp@),
{
    let chars = chars_of(stamp);
    let mut out: Vec<char> = chars_of(suite);
    out.push('-');
    let ghost head = out@;
    let mut i: usize = 0;
    while i < chars.len()
        invariant
            i <= chars@.len(),
            out@ == head + compact_stamp(chars@.take(i as int)),
        decreases chars@.len() - i,
    {
        let c = chars[i];
        if c != ':' && c != '-' {
            out.push(c);
        }
        proof {
            assert(chars@.take(i + 1).drop_last() =~= chars@.take(i as int));
            assert(out@ =~= head + compact_stamp(chars@.take(i + 1)));
        }
        i += 1;
    }
    proof {
        assert(chars@.take(chars@.len() as int) =~= chars@);
    }
    string_of(&out)
}

/// Comparability key of a result: same module, size and mode.
pub fn group_key(config: &RunConfig) -> (r: String)
    ensures
        r@ == module_name(config.module) + " "@ + config.size.label@ + " "@ + mode_name(config.mode),
{
    let mut t = String::new();
    push_str(&mut t, config.module.name());
    push_str(&mut t, " ");
    push_str(&mut t, config.size.label.as_str());
    push_str(&mut t, " ");
    push_str(&mut t, config.mode.name());
    proof {
        assert(t@ =~= module_name(config.module) + " "@ + config.size.label@ + " "@ + mode_name(
            config.mode,
        ));
    }
    t
}

/// Name of the file of a result: `<module>-<size>-<mode>-<stamp>.json`, with `-<n>` before the
/// extension when `n > 0` (to keep names unique).
pub fn result_file_name(config: &RunConfig, stamp: &str, n: u32) -> (r: String)
    ensures
        r@ == module_name(config.module) + "-"@ + config.size.label@ + "-"@ + mode_name(config.mode)
            + "-"@ + compact_stamp(stamp@) + (if n > 0 {
            "-"@ + decimal(n as nat)
        } else {
            Seq::empty()
        }) + ".json"@,
{
    let mut t = String::new();
    push_str(&mut t, config.module.name());
    push_str(&mut t, "-");
    push_str(&mut t, config.size.label.as_str());
    push_str(&mut t, "-");
    push_str(&mut t, config.mode.name());
    let stamped = suite_dir_name(t.as_str(), stamp);
    let mut out = stamped;
    if n > 0 {
        push_str(&mut out, "-");
        crate::text::push_decimal(&mut out, n as u64);
    }
    push_str(&mut out, ".json");
    proof {
        reveal_strlit("-");
        assert(out@ =~= module_name(config.module) + "-"@ + config.size.label@ + "-"@ + mode_name(
            config.mode,
        ) + "-"@ + compact_stamp(stamp@) + (if n > 0 {
            "-"@ + decimal(n as nat)
        } else {
            Seq::empty()
        }) + ".json"@);
    }
    out
}

} // verus!
