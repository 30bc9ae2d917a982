//! Explicit configuration of a run: module, size, mode and threads.
//!
//! Everything that changes the workload is declared here and travels inside the result, so
//! that a result file describes completely how it was obtained.

use vstd::prelude::*;

use crate::error::Error;
use crate::text::{
    ascii_lower, ascii_upper, chars_of, decimal, decimal_text, lower_chars, parse_u64,
    parse_u64_spec, push_str, string_of, trim, trim_chars, upper_chars,
};

verus! {

/// Benchmark module.
#[derive(Clone, Copy, Debug, PartialEq, Eq, Structural, Hash)]
pub enum Module {
    /// Digits of Pi by Gauss–Legendre (a reimplementation of SuperPi).
    Pi,
    /// Square roots by Newton (a reimplementation of wPrime).
    Radical,
    /// Segmented prime sieve (GugolPi's own).
    Zeta,
}

/// Lower-case name of a module, the one the command line and the result files use.
pub open spec fn module_name(m: Module) -> Seq<char> {
    match m {
        Module::Pi => "pi"@,
        Module::Radical => "radical"@,
        Module::Zeta => "zeta"@,
    }
}

/// Official sizes of a module, in increasing order.
///
/// Zeta scores at 1G and 10G. 100M is extended, for quick runs; 100G is the multicore size and
/// is extended too: a run at 100G does not score, which is what the size tests check.
pub open spec fn official_labels(m: Module) -> Seq<Seq<char>> {
    match m {
        Module::Pi => seq![
            "16K"@,
            "32K"@,
            "64K"@,
            "128K"@,
            "256K"@,
            "512K"@,
            "1M"@,
            "2M"@,
            "4M"@,
            "8M"@,
            "16M"@,
            "32M"@,
        ],
        Module::Radical => seq!["32M"@, "1024M"@],
        Module::Zeta => seq!["1G"@, "10G"@],
    }
}

/// Extended sizes: GugolPi has them, SuperPi and wPrime do not, and they do not score.
pub open spec fn extended_labels(m: Module) -> Seq<Seq<char>> {
    match m {
        Module::Pi => seq!["64M"@, "128M"@, "256M"@, "512M"@, "1G"@],
        Module::Radical => seq!["128M"@, "4096M"@],
        Module::Zeta => seq!["100M"@, "100G"@],
    }
}

/// Units of the `K`, `M` and `G` suffixes: binary for Pi, decimal for Radical and Zeta.
pub open spec fn units(m: Module) -> (u64, u64, u64) {
    match m {
        Module::Pi => (1_024, 1_048_576, 1_073_741_824),
        _ => (1_000, 1_000_000, 1_000_000_000),
    }
}

/// `n · unit` when the number parsed and the product fits in 64 bits.
pub open spec fn scaled(n: Option<u64>, unit: u64) -> Option<u64> {
    match n {
        Some(v) => if v * unit <= u64::MAX {
            Some((v * unit) as u64)
        } else {
            None
        },
        None => None,
    }
}

/// Numeric value of a normalised size label: a number with an optional `K`, `M` or `G`.
pub open spec fn label_value(m: Module, label: Seq<char>) -> Option<u64> {
    let (kilo, mega, giga) = units(m);
    if label.len() > 0 && label.last() == 'K' {
        scaled(parse_u64_spec(label.drop_last()), kilo)
    } else if label.len() > 0 && label.last() == 'M' {
        scaled(parse_u64_spec(label.drop_last()), mega)
    } else if label.len() > 0 && label.last() == 'G' {
        scaled(parse_u64_spec(label.drop_last()), giga)
    } else {
        parse_u64_spec(label)
    }
}

/// What [`Module::parse_size`] accepts: `(label, value, official)`.
///
/// The text is trimmed and upper-cased; its value must be positive; Pi only accepts the
/// listed sizes; a size that is not listed is labelled by its decimal value.
pub open spec fn size_spec(m: Module, text: Seq<char>) -> Option<(Seq<char>, u64, bool)> {
    let label = ascii_upper(trim(text));
    let listed = official_labels(m).contains(label) || extended_labels(m).contains(label);
    match label_value(m, label) {
        Some(v) => if v > 0 && !(m == Module::Pi && !listed) {
            Some((if listed { label } else { decimal(v as nat) }, v, official_labels(m).contains(label)))
        } else {
            None
        },
        None => None,
    }
}

/// `true` when `a` holds exactly the characters of `b`.
pub fn chars_equal(a: &Vec<char>, b: &str) -> (r: bool)
    ensures
        r == (a@ == b@),
{
    let bc = chars_of(b);
    if a.len() != bc.len() {
        return false;
    }
    let mut i: usize = 0;
    while i < a.len()
        invariant
            a@.len() == bc@.len(),
            bc@ == b@,
            i <= a@.len(),
            forall|k: int| 0 <= k < i ==> a@[k] == bc@[k],
        decreases a@.len() - i,
    {
        if a[i] != bc[i] {
            return false;
        }
        i += 1;
    }
    proof {
        assert(a@ =~= bc@);
    }
    true
}

fn contains_label(list: &Vec<&'static str>, label: &Vec<char>) -> (r: bool)
    ensures
        r == list@.map_values(|s: &str| s@).contains(label@),
{
    let ghost views = list@.map_values(|s: &str| s@);
    let mut i: usize = 0;
    while i < list.len()
        invariant
            i <= list@.len(),
            views == list@.map_values(|s: &str| s@),
            forall|k: int| 0 <= k < i ==> views[k] != label@,
        decreases list@.len() - i,
    {
        if chars_equal(label, list[i]) {
            proof {
                assert(views[i as int] == label@);
            }
            return true;
        }
        i += 1;
    }
    false
}

/// Appends `prefix`, then `body`, then `»`: the shape of every message about a bad word.
fn quoted_message(prefix: &str, body: &Vec<char>) -> (r: String)
    ensures
        r@ == prefix@ + body@ + "»"@,
{
    let mut msg = String::new();
    push_str(&mut msg, prefix);
    let b = string_of(body);
    push_str(&mut msg, b.as_str());
    push_str(&mut msg, "»");
    proof {
        assert(msg@ =~= prefix@ + body@ + "»"@);
    }
    msg
}

impl Module {
    /// Lower-case name, the same the command line and the JSON use.
    pub fn name(self) -> (r: &'static str)
        ensures
            r@ == module_name(self),
    {
        match self {
            Module::Pi => "pi",
            Module::Radical => "radical",
            Module::Zeta => "zeta",
        }
    }

    /// The three modules, in the order of the specification.
    pub fn all() -> (r: Vec<Module>)
        ensures
            r@ == seq![Module::Pi, Module::Radical, Module::Zeta],
    {
        let mut v = Vec::new();
        v.push(Module::Pi);
        v.push(Module::Radical);
        v.push(Module::Zeta);
        proof {
            assert(v@ =~= seq![Module::Pi, Module::Radical, Module::Zeta]);
        }
        v
    }

    /// Official sizes of the module, in increasing order.
    pub fn official_sizes(self) -> (r: Vec<&'static str>)
        ensures
            r@.map_values(|s: &str| s@) == official_labels(self),
    {
        let mut v: Vec<&'static str> = Vec::new();
        match self {
            Module::Pi => {
                v.push("16K");
                v.push("32K");
                v.push("64K");
                v.push("128K");
                v.push("256K");
                v.push("512K");
                v.push("1M");
                v.push("2M");
                v.push("4M");
                v.push("8M");
                v.push("16M");
                v.push("32M");
            },
            Module::Radical => {
                v.push("32M");
                v.push("1024M");
            },
            Module::Zeta => {
                v.push("1G");
                v.push("10G");
            },
        }
        proof {
            assert(v@.map_values(|s: &str| s@) =~= official_labels(self));
        }
        v
    }

    /// Extended sizes: GugolPi has them, SuperPi and wPrime do not, and they do not score.
    pub fn extended_sizes(self) -> (r: Vec<&'static str>)
        ensures
            r@.map_values(|s: &str| s@) == extended_labels(self),
    {
        let mut v: Vec<&'static str> = Vec::new();
        match self {
            Module::Pi => {
                v.push("64M");
                v.push("128M");
                v.push("256M");
                v.push("512M");
                v.push("1G");
            },
            Module::Radical => {
                v.push("128M");
                v.push("4096M");
            },
            Module::Zeta => {
                v.push("100M");
                v.push("100G");
            },
        }
        proof {
            assert(v@.map_values(|s: &str| s@) =~= extended_labels(self));
        }
        v
    }

    /// Interprets a size text with the units of the module.
    ///
    /// - Pi: `K` = 1024 digits, `M` = 1 048 576, `G` = 2^30; only the listed sizes are accepted.
    /// - Radical: `M` = 1 000 000; a free integer is accepted too (it does not score).
    /// - Zeta: `M` = 10^6, `G` = 10^9; a free integer is accepted too (it does not score).
    pub fn parse_size(self, text: &str) -> (r: Result<Size, Error>)
        ensures
            match size_spec(self, text@) {
                Some((label, value, official)) => r matches Ok(size) && size.label@ == label
                    && size.value == value && size.official == official,
                None => r matches Err(Error::UnknownSize { text: t, module }) && t@ == text@
                    && module == self,
            },
    {
        let raw = chars_of(text);
        let trimmed = trim_chars(&raw);
        let label = upper_chars(&trimmed);
        let official_list = self.official_sizes();
        let extended_list = self.extended_sizes();
        let official = contains_label(&official_list, &label);
        let listed = official || contains_label(&extended_list, &label);
        let (kilo, mega, giga): (u64, u64, u64) = match self {
            Module::Pi => (1_024, 1_048_576, 1_073_741_824),
            _ => (1_000, 1_000_000, 1_000_000_000),
        };
        let n = label.len();
        let value: Option<u64> = if n > 0 && (label[n - 1] == 'K' || label[n - 1] == 'M'
            || label[n - 1] == 'G') {
            let unit: u64 = if label[n - 1] == 'K' {
                kilo
            } else if label[n - 1] == 'M' {
                mega
            } else {
                giga
            };
            let mut number = label.clone();
            number.pop();
            proof {
                assert(number@ =~= label@.drop_last());
            }
            match parse_u64(&number) {
                Some(v) => v.checked_mul(unit),
                None => None,
            }
        } else {
            parse_u64(&label)
        };
        let unknown = Error::UnknownSize { text: String::from_str(text), module: self };
        match value {
            Some(v) => {
                if v == 0 {
                    return Err(unknown);
                }
                if self == Module::Pi && !listed {
                    return Err(unknown);
                }
                let label_text = if listed {
                    string_of(&label)
                } else {
                    decimal_text(v)
                };
                Ok(Size { label: label_text, value: v, official })
            },
            None => Err(unknown),
        }
    }

    /// Parses a module name, ignoring surrounding white space and ASCII case.
    pub fn parse(s: &str) -> (r: Result<Module, Error>)
        ensures
            ascii_lower(trim(s@)) == "pi"@ ==> r == Ok::<Module, Error>(Module::Pi),
            ascii_lower(trim(s@)) == "radical"@ ==> r == Ok::<Module, Error>(Module::Radical),
            ascii_lower(trim(s@)) == "zeta"@ ==> r == Ok::<Module, Error>(Module::Zeta),
            (ascii_lower(trim(s@)) != "pi"@ && ascii_lower(trim(s@)) != "radical"@ && ascii_lower(
                trim(s@),
            ) != "zeta"@) ==> (r matches Err(Error::InvalidConfig(msg)) && msg@
                == "módulo desconocido «"@ + ascii_lower(trim(s@)) + "»"@),
    {
        let raw = chars_of(s);
        let trimmed = trim_chars(&raw);
        let word = lower_chars(&trimmed);
        proof {
            reveal_strlit("pi");
            reveal_strlit("radical");
            reveal_strlit("zeta");
            assert("pi"@.len() == 2 && "radical"@.len() == 7 && "zeta"@.len() == 4);
            assert("pi"@ != "radical"@ && "pi"@ != "zeta"@ && "radical"@ != "zeta"@);
        }
        if chars_equal(&word, "pi") {
            Ok(Module::Pi)
        } else if chars_equal(&word, "radical") {
            Ok(Module::Radical)
        } else if chars_equal(&word, "zeta") {
            Ok(Module::Zeta)
        } else {
            Err(Error::InvalidConfig(quoted_message("módulo desconocido «", &word)))
        }
    }
}

/// Size of a run: readable label, numeric value and whether it scores officially.
#[derive(Debug, PartialEq, Eq)]
pub struct Size {
    /// Normalised label (`1M`, `32M`, `1G` or the free integer).
    pub label: String,
    /// Numeric value: digits (Pi) or N (Radical, Zeta).
    pub value: u64,
    /// `true` if it is an official size of the module.
    pub official: bool,
}

impl Clone for Size {
    fn clone(&self) -> (r: Self)
        ensures
            r == *self,
    {
        Size { label: self.label.clone(), value: self.value, official: self.official }
    }
}

/// Execution mode.
#[derive(Clone, Copy, Debug, PartialEq, Eq, Structural)]
pub enum Mode {
    /// One thread: the official figure of Pi and the per-core figure of Radical and Zeta.
    Single,
    /// Several threads according to [`Threads`].
    Multi,
}

/// Name of a mode.
pub open spec fn mode_name(m: Mode) -> Seq<char> {
    match m {
        Mode::Single => "single"@,
        Mode::Multi => "multi"@,
    }
}

impl Mode {
    /// Name of the mode, as shown and parsed.
    pub fn name(self) -> (r: &'static str)
        ensures
            r@ == mode_name(self),
    {
        match self {
            Mode::Single => "single",
            Mode::Multi => "multi",
        }
    }

    /// The default mode: single.
    pub fn default_mode() -> (r: Mode)
        ensures
            r == Mode::Single,
    {
        Mode::Single
    }

    /// Parses a mode name, ignoring surrounding white space and ASCII case.
    pub fn parse(s: &str) -> (r: Result<Mode, Error>)
        ensures
            ascii_lower(trim(s@)) == "single"@ ==> r == Ok::<Mode, Error>(Mode::Single),
            ascii_lower(trim(s@)) == "multi"@ ==> r == Ok::<Mode, Error>(Mode::Multi),
            (ascii_lower(trim(s@)) != "single"@ && ascii_lower(trim(s@)) != "multi"@) ==> (r matches Err(
                Error::InvalidConfig(msg),
            ) && msg@ == "modo desconocido «"@ + ascii_lower(trim(s@)) + "»"@),
    {
        let raw = chars_of(s);
        let trimmed = trim_chars(&raw);
        let word = lower_chars(&trimmed);
        proof {
            reveal_strlit("single");
            reveal_strlit("multi");
            assert("single"@.len() == 6 && "multi"@.len() == 5);
            assert("single"@ != "multi"@);
        }
        if chars_equal(&word, "single") {
            Ok(Mode::Single)
        } else if chars_equal(&word, "multi") {
            Ok(Mode::Multi)
        } else {
            Err(Error::InvalidConfig(quoted_message("modo desconocido «", &word)))
        }
    }
}

/// A positive thread count.
#[derive(Clone, Copy, Debug, PartialEq, Eq, Structural)]
pub struct ThreadCount {
    n: usize,
}

impl ThreadCount {
    #[verifier::type_invariant]
    spec fn positive(&self) -> bool {
        self.n >= 1
    }

    /// The count.
    pub closed spec fn value(&self) -> nat {
        self.n as nat
    }

    /// A count fits in `usize`.
    pub proof fn lemma_value_fits(&self)
        ensures
            self.value() <= usize::MAX,
    {
    }

    /// `Some` exactly when `n` is positive.
    pub fn new(n: usize) -> (r: Option<ThreadCount>)
        ensures
            r is Some <==> n >= 1,
            r matches Some(c) ==> c.value() == n,
    {
        if n >= 1 {
            Some(ThreadCount { n })
        } else {
            None
        }
    }

    /// The count, always at least one.
    pub fn get(&self) -> (r: usize)
        ensures
            r == self.value(),
            r >= 1,
    {
        proof {
            use_type_invariant(self);
        }
        self.n
    }
}

/// Number of threads asked for the multi mode.
#[derive(Clone, Copy, Debug, PartialEq, Eq, Structural)]
pub enum Threads {
    /// As many threads as logical CPUs.
    Auto,
    /// As many threads as physical cores (no SMT).
    Physical,
    /// A fixed number.
    Count(ThreadCount),
}

/// Threads resolved for a machine with `logical` CPUs and `physical` cores.
pub open spec fn resolved_threads(t: Threads, logical: usize, physical: usize) -> nat {
    match t {
        Threads::Auto => if logical >= 1 {
            logical as nat
        } else {
            1
        },
        Threads::Physical => if physical >= 1 {
            physical as nat
        } else {
            1
        },
        Threads::Count(c) => c.value(),
    }
}

/// Text of a thread request: `auto`, `physical` or the number.
pub open spec fn threads_text(t: Threads) -> Seq<char> {
    match t {
        Threads::Auto => "auto"@,
        Threads::Physical => "physical"@,
        Threads::Count(c) => decimal(c.value()),
    }
}

/// The number a thread request names, when it is neither `auto` nor `physical`: a positive
/// integer that fits in `usize`.
pub open spec fn threads_count_of(word: Seq<char>) -> Option<nat> {
    match parse_u64_spec(word) {
        Some(v) => if 1 <= v <= usize::MAX {
            Some(v as nat)
        } else {
            None
        },
        None => None,
    }
}

impl Threads {
    /// The default request: as many threads as logical CPUs.
    pub fn default_threads() -> (r: Threads)
        ensures
            r == Threads::Auto,
    {
        Threads::Auto
    }

    /// Resolves the number of threads for a concrete machine.
    pub fn resolve(self, logical: usize, physical: usize) -> (r: usize)
        ensures
            r == resolved_threads(self, logical, physical),
            r >= 1,
    {
        match self {
            Threads::Auto => if logical >= 1 {
                logical
            } else {
                1
            },
            Threads::Physical => if physical >= 1 {
                physical
            } else {
                1
            },
            Threads::Count(c) => c.get(),
        }
    }

    /// `auto`, `physical` or the number.
    pub fn text(self) -> (r: String)
        ensures
            r@ == threads_text(self),
    {
        match self {
            Threads::Auto => String::from_str("auto"),
            Threads::Physical => String::from_str("physical"),
            Threads::Count(c) => decimal_text(c.get() as u64),
        }
    }

    /// Parses `auto`, `physical` or a positive number, ignoring white space and ASCII case.
    pub fn parse(s: &str) -> (r: Result<Threads, Error>)
        ensures
            ascii_lower(trim(s@)) == "auto"@ ==> r == Ok::<Threads, Error>(Threads::Auto),
            ascii_lower(trim(s@)) == "physical"@ ==> r == Ok::<Threads, Error>(Threads::Physical),
            ascii_lower(trim(s@)) != "auto"@ && ascii_lower(trim(s@)) != "physical"@ ==> match threads_count_of(
                ascii_lower(trim(s@)),
            ) {
                Some(v) => r matches Ok(Threads::Count(c)) && c.value() == v,
                None => r matches Err(Error::InvalidConfig(msg)) && msg@ == "hilos no válidos «"@
                    + ascii_lower(trim(s@)) + "»"@,
            },
    {
        let raw = chars_of(s);
        let trimmed = trim_chars(&raw);
        let word = lower_chars(&trimmed);
        proof {
            reveal_strlit("auto");
            reveal_strlit("physical");
            assert("auto"@.len() == 4 && "physical"@.len() == 8);
            assert("auto"@ != "physical"@);
        }
        if chars_equal(&word, "auto") {
            return Ok(Threads::Auto);
        }
        if chars_equal(&word, "physical") {
            return Ok(Threads::Physical);
        }
        match parse_u64(&word) {
            Some(v) => {
                if v >= 1 && v <= usize::MAX as u64 {
                    let n = v as usize;
                    match ThreadCount::new(n) {
                        Some(c) => {
                            return Ok(Threads::Count(c));
                        },
                        None => {},
                    }
                }
            },
            None => {},
        }
        Err(Error::InvalidConfig(quoted_message("hilos no válidos «", &word)))
    }
}

/// Options specific to the Radical module.
#[derive(Clone, Copy, Debug, PartialEq, Eq, Structural)]
pub struct RadicalOptions {
    /// Static split (a contiguous range per thread) instead of the dynamic queue.
    pub static_split: bool,
}

impl RadicalOptions {
    /// The default: the dynamic queue.
    pub fn default_options() -> (r: RadicalOptions)
        ensures
            !r.static_split,
    {
        RadicalOptions { static_split: false }
    }
}

/// Complete configuration of a run.
#[derive(Clone, Debug, PartialEq, Eq)]
pub struct RunConfig {
    /// Module to run.
    pub module: Module,
    /// Size of the test.
    pub size: Size,
    /// Single or multi mode.
    pub mode: Mode,
    /// Threads in multi mode (ignored in single).
    pub threads: Threads,
    /// Pin each thread to a core.
    pub affinity: bool,
    /// Options of the Radical module.
    pub radical: RadicalOptions,
}

impl RunConfig {
    /// Default configuration of a module for a given size: single mode, automatic threads, no
    /// affinity, default options.
    pub fn new(module: Module, size: &str) -> (r: Result<RunConfig, Error>)
        ensures
            match size_spec(module, size@) {
                Some((label, value, official)) => r matches Ok(c) && c.module == module
                    && c.size.label@ == label && c.size.value == value && c.size.official
                    == official && c.mode == Mode::Single && c.threads == Threads::Auto
                    && !c.affinity && !c.radical.static_split,
                None => r matches Err(Error::UnknownSize { text: t, module: m }) && t@ == size@
                    && m == module,
            },
    {
        let size = module.parse_size(size)?;
        Ok(RunConfig {
            module,
            size,
            mode: Mode::Single,
            threads: Threads::Auto,
            affinity: false,
            radical: RadicalOptions { static_split: false },
        })
    }

    /// Effective threads of this configuration on a concrete machine.
    pub fn resolve_threads(&self, logical: usize, physical: usize) -> (r: usize)
        ensures
            self.mode == Mode::Single ==> r == 1,
            self.mode == Mode::Multi ==> r == resolved_threads(self.threads, logical, physical),
            r >= 1,
    {
        match self.mode {
            Mode::Single => 1,
            Mode::Multi => self.threads.resolve(logical, physical),
        }
    }

    /// `true` if the run scores officially: official size and no option that alters the load.
    pub fn is_official(&self) -> (r: bool)
        ensures
            r == (self.size.official && !self.radical.static_split),
    {
        self.size.official && !self.radical.static_split
    }
}


/// A label made of a number from 1 to 4096 and a `K`, `M` or `G` suffix is its own normal form
/// and reads as the number times the unit of the suffix.
proof fn lemma_suffixed_label(m: Module, n: nat, suffix: char, text: Seq<char>)
    requires
        1 <= n <= 4096,
        suffix == 'K' || suffix == 'M' || suffix == 'G',
        text == decimal(n).push(suffix),
    ensures
        ascii_upper(trim(text)) == text,
        suffix == 'K' ==> label_value(m, text) == Some((n * units(m).0) as u64),
        suffix == 'M' ==> label_value(m, text) == Some((n * units(m).1) as u64),
        suffix == 'G' ==> label_value(m, text) == Some((n * units(m).2) as u64),
{
    crate::text::lemma_decimal_reads_back(n);
    crate::text::lemma_decimal_word(n);
    assert forall|i: int| 0 <= i < text.len() implies !crate::text::is_white(#[trigger] text[i])
        && !(97 <= text[i] as int <= 122) by {
        if i < text.len() - 1 {
            assert(text[i] == decimal(n)[i]);
        }
    }
    crate::text::lemma_trim_keeps(text);
    assert(ascii_upper(text) =~= text);
    assert(text.drop_last() =~= decimal(n));
    let (kilo, mega, giga) = units(m);
    assert(1 <= kilo && kilo <= mega && mega <= giga && giga <= 1_073_741_824);
    assert(n * giga <= 4096 * 1_073_741_824) by (nonlinear_arith)
        requires
            n <= 4096,
            giga <= 1_073_741_824,
    ;
    assert(n * kilo <= n * mega <= n * giga) by (nonlinear_arith)
        requires
            kilo <= mega <= giga,
    ;
}

/// Values of the sizes that Pi lists: the official ones are 2^14 to 2^25 digits, the
/// extended ones 2^26 to 2^30.
proof fn lemma_pi_size_values()
    ensures
        forall|k: int|
            0 <= k < official_labels(Module::Pi).len() ==> ascii_upper(
                trim(#[trigger] official_labels(Module::Pi)[k]),
            ) == official_labels(Module::Pi)[k] && label_value(
                Module::Pi,
                official_labels(Module::Pi)[k],
            ) == Some(vstd::arithmetic::power2::pow2((14 + k) as nat) as u64),
        forall|k: int|
            0 <= k < extended_labels(Module::Pi).len() ==> ascii_upper(
                trim(#[trigger] extended_labels(Module::Pi)[k]),
            ) == extended_labels(Module::Pi)[k] && label_value(
                Module::Pi,
                extended_labels(Module::Pi)[k],
            ) == Some(vstd::arithmetic::power2::pow2((26 + k) as nat) as u64),
{
    let m = Module::Pi;
    let off = official_labels(m);
    let ext = extended_labels(m);
    reveal_with_fuel(decimal, 5);
    vstd::arithmetic::power2::lemma2_to64();
    reveal_strlit("16K");
    assert("16K"@ =~= decimal(16).push('K'));
    lemma_suffixed_label(m, 16, 'K', "16K"@);
    reveal_strlit("32K");
    assert("32K"@ =~= decimal(32).push('K'));
    lemma_suffixed_label(m, 32, 'K', "32K"@);
    reveal_strlit("64K");
    assert("64K"@ =~= decimal(64).push('K'));
    lemma_suffixed_label(m, 64, 'K', "64K"@);
    reveal_strlit("128K");
    assert("128K"@ =~= decimal(128).push('K'));
    lemma_suffixed_label(m, 128, 'K', "128K"@);
    reveal_strlit("256K");
    assert("256K"@ =~= decimal(256).push('K'));
    lemma_suffixed_label(m, 256, 'K', "256K"@);
    reveal_strlit("512K");
    assert("512K"@ =~= decimal(512).push('K'));
    lemma_suffixed_label(m, 512, 'K', "512K"@);
    reveal_strlit("1M");
    assert("1M"@ =~= decimal(1).push('M'));
    lemma_suffixed_label(m, 1, 'M', "1M"@);
    reveal_strlit("2M");
    assert("2M"@ =~= decimal(2).push('M'));
    lemma_suffixed_label(m, 2, 'M', "2M"@);
    reveal_strlit("4M");
    assert("4M"@ =~= decimal(4).push('M'));
    lemma_suffixed_label(m, 4, 'M', "4M"@);
    reveal_strlit("8M");
    assert("8M"@ =~= decimal(8).push('M'));
    lemma_suffixed_label(m, 8, 'M', "8M"@);
    reveal_strlit("16M");
    assert("16M"@ =~= decimal(16).push('M'));
    lemma_suffixed_label(m, 16, 'M', "16M"@);
    reveal_strlit("32M");
    assert("32M"@ =~= decimal(32).push('M'));
    lemma_suffixed_label(m, 32, 'M', "32M"@);
    reveal_strlit("64M");
    assert("64M"@ =~= decimal(64).push('M'));
    lemma_suffixed_label(m, 64, 'M', "64M"@);
    reveal_strlit("128M");
    assert("128M"@ =~= decimal(128).push('M'));
    lemma_suffixed_label(m, 128, 'M', "128M"@);
    reveal_strlit("256M");
    assert("256M"@ =~= decimal(256).push('M'));
    lemma_suffixed_label(m, 256, 'M', "256M"@);
    reveal_strlit("512M");
    assert("512M"@ =~= decimal(512).push('M'));
    lemma_suffixed_label(m, 512, 'M', "512M"@);
    reveal_strlit("1G");
    assert("1G"@ =~= decimal(1).push('G'));
    lemma_suffixed_label(m, 1, 'G', "1G"@);
    assert forall|k: int| 0 <= k < off.len() implies ascii_upper(trim(#[trigger] off[k])) == off[k]
        && label_value(m, off[k]) == Some(vstd::arithmetic::power2::pow2((14 + k) as nat) as u64) by {
                if k == 0 {
                } else if k == 1 {
                } else if k == 2 {
                } else if k == 3 {
                } else if k == 4 {
                } else if k == 5 {
                } else if k == 6 {
                } else if k == 7 {
                } else if k == 8 {
                } else if k == 9 {
                } else if k == 10 {
                } else {
                }
    }
    assert forall|k: int| 0 <= k < ext.len() implies ascii_upper(trim(#[trigger] ext[k])) == ext[k]
        && label_value(m, ext[k]) == Some(vstd::arithmetic::power2::pow2((26 + k) as nat) as u64) by {
                if k == 0 {
                } else if k == 1 {
                } else if k == 2 {
                } else if k == 3 {
                } else {
                }
    }
}

/// The listed sizes of Pi parse to themselves, with their flag, in increasing order.
#[verifier::rlimit(60)]
proof fn lemma_pi_sizes(m: Module)
    requires
        m == Module::Pi,
    ensures
        forall|i: int|
            0 <= i < official_labels(m).len() ==> (#[trigger] size_spec(m, official_labels(m)[i])
                matches Some((label, v, official)) && label == official_labels(m)[i] && official),
        forall|i: int, j: int|
            0 <= i < j < official_labels(m).len() ==> ((#[trigger] size_spec(
                m,
                official_labels(m)[i],
            ))->0).1 < ((#[trigger] size_spec(m, official_labels(m)[j]))->0).1,
        forall|i: int|
            0 <= i < extended_labels(m).len() ==> (#[trigger] size_spec(m, extended_labels(m)[i])
                matches Some((label, v, official)) && label == extended_labels(m)[i] && !official),
        forall|i: int|
            0 <= i < extended_labels(m).len() ==> !official_labels(m).contains(
                #[trigger] extended_labels(m)[i],
            ),
{
    let off = official_labels(m);
    let ext = extended_labels(m);
    lemma_pi_size_values();
    vstd::arithmetic::power2::lemma2_to64();
    assert forall|k: int| 0 <= k < off.len() implies off.contains(#[trigger] off[k]) by {}
    assert forall|i: int| 0 <= i < ext.len() implies !off.contains(#[trigger] ext[i]) by {
        if off.contains(ext[i]) {
            let k = choose|k: int| 0 <= k < off.len() && off[k] == ext[i];
            assert(label_value(m, off[k]) == label_value(m, ext[i]));
            vstd::arithmetic::power2::lemma_pow2_strictly_increases((14 + k) as nat, (26 + i) as nat);
            vstd::arithmetic::power2::lemma_pow2_strictly_increases((26 + i) as nat, 31);
            vstd::arithmetic::power2::lemma_pow2_strictly_increases((14 + k) as nat, 31);
        }
    }
    assert forall|i: int| 0 <= i < off.len() implies (#[trigger] size_spec(m, off[i])
        matches Some((label, v, official)) && label == off[i] && official) by {
        vstd::arithmetic::power2::lemma_pow2_strictly_increases((14 + i) as nat, 31);
    }
    assert forall|i: int| 0 <= i < ext.len() implies (#[trigger] size_spec(m, ext[i])
        matches Some((label, v, official)) && label == ext[i] && !official) by {
        vstd::arithmetic::power2::lemma_pow2_strictly_increases((26 + i) as nat, 31);
    }
    assert forall|i: int, j: int| 0 <= i < j < off.len() implies ((#[trigger] size_spec(m, off[i]))->0).1
        < ((#[trigger] size_spec(m, off[j]))->0).1 by {
        vstd::arithmetic::power2::lemma_pow2_strictly_increases((14 + i) as nat, (14 + j) as nat);
        vstd::arithmetic::power2::lemma_pow2_strictly_increases((14 + j) as nat, 31);
    }
}

/// The listed sizes of Radical parse to themselves, with their flag, in increasing order.
proof fn lemma_radical_sizes(m: Module)
    requires
        m == Module::Radical,
    ensures
        forall|i: int|
            0 <= i < official_labels(m).len() ==> (#[trigger] size_spec(m, official_labels(m)[i])
                matches Some((label, v, official)) && label == official_labels(m)[i] && official),
        forall|i: int, j: int|
            0 <= i < j < official_labels(m).len() ==> ((#[trigger] size_spec(
                m,
                official_labels(m)[i],
            ))->0).1 < ((#[trigger] size_spec(m, official_labels(m)[j]))->0).1,
        forall|i: int|
            0 <= i < extended_labels(m).len() ==> (#[trigger] size_spec(m, extended_labels(m)[i])
                matches Some((label, v, official)) && label == extended_labels(m)[i] && !official),
        forall|i: int|
            0 <= i < extended_labels(m).len() ==> !official_labels(m).contains(
                #[trigger] extended_labels(m)[i],
            ),
{
    let off = official_labels(m);
    let ext = extended_labels(m);
    reveal_with_fuel(decimal, 5);
    reveal_strlit("32M");
    assert("32M"@ =~= decimal(32).push('M'));
    lemma_suffixed_label(m, 32, 'M', "32M"@);
    reveal_strlit("1024M");
    assert("1024M"@ =~= decimal(1024).push('M'));
    lemma_suffixed_label(m, 1024, 'M', "1024M"@);
    reveal_strlit("128M");
    assert("128M"@ =~= decimal(128).push('M'));
    lemma_suffixed_label(m, 128, 'M', "128M"@);
    reveal_strlit("4096M");
    assert("4096M"@ =~= decimal(4096).push('M'));
    lemma_suffixed_label(m, 4096, 'M', "4096M"@);
    assert(off.contains(off[0]) && off.contains(off[1]));
    assert forall|i: int| 0 <= i < ext.len() implies !off.contains(#[trigger] ext[i]) by {
        if off.contains(ext[i]) {
            let k = choose|k: int| 0 <= k < off.len() && off[k] == ext[i];
            assert(label_value(m, off[k]) == label_value(m, ext[i]));
        }
    }
}

/// The listed sizes of Zeta parse to themselves, with their flag, in increasing order.
proof fn lemma_zeta_sizes(m: Module)
    requires
        m == Module::Zeta,
    ensures
        forall|i: int|
            0 <= i < official_labels(m).len() ==> (#[trigger] size_spec(m, official_labels(m)[i])
                matches Some((label, v, official)) && label == official_labels(m)[i] && official),
        forall|i: int, j: int|
            0 <= i < j < official_labels(m).len() ==> ((#[trigger] size_spec(
                m,
                official_labels(m)[i],
            ))->0).1 < ((#[trigger] size_spec(m, official_labels(m)[j]))->0).1,
        forall|i: int|
            0 <= i < extended_labels(m).len() ==> (#[trigger] size_spec(m, extended_labels(m)[i])
                matches Some((label, v, official)) && label == extended_labels(m)[i] && !official),
        forall|i: int|
            0 <= i < extended_labels(m).len() ==> !official_labels(m).contains(
                #[trigger] extended_labels(m)[i],
            ),
{
    let off = official_labels(m);
    let ext = extended_labels(m);
    reveal_with_fuel(decimal, 5);
    reveal_strlit("1G");
    assert("1G"@ =~= decimal(1).push('G'));
    lemma_suffixed_label(m, 1, 'G', "1G"@);
    reveal_strlit("10G");
    assert("10G"@ =~= decimal(10).push('G'));
    lemma_suffixed_label(m, 10, 'G', "10G"@);
    reveal_strlit("100M");
    assert("100M"@ =~= decimal(100).push('M'));
    lemma_suffixed_label(m, 100, 'M', "100M"@);
    reveal_strlit("100G");
    assert("100G"@ =~= decimal(100).push('G'));
    lemma_suffixed_label(m, 100, 'G', "100G"@);
    assert(off.contains(off[0]) && off.contains(off[1]));
    assert forall|i: int| 0 <= i < ext.len() implies !off.contains(#[trigger] ext[i]) by {
        if off.contains(ext[i]) {
            let k = choose|k: int| 0 <= k < off.len() && off[k] == ext[i];
            assert(label_value(m, off[k]) == label_value(m, ext[i]));
        }
    }
}

/// Every listed size of a module parses to itself: an official size as official, an extended
/// one as not official (so no size is in both lists), and the official sizes come in
/// increasing order of value.
pub proof fn lemma_listed_sizes(m: Module)
    ensures
        forall|i: int|
            0 <= i < official_labels(m).len() ==> (#[trigger] size_spec(m, official_labels(m)[i])
                matches Some((label, v, official)) && label == official_labels(m)[i] && official),
        forall|i: int, j: int|
            0 <= i < j < official_labels(m).len() ==> ((#[trigger] size_spec(
                m,
                official_labels(m)[i],
            ))->0).1 < ((#[trigger] size_spec(m, official_labels(m)[j]))->0).1,
        forall|i: int|
            0 <= i < extended_labels(m).len() ==> (#[trigger] size_spec(m, extended_labels(m)[i])
                matches Some((label, v, official)) && label == extended_labels(m)[i] && !official),
        forall|i: int|
            0 <= i < extended_labels(m).len() ==> !official_labels(m).contains(
                #[trigger] extended_labels(m)[i],
            ),
{
    match m {
        Module::Pi => lemma_pi_sizes(m),
        Module::Radical => lemma_radical_sizes(m),
        Module::Zeta => lemma_zeta_sizes(m),
    }
}

/// Values of the official sizes of each module, in the order of [`official_labels`].
pub open spec fn official_values(m: Module) -> Seq<u64> {
    match m {
        Module::Pi => seq![
            16_384u64,
            32_768,
            65_536,
            131_072,
            262_144,
            524_288,
            1_048_576,
            2_097_152,
            4_194_304,
            8_388_608,
            16_777_216,
            33_554_432,
        ],
        Module::Radical => seq![32_000_000u64, 1_024_000_000],
        Module::Zeta => seq![1_000_000_000u64, 10_000_000_000],
    }
}

/// The official sizes of Pi parse to themselves with their listed values.
#[verifier::rlimit(60)]
proof fn lemma_pi_official_values(m: Module)
    requires
        m == Module::Pi,
    ensures
        official_values(m).len() == official_labels(m).len(),
        forall|i: int|
            0 <= i < official_labels(m).len() ==> #[trigger] size_spec(m, official_labels(m)[i])
                == Some((official_labels(m)[i], official_values(m)[i], true)),
{
    lemma_listed_sizes(m);
    let off = official_labels(m);
        lemma_pi_size_values();
        vstd::arithmetic::power2::lemma2_to64();
        assert forall|i: int| 0 <= i < off.len() implies #[trigger] size_spec(m, off[i])
            == Some((off[i], official_values(m)[i], true)) by {
            assert(size_spec(m, off[i]) matches Some((label, v, official)) && label == off[i]
                && official);
            if i == 0 {
            } else if i == 1 {
            } else if i == 2 {
            } else if i == 3 {
            } else if i == 4 {
            } else if i == 5 {
            } else if i == 6 {
            } else if i == 7 {
            } else if i == 8 {
            } else if i == 9 {
            } else if i == 10 {
            } else {
            }
        }
}

/// The official sizes of Radical parse to themselves with their listed values.
proof fn lemma_radical_official_values(m: Module)
    requires
        m == Module::Radical,
    ensures
        official_values(m).len() == official_labels(m).len(),
        forall|i: int|
            0 <= i < official_labels(m).len() ==> #[trigger] size_spec(m, official_labels(m)[i])
                == Some((official_labels(m)[i], official_values(m)[i], true)),
{
    lemma_listed_sizes(m);
    let off = official_labels(m);
        reveal_with_fuel(decimal, 5);
        reveal_strlit("32M");
        reveal_strlit("1024M");
        assert("32M"@ =~= decimal(32).push('M'));
        assert("1024M"@ =~= decimal(1024).push('M'));
        lemma_suffixed_label(m, 32, 'M', "32M"@);
        lemma_suffixed_label(m, 1024, 'M', "1024M"@);
        assert(size_spec(m, off[0]) matches Some((label, v, official)) && label == off[0]
            && official);
        assert(size_spec(m, off[1]) matches Some((label, v, official)) && label == off[1]
            && official);
}

/// The official sizes of Zeta parse to themselves with their listed values.
proof fn lemma_zeta_official_values(m: Module)
    requires
        m == Module::Zeta,
    ensures
        official_values(m).len() == official_labels(m).len(),
        forall|i: int|
            0 <= i < official_labels(m).len() ==> #[trigger] size_spec(m, official_labels(m)[i])
                == Some((official_labels(m)[i], official_values(m)[i], true)),
{
    lemma_listed_sizes(m);
    let off = official_labels(m);
        reveal_with_fuel(decimal, 5);
        reveal_strlit("1G");
        reveal_strlit("10G");
        assert("1G"@ =~= decimal(1).push('G'));
        assert("10G"@ =~= decimal(10).push('G'));
        lemma_suffixed_label(m, 1, 'G', "1G"@);
        lemma_suffixed_label(m, 10, 'G', "10G"@);
        assert(size_spec(m, off[0]) matches Some((label, v, official)) && label == off[0]
            && official);
        assert(size_spec(m, off[1]) matches Some((label, v, official)) && label == off[1]
            && official);
}

/// Each official size parses to itself, as official, with the value listed for it.
pub proof fn lemma_official_values(m: Module)
    ensures
        official_values(m).len() == official_labels(m).len(),
        forall|i: int|
            0 <= i < official_labels(m).len() ==> #[trigger] size_spec(m, official_labels(m)[i])
                == Some((official_labels(m)[i], official_values(m)[i], true)),
{
    match m {
        Module::Pi => lemma_pi_official_values(m),
        Module::Radical => lemma_radical_official_values(m),
        Module::Zeta => lemma_zeta_official_values(m),
    }
}

} // verus!
