use vstd::prelude::*;
use crate::text::{str_chars, chars_equal};

verus! {

/// A span of time, as whole seconds and the nanoseconds beyond them.
#[derive(PartialEq, Eq, Structural, Clone, Copy, Debug)]
pub struct HumanDuration {
    secs: u64,
    nanos: u32,
}

/// One second in nanoseconds.
pub const NANOS_PER_SEC: u32 = 1_000_000_000;

impl HumanDuration {
    #[verifier::type_invariant]
    spec fn wf(self) -> bool {
        self.nanos < NANOS_PER_SEC
    }

    pub closed spec fn spec_secs(self) -> nat {
        self.secs as nat
    }

    pub closed spec fn spec_nanos(self) -> nat {
        self.nanos as nat
    }

    /// The length of the span in nanoseconds.
    pub open spec fn total_nanos(self) -> nat {
        self.spec_secs() * 1_000_000_000 + self.spec_nanos()
    }

    /// A span of `secs` seconds and `nanos` nanoseconds.
    pub fn new(secs: u64, nanos: u32) -> (r: HumanDuration)
        requires
            nanos < NANOS_PER_SEC,
        ensures
            r.spec_secs() == secs,
            r.spec_nanos() == nanos,
    {
        HumanDuration { secs, nanos }
    }

    /// A span of whole seconds.
    pub fn from_secs(secs: u64) -> (r: HumanDuration)
        ensures
            r.spec_secs() == secs,
            r.spec_nanos() == 0,
    {
        HumanDuration { secs, nanos: 0 }
    }

    pub fn secs(&self) -> (r: u64)
        ensures
            r == self.spec_secs(),
    {
        self.secs
    }

    pub fn subsec_nanos(&self) -> (r: u32)
        ensures
            r == self.spec_nanos(),
            r < NANOS_PER_SEC,
    {
        proof {
            use_type_invariant(self);
        }
        self.nanos
    }

    /// Whether `self` is at least as long as `other`.
    pub fn at_least(&self, other: &HumanDuration) -> (r: bool)
        ensures
            r == (self.total_nanos() >= other.total_nanos()),
    {
        proof {
            use_type_invariant(self);
            use_type_invariant(other);
            lemma_duration_order(*self, *other);
        }
        self.secs > other.secs || (self.secs == other.secs && self.nanos >= other.nanos)
    }

    /// Parses a duration written the way humantime writes them (`1day`, `3h 20min`, ...).
    /// Text whose numbers could describe `u64::MAX` seconds or more is refused (see
    /// `duration_in_range`); every other text parses exactly when humantime accepts it.
    pub fn parse(s: &str) -> (r: Result<HumanDuration, DurationParseError>)
        ensures
            !duration_in_range(s@) ==> r matches Err(DurationParseError::OutOfRange),
            duration_in_range(s@) ==> {
                &&& r is Ok <==> human_duration_of(s@) is Some
                &&& r matches Ok(d) ==> human_duration_of(s@) == Some((d.spec_secs(), d.spec_nanos()))
                &&& r is Err ==> r matches Err(DurationParseError::Invalid(_))
            },
    {
        if !in_duration_range(s) {
            return Err(DurationParseError::OutOfRange);
        }
        match parse_duration(s) {
            Ok((secs, nanos)) => Ok(HumanDuration { secs, nanos }),
            Err(e) => Err(DurationParseError::Invalid(e)),
        }
    }

    /// The duration written the way humantime writes them (for example `1day`). humantime
    /// reads the text back as the same duration, and so does `parse` whenever the text is in
    /// range (see `duration_in_range`).
    pub fn to_string(&self) -> (r: String)
        ensures
            r@ == human_duration_text(self.spec_secs(), self.spec_nanos()),
            human_duration_of(r@) == Some((self.spec_secs(), self.spec_nanos())),
    {
        proof {
            use_type_invariant(self);
        }
        format_duration(self.secs, self.nanos)
    }
}

proof fn lemma_duration_order(a: HumanDuration, b: HumanDuration)
    requires
        a.spec_nanos() < 1_000_000_000,
        b.spec_nanos() < 1_000_000_000,
    ensures
        (a.total_nanos() >= b.total_nanos()) == (a.spec_secs() > b.spec_secs() || (a.spec_secs()
            == b.spec_secs() && a.spec_nanos() >= b.spec_nanos())),
{
    let (sa, sb) = (a.spec_secs(), b.spec_secs());
    if sa > sb {
        assert(sa * 1_000_000_000 >= sb * 1_000_000_000 + 1_000_000_000) by (nonlinear_arith)
            requires
                sa > sb,
        ;
    } else if sa < sb {
        assert(sb * 1_000_000_000 >= sa * 1_000_000_000 + 1_000_000_000) by (nonlinear_arith)
            requires
                sa < sb,
        ;
    }
}

#[verifier::external_type_specification]
#[verifier::external_body]
pub struct ExDurationError(humantime::DurationError);

/// What `humantime::parse_duration` gives for a string with characters `s`: `Some` of the
/// seconds and sub-second nanoseconds of the duration, or `None` where it reports an error.
pub uninterp spec fn human_duration_of(s: Seq<char>) -> Option<(nat, nat)>;

/// Whether `c` ends a number in a duration text: an ASCII letter (which starts a unit), `µ`,
/// or the decimal point.
pub open spec fn ends_number(c: char) -> bool {
    ('a' <= c <= 'z') || ('A' <= c <= 'Z') || c == '.' || c == '\u{b5}'
}

/// The number still being read at the end of `s`: the digits since the last character that
/// ends a number, read in decimal (other characters between them skipped).
pub open spec fn open_number(s: Seq<char>) -> nat
    decreases s.len(),
{
    if s.len() == 0 {
        0
    } else if '0' <= s.last() <= '9' {
        open_number(s.drop_last()) * 10 + (s.last() as nat - '0' as nat) as nat
    } else if ends_number(s.last()) {
        0
    } else {
        open_number(s.drop_last())
    }
}

/// The sum of the numbers of `s` that a character ending a number has closed.
pub open spec fn closed_numbers(s: Seq<char>) -> nat
    decreases s.len(),
{
    if s.len() == 0 {
        0
    } else if ends_number(s.last()) {
        closed_numbers(s.drop_last()) + open_number(s.drop_last())
    } else {
        closed_numbers(s.drop_last())
    }
}

/// The sum of all the numbers in a duration text (integer parts and fraction digits alike).
pub open spec fn number_sum(s: Seq<char>) -> nat {
    closed_numbers(s) + open_number(s)
}

/// The length of humantime's largest unit, the year, in seconds.
pub const YEAR_SECS: u64 = 31_557_600;

/// An upper bound on the seconds that a duration text can describe: every number in it
/// taken as that many years.
pub open spec fn duration_bound(s: Seq<char>) -> int {
    YEAR_SECS * number_sum(s)
}

/// Whether the duration text `s` is one that is handed to humantime: its bound is below
/// `u64::MAX` seconds.
pub open spec fn duration_in_range(s: Seq<char>) -> bool {
    duration_bound(s) < u64::MAX
}

/// The least sum of numbers whose bound reaches `u64::MAX` seconds (`u64::MAX` divided by
/// `YEAR_SECS`, rounded up).
pub const NUMBER_SUM_LIMIT: u64 = 584_542_046_091;

/// `x`, or `NUMBER_SUM_LIMIT` when `x` is larger.
pub open spec fn capped(x: nat) -> nat {
    if x < NUMBER_SUM_LIMIT {
        x
    } else {
        NUMBER_SUM_LIMIT as nat
    }
}

/// Whether the duration text `s` is in range (see `duration_in_range`).
pub fn in_duration_range(s: &str) -> (r: bool)
    ensures
        r == duration_in_range(s@),
{
    let chars = str_chars(s);
    let mut closed: u64 = 0;
    let mut open: u64 = 0;
    for i in 0..chars.len()
        invariant
            chars@ == s@,
            closed == capped(closed_numbers(s@.take(i as int))),
            open == capped(open_number(s@.take(i as int))),
    {
        let ghost t = s@.take(i as int);
        assert(s@.take(i + 1).drop_last() =~= t);
        assert(s@.take(i + 1).last() == chars@[i as int]);
        let c = chars[i];
        if '0' <= c && c <= '9' {
            let d = (c as u32 - 48) as u64;
            assert(d == (c as nat - '0' as nat));
            let next = open * 10 + d;
            open = if next < NUMBER_SUM_LIMIT { next } else { NUMBER_SUM_LIMIT };
        } else if ('a' <= c && c <= 'z') || ('A' <= c && c <= 'Z') || c == '.' || c == '\u{b5}' {
            let next = closed + open;
            closed = if next < NUMBER_SUM_LIMIT { next } else { NUMBER_SUM_LIMIT };
            open = 0;
        }
    }
    assert(s@.take(chars.len() as int) =~= s@);
    let total = closed + open;
    let r = total < NUMBER_SUM_LIMIT;
    assert(r == (number_sum(s@) < NUMBER_SUM_LIMIT));
    r
}

/// Why a duration text was not accepted.
#[derive(Debug)]
pub enum DurationParseError {
    /// humantime did not accept the text.
    Invalid(humantime::DurationError),
    /// The numbers in the text, each taken as years, reach `u64::MAX` seconds (see
    /// `duration_in_range`).
    OutOfRange,
}

/// Calls `humantime::parse_duration`; its result is named by `human_duration_of`, and the
/// nanoseconds of a `Duration` are below one second.
///
/// humantime panics when the seconds it adds up reach exactly `u64::MAX` while a whole
/// second is carried from the nanoseconds (for example `18446744073709551615s 1000ms`); every
/// other overflow it reports as an error. So the duration would have to reach `2^64` seconds.
/// No number in the text adds more than that number of years (a fraction adds less than one
/// of its unit, a sub-second unit less than one second per unit), so a text whose numbers
/// sum to less than `NUMBER_SUM_LIMIT` never gets there.
#[verifier::external_body]
fn parse_duration(s: &str) -> (r: Result<(u64, u32), humantime::DurationError>)
    requires
        duration_in_range(s@),
    ensures
        r is Ok <==> human_duration_of(s@) is Some,
        r matches Ok((secs, nanos)) ==> human_duration_of(s@) == Some((secs as nat, nanos as nat))
            && nanos < NANOS_PER_SEC,
{
    humantime::parse_duration(s).map(|d| (d.as_secs(), d.subsec_nanos()))
}

/// What `humantime::format_duration` displays for the duration of `secs` seconds and `nanos`
/// nanoseconds.
pub uninterp spec fn human_duration_text(secs: nat, nanos: nat) -> Seq<char>;

/// Calls `humantime::format_duration` and displays the result; the text is named by
/// `human_duration_text`. As humantime documents, `parse_duration` reads the text back as the
/// same duration.
#[verifier::external_body]
fn format_duration(secs: u64, nanos: u32) -> (r: String)
    requires
        nanos < NANOS_PER_SEC,
    ensures
        r@ == human_duration_text(secs as nat, nanos as nat),
        human_duration_of(r@) == Some((secs as nat, nanos as nat)),
{
    humantime::format_duration(std::time::Duration::new(secs, nanos)).to_string()
}

/// Settings for refreshing the mod index automatically.
pub struct AutoFetch {
    pub enabled: bool,
    pub interval: HumanDuration,
}

/// One day in seconds.
pub const SECS_PER_DAY: u64 = 86400;

impl Default for AutoFetch {
    /// Disabled, with an interval of one day.
    fn default() -> (r: AutoFetch)
        ensures
            !r.enabled,
            r.interval.spec_secs() == SECS_PER_DAY,
            r.interval.spec_nanos() == 0,
    {
        AutoFetch { enabled: false, interval: HumanDuration::from_secs(SECS_PER_DAY) }
    }
}

/// The user's settings.
pub struct Config {
    pub auto_fetch: AutoFetch,
}

impl Default for Config {
    /// The default auto-fetch settings.
    fn default() -> (r: Config)
        ensures
            !r.auto_fetch.enabled,
            r.auto_fetch.interval.spec_secs() == SECS_PER_DAY,
            r.auto_fetch.interval.spec_nanos() == 0,
    {
        Config { auto_fetch: AutoFetch::default() }
    }
}

/// Why a setting could not be changed.
#[derive(Debug)]
pub enum ConfigError {
    /// The value of a boolean setting is neither `true` nor `false`.
    InvalidBool,
    /// The value of a duration setting could not be parsed.
    InvalidDuration(DurationParseError),
    /// There is no setting of this name.
    UnknownProperty(String),
}

/// The name of the setting that enables auto-fetching.
pub open spec fn auto_fetch_enabled_name() -> Seq<char> {
    seq!['a', 'u', 't', 'o', '_', 'f', 'e', 't', 'c', 'h', '.', 'e', 'n', 'a', 'b', 'l', 'e', 'd']
}

/// The name of the setting that holds the auto-fetch interval.
pub open spec fn auto_fetch_interval_name() -> Seq<char> {
    seq!['a', 'u', 't', 'o', '_', 'f', 'e', 't', 'c', 'h', '.', 'i', 'n', 't', 'e', 'r', 'v', 'a', 'l']
}

/// The boolean that `str::parse::<bool>` gives for `s`: only `true` and `false` parse.
pub open spec fn bool_of(s: Seq<char>) -> Option<bool> {
    if s == seq!['t', 'r', 'u', 'e'] {
        Some(true)
    } else if s == seq!['f', 'a', 'l', 's', 'e'] {
        Some(false)
    } else {
        None
    }
}

/// Parses `true` or `false`.
pub fn parse_bool(s: &str) -> (r: Option<bool>)
    ensures
        r == bool_of(s@),
{
    let chars = str_chars(s);
    if chars_equal(&chars, &vec!['t', 'r', 'u', 'e']) {
        Some(true)
    } else if chars_equal(&chars, &vec!['f', 'a', 'l', 's', 'e']) {
        Some(false)
    } else {
        None
    }
}

impl Config {
    /// Sets the setting named `property` to `value`.
    ///
    /// `auto_fetch.enabled` takes `true` or `false`; `auto_fetch.interval` takes a duration.
    /// Any other name is an error, and so is a value that does not parse (a duration out of
    /// range is refused, see `duration_in_range`). On an error the settings are left as they
    /// were.
    pub fn set(&mut self, property: &str, value: &str) -> (r: Result<(), ConfigError>)
        ensures
            property@ == auto_fetch_enabled_name() ==> match bool_of(value@) {
                Some(b) => r is Ok && final(self).auto_fetch.enabled == b
                    && final(self).auto_fetch.interval == old(self).auto_fetch.interval,
                None => r matches Err(ConfigError::InvalidBool) && final(self).auto_fetch.enabled
                    == old(self).auto_fetch.enabled && final(self).auto_fetch.interval == old(
                    self,
                ).auto_fetch.interval,
            },
            property@ == auto_fetch_interval_name() && !duration_in_range(value@) ==> (r matches Err(
                ConfigError::InvalidDuration(DurationParseError::OutOfRange),
            )) && final(self).auto_fetch.enabled == old(self).auto_fetch.enabled
                && final(self).auto_fetch.interval == old(self).auto_fetch.interval,
            property@ == auto_fetch_interval_name() && duration_in_range(value@) ==> match human_duration_of(value@) {
                Some((secs, nanos)) => r is Ok && final(self).auto_fetch.enabled == old(
                    self,
                ).auto_fetch.enabled && final(self).auto_fetch.interval.spec_secs() == secs
                    && final(self).auto_fetch.interval.spec_nanos() == nanos,
                None => r matches Err(ConfigError::InvalidDuration(DurationParseError::Invalid(_)))
                    && final(self).auto_fetch.enabled == old(self).auto_fetch.enabled
                    && final(self).auto_fetch.interval == old(self).auto_fetch.interval,
            },
            property@ != auto_fetch_enabled_name() && property@ != auto_fetch_interval_name() ==> (
            r matches Err(ConfigError::UnknownProperty(p)) && p@ == property@)
                && final(self).auto_fetch.enabled == old(self).auto_fetch.enabled
                && final(self).auto_fetch.interval == old(self).auto_fetch.interval,
    {
        let name = str_chars(property);
        let enabled_name = vec![
            'a', 'u', 't', 'o', '_', 'f', 'e', 't', 'c', 'h', '.', 'e', 'n', 'a', 'b', 'l', 'e', 'd',
        ];
        let interval_name = vec![
            'a', 'u', 't', 'o', '_', 'f', 'e', 't', 'c', 'h', '.', 'i', 'n', 't', 'e', 'r', 'v', 'a', 'l',
        ];
        if chars_equal(&name, &enabled_name) {
            match parse_bool(value) {
                Some(b) => {
                    self.auto_fetch.enabled = b;
                    Ok(())
                },
                None => Err(ConfigError::InvalidBool),
            }
        } else if chars_equal(&name, &interval_name) {
            match HumanDuration::parse(value) {
                Ok(d) => {
                    self.auto_fetch.interval = d;
                    Ok(())
                },
                Err(e) => Err(ConfigError::InvalidDuration(e)),
            }
        } else {
            Err(ConfigError::UnknownProperty(property.to_string()))
        }
    }
}

} // verus!
