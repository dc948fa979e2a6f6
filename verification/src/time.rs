//! Durations and the coarse duration summarizer.
//!
//! A [`TimeDelta`] is a signed duration held as a normalized
//! (days, seconds, microseconds) triple: the sign lives in `days`, while
//! `seconds` and `microseconds` are always non-negative and within their
//! moduli, mirroring floor-division normalization.  `naturaldelta_td` maps a
//! duration to exactly one human phrase chosen from fixed thresholds, and
//! `naturaltime_delta` wraps it with tense.

use vstd::arithmetic::div_mod::{
    lemma_div_is_ordered, lemma_fundamental_div_mod, lemma_fundamental_div_mod_converse,
};
use vstd::prelude::*;

use crate::i18n::{spec_gettext, spec_ngettext, Translations};
use crate::number::group_thousands;
use crate::text::{
    lemma_spec_dec_digits, replace_str, spec_dec, spec_group, spec_replace, u128_to_dec,
};

pub use crate::precise::precisedelta_td;

verus! {

pub const MICROS_PER_DAY: i128 = 86_400_000_000;

pub const MICROS_PER_SECOND: i128 = 1_000_000;

/// One time granularity, ordered from the finest to the coarsest.
#[derive(Clone, Copy, Debug, PartialEq, Eq, Structural, PartialOrd, Ord, Hash)]
pub enum Unit {
    Microseconds,
    Milliseconds,
    Seconds,
    Minutes,
    Hours,
    Days,
    Months,
    Years,
}

/// A character ASCII-uppercased.
pub open spec fn spec_upc(c: char) -> char {
    if 97 <= c as u32 && c as u32 <= 122 {
        (((c as u8) - 32) as char)
    } else {
        c
    }
}

/// A string ASCII-uppercased character by character.
pub open spec fn spec_upper(s: Seq<char>) -> Seq<char> {
    s.map_values(|c: char| spec_upc(c))
}

fn upc(c: char) -> (r: char)
    ensures
        r == spec_upc(c),
{
    let v = c as u32;
    if 97 <= v && v <= 122 {
        ((c as u8) - 32) as char
    } else {
        c
    }
}

/// Whether `s`, ASCII-uppercased, equals `name`.
pub(crate) fn eq_upper(s: &str, name: &str) -> (r: bool)
    ensures
        r == (spec_upper(s@) == name@),
{
    let n = s.unicode_len();
    if n != name.unicode_len() {
        assert(spec_upper(s@).len() == s@.len());
        return false;
    }
    let mut i: usize = 0;
    while i < n
        invariant
            n == s@.len(),
            n == name@.len(),
            i <= n,
            forall|k: int| 0 <= k < i ==> spec_upc(s@[k]) == name@[k],
        decreases n - i,
    {
        if upc(s.get_char(i)) != name.get_char(i) {
            assert(spec_upper(s@)[i as int] == spec_upc(s@[i as int]));
            return false;
        }
        i += 1;
    }
    proof {
        assert(spec_upper(s@) =~= name@);
    }
    true
}

/// The unit a name denotes, compared case-insensitively, if any.
pub open spec fn spec_unit_from_name(s: Seq<char>) -> Option<Unit> {
    let u = spec_upper(s);
    if u == "MICROSECONDS"@ {
        Some(Unit::Microseconds)
    } else if u == "MILLISECONDS"@ {
        Some(Unit::Milliseconds)
    } else if u == "SECONDS"@ {
        Some(Unit::Seconds)
    } else if u == "MINUTES"@ {
        Some(Unit::Minutes)
    } else if u == "HOURS"@ {
        Some(Unit::Hours)
    } else if u == "DAYS"@ {
        Some(Unit::Days)
    } else if u == "MONTHS"@ {
        Some(Unit::Months)
    } else if u == "YEARS"@ {
        Some(Unit::Years)
    } else {
        None
    }
}

impl Unit {
    /// Position in the total order, 0 (microseconds) through 7 (years).
    pub open spec fn rank(self) -> int {
        match self {
            Unit::Microseconds => 0,
            Unit::Milliseconds => 1,
            Unit::Seconds => 2,
            Unit::Minutes => 3,
            Unit::Hours => 4,
            Unit::Days => 5,
            Unit::Months => 6,
            Unit::Years => 7,
        }
    }

    pub fn rank_val(&self) -> (r: u8)
        ensures
            r as int == self.rank(),
    {
        match self {
            Unit::Microseconds => 0,
            Unit::Milliseconds => 1,
            Unit::Seconds => 2,
            Unit::Minutes => 3,
            Unit::Hours => 4,
            Unit::Days => 5,
            Unit::Months => 6,
            Unit::Years => 7,
        }
    }

    /// The unit at a given rank.
    pub open spec fn spec_from_rank(r: int) -> Unit {
        if r <= 0 {
            Unit::Microseconds
        } else if r == 1 {
            Unit::Milliseconds
        } else if r == 2 {
            Unit::Seconds
        } else if r == 3 {
            Unit::Minutes
        } else if r == 4 {
            Unit::Hours
        } else if r == 5 {
            Unit::Days
        } else if r == 6 {
            Unit::Months
        } else {
            Unit::Years
        }
    }

    pub fn from_rank(r: u8) -> (u: Unit)
        requires
            r < 8,
        ensures
            u == Unit::spec_from_rank(r as int),
            u.rank() == r as int,
    {
        if r == 0 {
            Unit::Microseconds
        } else if r == 1 {
            Unit::Milliseconds
        } else if r == 2 {
            Unit::Seconds
        } else if r == 3 {
            Unit::Minutes
        } else if r == 4 {
            Unit::Hours
        } else if r == 5 {
            Unit::Days
        } else if r == 6 {
            Unit::Months
        } else {
            Unit::Years
        }
    }

    /// All units, finest first.
    pub fn all() -> (r: Vec<Unit>)
        ensures
            r@.len() == 8,
            forall|i: int| 0 <= i < 8 ==> (#[trigger] r@[i]) == Unit::spec_from_rank(i),
    {
        let v: Vec<Unit> = vec![
            Unit::Microseconds,
            Unit::Milliseconds,
            Unit::Seconds,
            Unit::Minutes,
            Unit::Hours,
            Unit::Days,
            Unit::Months,
            Unit::Years,
        ];
        v
    }

    /// Parse a unit name, case-insensitively; an unrecognized name is
    /// reported in a descriptive error string.
    pub fn from_str(s: &str) -> (r: Result<Unit, String>)
        ensures
            match r {
                Ok(u) => spec_unit_from_name(s@) == Some(u),
                Err(e) => spec_unit_from_name(s@) is None && e@ == "Unknown unit: "@ + s@,
            },
    {
        if eq_upper(s, "MICROSECONDS") {
            Ok(Unit::Microseconds)
        } else if eq_upper(s, "MILLISECONDS") {
            Ok(Unit::Milliseconds)
        } else if eq_upper(s, "SECONDS") {
            Ok(Unit::Seconds)
        } else if eq_upper(s, "MINUTES") {
            Ok(Unit::Minutes)
        } else if eq_upper(s, "HOURS") {
            Ok(Unit::Hours)
        } else if eq_upper(s, "DAYS") {
            Ok(Unit::Days)
        } else if eq_upper(s, "MONTHS") {
            Ok(Unit::Months)
        } else if eq_upper(s, "YEARS") {
            Ok(Unit::Years)
        } else {
            let mut e = String::from_str("Unknown unit: ");
            e.append(s);
            Err(e)
        }
    }
}

/// A signed duration as a normalized (days, seconds, microseconds) triple.
#[derive(Clone, Copy, Debug)]
pub struct TimeDelta {
    pub days: i64,
    pub seconds: i64,
    pub microseconds: i64,
}

/// The signed total of a raw (days, seconds, microseconds) triple, counted
/// in microseconds.
pub open spec fn spec_total_of(days: int, seconds: int, micros: int) -> int {
    days * 86_400_000_000 + seconds * 1_000_000 + micros
}

/// Totals whose normalized day count still fits the `days` field.
pub open spec fn total_in_range(t: int) -> bool {
    -0x7fff_ffff_ffff_ffff * 86_400_000_000 <= t <= 0x7fff_ffff_ffff_ffff * 86_400_000_000
}

impl TimeDelta {
    /// The signed duration in microseconds.
    pub open spec fn total_micros(self) -> int {
        spec_total_of(self.days as int, self.seconds as int, self.microseconds as int)
    }

    /// The normalization invariant: the remainder fields are non-negative
    /// and within their moduli, whatever the sign of the duration.
    pub open spec fn wf(self) -> bool {
        &&& 0 <= self.seconds < 86400
        &&& 0 <= self.microseconds < 1_000_000
    }

    /// The magnitude of the duration in microseconds.
    pub open spec fn abs_total(self) -> int {
        if self.total_micros() >= 0 {
            self.total_micros()
        } else {
            -self.total_micros()
        }
    }

    /// Normalize a raw triple.  The canonical form keeps `seconds` and
    /// `microseconds` non-negative and within their moduli and recovers the
    /// signed total exactly.
    pub fn from_days_seconds_micros(days: i64, seconds: i64, microseconds: i64) -> (r: TimeDelta)
        requires
            total_in_range(spec_total_of(days as int, seconds as int, microseconds as int)),
        ensures
            r.wf(),
            r.days > i64::MIN,
            r.total_micros() == spec_total_of(days as int, seconds as int, microseconds as int),
    {
        let t: i128 = days as i128 * 86_400_000_000 + seconds as i128 * 1_000_000
            + microseconds as i128;
        if t >= 0 {
            let d = t / MICROS_PER_DAY;
            let rem = t % MICROS_PER_DAY;
            proof {
                lemma_fundamental_div_mod(t as int, 86_400_000_000);
                lemma_fundamental_div_mod(rem as int, 1_000_000);
                lemma_div_is_ordered(t as int, 0x7fff_ffff_ffff_ffff as int * 86_400_000_000,
                    86_400_000_000);
            }
            TimeDelta {
                days: (d) as i64,
                seconds: (rem / MICROS_PER_SECOND) as i64,
                microseconds: (rem % MICROS_PER_SECOND) as i64,
            }
        } else {
            let x = -t;
            let dq = x / MICROS_PER_DAY;
            let rm = x % MICROS_PER_DAY;
            proof {
                lemma_fundamental_div_mod(x as int, 86_400_000_000);
                lemma_div_is_ordered(x as int, 0x7fff_ffff_ffff_ffff as int * 86_400_000_000,
                    86_400_000_000);
            }
            if rm == 0 {
                TimeDelta { days: (-dq) as i64, seconds: 0, microseconds: 0 }
            } else {
                let rp = MICROS_PER_DAY - rm;
                proof {
                    lemma_fundamental_div_mod(rp as int, 1_000_000);
                }
                TimeDelta {
                    days: (-(dq + 1)) as i64,
                    seconds: (rp / MICROS_PER_SECOND) as i64,
                    microseconds: (rp % MICROS_PER_SECOND) as i64,
                }
            }
        }
    }

    /// A new duration of the same magnitude with non-negative days.
    pub fn abs(&self) -> (r: TimeDelta)
        requires
            self.wf(),
            self.days > i64::MIN,
        ensures
            r.wf(),
            r.days >= 0,
            r.total_micros() == self.abs_total(),
            r.days as int == self.abs_total() / 86_400_000_000,
            r.seconds as int == (self.abs_total() % 86_400_000_000) / 1_000_000,
            r.microseconds as int == (self.abs_total() % 86_400_000_000) % 1_000_000,
    {
        if self.days >= 0 {
            proof {
                let rem = self.seconds * 1_000_000 + self.microseconds;
                lemma_fundamental_div_mod_converse(
                    self.total_micros(),
                    86_400_000_000,
                    self.days as int,
                    rem,
                );
                lemma_fundamental_div_mod_converse(rem, 1_000_000, self.seconds as int,
                    self.microseconds as int);
            }
            *self
        } else {
            let m: i128 = (-(self.days as i128)) * 86_400_000_000 - self.seconds as i128
                * 1_000_000 - self.microseconds as i128;
            let d = m / MICROS_PER_DAY;
            let rm = m % MICROS_PER_DAY;
            proof {
                lemma_fundamental_div_mod(m as int, 86_400_000_000);
                lemma_fundamental_div_mod(rm as int, 1_000_000);
                lemma_div_is_ordered(m as int, 0x7fff_ffff_ffff_ffff as int * 86_400_000_000,
                    86_400_000_000);
            }
            TimeDelta {
                days: d as i64,
                seconds: (rm / MICROS_PER_SECOND) as i64,
                microseconds: (rm % MICROS_PER_SECOND) as i64,
            }
        }
    }
}

/// A pluralized phrase for a count: the chosen template with every "%d"
/// replaced by the count's numeral.
pub open spec fn spec_count_phrase(t: Translations, sing: Seq<char>, plur: Seq<char>, n: int) -> Seq<
    char,
> {
    spec_replace(spec_ngettext(t, sing, plur, n), "%d"@, spec_dec(n))
}

/// The grouped year phrase: the year template with the count's numeral
/// grouped by the catalog's thousands separator.
pub open spec fn spec_years_grouped(t: Translations, y: int) -> Seq<char> {
    spec_replace(
        spec_replace(spec_ngettext(t, "%d year"@, "%d years"@, y), "%d"@, "%s"@),
        "%s"@,
        spec_group(spec_dec(y), t.sep()),
    )
}

/// The coarse summary phrase for a non-negative normalized duration of `d`
/// days, `s` seconds and `us` microseconds, by the fixed thresholds: special
/// articles for single units, rounded minutes and hours below a day, and
/// approximate months (30.5 days) and years (365 days) above it.
pub open spec fn spec_nd(d: int, s: int, us: int, months: bool, mu: Unit, t: Translations) -> Seq<
    char,
> {
    let years = d / 365;
    let dr = d % 365;
    let nm = (4 * dr + 61) / 122;
    if years == 0 && dr == 0 {
        if s == 0 {
            if mu == Unit::Microseconds && us < 1000 {
                spec_count_phrase(t, "%d microsecond"@, "%d microseconds"@, us)
            } else if mu == Unit::Milliseconds || (mu == Unit::Microseconds && 1000 <= us
                && us < 1_000_000) {
                spec_count_phrase(t, "%d millisecond"@, "%d milliseconds"@, us / 1000)
            } else {
                spec_gettext(t, "a moment"@)
            }
        } else if s == 1 {
            spec_gettext(t, "a second"@)
        } else if s < 60 {
            spec_count_phrase(t, "%d second"@, "%d seconds"@, s)
        } else if s < 3600 {
            let m = (s + 30) / 60;
            if m == 1 {
                spec_gettext(t, "a minute"@)
            } else if m == 60 {
                spec_gettext(t, "an hour"@)
            } else {
                spec_count_phrase(t, "%d minute"@, "%d minutes"@, m)
            }
        } else {
            let h = (s + 1800) / 3600;
            if h == 1 {
                spec_gettext(t, "an hour"@)
            } else if h == 24 {
                spec_gettext(t, "a day"@)
            } else {
                spec_count_phrase(t, "%d hour"@, "%d hours"@, h)
            }
        }
    } else if years == 0 {
        if dr == 1 {
            spec_gettext(t, "a day"@)
        } else if !months || nm == 0 {
            spec_count_phrase(t, "%d day"@, "%d days"@, dr)
        } else if nm == 1 {
            spec_gettext(t, "a month"@)
        } else if nm == 12 {
            spec_gettext(t, "a year"@)
        } else {
            spec_count_phrase(t, "%d month"@, "%d months"@, nm)
        }
    } else if years == 1 {
        if nm == 0 && dr == 0 {
            spec_gettext(t, "a year"@)
        } else if nm == 0 {
            spec_count_phrase(t, "1 year, %d day"@, "1 year, %d days"@, dr)
        } else if months {
            if nm == 1 {
                spec_gettext(t, "1 year, 1 month"@)
            } else if nm == 12 {
                spec_count_phrase(t, "%d year"@, "%d years"@, years + 1)
            } else {
                spec_count_phrase(t, "1 year, %d month"@, "1 year, %d months"@, nm)
            }
        } else {
            spec_count_phrase(t, "1 year, %d day"@, "1 year, %d days"@, dr)
        }
    } else {
        spec_years_grouped(t, years)
    }
}

/// What `naturaldelta_td` returns, error strings included: a minimum unit
/// must name one of the three sub-second units, and the summary is taken of
/// the duration's absolute value.
pub open spec fn spec_naturaldelta(
    td: TimeDelta,
    months: bool,
    mu_s: Seq<char>,
    t: Translations,
) -> Seq<char> {
    match spec_unit_from_name(mu_s) {
        Option::None => "Unknown unit: "@ + mu_s,
        Option::Some(mu) => {
            if mu != Unit::Seconds && mu != Unit::Milliseconds && mu != Unit::Microseconds {
                "Minimum unit '"@ + mu_s + "' not supported"@
            } else {
                let m = td.abs_total();
                spec_nd(
                    m / 86_400_000_000,
                    (m % 86_400_000_000) / 1_000_000,
                    (m % 86_400_000_000) % 1_000_000,
                    months,
                    mu,
                    t,
                )
            }
        },
    }
}

fn count_phrase(t: &Translations, sing: &str, plur: &str, n: i64) -> (r: String)
    requires
        n >= 0,
    ensures
        r@ == spec_count_phrase(*t, sing@, plur@, n as int),
{
    proof {
        reveal_strlit("%d");
    }
    let tpl = t.ngettext(sing, plur, n);
    let num = u128_to_dec(n as u128);
    replace_str(tpl.as_str(), "%d", num.as_str())
}

fn years_grouped_phrase(t: &Translations, y: i64) -> (r: String)
    requires
        y >= 1,
    ensures
        r@ == spec_years_grouped(*t, y as int),
{
    proof {
        reveal_strlit("%d");
        reveal_strlit("%s");
        lemma_spec_dec_digits(y as int);
    }
    let tpl = t.ngettext("%d year", "%d years", y);
    let t1 = replace_str(tpl.as_str(), "%d", "%s");
    let num = u128_to_dec(y as u128);
    let grouped = group_thousands(num.as_str(), t.thousands_sep.as_str());
    replace_str(t1.as_str(), "%s", grouped.as_str())
}

/// A natural single-phrase summary of a duration ("7 days", "a moment",
/// "1,141 years").  The minimum unit restricts how fine a sub-second
/// duration is reported and must be "seconds", "milliseconds" or
/// "microseconds"; unit errors are returned as descriptive strings.
///
/// The contract pins the result to a function of the arguments alone, so
/// the summary is pure: identical inputs always render identically.
pub fn naturaldelta_td(value: TimeDelta, months: bool, minimum_unit: &str, t: &Translations) -> (r:
    String)
    requires
        value.wf(),
        value.days > i64::MIN,
    ensures
        r@ == spec_naturaldelta(value, months, minimum_unit@, *t),
{
    let mu = match Unit::from_str(minimum_unit) {
        Ok(u) => u,
        Err(e) => {
            return e;
        },
    };
    if mu != Unit::Seconds && mu != Unit::Milliseconds && mu != Unit::Microseconds {
        let mut e = String::from_str("Minimum unit '");
        e.append(minimum_unit);
        e.append("' not supported");
        proof {
            assert(e@ =~= "Minimum unit '"@ + minimum_unit@ + "' not supported"@);
        }
        return e;
    }
    let delta = value.abs();
    let years = delta.days / 365;
    let dr = delta.days % 365;
    let nm = (4 * dr + 61) / 122;
    if years == 0 && dr == 0 {
        if delta.seconds == 0 {
            if mu == Unit::Microseconds && delta.microseconds < 1000 {
                count_phrase(t, "%d microsecond", "%d microseconds", delta.microseconds)
            } else if mu == Unit::Milliseconds || (mu == Unit::Microseconds && delta.microseconds
                >= 1000 && delta.microseconds < 1_000_000) {
                count_phrase(t, "%d millisecond", "%d milliseconds", delta.microseconds / 1000)
            } else {
                t.gettext("a moment")
            }
        } else if delta.seconds == 1 {
            t.gettext("a second")
        } else if delta.seconds < 60 {
            count_phrase(t, "%d second", "%d seconds", delta.seconds)
        } else if delta.seconds < 3600 {
            let m = (delta.seconds + 30) / 60;
            if m == 1 {
                t.gettext("a minute")
            } else if m == 60 {
                t.gettext("an hour")
            } else {
                count_phrase(t, "%d minute", "%d minutes", m)
            }
        } else {
            let h = (delta.seconds + 1800) / 3600;
            if h == 1 {
                t.gettext("an hour")
            } else if h == 24 {
                t.gettext("a day")
            } else {
                count_phrase(t, "%d hour", "%d hours", h)
            }
        }
    } else if years == 0 {
        if dr == 1 {
            t.gettext("a day")
        } else if !months || nm == 0 {
            count_phrase(t, "%d day", "%d days", dr)
        } else if nm == 1 {
            t.gettext("a month")
        } else if nm == 12 {
            t.gettext("a year")
        } else {
            count_phrase(t, "%d month", "%d months", nm)
        }
    } else if years == 1 {
        if nm == 0 && dr == 0 {
            t.gettext("a year")
        } else if nm == 0 {
            count_phrase(t, "1 year, %d day", "1 year, %d days", dr)
        } else if months {
            if nm == 1 {
                t.gettext("1 year, 1 month")
            } else if nm == 12 {
                count_phrase(t, "%d year", "%d years", years + 1)
            } else {
                count_phrase(t, "1 year, %d month", "1 year, %d months", nm)
            }
        } else {
            count_phrase(t, "1 year, %d day", "1 year, %d days", dr)
        }
    } else {
        years_grouped_phrase(t, years)
    }
}

/// The relative-day phrase for a calendar-day difference: "today",
/// "tomorrow" or "yesterday" for differences of zero, one and minus one
/// days, and nothing for any other date.
pub open spec fn spec_day_phrase(diff: int, t: Translations) -> Option<Seq<char>> {
    if diff == 0 {
        Some(spec_gettext(t, "today"@))
    } else if diff == 1 {
        Some(spec_gettext(t, "tomorrow"@))
    } else if diff == -1 {
        Some(spec_gettext(t, "yesterday"@))
    } else {
        None
    }
}

/// The phrase for a date `diff_days` calendar days from today, when the
/// date is near enough to have one.
pub fn natural_day_phrase(diff_days: i64, t: &Translations) -> (r: Option<String>)
    ensures
        match r {
            Some(s) => spec_day_phrase(diff_days as int, *t) == Some(s@),
            None => spec_day_phrase(diff_days as int, *t) is None,
        },
{
    if diff_days == 0 {
        Some(t.gettext("today"))
    } else if diff_days == 1 {
        Some(t.gettext("tomorrow"))
    } else if diff_days == -1 {
        Some(t.gettext("yesterday"))
    } else {
        None
    }
}

/// Whether a date this many calendar days from today is written with its
/// year: at about five months (152 days) away, in either direction.
pub fn date_needs_year(diff_days: i64) -> (r: bool)
    ensures
        r == (if diff_days >= 0 {
            diff_days >= 152
        } else {
            diff_days <= -152
        }),
{
    let m: i128 = if diff_days >= 0 {
        diff_days as i128
    } else {
        -(diff_days as i128)
    };
    m >= 152
}

/// What `naturaltime_delta` returns: "now" for a momentary duration, else
/// the summary wrapped in the past or future tense template.
pub open spec fn spec_naturaltime(
    td: TimeDelta,
    future: bool,
    months: bool,
    mu_s: Seq<char>,
    t: Translations,
) -> Seq<char> {
    let ds = spec_naturaldelta(td, months, mu_s, t);
    if ds == spec_gettext(t, "a moment"@) {
        spec_gettext(t, "now"@)
    } else {
        let tpl = if future {
            spec_gettext(t, "%s from now"@)
        } else {
            spec_gettext(t, "%s ago"@)
        };
        spec_replace(tpl, "%s"@, ds)
    }
}

/// A natural representation of a duration with tense ("30 seconds ago",
/// "30 seconds from now", "now").
pub fn naturaltime_delta(
    delta: TimeDelta,
    future: bool,
    months: bool,
    minimum_unit: &str,
    t: &Translations,
) -> (r: String)
    requires
        delta.wf(),
        delta.days > i64::MIN,
    ensures
        r@ == spec_naturaltime(delta, future, months, minimum_unit@, *t),
{
    let delta_str = naturaldelta_td(delta, months, minimum_unit, t);
    let moment = t.gettext("a moment");
    if delta_str == moment {
        t.gettext("now")
    } else {
        let tpl = if future {
            t.gettext("%s from now")
        } else {
            t.gettext("%s ago")
        };
        proof {
            reveal_strlit("%s");
        }
        replace_str(tpl.as_str(), "%s", delta_str.as_str())
    }
}

} // verus!
